//! What becomes of a UDP datagram: it is sent on, its replies go back for a while, and DNS messages
//! among them are learnt from.
//!
//! The dialling, the sending and the waiting are done outside. A `UdpFlow` says what is next and
//! takes what came of it.

use crate::dns_cache::{clock_fits, dns_answers, learnt, DnsCache, Entries, IpAddress};
use vstd::prelude::*;

verus! {

/// How long the replies to a datagram are relayed, in nanoseconds: 30 seconds.
pub const UDP_REPLY_TIMEOUT: u64 = 30_000_000_000;

/// The most that is taken of a reply.
pub const UDP_BUFFER: usize = 4096;

/// The port of DNS servers.
pub const DNS_PORT: u16 = 53;

/// The entries after a datagram was read as a DNS message.
pub open spec fn told(entries: Entries, capacity: nat, data: Seq<u8>, now: u64) -> Entries {
    match dns_answers(data) {
        Some(answers) => learnt(entries, capacity, answers, now),
        None => entries,
    }
}

/// Learns from a datagram of a client, if it goes to a DNS server or comes from one.
pub fn learn_query(dns: &mut DnsCache, data: &[u8], local_port: u16, remote_port: u16, now: u64)
    requires
        clock_fits(now),
    ensures
        remote_port != 53 && local_port != 53 ==> final(dns).entries() == old(dns).entries(),
        final(dns).entries() == if remote_port == DNS_PORT || local_port == DNS_PORT {
            told(old(dns).entries(), old(dns).capacity(), data@, now)
        } else {
            old(dns).entries()
        },
        final(dns).capacity() == old(dns).capacity(),
        old(dns).wf() ==> final(dns).wf(),
{
    if remote_port == DNS_PORT || local_port == DNS_PORT {
        dns.learn_from_payload(data, now);
    }
}

/// Learns from a reply, if it comes from a DNS server.
pub fn learn_reply(dns: &mut DnsCache, data: &[u8], remote_port: u16, now: u64)
    requires
        clock_fits(now),
    ensures
        remote_port != 53 ==> final(dns).entries() == old(dns).entries(),
        final(dns).entries() == if remote_port == DNS_PORT {
            told(old(dns).entries(), old(dns).capacity(), data@, now)
        } else {
            old(dns).entries()
        },
        final(dns).capacity() == old(dns).capacity(),
        old(dns).wf() ==> final(dns).wf(),
{
    if remote_port == DNS_PORT {
        dns.learn_from_payload(data, now);
    }
}

/// When the relaying of replies ends, for a datagram that was sent at `now`. Replies do not put it
/// off.
pub fn reply_deadline(now: u64) -> (r: u64)
    requires
        now + UDP_REPLY_TIMEOUT <= u64::MAX,
    ensures
        r == now + UDP_REPLY_TIMEOUT,
{
    now + UDP_REPLY_TIMEOUT
}

/// Where a datagram comes from or goes to.
#[derive(Debug, Clone, Copy, PartialEq, Eq, Structural)]
pub struct Endpoint {
    pub ip: IpAddress,
    pub port: u16,
}

/// A datagram that is handed to the client.
#[derive(Debug, Clone)]
pub struct Datagram {
    pub data: Vec<u8>,
    pub source: Endpoint,
    pub target: Endpoint,
}

/// How far a datagram has come.
#[derive(Debug, Clone)]
pub enum UdpStage {
    /// Dial where the client wants to go.
    Dial { data: Vec<u8> },
    /// Send the data upstream.
    Send { data: Vec<u8> },
    /// Wait for replies until the deadline.
    Replies { deadline: u64 },
    Ended,
}

/// How far a datagram has come, as the specifications speak of it.
pub enum UdpStageView {
    Dial { data: Seq<u8> },
    Send { data: Seq<u8> },
    Replies { deadline: u64 },
    Ended,
}

impl View for UdpStage {
    type V = UdpStageView;

    open spec fn view(&self) -> UdpStageView {
        match *self {
            UdpStage::Dial { data } => UdpStageView::Dial { data: data@ },
            UdpStage::Send { data } => UdpStageView::Send { data: data@ },
            UdpStage::Replies { deadline } => UdpStageView::Replies { deadline },
            UdpStage::Ended => UdpStageView::Ended,
        }
    }
}

/// A datagram of a client on its way through the gateway.
#[derive(Debug, Clone)]
pub struct UdpFlow {
    /// The client.
    pub local: Endpoint,
    /// Where the client wants to go.
    pub remote: Endpoint,
    pub stage: UdpStage,
}

/// A datagram, as the specifications speak of it.
pub struct UdpView {
    pub local: Endpoint,
    pub remote: Endpoint,
    pub stage: UdpStageView,
}

impl View for UdpFlow {
    type V = UdpView;

    open spec fn view(&self) -> UdpView {
        UdpView { local: self.local, remote: self.remote, stage: self.stage@ }
    }
}

/// What happened to a datagram.
#[derive(Debug, Clone)]
pub enum UdpEvent {
    Dialled,
    DialFailed,
    Sent,
    SendFailed,
    /// A reply came.
    Reply(Vec<u8>),
    /// The deadline passed, or waiting failed.
    RepliesEnded,
}

/// The datagram after an event at `now`. A dial or a send that fails ends it; a reply changes
/// nothing, so that the deadline stays. An event that the stage does not wait for changes nothing.
pub open spec fn udp_next(flow: UdpView, event: UdpEvent, now: u64) -> UdpView {
    UdpView {
        stage: match (flow.stage, event) {
            (UdpStageView::Dial { data }, UdpEvent::Dialled) => UdpStageView::Send { data },
            (UdpStageView::Dial { .. }, UdpEvent::DialFailed) => UdpStageView::Ended,
            (UdpStageView::Send { .. }, UdpEvent::Sent) => UdpStageView::Replies {
                deadline: (now + UDP_REPLY_TIMEOUT) as u64,
            },
            (UdpStageView::Send { .. }, UdpEvent::SendFailed) => UdpStageView::Ended,
            (UdpStageView::Replies { .. }, UdpEvent::RepliesEnded) => UdpStageView::Ended,
            (stage, _) => stage,
        },
        ..flow
    }
}

/// The reply that an event brings, while replies are waited for.
pub open spec fn udp_reply(flow: UdpView, event: UdpEvent) -> Option<Seq<u8>> {
    match (flow.stage, event) {
        (UdpStageView::Replies { .. }, UdpEvent::Reply(data)) => Some(data@),
        _ => None,
    }
}

impl UdpFlow {
    /// A datagram that came from a client. It is learnt from if it goes to a DNS server or comes
    /// from one.
    pub fn accept(
        data: Vec<u8>,
        local: Endpoint,
        remote: Endpoint,
        dns: &mut DnsCache,
        now: u64,
    ) -> (r: UdpFlow)
        requires
            clock_fits(now),
        ensures
            r@ == (UdpView { local, remote, stage: UdpStageView::Dial { data: data@ } }),
            final(dns).entries() == if remote.port == DNS_PORT || local.port == DNS_PORT {
                told(old(dns).entries(), old(dns).capacity(), data@, now)
            } else {
                old(dns).entries()
            },
            final(dns).capacity() == old(dns).capacity(),
            old(dns).wf() ==> final(dns).wf(),
    {
        learn_query(dns, &data, local.port, remote.port, now);
        UdpFlow { local, remote, stage: UdpStage::Dial { data } }
    }

    /// Takes what happened at `now`. A reply is learnt from if it comes from a DNS server, and goes
    /// back to the client with the addresses swapped.
    pub fn advance(self, event: UdpEvent, dns: &mut DnsCache, now: u64) -> (r: (
        UdpFlow,
        Option<Datagram>,
    ))
        requires
            clock_fits(now),
        ensures
            r.0@ == udp_next(self@, event, now),
            match r.1 {
                Some(back) => udp_reply(self@, event) == Some(back.data@) && back.source
                    == self.remote && back.target == self.local,
                None => udp_reply(self@, event) is None,
            },
            final(dns).entries() == match udp_reply(self@, event) {
                Some(data) => if self.remote.port == DNS_PORT {
                    told(old(dns).entries(), old(dns).capacity(), data, now)
                } else {
                    old(dns).entries()
                },
                None => old(dns).entries(),
            },
            final(dns).capacity() == old(dns).capacity(),
            old(dns).wf() ==> final(dns).wf(),
    {
        let UdpFlow { local, remote, stage } = self;
        match (stage, event) {
            (UdpStage::Dial { data }, UdpEvent::Dialled) => (
                UdpFlow { local, remote, stage: UdpStage::Send { data } },
                None,
            ),
            (UdpStage::Dial { .. }, UdpEvent::DialFailed) => (
                UdpFlow { local, remote, stage: UdpStage::Ended },
                None,
            ),
            (UdpStage::Send { .. }, UdpEvent::Sent) => (
                UdpFlow {
                    local,
                    remote,
                    stage: UdpStage::Replies { deadline: reply_deadline(now) },
                },
                None,
            ),
            (UdpStage::Send { .. }, UdpEvent::SendFailed) => (
                UdpFlow { local, remote, stage: UdpStage::Ended },
                None,
            ),
            (UdpStage::Replies { deadline }, UdpEvent::Reply(data)) => {
                learn_reply(dns, &data, remote.port, now);
                (
                    UdpFlow { local, remote, stage: UdpStage::Replies { deadline } },
                    Some(Datagram { data, source: remote, target: local }),
                )
            },
            (UdpStage::Replies { .. }, UdpEvent::RepliesEnded) => (
                UdpFlow { local, remote, stage: UdpStage::Ended },
                None,
            ),
            (stage, _) => (UdpFlow { local, remote, stage }, None),
        }
    }
}

/// The datagram after several events, each with its time.
pub open spec fn udp_through(flow: UdpView, events: Seq<(UdpEvent, u64)>) -> UdpView
    decreases events.len(),
{
    if events.len() == 0 {
        flow
    } else {
        udp_next(udp_through(flow, events.drop_last()), events.last().0, events.last().1)
    }
}

/// Replies go back for a fixed time: as long as they are waited for, the deadline is the one that
/// was set when the datagram was sent, and they go between the same two ends, however many came.
pub proof fn lemma_replies_do_not_put_off_the_end(
    flow: UdpView,
    deadline: u64,
    events: Seq<(UdpEvent, u64)>,
)
    requires
        flow.stage == (UdpStageView::Replies { deadline }),
    ensures
        ({
            let later = udp_through(flow, events);
            &&& later.stage == (UdpStageView::Replies { deadline }) || later.stage is Ended
            &&& later.local == flow.local && later.remote == flow.remote
        }),
    decreases events.len(),
{
    if events.len() > 0 {
        lemma_replies_do_not_put_off_the_end(flow, deadline, events.drop_last());
    }
}

/// A datagram that ended, because it could not be dialled or sent or because its time was over,
/// stays so, and nothing that comes after it goes back to the client.
pub proof fn lemma_ended_datagrams_stay(
    flow: UdpView,
    events: Seq<(UdpEvent, u64)>,
    event: UdpEvent,
)
    requires
        flow.stage is Ended,
    ensures
        udp_through(flow, events) == flow,
        udp_reply(udp_through(flow, events), event) is None,
    decreases events.len(),
{
    if events.len() > 0 {
        lemma_ended_datagrams_stay(flow, events.drop_last(), event);
    }
}

/// What a datagram teaches is what the answers in it teach, whatever its bytes are; one that is no
/// DNS message teaches nothing.
pub proof fn lemma_datagrams_teach_their_answers(
    entries: Entries,
    capacity: nat,
    data: Seq<u8>,
    now: u64,
)
    ensures
        dns_answers(data) matches Some(answers) ==> told(entries, capacity, data, now) == learnt(
            entries,
            capacity,
            answers,
            now,
        ),
        dns_answers(data) is None ==> told(entries, capacity, data, now) == entries,
{
}

/// A datagram is dialled, then sent as it came, then answered: its data is kept until it is sent,
/// a step that fails ends it, replies are waited for thirty seconds from the sending, and each of
/// them, whatever it holds, is the client's as long as they are waited for. The two ends never
/// change.
pub proof fn lemma_datagrams_go_their_way(
    flow: UdpView,
    data: Seq<u8>,
    reply: Vec<u8>,
    now: u64,
)
    requires
        now + 30_000_000_000 <= u64::MAX,
        flow.stage == (UdpStageView::Dial { data }),
    ensures
        ({
            let dialled = udp_next(flow, UdpEvent::Dialled, now);
            let sent = udp_next(dialled, UdpEvent::Sent, now);
            &&& dialled.stage == (UdpStageView::Send { data })
            &&& udp_next(flow, UdpEvent::DialFailed, now).stage is Ended
            &&& udp_next(dialled, UdpEvent::SendFailed, now).stage is Ended
            &&& sent.stage == (UdpStageView::Replies { deadline: (now + 30_000_000_000) as u64 })
            &&& udp_next(sent, UdpEvent::RepliesEnded, now).stage is Ended
            &&& udp_next(sent, UdpEvent::Reply(reply), now) == sent
            &&& udp_reply(sent, UdpEvent::Reply(reply)) == Some(reply@)
            &&& udp_reply(flow, UdpEvent::Reply(reply)) is None
            &&& udp_reply(dialled, UdpEvent::Reply(reply)) is None
            &&& udp_reply(sent, UdpEvent::RepliesEnded) is None
            &&& sent.local == flow.local && sent.remote == flow.remote
        }),
{
}

/// A step that a datagram is not at changes nothing: what is waited for cannot be skipped.
pub proof fn lemma_datagrams_skip_no_step(flow: UdpView, event: UdpEvent, now: u64)
    ensures
        ({
            let next = udp_next(flow, event, now);
            &&& next.local == flow.local && next.remote == flow.remote
            &&& next.stage is Send && !(flow.stage is Send) ==> flow.stage is Dial
                && event is Dialled
            &&& next.stage is Replies && !(flow.stage is Replies) ==> flow.stage is Send
                && event is Sent
            &&& next.stage is Ended && !(flow.stage is Ended) ==> {
                ||| flow.stage is Dial && event is DialFailed
                ||| flow.stage is Send && event is SendFailed
                ||| flow.stage is Replies && event is RepliesEnded
            }
            &&& next.stage is Dial ==> next == flow
        }),
{
}

} // verus!
