//! What becomes of a TCP connection: which host it is for, whether it has to be admitted first,
//! and what is sent ahead of the relayed traffic.
//!
//! The reads, the dialling and the relaying are done outside. A `TcpFlow` says what is next and
//! takes what came of it.

use crate::classify::{first_family, normalized, Classifier, SuffixList};
use crate::dns_cache::{answer_at, looked_up, DnsCache, Entries, IpAddress};
use crate::limiter::{
    AdmitAction, AdmitOutcome, AdmitPhase, AdmitWait, Resumed, SoftLimiter, Wake,
};
use crate::names::value_of;
use crate::sniff::{extract_sni, has_complete_tls_record, record_complete, sni_of};
use crate::text::{decimal, render};
use vstd::prelude::*;
use vstd::string::StringExecFns;

verus! {

/// How long the beginning of a TLS connection is looked at, in nanoseconds: 1.5 seconds.
pub const TLS_PEEK_TIMEOUT: u64 = 1_500_000_000;

/// No more is read once this much was.
pub const TLS_PEEK_MAX: usize = 16_384;

/// The most that one read takes.
pub const TLS_PEEK_CHUNK: usize = 2048;

/// Where the host of a connection is known from.
#[derive(Debug, Clone, Copy, PartialEq, Eq, Structural)]
pub enum HostSource {
    Sni,
    Dns,
    Unknown,
}

impl HostSource {
    /// The source as the log shows it.
    pub open spec fn text(self) -> Seq<char> {
        match self {
            HostSource::Sni => "sni"@,
            HostSource::Dns => "dns"@,
            HostSource::Unknown => "none"@,
        }
    }

    /// The source as the log shows it.
    pub fn label(&self) -> (r: &'static str)
        ensures
            r@ == self.text(),
    {
        match self {
            HostSource::Sni => "sni",
            HostSource::Dns => "dns",
            HostSource::Unknown => "none",
        }
    }
}

/// A phase as the log shows it.
pub open spec fn phase_text(phase: AdmitPhase) -> Seq<char> {
    match phase {
        AdmitPhase::Free => "free"@,
        AdmitPhase::Soft => "soft"@,
        AdmitPhase::OverflowRollover => "overflow"@,
    }
}

/// A phase as the log shows it.
pub fn phase_label(phase: AdmitPhase) -> (r: &'static str)
    ensures
        r@ == phase_text(phase),
{
    match phase {
        AdmitPhase::Free => "free",
        AdmitPhase::Soft => "soft",
        AdmitPhase::OverflowRollover => "overflow",
    }
}

/// Grants out of a limit, as the log shows them.
pub fn grants_label(grants: usize, limit: usize) -> (r: String)
    ensures
        r@ == decimal(grants as nat) + "/"@ + decimal(limit as nat),
{
    render(grants as u64).concat("/").concat(&render(limit as u64))
}

/// What the log says of a grant.
#[derive(Debug, Clone)]
pub struct GrantRecord {
    pub phase: &'static str,
    pub grants: String,
    pub delay_ms: u64,
    pub window_left_ms: u64,
    /// The grant is also logged as a rollover into a new cycle.
    pub rollover: bool,
}

/// What the log says of a grant: times in whole milliseconds.
pub fn grant_record(out: &AdmitOutcome) -> (r: GrantRecord)
    ensures
        r.phase@ == phase_text(out.phase),
        r.grants@ == decimal(out.grants_active as nat) + "/"@ + decimal(out.limit as nat),
        r.delay_ms == out.delay / 1_000_000,
        r.window_left_ms == out.window_remaining / 1_000_000,
        r.rollover == (out.phase == AdmitPhase::OverflowRollover),
{
    GrantRecord {
        phase: phase_label(out.phase),
        grants: grants_label(out.grants_active, out.limit),
        delay_ms: out.delay / 1_000_000,
        window_left_ms: out.window_remaining / 1_000_000,
        rollover: out.phase == AdmitPhase::OverflowRollover,
    }
}

/// The ports on which TLS is expected.
pub open spec fn tls_port(port: u16) -> bool {
    port == 443 || port == 8443
}

/// Whether TLS is expected on a port.
pub fn is_tls_port(port: u16) -> (r: bool)
    ensures
        r == tls_port(port),
        r <==> port == 443 || port == 8443,
{
    port == 443 || port == 8443
}

/// A look at what the client sends first.
#[derive(Debug, Clone)]
pub struct TlsPeek {
    /// What was read.
    pub buf: Vec<u8>,
    pub deadline: u64,
    /// Nothing more will come.
    pub ended: bool,
}

/// A look at what the client sends first, as the specifications speak of it.
pub struct PeekView {
    pub buf: Seq<u8>,
    pub deadline: u64,
    pub ended: bool,
}

impl View for TlsPeek {
    type V = PeekView;

    open spec fn view(&self) -> PeekView {
        PeekView { buf: self.buf@, deadline: self.deadline, ended: self.ended }
    }
}

impl PeekView {
    /// The look is over: nothing more comes, the first record is complete, enough was read, or the
    /// time is up.
    pub open spec fn over(self, now: u64) -> bool {
        ||| self.ended
        ||| record_complete(self.buf)
        ||| self.buf.len() >= TLS_PEEK_MAX
        ||| now >= self.deadline
    }

    /// The look after a read. An empty read means that nothing more comes.
    pub open spec fn taken(self, data: Seq<u8>) -> PeekView {
        if data.len() == 0 {
            PeekView { ended: true, ..self }
        } else {
            PeekView { buf: self.buf + data, ..self }
        }
    }

    /// The look after several reads.
    pub open spec fn taken_all(self, reads: Seq<Seq<u8>>) -> PeekView
        decreases reads.len(),
    {
        if reads.len() == 0 {
            self
        } else {
            self.taken(reads[0]).taken_all(reads.drop_first())
        }
    }
}

impl TlsPeek {
    /// A look that begins at `now`.
    pub fn begin(now: u64) -> (r: TlsPeek)
        requires
            now + TLS_PEEK_TIMEOUT <= u64::MAX,
        ensures
            r@ == (PeekView {
                buf: Seq::empty(),
                deadline: (now + TLS_PEEK_TIMEOUT) as u64,
                ended: false,
            }),
            r.deadline == now + 1_500_000_000,
    {
        TlsPeek { buf: Vec::new(), deadline: now + TLS_PEEK_TIMEOUT, ended: false }
    }

    /// A look at nothing.
    pub fn skip(now: u64) -> (r: TlsPeek)
        ensures
            r@ == (PeekView { buf: Seq::empty(), deadline: now, ended: true }),
    {
        TlsPeek { buf: Vec::new(), deadline: now, ended: true }
    }

    /// Whether the look is over at `now`.
    pub fn is_over(&self, now: u64) -> (r: bool)
        ensures
            r == self@.over(now),
    {
        self.ended || self.buf.len() >= TLS_PEEK_MAX || has_complete_tls_record(&self.buf) || now
            >= self.deadline
    }

    /// How long the next read may take.
    pub fn time_left(&self, now: u64) -> (r: u64)
        ensures
            r == if now < self.deadline {
                self.deadline - now
            } else {
                0
            },
    {
        if now < self.deadline {
            self.deadline - now
        } else {
            0
        }
    }

    /// Takes what a read gave.
    pub fn take(&mut self, data: &[u8])
        ensures
            final(self)@ == old(self)@.taken(data@),
    {
        if data.len() == 0 {
            self.ended = true;
        } else {
            self.buf.extend_from_slice(data);
            assert(self.buf@ =~= old(self).buf@ + data@);
        }
    }

    /// Takes that a read failed or ran out of time.
    pub fn end(&mut self)
        ensures
            final(self)@ == (PeekView { ended: true, ..old(self)@ }),
    {
        self.ended = true;
    }
}

/// Whatever the reads hold, the look keeps every byte of them in order.
pub proof fn lemma_every_byte_is_kept(peek: PeekView, reads: Seq<Seq<u8>>)
    ensures
        peek.taken_all(reads).buf == peek.buf + reads.flatten(),
    decreases reads.len(),
{
    if reads.len() == 0 {
        assert(reads.flatten() =~= Seq::<u8>::empty());
        assert(peek.buf + Seq::<u8>::empty() =~= peek.buf);
    } else {
        lemma_every_byte_is_kept(peek.taken(reads[0]), reads.drop_first());
        assert(reads.flatten() == reads[0] + reads.drop_first().flatten());
        assert(peek.taken(reads[0]).buf =~= peek.buf + reads[0]);
        assert(peek.buf + reads[0] + reads.drop_first().flatten() =~= peek.buf + (reads[0]
            + reads.drop_first().flatten()));
    }
}

/// A look that is not over yet and takes a read of at most a chunk stays under the bound and a
/// chunk.
pub proof fn lemma_look_is_bounded(peek: PeekView, now: u64, data: Seq<u8>)
    requires
        !peek.over(now),
        data.len() <= TLS_PEEK_CHUNK,
    ensures
        peek.taken(data).buf.len() < TLS_PEEK_MAX + TLS_PEEK_CHUNK,
{
}

/// A look that has found a name is over, and the name stays whatever would have come after it.
pub proof fn lemma_found_name_ends_the_look(peek: PeekView, now: u64, more: Seq<u8>)
    requires
        sni_of(peek.buf) is Some,
    ensures
        peek.over(now),
        sni_of(peek.buf + more) == sni_of(peek.buf),
{
    crate::sniff::lemma_name_needs_complete_record(peek.buf);
    crate::sniff::lemma_more_bytes_keep_the_name(peek.buf, more);
}

/// How far a connection has come.
#[derive(Debug, Clone)]
pub enum FlowStage {
    /// Read what the client sends first.
    Peek(TlsPeek),
    /// Wait for the admission to this family.
    Admit { prefix: Vec<u8>, family: String },
    Dial { prefix: Vec<u8> },
    /// Send upstream what was read from the client.
    Replay { prefix: Vec<u8> },
    /// Copy in both directions.
    Relay,
    Closed,
}

/// How far a connection has come, as the specifications speak of it.
pub enum FlowStageView {
    Peek(PeekView),
    Admit { prefix: Seq<u8>, family: Seq<char> },
    Dial { prefix: Seq<u8> },
    Replay { prefix: Seq<u8> },
    Relay,
    Closed,
}

impl View for FlowStage {
    type V = FlowStageView;

    open spec fn view(&self) -> FlowStageView {
        match *self {
            FlowStage::Peek(peek) => FlowStageView::Peek(peek@),
            FlowStage::Admit { prefix, family } => FlowStageView::Admit {
                prefix: prefix@,
                family: family@,
            },
            FlowStage::Dial { prefix } => FlowStageView::Dial { prefix: prefix@ },
            FlowStage::Replay { prefix } => FlowStageView::Replay { prefix: prefix@ },
            FlowStage::Relay => FlowStageView::Relay,
            FlowStage::Closed => FlowStageView::Closed,
        }
    }
}

/// A TCP connection on its way through the gateway.
#[derive(Debug, Clone)]
pub struct TcpFlow {
    /// Where the client wants to go.
    pub ip: IpAddress,
    /// The host, empty as long as none is known.
    pub host: String,
    pub source: HostSource,
    pub stage: FlowStage,
}

/// A TCP connection, as the specifications speak of it.
pub struct FlowView {
    pub ip: IpAddress,
    pub host: Seq<char>,
    pub source: HostSource,
    pub stage: FlowStageView,
}

impl View for TcpFlow {
    type V = FlowView;

    open spec fn view(&self) -> FlowView {
        FlowView { ip: self.ip, host: self.host@, source: self.source, stage: self.stage@ }
    }
}

/// The host of a connection and where it is known from: the name that the client gave, else the
/// one that DNS gave for the address.
pub open spec fn known_host(
    buf: Seq<u8>,
    entries: Entries,
    ip: IpAddress,
    now: u64,
) -> (Seq<char>, HostSource) {
    match sni_of(buf) {
        Some(name) => (name, HostSource::Sni),
        None => match answer_at(entries, ip, now) {
            Some(name) => (name, HostSource::Dns),
            None => (Seq::empty(), HostSource::Unknown),
        },
    }
}

/// The connection once its beginning was looked at: it has to be admitted if its host belongs to a
/// family, and is let through otherwise.
pub open spec fn resolved(
    ip: IpAddress,
    buf: Seq<u8>,
    suffixes: SuffixList,
    entries: Entries,
    now: u64,
) -> FlowView {
    let (host, source) = known_host(buf, entries, ip, now);
    FlowView {
        ip,
        host,
        source,
        stage: match first_family(suffixes, normalized(host)) {
            Some(family) => FlowStageView::Admit { prefix: buf, family },
            None => FlowStageView::Dial { prefix: buf },
        },
    }
}

/// What happened to a connection.
#[derive(Debug, Clone)]
pub enum FlowEvent {
    /// A read gave these bytes.
    Read(Vec<u8>),
    /// A read failed or ran out of time.
    ReadEnded,
    Admitted,
    Dialled,
    DialFailed,
    Written,
    WriteFailed,
    RelayEnded,
}

/// The stage after an event. One that the stage does not wait for changes nothing.
pub open spec fn flow_next(stage: FlowStageView, event: FlowEvent) -> FlowStageView {
    match (stage, event) {
        (FlowStageView::Peek(peek), FlowEvent::Read(data)) => FlowStageView::Peek(
            peek.taken(data@),
        ),
        (FlowStageView::Peek(peek), FlowEvent::ReadEnded) => FlowStageView::Peek(
            PeekView { ended: true, ..peek },
        ),
        (FlowStageView::Admit { prefix, .. }, FlowEvent::Admitted) => FlowStageView::Dial {
            prefix,
        },
        (FlowStageView::Dial { prefix }, FlowEvent::Dialled) => if prefix.len() > 0 {
            FlowStageView::Replay { prefix }
        } else {
            FlowStageView::Relay
        },
        (FlowStageView::Dial { .. }, FlowEvent::DialFailed) => FlowStageView::Closed,
        (FlowStageView::Replay { .. }, FlowEvent::Written) => FlowStageView::Relay,
        (FlowStageView::Replay { .. }, FlowEvent::WriteFailed) => FlowStageView::Closed,
        (FlowStageView::Relay, FlowEvent::RelayEnded) => FlowStageView::Closed,
        _ => stage,
    }
}

impl TcpFlow {
    /// A connection that was accepted at `now`. Its beginning is looked at where TLS is expected.
    pub fn accept(ip: IpAddress, port: u16, now: u64) -> (r: TcpFlow)
        requires
            now + TLS_PEEK_TIMEOUT <= u64::MAX,
        ensures
            r@ == (FlowView {
                ip,
                host: Seq::empty(),
                source: HostSource::Unknown,
                stage: FlowStageView::Peek(
                    PeekView {
                        buf: Seq::empty(),
                        deadline: if tls_port(port) {
                            (now + TLS_PEEK_TIMEOUT) as u64
                        } else {
                            now
                        },
                        ended: !tls_port(port),
                    },
                ),
            }),
            r@.stage->Peek_0.ended <==> port != 443 && port != 8443,
    {
        let peek = if is_tls_port(port) {
            TlsPeek::begin(now)
        } else {
            TlsPeek::skip(now)
        };
        TcpFlow { ip, host: no_host(), source: HostSource::Unknown, stage: FlowStage::Peek(peek) }
    }

    /// Moves on from the look at the beginning, once that is over at `now`.
    pub fn resolve(self, classifier: &Classifier, dns: &mut DnsCache, now: u64) -> (r: TcpFlow)
        ensures
            r@ == match self@.stage {
                FlowStageView::Peek(peek) => if peek.over(now) {
                    resolved(self.ip, peek.buf, classifier.suffixes(), old(dns).entries(), now)
                } else {
                    self@
                },
                _ => self@,
            },
            final(dns).capacity() == old(dns).capacity(),
            final(dns).entries() == match self@.stage {
                FlowStageView::Peek(peek) => if peek.over(now) && sni_of(peek.buf) is None {
                    looked_up(old(dns).entries(), self.ip, now)
                } else {
                    old(dns).entries()
                },
                _ => old(dns).entries(),
            },
            old(dns).wf() ==> final(dns).wf(),
    {
        let TcpFlow { ip, host, source, stage } = self;
        match stage {
            FlowStage::Peek(peek) => {
                if !peek.is_over(now) {
                    return TcpFlow { ip, host, source, stage: FlowStage::Peek(peek) };
                }
                let (host, source) = match extract_sni(&peek.buf) {
                    Some(name) => (name, HostSource::Sni),
                    None => match dns.lookup(ip, now) {
                        Some(name) => (name, HostSource::Dns),
                        None => (no_host(), HostSource::Unknown),
                    },
                };
                let stage = match classifier.match_host(&host) {
                    Some(family) => FlowStage::Admit {
                        prefix: peek.buf,
                        family: family.to_owned(),
                    },
                    None => FlowStage::Dial { prefix: peek.buf },
                };
                TcpFlow { ip, host, source, stage }
            },
            stage => TcpFlow { ip, host, source, stage },
        }
    }

    /// Takes what happened.
    pub fn advance(self, event: FlowEvent) -> (r: TcpFlow)
        ensures
            r@ == (FlowView { stage: flow_next(self@.stage, event), ..self@ }),
    {
        let TcpFlow { ip, host, source, stage } = self;
        let stage = match (stage, event) {
            (FlowStage::Peek(peek), FlowEvent::Read(data)) => {
                let mut peek = peek;
                peek.take(&data);
                FlowStage::Peek(peek)
            },
            (FlowStage::Peek(peek), FlowEvent::ReadEnded) => {
                let mut peek = peek;
                peek.end();
                FlowStage::Peek(peek)
            },
            (FlowStage::Admit { prefix, .. }, FlowEvent::Admitted) => FlowStage::Dial { prefix },
            (FlowStage::Dial { prefix }, FlowEvent::Dialled) => if prefix.len() > 0 {
                FlowStage::Replay { prefix }
            } else {
                FlowStage::Relay
            },
            (FlowStage::Dial { .. }, FlowEvent::DialFailed) => FlowStage::Closed,
            (FlowStage::Replay { .. }, FlowEvent::Written) => FlowStage::Relay,
            (FlowStage::Replay { .. }, FlowEvent::WriteFailed) => FlowStage::Closed,
            (FlowStage::Relay, FlowEvent::RelayEnded) => FlowStage::Closed,
            (stage, _) => stage,
        };
        TcpFlow { ip, host, source, stage }
    }
}

fn no_host() -> (r: String)
    ensures
        r@ == Seq::<char>::empty(),
{
    proof {
        reveal_strlit("");
    }
    let r = String::from_str("");
    assert(r@ =~= Seq::<char>::empty());
    r
}

/// The stage after several events.
pub open spec fn flow_through(stage: FlowStageView, events: Seq<FlowEvent>) -> FlowStageView
    decreases events.len(),
{
    if events.len() == 0 {
        stage
    } else {
        flow_next(flow_through(stage, events.drop_last()), events.last())
    }
}

/// Only connections to hosts of a family wait for an admission; every other one is dialled
/// straight away.
pub proof fn lemma_only_family_hosts_wait(
    ip: IpAddress,
    buf: Seq<u8>,
    suffixes: SuffixList,
    entries: Entries,
    now: u64,
)
    ensures
        ({
            let flow = resolved(ip, buf, suffixes, entries, now);
            let host = normalized(known_host(buf, entries, ip, now).0);
            &&& flow.stage is Admit <==> exists|i: int|
                0 <= i < suffixes.len() && crate::classify::under(host, (#[trigger] suffixes[i]).0)
            &&& !(flow.stage is Admit) ==> flow.stage == (FlowStageView::Dial { prefix: buf })
        }),
{
    crate::classify::lemma_unmatched_means_under_none(
        suffixes,
        normalized(known_host(buf, entries, ip, now).0),
    );
}

/// A connection that waits for its admission is not dialled before it.
pub proof fn lemma_no_dial_before_admission(
    prefix: Seq<u8>,
    family: Seq<char>,
    events: Seq<FlowEvent>,
)
    requires
        forall|i: int| 0 <= i < events.len() ==> !((#[trigger] events[i]) is Admitted),
    ensures
        flow_through(FlowStageView::Admit { prefix, family }, events) == (FlowStageView::Admit {
            prefix,
            family,
        }),
    decreases events.len(),
{
    if events.len() > 0 {
        lemma_no_dial_before_admission(prefix, family, events.drop_last());
        assert(!(events.last() is Admitted));
    }
}

/// What was read from the client is kept until it was sent upstream, and is sent before anything
/// is relayed.
pub proof fn lemma_prefix_goes_ahead_of_the_relay(
    stage: FlowStageView,
    prefix: Seq<u8>,
    events: Seq<FlowEvent>,
)
    requires
        prefix.len() > 0,
        stage == (FlowStageView::Dial { prefix }) || (stage is Admit && stage->Admit_prefix
            == prefix),
    ensures
        match flow_through(stage, events) {
            FlowStageView::Peek(_) => false,
            FlowStageView::Admit { prefix: p, .. } => p == prefix,
            FlowStageView::Dial { prefix: p } => p == prefix,
            FlowStageView::Replay { prefix: p } => p == prefix,
            FlowStageView::Relay => exists|i: int|
                0 <= i < events.len() && (#[trigger] events[i]) is Written,
            FlowStageView::Closed => true,
        },
    decreases events.len(),
{
    if events.len() > 0 {
        let before = events.drop_last();
        lemma_prefix_goes_ahead_of_the_relay(stage, prefix, before);
        let last = events.last();
        assert(last == events[events.len() - 1]);
        if flow_through(stage, before) is Relay {
            let i = choose|i: int| 0 <= i < before.len() && (#[trigger] before[i]) is Written;
            assert(events[i] is Written);
        }
    }
}

/// What a connection is told when it asks to be admitted.
#[derive(Debug, Clone, Copy, PartialEq, Eq, Structural)]
pub struct Admission {
    /// The grants of the cycle before this one.
    pub grants: usize,
    pub limit: usize,
    pub action: AdmitAction,
}

/// The limiter of a family.
pub open spec fn family_limiter(classifier: Classifier, family: Seq<char>) -> Option<SoftLimiter> {
    value_of(classifier.limiters().entries(), family)
}

/// Asks the limiter of a family at `now`. Nothing comes back for a name that is no family.
pub fn begin_admission(classifier: &mut Classifier, family: &str, now: u64) -> (r: Option<
    Admission,
>)
    requires
        old(classifier).wf(),
        family_limiter(*old(classifier), family@) matches Some(l) ==> l.clock_fits(now),
    ensures
        final(classifier).wf(),
        final(classifier).suffixes() == old(classifier).suffixes(),
        forall|k: Seq<char>|
            k != family@ ==> #[trigger] family_limiter(*final(classifier), k) == family_limiter(
                *old(classifier),
                k,
            ),
        match family_limiter(*old(classifier), family@) {
            Some(l) => {
                let here = l.advanced(now);
                &&& r == Some(
                    Admission { grants: here.count, limit: l.limit, action: here.decision(now) },
                )
                &&& family_limiter(*final(classifier), family@) == Some(
                    match here.decision(now) {
                        AdmitAction::Grant(_) => here.granted(),
                        AdmitAction::Wait(_) => here,
                    },
                )
            },
            None => r is None && family_limiter(*final(classifier), family@) is None,
        },
        r matches Some(a) ==> match a.action {
            AdmitAction::Grant(out) => {
                &&& out.grants_active == a.grants + 1
                &&& family_limiter(*final(classifier), family@)->0.count == out.grants_active
            },
            AdmitAction::Wait(_) => family_limiter(*final(classifier), family@)->0.count
                == a.grants,
        },
{
    let mut limiter = match classifier.limiter(family) {
        Some(l) => *l,
        None => {
            return None;
        },
    };
    proof {
        crate::limiter::lemma_looking_changes_nothing(limiter, now, now);
    }
    let grants: usize = limiter.grants_in_cycle(now);
    let action = limiter.try_admit(now);
    let limit: usize = limiter.limit();
    classifier.set_limiter(family, limiter);
    Some(Admission { grants, limit, action })
}

/// Asks the limiter of a family after a wait that ended at `now`. Nothing comes back for a name
/// that is no family.
pub fn continue_admission(
    classifier: &mut Classifier,
    family: &str,
    wait: &AdmitWait,
    wake: Wake,
    now: u64,
) -> (r: Option<Resumed>)
    requires
        old(classifier).wf(),
        family_limiter(*old(classifier), family@) matches Some(l) ==> l.clock_fits(now) && (wake
            == Wake::Deadline && wait.rollover ==> l.advanced(now).count < usize::MAX),
    ensures
        final(classifier).wf(),
        final(classifier).suffixes() == old(classifier).suffixes(),
        forall|k: Seq<char>|
            k != family@ ==> #[trigger] family_limiter(*final(classifier), k) == family_limiter(
                *old(classifier),
                k,
            ),
        match family_limiter(*old(classifier), family@) {
            Some(l) => {
                let here = l.advanced(now);
                match wake {
                    Wake::Notified => {
                        &&& r == Some(Resumed { outcome: None, notify: false })
                        &&& family_limiter(*final(classifier), family@) == Some(l)
                    },
                    Wake::Deadline => if here.grants_after(*wait) {
                        &&& r == Some(
                            Resumed {
                                outcome: Some(here.late_outcome(*wait)),
                                notify: true,
                            },
                        )
                        &&& family_limiter(*final(classifier), family@) == Some(here.granted())
                    } else {
                        &&& r == Some(Resumed { outcome: None, notify: true })
                        &&& family_limiter(*final(classifier), family@) == Some(here)
                    },
                }
            },
            None => r is None && family_limiter(*final(classifier), family@) is None,
        },
        r is Some && r->0.outcome is Some ==> family_limiter(*final(classifier), family@)->0.count
            == r->0.outcome->0.grants_active,
{
    let mut limiter = match classifier.limiter(family) {
        Some(l) => *l,
        None => {
            return None;
        },
    };
    let resumed = limiter.resume(wait, wake, now);
    classifier.set_limiter(family, limiter);
    Some(resumed)
}

/// The host of a connection, whatever was read of it: the server name that the client sent if it
/// sent one; else the name that the cache has for the address, if it has one; and unknown only if
/// there is neither. The source tells which.
pub proof fn lemma_host_of_a_connection(
    ip: IpAddress,
    buf: Seq<u8>,
    suffixes: SuffixList,
    entries: Entries,
    now: u64,
)
    ensures
        ({
            let flow = resolved(ip, buf, suffixes, entries, now);
            let named = sni_of(buf);
            let cached = answer_at(entries, ip, now);
            &&& named is Some ==> flow.host == named->0 && flow.source == HostSource::Sni
            &&& named is None && cached is Some ==> flow.host == cached->0 && flow.source
                == HostSource::Dns
            &&& flow.source == HostSource::Unknown <==> named is None && cached is None
            &&& flow.source == HostSource::Unknown ==> flow.host.len() == 0
        }),
{
}

/// A resolved connection keeps where it goes and every byte that was read, and waits for the
/// family that its host belongs to, if there is one.
pub proof fn lemma_resolved_connections_keep_what_they_had(
    ip: IpAddress,
    buf: Seq<u8>,
    suffixes: SuffixList,
    entries: Entries,
    now: u64,
)
    ensures
        ({
            let flow = resolved(ip, buf, suffixes, entries, now);
            let family = first_family(suffixes, normalized(flow.host));
            &&& flow.ip == ip
            &&& match flow.stage {
                FlowStageView::Admit { prefix, family: f } => prefix == buf && family == Some(f),
                FlowStageView::Dial { prefix } => prefix == buf && family is None,
                _ => false,
            }
        }),
{
}

/// The look at the beginning goes on while the first record is not complete, less than 16 KiB were
/// read, there is time, and the client has not stopped; and only then. A read that gives bytes
/// does not end it by itself, and an empty one does; neither changes the time.
pub proof fn lemma_when_the_look_ends(peek: PeekView, data: Seq<u8>, now: u64)
    ensures
        peek.over(now) <==> peek.ended || record_complete(peek.buf) || peek.buf.len() >= 16_384
            || peek.deadline <= now,
        peek.taken(data).ended <==> peek.ended || data.len() == 0,
        peek.taken(data).buf == peek.buf + data,
        peek.taken(data).deadline == peek.deadline,
{
    if data.len() == 0 {
        assert(peek.buf + data =~= peek.buf);
    }
}

/// A connection goes its way: after the admission it is dialled, after the dialling what was read
/// is sent if there is any, then it is relayed; a dial or a write that fails closes it, and so does
/// the end of the relay.
pub proof fn lemma_connections_go_their_way(prefix: Seq<u8>, family: Seq<char>)
    ensures
        ({
            let waiting = FlowStageView::Admit { prefix, family };
            let dialling = flow_next(waiting, FlowEvent::Admitted);
            let dialled = flow_next(dialling, FlowEvent::Dialled);
            &&& dialling == (FlowStageView::Dial { prefix })
            &&& flow_next(dialling, FlowEvent::DialFailed) is Closed
            &&& prefix.len() > 0 ==> dialled == (FlowStageView::Replay { prefix })
            &&& prefix.len() == 0 ==> dialled is Relay
            &&& flow_next(FlowStageView::Replay { prefix }, FlowEvent::Written) is Relay
            &&& flow_next(FlowStageView::Replay { prefix }, FlowEvent::WriteFailed) is Closed
            &&& flow_next(FlowStageView::Relay, FlowEvent::RelayEnded) is Closed
        }),
{
}

/// No step of a connection is skipped, and no byte that it holds is lost: each stage is entered
/// from the one before it, by the event that ends that one, with the same bytes.
pub proof fn lemma_connections_skip_no_step(stage: FlowStageView, event: FlowEvent)
    ensures
        ({
            let next = flow_next(stage, event);
            match next {
                FlowStageView::Peek(after) => stage matches FlowStageView::Peek(before) && {
                    &&& after.deadline == before.deadline
                    &&& event matches FlowEvent::Read(data) ==> after == before.taken(data@)
                    &&& event is ReadEnded ==> after.ended && after.buf == before.buf
                    &&& !(event is Read) && !(event is ReadEnded) ==> after == before
                },
                FlowStageView::Admit { .. } => next == stage,
                FlowStageView::Dial { prefix } => next == stage || (event is Admitted
                    && stage is Admit && stage->Admit_prefix == prefix),
                FlowStageView::Replay { prefix } => next == stage || (event is Dialled && stage
                    == (FlowStageView::Dial { prefix }) && prefix.len() > 0),
                FlowStageView::Relay => {
                    ||| next == stage
                    ||| event is Written && stage is Replay
                    ||| event is Dialled && stage is Dial && stage->Dial_prefix.len() == 0
                },
                FlowStageView::Closed => {
                    ||| next == stage
                    ||| event is DialFailed && stage is Dial
                    ||| event is WriteFailed && stage is Replay
                    ||| event is RelayEnded && stage is Relay
                },
            }
        }),
{
}

} // verus!
