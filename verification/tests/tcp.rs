use safethrottle::classify::Classifier;
use safethrottle::config::Config;
use safethrottle::dns_cache::{DnsCache, IpAddress};
use safethrottle::limiter::{AdmitAction, AdmitOutcome, AdmitPhase, Wake};
use safethrottle::tcp::{
    begin_admission, continue_admission, grant_record, grants_label, is_tls_port, phase_label, FlowEvent,
    FlowStage, HostSource, TcpFlow, TlsPeek, TLS_PEEK_MAX, TLS_PEEK_TIMEOUT,
};

const SEC: u64 = 1_000_000_000;

fn hello(host: &str) -> Vec<u8> {
    let name = host.as_bytes();
    let mut exts = vec![0, 0, 0, (name.len() + 5) as u8, 0, (name.len() + 3) as u8, 0, 0];
    exts.push(name.len() as u8);
    exts.extend_from_slice(name);
    let mut body = vec![3, 3];
    body.extend_from_slice(&[0; 32]);
    body.extend_from_slice(&[0, 0, 2, 0, 0x2f, 1, 0, 0, exts.len() as u8]);
    body.extend_from_slice(&exts);
    let mut record = vec![0x16, 3, 1, 0, (body.len() + 4) as u8, 1, 0, 0, body.len() as u8];
    record.extend_from_slice(&body);
    record
}

fn setup() -> (Classifier, DnsCache) {
    (Classifier::from_config(&Config::default_builtin(), 0), DnsCache::new(8))
}

#[test]
fn a_named_family_host_is_admitted_dialled_and_replayed() {
    let (classifier, mut dns) = setup();
    let ip = IpAddress::V4(7);
    dns.insert(ip, "example.com".to_string(), 60 * SEC, 0);
    let bytes = hello("API.github.com");
    let flow = TcpFlow::accept(ip, 443, 0).resolve(&classifier, &mut dns, 0);
    assert!(matches!(&flow.stage, FlowStage::Peek(peek) if peek.time_left(0) == TLS_PEEK_TIMEOUT));

    let flow = flow.advance(FlowEvent::Read(bytes[..20].to_vec()));
    let flow = flow.resolve(&classifier, &mut dns, SEC);
    assert!(matches!(&flow.stage, FlowStage::Peek(peek) if peek.buf == bytes[..20]));
    let flow = flow.advance(FlowEvent::Read(bytes[20..].to_vec()));
    let flow = flow.resolve(&classifier, &mut dns, SEC);
    assert_eq!((flow.host.as_str(), flow.source), ("api.github.com", HostSource::Sni));
    assert!(matches!(
        &flow.stage,
        FlowStage::Admit { prefix, family } if *prefix == bytes && family == "github"
    ));

    let early = flow.clone().advance(FlowEvent::Dialled);
    assert!(matches!(early.stage, FlowStage::Admit { .. }));
    let flow = flow.advance(FlowEvent::Admitted);
    assert!(matches!(&flow.stage, FlowStage::Dial { prefix } if *prefix == bytes));
    let lost = flow.clone().advance(FlowEvent::DialFailed);
    assert!(matches!(lost.stage, FlowStage::Closed));
    let flow = flow.advance(FlowEvent::Dialled);
    assert!(matches!(&flow.stage, FlowStage::Replay { prefix } if *prefix == bytes));
    let lost = flow.clone().advance(FlowEvent::WriteFailed);
    assert!(matches!(lost.stage, FlowStage::Closed));
    let flow = flow.advance(FlowEvent::Written);
    assert!(matches!(flow.stage, FlowStage::Relay));
    let flow = flow.advance(FlowEvent::RelayEnded);
    assert!(matches!(flow.stage, FlowStage::Closed));
}

#[test]
fn dns_names_what_the_client_does_not() {
    let (classifier, mut dns) = setup();
    let ip = IpAddress::V4(7);
    dns.insert(ip, "foo.substack.com".to_string(), 60 * SEC, 0);
    let flow = TcpFlow::accept(ip, 80, 0).resolve(&classifier, &mut dns, 0);
    assert_eq!((flow.host.as_str(), flow.source), ("foo.substack.com", HostSource::Dns));
    assert!(matches!(
        &flow.stage,
        FlowStage::Admit { prefix, family } if prefix.is_empty() && family == "substack"
    ));
    let flow = flow.advance(FlowEvent::Admitted).advance(FlowEvent::Dialled);
    assert!(matches!(flow.stage, FlowStage::Relay));
}

#[test]
fn other_hosts_pass_through() {
    let (classifier, mut dns) = setup();
    let ip = IpAddress::V4(7);
    let flow = TcpFlow::accept(ip, 80, 0).resolve(&classifier, &mut dns, 0);
    assert_eq!((flow.host.as_str(), flow.source), ("", HostSource::Unknown));
    assert!(matches!(&flow.stage, FlowStage::Dial { prefix } if prefix.is_empty()));

    let bytes = hello("example.com");
    let flow = TcpFlow::accept(ip, 8443, 0)
        .advance(FlowEvent::Read(bytes.clone()))
        .resolve(&classifier, &mut dns, 0);
    assert_eq!((flow.host.as_str(), flow.source), ("example.com", HostSource::Sni));
    assert!(matches!(&flow.stage, FlowStage::Dial { prefix } if *prefix == bytes));
}

#[test]
fn the_look_ends() {
    let (classifier, mut dns) = setup();
    let ip = IpAddress::V6(7);
    let flow = TcpFlow::accept(ip, 443, 0).advance(FlowEvent::Read(vec![0x16, 3]));
    let late = flow.clone().resolve(&classifier, &mut dns, TLS_PEEK_TIMEOUT);
    assert!(matches!(&late.stage, FlowStage::Dial { prefix } if *prefix == [0x16, 3]));
    let early = flow.clone().resolve(&classifier, &mut dns, TLS_PEEK_TIMEOUT - 1);
    assert!(matches!(early.stage, FlowStage::Peek(_)));
    for event in [FlowEvent::Read(Vec::new()), FlowEvent::ReadEnded] {
        let ended = flow.clone().advance(event).resolve(&classifier, &mut dns, 0);
        assert!(matches!(&ended.stage, FlowStage::Dial { prefix } if *prefix == [0x16, 3]));
    }

    let mut peek = TlsPeek::begin(0);
    peek.take(&[0x17; TLS_PEEK_MAX - 1]);
    assert!(!peek.is_over(0));
    peek.take(&[0x17]);
    assert!(peek.is_over(0));
    assert!(TlsPeek::skip(0).is_over(0));
    peek.end();
    assert_eq!((peek.buf.len(), peek.time_left(2 * SEC)), (TLS_PEEK_MAX, 0));
}

#[test]
fn admissions_go_through_the_limiter_of_the_family() {
    let (mut classifier, _) = setup();
    for i in 0..14 {
        let admission = begin_admission(&mut classifier, "github", SEC).expect("family");
        assert_eq!((admission.grants, admission.limit), (i, 20));
        match admission.action {
            AdmitAction::Grant(out) => {
                assert_eq!((out.phase, out.grants_active), (AdmitPhase::Free, i + 1));
                assert_eq!(out.window_remaining, 59 * SEC);
            }
            AdmitAction::Wait(_) => panic!("a wait in the free band"),
        }
    }
    let wait = match begin_admission(&mut classifier, "github", 30 * SEC).expect("family").action {
        AdmitAction::Wait(wait) => wait,
        AdmitAction::Grant(_) => panic!("granted in the soft band"),
    };
    assert_eq!((wait.delay, wait.deadline), (3_500_000_000, 33_500_000_000));
    let woken = continue_admission(&mut classifier, "github", &wait, Wake::Notified, 31 * SEC)
        .expect("family");
    assert!(woken.outcome.is_none());
    let done =
        continue_admission(&mut classifier, "github", &wait, Wake::Deadline, wait.deadline)
            .expect("family");
    let out = done.outcome.expect("granted");
    assert_eq!((out.phase, out.grants_active, out.delay), (AdmitPhase::Soft, 15, wait.delay));
    assert!(done.notify);

    assert_eq!(begin_admission(&mut classifier, "youtube", SEC).expect("family").grants, 0);
    assert!(begin_admission(&mut classifier, "nosuch", SEC).is_none());
    assert!(continue_admission(&mut classifier, "nosuch", &wait, Wake::Deadline, SEC).is_none());
}

#[test]
fn labels() {
    assert_eq!(HostSource::Sni.label(), "sni");
    assert_eq!(HostSource::Dns.label(), "dns");
    assert_eq!(HostSource::Unknown.label(), "none");
    assert_eq!(phase_label(AdmitPhase::Free), "free");
    assert_eq!(phase_label(AdmitPhase::Soft), "soft");
    assert_eq!(phase_label(AdmitPhase::OverflowRollover), "overflow");
    assert_eq!(grants_label(3, 20), "3/20");
    assert!(is_tls_port(443) && is_tls_port(8443) && !is_tls_port(80));
}

#[test]
fn grants_are_recorded() {
    let out = AdmitOutcome {
        phase: AdmitPhase::OverflowRollover,
        limit: 20,
        grants_active: 1,
        delay: 8_970_999_999,
        window_remaining: 999_999,
    };
    let record = grant_record(&out);
    assert_eq!((record.phase, record.grants.as_str()), ("overflow", "1/20"));
    assert_eq!((record.delay_ms, record.window_left_ms, record.rollover), (8970, 0, true));
    let soft = grant_record(&AdmitOutcome { phase: AdmitPhase::Soft, ..out });
    assert_eq!((soft.phase, soft.rollover), ("soft", false));
}
