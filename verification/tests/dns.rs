use safethrottle::dns_cache::{
    AnswerData, DnsAnswer, DnsCache, IpAddress, MAX_TTL, MIN_TTL,
};
use safethrottle::udp::{
    learn_query, learn_reply, reply_deadline, Endpoint, UdpEvent, UdpFlow, UdpStage,
    UDP_REPLY_TIMEOUT,
};

const SEC: u64 = 1_000_000_000;

fn v4(a: u8, b: u8, c: u8, d: u8) -> IpAddress {
    IpAddress::V4(u32::from_be_bytes([a, b, c, d]))
}

fn wire_name(name: &str) -> Vec<u8> {
    let mut out = Vec::new();
    for label in name.split('.') {
        out.push(label.len() as u8);
        out.extend_from_slice(label.as_bytes());
    }
    out.push(0);
    out
}

fn record(name: &str, kind: u16, ttl: u32, data: &[u8]) -> Vec<u8> {
    let mut out = wire_name(name);
    out.extend_from_slice(&kind.to_be_bytes());
    out.extend_from_slice(&1u16.to_be_bytes());
    out.extend_from_slice(&ttl.to_be_bytes());
    out.extend_from_slice(&(data.len() as u16).to_be_bytes());
    out.extend_from_slice(data);
    out
}

fn reply(records: &[Vec<u8>]) -> Vec<u8> {
    let mut out = vec![0x12, 0x34, 0x81, 0x80, 0, 0];
    out.extend_from_slice(&(records.len() as u16).to_be_bytes());
    out.extend_from_slice(&[0, 0, 0, 0]);
    for r in records {
        out.extend_from_slice(r);
    }
    out
}

#[test]
fn learns_addresses_from_a_reply() {
    let six: u128 = 0x2001_0db8_0000_0000_0000_0000_0000_0001;
    let payload = reply(&[
        record("WWW.Example.com", 5, 300, &wire_name("edge.example.net")),
        record("Edge.Example.NET", 1, 300, &[192, 0, 2, 7]),
        record("edge.example.net", 28, 5, &six.to_be_bytes()),
    ]);
    let mut dns = DnsCache::new(8);
    dns.learn_from_payload(&payload, 0);
    assert_eq!(dns.lookup(v4(192, 0, 2, 7), 0).as_deref(), Some("edge.example.net"));
    assert_eq!(dns.lookup(IpAddress::V6(six), 0).as_deref(), Some("edge.example.net"));
    assert_eq!(dns.lookup(v4(192, 0, 2, 7), 300 * SEC - 1).as_deref(), Some("edge.example.net"));
    assert_eq!(dns.lookup(v4(192, 0, 2, 7), 300 * SEC), None);
    // A short time to live counts as thirty seconds.
    assert_eq!(dns.lookup(IpAddress::V6(six), 30 * SEC - 1).as_deref(), Some("edge.example.net"));
    assert_eq!(dns.lookup(IpAddress::V6(six), 30 * SEC), None);
}

#[test]
fn what_is_no_message_teaches_nothing() {
    let mut dns = DnsCache::new(8);
    dns.learn_from_payload(&[1, 2, 3], 0);
    dns.learn_from_payload(&[], 0);
    let mut cut = reply(&[record("a.b", 1, 300, &[192, 0, 2, 7])]);
    cut.truncate(cut.len() - 2);
    dns.learn_from_payload(&cut, 0);
    assert_eq!(dns.lookup(v4(192, 0, 2, 7), 0), None);
}

#[test]
fn learns_given_answers_in_order() {
    let mut dns = DnsCache::new(8);
    let answers = vec![
        DnsAnswer { name: "Old.org.".to_string(), ttl: 60, data: AnswerData::A(1) },
        DnsAnswer { name: "alias.org.".to_string(), ttl: 60, data: AnswerData::Other },
        DnsAnswer { name: "New.org..".to_string(), ttl: 60, data: AnswerData::A(1) },
        DnsAnswer { name: "six.org".to_string(), ttl: 60, data: AnswerData::Aaaa(1) },
    ];
    dns.learn(&answers, 0);
    assert_eq!(dns.lookup(IpAddress::V4(1), 0).as_deref(), Some("new.org"));
    assert_eq!(dns.lookup(IpAddress::V6(1), 0).as_deref(), Some("six.org"));
}

#[test]
fn times_to_live_are_clamped() {
    let mut dns = DnsCache::new(4);
    dns.insert(IpAddress::V4(1), "short".to_string(), 0, 5);
    dns.insert(IpAddress::V4(2), "long".to_string(), u64::MAX, 5);
    assert_eq!(dns.lookup(IpAddress::V4(1), 5 + MIN_TTL - 1).as_deref(), Some("short"));
    assert_eq!(dns.lookup(IpAddress::V4(1), 5 + MIN_TTL), None);
    assert_eq!(dns.lookup(IpAddress::V4(2), 5 + MAX_TTL - 1).as_deref(), Some("long"));
    assert_eq!(dns.lookup(IpAddress::V4(2), 5 + MAX_TTL), None);
}

#[test]
fn the_least_recently_used_entry_makes_way() {
    let mut dns = DnsCache::new(2);
    dns.insert(IpAddress::V4(1), "one".to_string(), 60 * SEC, 0);
    dns.insert(IpAddress::V4(2), "two".to_string(), 60 * SEC, 0);
    assert_eq!(dns.lookup(IpAddress::V4(1), 0).as_deref(), Some("one"));
    dns.insert(IpAddress::V4(3), "three".to_string(), 60 * SEC, 0);
    assert_eq!(dns.lookup(IpAddress::V4(2), 0), None);
    assert_eq!(dns.lookup(IpAddress::V4(1), 0).as_deref(), Some("one"));
    assert_eq!(dns.lookup(IpAddress::V4(3), 0).as_deref(), Some("three"));
}

#[test]
fn an_expired_entry_is_dropped() {
    let mut dns = DnsCache::new(2);
    dns.insert(IpAddress::V4(1), "one".to_string(), 60 * SEC, 0);
    assert_eq!(dns.lookup(IpAddress::V4(1), 60 * SEC), None);
    // Gone for good, even for an earlier time.
    assert_eq!(dns.lookup(IpAddress::V4(1), 0), None);
}

#[test]
fn a_new_name_replaces_the_old_one_and_leaves_others() {
    let mut dns = DnsCache::new(2);
    dns.insert(IpAddress::V4(1), "one".to_string(), 60 * SEC, 0);
    dns.insert(IpAddress::V4(2), "two".to_string(), 60 * SEC, 0);
    dns.insert(IpAddress::V4(1), "uno".to_string(), 60 * SEC, 0);
    assert_eq!(dns.lookup(IpAddress::V4(1), 0).as_deref(), Some("uno"));
    assert_eq!(dns.lookup(IpAddress::V4(2), 0).as_deref(), Some("two"));
    assert_eq!(dns.lookup(IpAddress::V6(1), 0), None);
}

#[test]
fn a_capacity_of_zero_counts_as_one() {
    let mut dns = DnsCache::new(0);
    dns.insert(IpAddress::V4(1), "one".to_string(), 60 * SEC, 0);
    assert_eq!(dns.lookup(IpAddress::V4(1), 0).as_deref(), Some("one"));
    dns.insert(IpAddress::V4(2), "two".to_string(), 60 * SEC, 0);
    assert_eq!(dns.lookup(IpAddress::V4(1), 0), None);
    assert_eq!(dns.lookup(IpAddress::V4(2), 0).as_deref(), Some("two"));
}

#[test]
fn only_dns_datagrams_are_learnt_from() {
    let payload = reply(&[record("a.example", 1, 60, &[192, 0, 2, 1])]);
    let ip = v4(192, 0, 2, 1);
    let mut dns = DnsCache::new(8);
    learn_query(&mut dns, &payload, 40000, 443, 0);
    learn_reply(&mut dns, &payload, 443, 0);
    assert_eq!(dns.lookup(ip, 0), None);
    learn_query(&mut dns, &payload, 53, 40000, 0);
    assert_eq!(dns.lookup(ip, 0).as_deref(), Some("a.example"));

    let mut dns = DnsCache::new(8);
    learn_query(&mut dns, &payload, 40000, 53, 0);
    assert_eq!(dns.lookup(ip, 0).as_deref(), Some("a.example"));

    let mut dns = DnsCache::new(8);
    learn_reply(&mut dns, &payload, 53, 0);
    assert_eq!(dns.lookup(ip, 0).as_deref(), Some("a.example"));
}

#[test]
fn replies_are_relayed_for_thirty_seconds() {
    assert_eq!(reply_deadline(5), 5 + UDP_REPLY_TIMEOUT);
    assert_eq!(UDP_REPLY_TIMEOUT, 30 * SEC);
}

fn ends(remote_port: u16) -> (Endpoint, Endpoint) {
    (Endpoint { ip: v4(10, 0, 0, 1), port: 40000 }, Endpoint { ip: v4(9, 9, 9, 9), port: remote_port })
}

#[test]
fn replies_go_back_with_the_addresses_swapped() {
    let (local, remote) = ends(53);
    let payload = reply(&[record("a.example", 1, 60, &[192, 0, 2, 1])]);
    let mut dns = DnsCache::new(8);
    let flow = UdpFlow::accept(vec![1, 2], local, remote, &mut dns, 0);
    assert!(matches!(&flow.stage, UdpStage::Dial { data } if *data == [1, 2]));
    let (flow, back) = flow.advance(UdpEvent::Dialled, &mut dns, SEC);
    assert!(back.is_none());
    assert!(matches!(&flow.stage, UdpStage::Send { data } if *data == [1, 2]));
    let (flow, back) = flow.advance(UdpEvent::Sent, &mut dns, 2 * SEC);
    assert!(back.is_none());
    assert!(matches!(flow.stage, UdpStage::Replies { deadline } if deadline == 32 * SEC));

    let (flow, back) = flow.advance(UdpEvent::Reply(payload.clone()), &mut dns, 3 * SEC);
    let back = back.expect("a reply");
    assert_eq!((back.data, back.source, back.target), (payload, remote, local));
    assert_eq!(dns.lookup(v4(192, 0, 2, 1), 3 * SEC).as_deref(), Some("a.example"));
    let (flow, back) = flow.advance(UdpEvent::Reply(Vec::new()), &mut dns, 31 * SEC);
    assert!(back.expect("a reply").data.is_empty());
    assert!(matches!(flow.stage, UdpStage::Replies { deadline } if deadline == 32 * SEC));

    let (flow, back) = flow.advance(UdpEvent::RepliesEnded, &mut dns, 32 * SEC);
    assert!(back.is_none());
    assert!(matches!(flow.stage, UdpStage::Ended));
    let (flow, back) = flow.advance(UdpEvent::Reply(vec![7]), &mut dns, 33 * SEC);
    assert!(back.is_none());
    assert!(matches!(flow.stage, UdpStage::Ended));
}

#[test]
fn a_datagram_that_cannot_be_dialled_or_sent_ends() {
    let (local, remote) = ends(443);
    let payload = reply(&[record("a.example", 1, 60, &[192, 0, 2, 1])]);
    let mut dns = DnsCache::new(8);
    let flow = UdpFlow::accept(payload.clone(), local, remote, &mut dns, 0);
    let (ended, _) = flow.clone().advance(UdpEvent::DialFailed, &mut dns, 0);
    assert!(matches!(ended.stage, UdpStage::Ended));
    let (same, back) = flow.clone().advance(UdpEvent::Reply(vec![7]), &mut dns, 0);
    assert!(back.is_none());
    assert!(matches!(same.stage, UdpStage::Dial { .. }));
    let (sending, _) = flow.advance(UdpEvent::Dialled, &mut dns, 0);
    let (ended, _) = sending.clone().advance(UdpEvent::SendFailed, &mut dns, 0);
    assert!(matches!(ended.stage, UdpStage::Ended));

    // Replies of other servers go back too, but teach nothing.
    let (waiting, _) = sending.advance(UdpEvent::Sent, &mut dns, 0);
    let (_, back) = waiting.advance(UdpEvent::Reply(payload), &mut dns, 0);
    assert!(back.is_some());
    assert_eq!(dns.lookup(v4(192, 0, 2, 1), 0), None);
}
