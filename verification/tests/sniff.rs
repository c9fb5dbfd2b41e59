use safethrottle::sniff::{extract_sni, has_complete_tls_record, parse_sni_list};

fn client_hello(extensions: &[u8]) -> Vec<u8> {
    let mut body = Vec::new();
    body.extend_from_slice(&[0x03, 0x03]); // version
    body.extend_from_slice(&[0u8; 32]); // random
    body.push(0); // session id len
    body.extend_from_slice(&2u16.to_be_bytes()); // cipher suites len
    body.extend_from_slice(&[0x00, 0x2f]); // TLS_RSA_WITH_AES_128_CBC_SHA
    body.push(1); // compression methods len
    body.push(0); // null
    body.extend_from_slice(&(extensions.len() as u16).to_be_bytes());
    body.extend_from_slice(extensions);

    let mut hs = Vec::new();
    hs.push(0x01); // client_hello
    let len = body.len();
    hs.push(((len >> 16) & 0xff) as u8);
    hs.push(((len >> 8) & 0xff) as u8);
    hs.push((len & 0xff) as u8);
    hs.extend_from_slice(&body);

    let mut record = Vec::new();
    record.push(0x16);
    record.extend_from_slice(&[0x03, 0x01]);
    record.extend_from_slice(&(hs.len() as u16).to_be_bytes());
    record.extend_from_slice(&hs);
    record
}

fn server_name_list(host: &[u8]) -> Vec<u8> {
    let mut sni_entry = Vec::new();
    sni_entry.push(0); // host_name
    sni_entry.extend_from_slice(&(host.len() as u16).to_be_bytes());
    sni_entry.extend_from_slice(host);

    let mut sni_ext = Vec::new();
    sni_ext.extend_from_slice(&(sni_entry.len() as u16).to_be_bytes());
    sni_ext.extend_from_slice(&sni_entry);
    sni_ext
}

fn extension(kind: u16, data: &[u8]) -> Vec<u8> {
    let mut ext = Vec::new();
    ext.extend_from_slice(&kind.to_be_bytes());
    ext.extend_from_slice(&(data.len() as u16).to_be_bytes());
    ext.extend_from_slice(data);
    ext
}

fn client_hello_with_sni(host: &str) -> Vec<u8> {
    client_hello(&extension(0, &server_name_list(host.as_bytes())))
}

#[test]
fn extracts_sni() {
    let pkt = client_hello_with_sni("www.youtube.com");
    assert_eq!(extract_sni(&pkt).as_deref(), Some("www.youtube.com"));
    assert!(has_complete_tls_record(&pkt));
}

#[test]
fn partial_record_is_incomplete() {
    let pkt = client_hello_with_sni("www.substack.com");
    assert!(extract_sni(&pkt[..10]).is_none());
    assert!(!has_complete_tls_record(&pkt[..10]));
    assert_eq!(extract_sni(&pkt).as_deref(), Some("www.substack.com"));
}

#[test]
fn every_cut_of_a_hello_is_incomplete() {
    let pkt = client_hello_with_sni("www.substack.com");
    for n in 0..pkt.len() {
        assert!(!has_complete_tls_record(&pkt[..n]));
        assert!(extract_sni(&pkt[..n]).is_none());
    }
}

#[test]
fn later_bytes_keep_the_name() {
    let mut pkt = client_hello_with_sni("www.substack.com");
    pkt.extend_from_slice(&[0xff; 100]);
    assert_eq!(extract_sni(&pkt).as_deref(), Some("www.substack.com"));
}

#[test]
fn sni_behind_other_extensions_in_lower_case() {
    let mut exts = extension(10, &[0, 2, 0, 29]);
    exts.extend_from_slice(&extension(0, &server_name_list(b"WWW.YouTube.COM")));
    assert_eq!(extract_sni(&client_hello(&exts)).as_deref(), Some("www.youtube.com"));
}

#[test]
fn hello_without_the_extension_names_nothing() {
    let pkt = client_hello(&extension(10, &[0, 2, 0, 29]));
    assert!(has_complete_tls_record(&pkt));
    assert!(extract_sni(&pkt).is_none());
}

#[test]
fn names_that_are_not_utf8_are_no_names() {
    let pkt = client_hello(&extension(0, &server_name_list(&[0xff, 0xfe])));
    assert!(has_complete_tls_record(&pkt));
    assert!(extract_sni(&pkt).is_none());
    assert_eq!(
        parse_sni_list(&server_name_list("b\u{fc}cher.de".as_bytes())).as_deref(),
        Some("b\u{fc}cher.de")
    );
}

#[test]
fn server_name_lists() {
    assert_eq!(parse_sni_list(&server_name_list(b"a.b")).as_deref(), Some("a.b"));
    assert!(parse_sni_list(&[]).is_none());
    assert!(parse_sni_list(&[0, 5, 0, 0, 9, b'a']).is_none());
    let mut list = vec![0u8, 10];
    list.extend_from_slice(&[1, 0, 1, b'x']);
    list.extend_from_slice(&[0, 0, 3, b'a', b'.', b'B']);
    assert_eq!(parse_sni_list(&list).as_deref(), Some("a.b"));
}

#[test]
fn other_records_are_no_hellos() {
    let mut pkt = client_hello_with_sni("www.youtube.com");
    pkt[0] = 0x17;
    assert!(!has_complete_tls_record(&pkt));
    assert!(extract_sni(&pkt).is_none());
    let mut server = client_hello_with_sni("www.youtube.com");
    server[5] = 0x02;
    assert!(has_complete_tls_record(&server));
    assert!(extract_sni(&server).is_none());
}
