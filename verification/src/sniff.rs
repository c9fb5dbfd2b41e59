//! Minimal TLS ClientHello server-name extraction (no crypto). Peeked bytes must be replayed.

use crate::text::{lowered, string_of, chars_of, to_lowercase};
use vstd::prelude::*;
use vstd::slice::slice_subrange;
#[allow(unused_imports)]
use vstd::string::StringSliceAdditionalSpecFns;
#[allow(unused_imports)]
use vstd::utf8::{decode_utf8, encode_utf8, valid_utf8};

verus! {

/// The big-endian 16-bit number at position `at`.
pub open spec fn be16(s: Seq<u8>, at: int) -> int {
    s[at] * 256 + s[at + 1]
}

/// The big-endian 24-bit number at position `at`.
pub open spec fn be24(s: Seq<u8>, at: int) -> int {
    s[at] * 65536 + s[at + 1] * 256 + s[at + 2]
}

/// The buffer begins with a whole TLS handshake record: type 22, two version bytes, a 16-bit
/// length, and that many bytes.
pub open spec fn record_complete(buf: Seq<u8>) -> bool {
    buf.len() >= 5 && buf[0] == 0x16 && buf.len() >= 5 + be16(buf, 3)
}

/// What the first record carries.
pub open spec fn record_payload(buf: Seq<u8>) -> Seq<u8> {
    buf.subrange(5, 5 + be16(buf, 3))
}

/// The position behind a vector with an 8-bit length at `at`.
pub open spec fn after_vec8(s: Seq<u8>, at: int) -> Option<int> {
    if at + 1 <= s.len() {
        Some(at + 1 + s[at])
    } else {
        None
    }
}

/// The position behind a vector with a 16-bit length at `at`.
pub open spec fn after_vec16(s: Seq<u8>, at: int) -> Option<int> {
    if at + 2 <= s.len() {
        Some(at + 2 + be16(s, at))
    } else {
        None
    }
}

/// The extension block of a ClientHello handshake message: type 1, a 24-bit length, version and
/// random (34 bytes), session id, cipher suites, compression methods, extensions.
pub open spec fn hello_extensions(hs: Seq<u8>) -> Option<Seq<u8>> {
    if hs.len() < 4 || hs[0] != 1 || hs.len() < 4 + be24(hs, 1) || hs.len() < 38 {
        None
    } else {
        match after_vec8(hs, 38) {
            None => None,
            Some(suites) => match after_vec16(hs, suites) {
                None => None,
                Some(compression) => match after_vec8(hs, compression) {
                    None => None,
                    Some(extensions) => match after_vec16(hs, extensions) {
                        None => None,
                        Some(end) => if end <= hs.len() {
                            Some(hs.subrange(extensions + 2, end))
                        } else {
                            None
                        },
                    },
                },
            },
        }
    }
}

/// The data of the first server-name extension (type 0) of an extension block.
pub open spec fn server_name_data(exts: Seq<u8>) -> Option<Seq<u8>>
    decreases exts.len(),
{
    if exts.len() < 4 || exts.len() < 4 + be16(exts, 2) {
        None
    } else if be16(exts, 0) == 0 {
        Some(exts.subrange(4, 4 + be16(exts, 2)))
    } else {
        server_name_data(exts.skip(4 + be16(exts, 2)))
    }
}

/// The bytes of the first host name (type 0) among the entries of a server-name list.
pub open spec fn host_name_entry(entries: Seq<u8>) -> Option<Seq<u8>>
    decreases entries.len(),
{
    if entries.len() < 3 || entries.len() < 3 + be16(entries, 1) {
        None
    } else if entries[0] == 0 {
        Some(entries.subrange(3, 3 + be16(entries, 1)))
    } else {
        host_name_entry(entries.skip(3 + be16(entries, 1)))
    }
}

/// The host name that the data of a server-name extension gives, in lower case.
pub open spec fn listed_name(ext: Seq<u8>) -> Option<Seq<char>> {
    if ext.len() < 2 || ext.len() < 2 + be16(ext, 0) {
        None
    } else {
        match host_name_entry(ext.skip(2)) {
            Some(name) => if valid_utf8(name) {
                Some(lowered(decode_utf8(name)))
            } else {
                None
            },
            None => None,
        }
    }
}

/// The server name that the first record of the buffer asks for, in lower case.
pub open spec fn sni_of(buf: Seq<u8>) -> Option<Seq<char>> {
    if !record_complete(buf) {
        None
    } else {
        match hello_extensions(record_payload(buf)) {
            None => None,
            Some(exts) => match server_name_data(exts) {
                None => None,
                Some(ext) => listed_name(ext),
            },
        }
    }
}

/// The characters that an optional string holds.
pub open spec fn opt_text(s: Option<String>) -> Option<Seq<char>> {
    match s {
        Some(t) => Some(t@),
        None => None,
    }
}

fn read16(s: &[u8], at: usize) -> (r: usize)
    requires
        at + 2 <= s@.len(),
    ensures
        r == be16(s@, at as int),
        r <= 0xffff,
{
    s[at] as usize * 256 + s[at + 1] as usize
}

/// `std::str::from_utf8`: the bytes as text if they are valid UTF-8, and nothing otherwise.
#[verifier::external_body]
fn utf8_text(bytes: &[u8]) -> (r: Option<&str>)
    ensures
        r is Some <==> valid_utf8(bytes@),
        r matches Some(s) ==> s.spec_bytes() == bytes@,
{
    std::str::from_utf8(bytes).ok()
}

/// True when `buf` contains a full TLS record header and payload.
pub fn has_complete_tls_record(buf: &[u8]) -> (r: bool)
    ensures
        r == record_complete(buf@),
{
    if buf.len() < 5 {
        return false;
    }
    if buf[0] != 0x16 {
        return false;
    }
    let record_len: usize = read16(buf, 3);
    buf.len() >= 5 + record_len
}

/// The lower-case server name of the ClientHello in the first record, if the record is complete
/// and names a host.
pub fn extract_sni(buf: &[u8]) -> (r: Option<String>)
    ensures
        opt_text(r) == sni_of(buf@),
{
    if !has_complete_tls_record(buf) {
        return None;
    }
    let record_len: usize = read16(buf, 3);
    let hs = slice_subrange(buf, 5, 5 + record_len);
    assert(hs@ == record_payload(buf@));
    assert(hs@.len() <= 0xffff);
    if hs.len() < 4 || hs[0] != 0x01 {
        return None;
    }
    let hs_len: usize = hs[1] as usize * 65536 + hs[2] as usize * 256 + hs[3] as usize;
    if hs.len() < 4 + hs_len {
        return None;
    }
    let mut i: usize = 4;
    // client_version(2) + random(32)
    if hs.len() < i + 34 {
        return None;
    }
    i += 34;
    // session_id
    if hs.len() < i + 1 {
        return None;
    }
    i += 1 + hs[i] as usize;
    // cipher_suites
    if hs.len() < i + 2 {
        return None;
    }
    i += 2 + read16(hs, i);
    // compression
    if hs.len() < i + 1 {
        return None;
    }
    i += 1 + hs[i] as usize;
    // extensions
    if hs.len() < i + 2 {
        return None;
    }
    let ext_len: usize = read16(hs, i);
    i += 2;
    if hs.len() < i + ext_len {
        return None;
    }
    let end: usize = i + ext_len;
    let ghost exts = hs@.subrange(i as int, end as int);
    assert(hello_extensions(hs@) == Some(exts));
    while i + 4 <= end
        invariant_except_break
            server_name_data(exts) == server_name_data(hs@.subrange(i as int, end as int)),
        invariant
            i <= end <= hs@.len() <= 0xffff,
            opt_text(None) == None::<Seq<char>>,
            sni_of(buf@) == match server_name_data(exts) {
                None => None,
                Some(ext) => listed_name(ext),
            },
        ensures
            server_name_data(exts) is None,
        decreases end - i,
    {
        let ghost rest = hs@.subrange(i as int, end as int);
        let typ: usize = read16(hs, i);
        let len: usize = read16(hs, i + 2);
        i += 4;
        if i + len > end {
            break;
        }
        if typ == 0 {
            // server_name extension
            let ext = slice_subrange(hs, i, i + len);
            assert(rest.subrange(4, 4 + len as int) == ext@);
            return parse_sni_list(ext);
        }
        i += len;
        assert(rest.skip(4 + len as int) == hs@.subrange(i as int, end as int));
    }
    None
}

/// The lower-case host name in the data of a server-name extension.
pub fn parse_sni_list(ext: &[u8]) -> (r: Option<String>)
    ensures
        opt_text(r) == listed_name(ext@),
{
    if ext.len() < 2 {
        return None;
    }
    let size: usize = ext.len();
    let list_len: usize = read16(ext, 0);
    let mut i: usize = 2;
    if size < 2 + list_len {
        return None;
    }
    let ghost entries = ext@.skip(2);
    while size >= 3 && i <= size - 3
        invariant
            2 <= i <= size == ext@.len(),
            opt_text(None) == None::<Seq<char>>,
            host_name_entry(entries) == host_name_entry(ext@.skip(i as int)),
            listed_name(ext@) == match host_name_entry(entries) {
                Some(name) => if valid_utf8(name) {
                    Some(lowered(decode_utf8(name)))
                } else {
                    None
                },
                None => None,
            },
        decreases size - i,
    {
        let ghost rest = ext@.skip(i as int);
        let name_type: u8 = ext[i];
        let name_len: usize = read16(ext, i + 1);
        i += 3;
        if name_len > size - i {
            return None;
        }
        if name_type == 0 {
            let name = slice_subrange(ext, i, i + name_len);
            assert(rest.subrange(3, 3 + name_len as int) == name@);
            return match utf8_text(name) {
                Some(s) => {
                    proof {
                        vstd::utf8::encode_utf8_decode_utf8(s@);
                    }
                    Some(string_of(&to_lowercase(&chars_of(s))))
                },
                None => None,
            };
        }
        i += name_len;
        assert(rest.skip(3 + name_len as int) == ext@.skip(i as int));
    }
    None
}

/// Bytes that arrive behind a complete record change neither its completeness nor its server
/// name: once a decision can be made, reading on cannot revise it.
pub proof fn lemma_more_bytes_keep_the_name(buf: Seq<u8>, more: Seq<u8>)
    requires
        record_complete(buf),
    ensures
        record_complete(buf + more),
        sni_of(buf + more) == sni_of(buf),
{
    assert(record_payload(buf + more) =~= record_payload(buf));
}

/// A buffer that yields a server name holds a complete record.
pub proof fn lemma_name_needs_complete_record(buf: Seq<u8>)
    ensures
        sni_of(buf) is Some ==> record_complete(buf),
{
}

/// A 16-bit number in big-endian order.
pub open spec fn enc16(n: nat) -> Seq<u8> {
    seq![(n / 256) as u8, (n % 256) as u8]
}

/// A 24-bit number in big-endian order.
pub open spec fn enc24(n: nat) -> Seq<u8> {
    seq![(n / 65536) as u8, ((n / 256) % 256) as u8, (n % 256) as u8]
}

/// A vector with an 8-bit length.
pub open spec fn vec8(data: Seq<u8>) -> Seq<u8> {
    seq![data.len() as u8] + data
}

/// A vector with a 16-bit length.
pub open spec fn vec16(data: Seq<u8>) -> Seq<u8> {
    enc16(data.len()) + data
}

/// One extension of a ClientHello.
pub open spec fn extension(kind: nat, data: Seq<u8>) -> Seq<u8> {
    enc16(kind) + vec16(data)
}

/// Extensions one behind the other.
pub open spec fn extension_block(list: Seq<(nat, Seq<u8>)>) -> Seq<u8>
    decreases list.len(),
{
    if list.len() == 0 {
        Seq::empty()
    } else {
        extension(list[0].0, list[0].1) + extension_block(list.drop_first())
    }
}

/// The data of a server-name extension that lists one host.
pub open spec fn server_name_list(host: Seq<u8>) -> Seq<u8> {
    vec16(seq![0u8] + vec16(host))
}

/// The fields of a ClientHello other than its extensions.
pub struct HelloFields {
    pub record_version: Seq<u8>,
    pub version_and_random: Seq<u8>,
    pub session_id: Seq<u8>,
    pub cipher_suites: Seq<u8>,
    pub compression: Seq<u8>,
}

impl HelloFields {
    /// Each field has the size that the wire format gives it.
    pub open spec fn wf(self) -> bool {
        &&& self.record_version.len() == 2
        &&& self.version_and_random.len() == 34
        &&& self.session_id.len() <= 0xff
        &&& self.cipher_suites.len() <= 0xffff
        &&& self.compression.len() <= 0xff
    }

    pub open spec fn body(self, exts: Seq<u8>) -> Seq<u8> {
        self.version_and_random + vec8(self.session_id) + vec16(self.cipher_suites) + vec8(
            self.compression,
        ) + vec16(exts)
    }

    pub open spec fn handshake(self, exts: Seq<u8>) -> Seq<u8> {
        seq![1u8] + enc24(self.body(exts).len()) + self.body(exts)
    }

    /// The record that carries the ClientHello with these fields and this extension block.
    pub open spec fn record(self, exts: Seq<u8>) -> Seq<u8> {
        seq![0x16u8] + self.record_version + vec16(self.handshake(exts))
    }
}


proof fn lemma_hello_layout(fields: HelloFields, exts: Seq<u8>)
    requires
        fields.wf(),
        exts.len() <= 0xffff,
        fields.handshake(exts).len() <= 0xffff,
    ensures
        hello_extensions(fields.handshake(exts)) == Some(exts),
{
    let hs = fields.handshake(exts);
    let body = fields.body(exts);
    assert(hs.len() == 4 + body.len());
    assert(forall|i: int| 0 <= i < body.len() ==> #[trigger] hs[4 + i] == body[i]);
    assert(be24(hs, 1) == body.len());
    let sid = fields.session_id;
    let cs = fields.cipher_suites;
    let co = fields.compression;
    let vr = fields.version_and_random;
    assert(body[34] == sid.len() as u8);
    assert(hs[38] == body[34]);
    let a: int = 39 + sid.len() as int;
    assert(after_vec8(hs, 38) == Some(a));
    assert(body[35 + sid.len() as int] == enc16(cs.len())[0]);
    assert(body[36 + sid.len() as int] == enc16(cs.len())[1]);
    assert(hs[a] == body[35 + sid.len() as int]);
    assert(hs[a + 1] == body[36 + sid.len() as int]);
    let b: int = a + 2 + cs.len();
    assert(after_vec16(hs, a) == Some(b));
    assert(body[b - 4] == co.len() as u8);
    assert(hs[b] == body[b - 4]);
    let c: int = b + 1 + co.len();
    assert(after_vec8(hs, b) == Some(c));
    assert(body[c - 4] == enc16(exts.len())[0]);
    assert(body[c - 3] == enc16(exts.len())[1]);
    assert(hs[c] == body[c - 4]);
    assert(hs[c + 1] == body[c - 3]);
    let d: int = c + 2 + exts.len();
    assert(after_vec16(hs, c) == Some(d));
    assert(hs.subrange(c + 2, d) =~= exts);
}

proof fn lemma_first_extension(kind: nat, data: Seq<u8>, rest: Seq<u8>)
    requires
        kind <= 0xffff,
        data.len() <= 0xffff,
    ensures
        server_name_data(extension(kind, data) + rest) == if kind == 0 {
            Some(data)
        } else {
            server_name_data(rest)
        },
{
    let all = extension(kind, data) + rest;
    assert(be16(all, 0) == kind);
    assert(be16(all, 2) == data.len());
    assert(all.subrange(4, 4 + data.len() as int) =~= data);
    assert(all.skip(4 + data.len() as int) =~= rest);
}

proof fn lemma_skip_other_extensions(list: Seq<(nat, Seq<u8>)>, rest: Seq<u8>)
    requires
        forall|i: int|
            0 <= i < list.len() ==> 0 < (#[trigger] list[i]).0 <= 0xffff && list[i].1.len()
                <= 0xffff,
    ensures
        server_name_data(extension_block(list) + rest) == server_name_data(rest),
    decreases list.len(),
{
    if list.len() == 0 {
        assert(extension_block(list) + rest =~= rest);
    } else {
        let tail = list.drop_first();
        assert forall|i: int| 0 <= i < tail.len() implies 0 < (#[trigger] tail[i]).0 <= 0xffff
            && tail[i].1.len() <= 0xffff by {
            assert(tail[i] == list[i + 1]);
        }
        lemma_skip_other_extensions(tail, rest);
        assert(extension_block(list) + rest =~= extension(list[0].0, list[0].1) + (
        extension_block(tail) + rest));
        lemma_first_extension(list[0].0, list[0].1, extension_block(tail) + rest);
    }
}

proof fn lemma_record_payload(fields: HelloFields, exts: Seq<u8>)
    requires
        fields.wf(),
        fields.handshake(exts).len() <= 0xffff,
    ensures
        record_complete(fields.record(exts)),
        record_payload(fields.record(exts)) == fields.handshake(exts),
{
    let record = fields.record(exts);
    let hs = fields.handshake(exts);
    assert(record[3] == enc16(hs.len())[0]);
    assert(record[4] == enc16(hs.len())[1]);
    assert(record.subrange(5, 5 + hs.len() as int) =~= hs);
}

proof fn lemma_handshake_len(fields: HelloFields, exts: Seq<u8>)
    ensures
        fields.handshake(exts).len() >= exts.len(),
{
}

proof fn lemma_list_len(host: Seq<u8>)
    ensures
        server_name_list(host).len() == host.len() + 5,
{
}

proof fn lemma_server_name_found(
    before: Seq<(nat, Seq<u8>)>,
    data: Seq<u8>,
    after: Seq<u8>,
)
    requires
        forall|i: int|
            0 <= i < before.len() ==> 0 < (#[trigger] before[i]).0 <= 0xffff && before[i].1.len()
                <= 0xffff,
        (extension_block(before) + extension(0, data) + after).len() <= 0xffff,
    ensures
        data.len() + 4 <= 0xffff,
        server_name_data(extension_block(before) + extension(0, data) + after) == Some(data),
{
    assert(extension_block(before) + extension(0, data) + after =~= extension_block(before) + (
    extension(0, data) + after));
    lemma_skip_other_extensions(before, extension(0, data) + after);
    lemma_first_extension(0, data, after);
}

proof fn lemma_record_name(fields: HelloFields, exts: Seq<u8>)
    requires
        fields.wf(),
        exts.len() <= 0xffff,
        fields.handshake(exts).len() <= 0xffff,
    ensures
        sni_of(fields.record(exts)) == match server_name_data(exts) {
            None => None,
            Some(ext) => listed_name(ext),
        },
{
    lemma_record_payload(fields, exts);
    lemma_hello_layout(fields, exts);
}

proof fn lemma_one_host_list(host: Seq<char>)
    requires
        encode_utf8(host).len() + 3 <= 0xffff,
    ensures
        listed_name(server_name_list(encode_utf8(host))) == Some(lowered(host)),
{
    let name = encode_utf8(host);
    let data = server_name_list(name);
    let entries = data.skip(2);
    assert(be16(data, 0) == 3 + name.len());
    assert(entries =~= seq![0u8] + vec16(name));
    assert(be16(entries, 1) == name.len());
    assert(entries.subrange(3, 3 + name.len() as int) =~= name);
    assert(host_name_entry(entries) == Some(name));
    vstd::utf8::encode_utf8_valid_utf8(host);
    vstd::utf8::encode_utf8_decode_utf8(host);
}

/// The name in a ClientHello is found: for every ClientHello that fits in a record, whatever its
/// other fields and extensions, the host that its server-name extension lists comes out, in lower
/// case.
pub proof fn lemma_listed_host_is_extracted(
    fields: HelloFields,
    before: Seq<(nat, Seq<u8>)>,
    host: Seq<char>,
    after: Seq<u8>,
)
    requires
        fields.wf(),
        forall|i: int|
            0 <= i < before.len() ==> 0 < (#[trigger] before[i]).0 <= 0xffff && before[i].1.len()
                <= 0xffff,
        fields.handshake(
            extension_block(before) + extension(0, server_name_list(encode_utf8(host))) + after,
        ).len() <= 0xffff,
    ensures
        sni_of(
            fields.record(
                extension_block(before) + extension(0, server_name_list(encode_utf8(host))) + after,
            ),
        ) == Some(lowered(host)),
{
    let data = server_name_list(encode_utf8(host));
    let exts = extension_block(before) + extension(0, data) + after;
    lemma_handshake_len(fields, exts);
    lemma_server_name_found(before, data, after);
    lemma_record_name(fields, exts);
    lemma_list_len(encode_utf8(host));
    lemma_one_host_list(host);
}

/// A ClientHello without a server-name extension names no host.
pub proof fn lemma_no_extension_no_name(fields: HelloFields, list: Seq<(nat, Seq<u8>)>)
    requires
        fields.wf(),
        forall|i: int|
            0 <= i < list.len() ==> 0 < (#[trigger] list[i]).0 <= 0xffff && list[i].1.len()
                <= 0xffff,
        fields.handshake(extension_block(list)).len() <= 0xffff,
    ensures
        record_complete(fields.record(extension_block(list))),
        sni_of(fields.record(extension_block(list))) is None,
{
    let exts = extension_block(list);
    lemma_handshake_len(fields, exts);
    lemma_record_payload(fields, exts);
    lemma_record_name(fields, exts);
    lemma_skip_other_extensions(list, Seq::empty());
    assert(exts + Seq::<u8>::empty() =~= exts);
}

/// Entries of a server-name list, one behind the other: a type and a name each.
pub open spec fn entry_block(list: Seq<(u8, Seq<u8>)>) -> Seq<u8>
    decreases list.len(),
{
    if list.len() == 0 {
        Seq::empty()
    } else {
        seq![list[0].0] + vec16(list[0].1) + entry_block(list.drop_first())
    }
}

/// The data of a server-name extension: the length that the list claims, entries that are no hosts,
/// a host, and whatever follows.
pub open spec fn name_list(
    list_len: nat,
    before: Seq<(u8, Seq<u8>)>,
    host: Seq<char>,
    after: Seq<u8>,
) -> Seq<u8> {
    enc16(list_len) + (entry_block(before) + (seq![0u8] + vec16(encode_utf8(host)) + after))
}

/// Entries that are no hosts, with names that fit.
pub open spec fn no_hosts(list: Seq<(u8, Seq<u8>)>) -> bool {
    forall|i: int| 0 <= i < list.len() ==> (#[trigger] list[i]).0 != 0 && list[i].1.len() <= 0xffff
}

/// A buffer that begins with a ClientHello that names a host, taken apart. Lengths that nothing
/// else follows from are parts of their own.
pub struct HelloParts {
    pub fields: HelloFields,
    /// The length that the handshake message claims.
    pub hello_len: nat,
    /// The extensions in front of the server names.
    pub before: Seq<(nat, Seq<u8>)>,
    /// The length that the list of server names claims.
    pub list_len: nat,
    /// The entries in front of the host.
    pub names_before: Seq<(u8, Seq<u8>)>,
    pub host: Seq<char>,
    pub names_after: Seq<u8>,
    pub extensions_after: Seq<u8>,
    pub hello_after: Seq<u8>,
    /// What follows the record.
    pub rest: Seq<u8>,
}

impl HelloParts {
    pub open spec fn names(self) -> Seq<u8> {
        name_list(self.list_len, self.names_before, self.host, self.names_after)
    }

    pub open spec fn extensions(self) -> Seq<u8> {
        extension_block(self.before) + extension(0, self.names()) + self.extensions_after
    }

    pub open spec fn handshake(self) -> Seq<u8> {
        seq![1u8] + enc24(self.hello_len) + (self.fields.body(self.extensions())
            + self.hello_after)
    }

    pub open spec fn bytes(self) -> Seq<u8> {
        seq![0x16u8] + self.fields.record_version + vec16(self.handshake()) + self.rest
    }

    /// Every length fits its field, no claimed length is longer than what follows it, and nothing
    /// in front of the host is a host or a list of server names.
    pub open spec fn wf(self) -> bool {
        &&& self.fields.wf()
        &&& self.names().len() <= 0xffff
        &&& self.extensions().len() <= 0xffff
        &&& self.handshake().len() <= 0xffff
        &&& 2 + self.list_len <= self.names().len()
        &&& 4 + self.hello_len <= self.handshake().len()
        &&& forall|i: int|
            0 <= i < self.before.len() ==> 0 < (#[trigger] self.before[i]).0 <= 0xffff
                && self.before[i].1.len() <= 0xffff
        &&& no_hosts(self.names_before)
    }
}

proof fn lemma_hello_layout_within(
    fields: HelloFields,
    exts: Seq<u8>,
    hello_len: nat,
    after: Seq<u8>,
)
    requires
        fields.wf(),
        exts.len() <= 0xffff,
        4 + hello_len <= (seq![1u8] + enc24(hello_len) + (fields.body(exts) + after)).len()
            <= 0xffff,
    ensures
        hello_extensions(seq![1u8] + enc24(hello_len) + (fields.body(exts) + after)) == Some(exts),
{
    let body = fields.body(exts) + after;
    let hs = seq![1u8] + enc24(hello_len) + body;
    assert(hs.len() == 4 + body.len());
    assert(forall|i: int| 0 <= i < body.len() ==> #[trigger] hs[4 + i] == body[i]);
    assert(hs[0] == 1u8 && hs[1] == enc24(hello_len)[0] && hs[2] == enc24(hello_len)[1] && hs[3]
        == enc24(hello_len)[2]);
    assert(be24(hs, 1) == hello_len);
    let sid = fields.session_id;
    let cs = fields.cipher_suites;
    let co = fields.compression;
    assert(body[34] == sid.len() as u8);
    assert(hs[38] == body[34]);
    let a: int = 39 + sid.len() as int;
    assert(after_vec8(hs, 38) == Some(a));
    assert(body[35 + sid.len() as int] == enc16(cs.len())[0]);
    assert(body[36 + sid.len() as int] == enc16(cs.len())[1]);
    assert(hs[a] == body[35 + sid.len() as int]);
    assert(hs[a + 1] == body[36 + sid.len() as int]);
    let b: int = a + 2 + cs.len();
    assert(after_vec16(hs, a) == Some(b));
    assert(body[b - 4] == co.len() as u8);
    assert(hs[b] == body[b - 4]);
    let c: int = b + 1 + co.len();
    assert(after_vec8(hs, b) == Some(c));
    assert(body[c - 4] == enc16(exts.len())[0]);
    assert(body[c - 3] == enc16(exts.len())[1]);
    assert(hs[c] == body[c - 4]);
    assert(hs[c + 1] == body[c - 3]);
    let d: int = c + 2 + exts.len();
    assert(after_vec16(hs, c) == Some(d));
    assert(hs.subrange(c + 2, d) =~= exts);
}

proof fn lemma_first_entry(kind: u8, name: Seq<u8>, rest: Seq<u8>)
    requires
        name.len() <= 0xffff,
    ensures
        host_name_entry(seq![kind] + vec16(name) + rest) == if kind == 0 {
            Some(name)
        } else {
            host_name_entry(rest)
        },
{
    let all = seq![kind] + vec16(name) + rest;
    assert(all[0] == kind);
    assert(all[1] == enc16(name.len())[0] && all[2] == enc16(name.len())[1]);
    assert(be16(all, 1) == name.len());
    assert(all.subrange(3, 3 + name.len() as int) =~= name);
    assert(all.skip(3 + name.len() as int) =~= rest);
}

proof fn lemma_skip_other_entries(list: Seq<(u8, Seq<u8>)>, rest: Seq<u8>)
    requires
        forall|i: int|
            0 <= i < list.len() ==> (#[trigger] list[i]).0 != 0 && list[i].1.len() <= 0xffff,
    ensures
        host_name_entry(entry_block(list) + rest) == host_name_entry(rest),
    decreases list.len(),
{
    if list.len() == 0 {
        assert(entry_block(list) + rest =~= rest);
    } else {
        let tail = list.drop_first();
        assert(forall|i: int| 0 <= i < tail.len() ==> #[trigger] tail[i] == list[i + 1]);
        lemma_skip_other_entries(tail, rest);
        assert(entry_block(list) + rest =~= seq![list[0].0] + vec16(list[0].1) + (entry_block(tail)
            + rest));
        lemma_first_entry(list[0].0, list[0].1, entry_block(tail) + rest);
    }
}

proof fn lemma_names_read(
    list_len: nat,
    before: Seq<(u8, Seq<u8>)>,
    host: Seq<char>,
    after: Seq<u8>,
)
    requires
        no_hosts(before),
        list_len <= 0xffff,
        encode_utf8(host).len() <= 0xffff,
        2 + list_len <= name_list(list_len, before, host, after).len(),
    ensures
        listed_name(name_list(list_len, before, host, after)) == Some(lowered(host)),
{
    let name = encode_utf8(host);
    let data = name_list(list_len, before, host, after);
    let tail = seq![0u8] + vec16(name) + after;
    assert(data[0] == enc16(list_len)[0] && data[1] == enc16(list_len)[1]);
    assert(be16(data, 0) == list_len);
    assert(data.skip(2) =~= entry_block(before) + tail);
    lemma_skip_other_entries(before, tail);
    lemma_first_entry(0, name, after);
    vstd::utf8::encode_utf8_valid_utf8(host);
    vstd::utf8::encode_utf8_decode_utf8(host);
}

proof fn lemma_parts_read(p: HelloParts)
    requires
        p.wf(),
    ensures
        sni_of(p.bytes()) == Some(lowered(p.host)),
{
    let hs = p.handshake();
    let buf = p.bytes();
    assert(buf[0] == 0x16u8);
    assert(buf[3] == enc16(hs.len())[0] && buf[4] == enc16(hs.len())[1]);
    assert(be16(buf, 3) == hs.len());
    assert(record_payload(buf) =~= hs);
    lemma_hello_layout_within(p.fields, p.extensions(), p.hello_len, p.hello_after);
    lemma_server_name_found(p.before, p.names(), p.extensions_after);
    lemma_names_read(p.list_len, p.names_before, p.host, p.names_after);
}

proof fn lemma_enc16_back(s: Seq<u8>, at: int)
    requires
        0 <= at,
        at + 2 <= s.len(),
    ensures
        0 <= be16(s, at) <= 0xffff,
        enc16(be16(s, at) as nat) == s.subrange(at, at + 2),
{
    assert(enc16(be16(s, at) as nat) =~= s.subrange(at, at + 2));
}

proof fn lemma_extensions_taken_apart(exts: Seq<u8>) -> (r: (Seq<(nat, Seq<u8>)>, Seq<u8>))
    requires
        server_name_data(exts) is Some,
    ensures
        exts == extension_block(r.0) + extension(0, server_name_data(exts)->0) + r.1,
        server_name_data(exts)->0.len() <= 0xffff,
        forall|i: int|
            0 <= i < r.0.len() ==> 0 < (#[trigger] r.0[i]).0 <= 0xffff && r.0[i].1.len() <= 0xffff,
    decreases exts.len(),
{
    let kind = be16(exts, 0) as nat;
    let len = be16(exts, 2);
    lemma_enc16_back(exts, 0);
    lemma_enc16_back(exts, 2);
    let data = exts.subrange(4, 4 + len);
    let tail = exts.skip(4 + len);
    assert(extension(kind, data) =~= exts.take(4 + len));
    if kind == 0 {
        let none = Seq::<(nat, Seq<u8>)>::empty();
        assert(exts =~= extension_block(none) + extension(0, data) + tail);
        (none, tail)
    } else {
        let (before, after) = lemma_extensions_taken_apart(tail);
        let found = server_name_data(exts)->0;
        let all = seq![(kind, data)] + before;
        assert(all.drop_first() =~= before);
        assert(exts =~= extension(kind, data) + tail);
        assert(exts =~= extension_block(all) + extension(0, found) + after);
        assert forall|i: int| 0 <= i < all.len() implies 0 < (#[trigger] all[i]).0 <= 0xffff
            && all[i].1.len() <= 0xffff by {
            if i > 0 {
                assert(all[i] == before[i - 1]);
            }
        }
        (all, after)
    }
}

proof fn lemma_entries_taken_apart(entries: Seq<u8>) -> (r: (Seq<(u8, Seq<u8>)>, Seq<u8>))
    requires
        host_name_entry(entries) is Some,
    ensures
        entries == entry_block(r.0) + (seq![0u8] + vec16(host_name_entry(entries)->0) + r.1),
        host_name_entry(entries)->0.len() <= 0xffff,
        forall|i: int|
            0 <= i < r.0.len() ==> (#[trigger] r.0[i]).0 != 0 && r.0[i].1.len() <= 0xffff,
    decreases entries.len(),
{
    let kind = entries[0];
    let len = be16(entries, 1);
    lemma_enc16_back(entries, 1);
    let name = entries.subrange(3, 3 + len);
    let tail = entries.skip(3 + len);
    assert(seq![kind] + vec16(name) =~= entries.take(3 + len));
    if kind == 0 {
        let none = Seq::<(u8, Seq<u8>)>::empty();
        assert(entries =~= entry_block(none) + (seq![0u8] + vec16(name) + tail));
        (none, tail)
    } else {
        let (before, after) = lemma_entries_taken_apart(tail);
        let found = host_name_entry(entries)->0;
        let all = seq![(kind, name)] + before;
        assert(all.drop_first() =~= before);
        assert(entries =~= seq![kind] + vec16(name) + tail);
        assert(entries =~= entry_block(all) + (seq![0u8] + vec16(found) + after));
        assert forall|i: int| 0 <= i < all.len() implies (#[trigger] all[i]).0 != 0
            && all[i].1.len() <= 0xffff by {
            if i > 0 {
                assert(all[i] == before[i - 1]);
            }
        }
        (all, after)
    }
}

proof fn lemma_hello_taken_apart(hs: Seq<u8>, record_version: Seq<u8>) -> (r: (
    HelloFields,
    nat,
    Seq<u8>,
))
    requires
        hello_extensions(hs) is Some,
        record_version.len() == 2,
    ensures
        r.0.wf(),
        r.0.record_version == record_version,
        hello_extensions(hs)->0.len() <= 0xffff,
        4 + r.1 <= hs.len(),
        hs == seq![1u8] + enc24(r.1) + (r.0.body(hello_extensions(hs)->0) + r.2),
{
    let hello_len = be24(hs, 1) as nat;
    let sid_end = 39 + hs[38];
    let cs_end = sid_end + 2 + be16(hs, sid_end);
    let co_end = cs_end + 1 + hs[cs_end];
    let end = co_end + 2 + be16(hs, co_end);
    assert(after_vec8(hs, 38) == Some(sid_end));
    assert(after_vec16(hs, sid_end) == Some(cs_end));
    assert(after_vec8(hs, cs_end) == Some(co_end));
    assert(after_vec16(hs, co_end) == Some(end));
    let exts = hs.subrange(co_end + 2, end);
    let fields = HelloFields {
        record_version,
        version_and_random: hs.subrange(4, 38),
        session_id: hs.subrange(39, sid_end),
        cipher_suites: hs.subrange(sid_end + 2, cs_end),
        compression: hs.subrange(cs_end + 1, co_end),
    };
    let after = hs.skip(end);
    lemma_enc16_back(hs, sid_end);
    lemma_enc16_back(hs, co_end);
    assert(enc24(hello_len) =~= hs.subrange(1, 4));
    assert(vec8(fields.session_id) =~= hs.subrange(38, sid_end));
    assert(vec16(fields.cipher_suites) =~= hs.subrange(sid_end, cs_end));
    assert(vec8(fields.compression) =~= hs.subrange(cs_end, co_end));
    assert(vec16(exts) =~= hs.subrange(co_end, end));
    assert(fields.body(exts) =~= hs.subrange(4, end));
    assert(hs =~= seq![1u8] + enc24(hello_len) + (fields.body(exts) + after));
    (fields, hello_len, after)
}

proof fn lemma_names_taken_apart(data: Seq<u8>) -> (r: (
    nat,
    Seq<(u8, Seq<u8>)>,
    Seq<char>,
    Seq<u8>,
))
    requires
        listed_name(data) is Some,
    ensures
        data == name_list(r.0, r.1, r.2, r.3),
        r.0 <= 0xffff,
        2 + r.0 <= data.len(),
        encode_utf8(r.2).len() <= 0xffff,
        listed_name(data) == Some(lowered(r.2)),
        no_hosts(r.1),
{
    lemma_enc16_back(data, 0);
    let (before, after) = lemma_entries_taken_apart(data.skip(2));
    let name = host_name_entry(data.skip(2))->0;
    vstd::utf8::decode_utf8_encode_utf8(name);
    let list_len = be16(data, 0) as nat;
    assert(data =~= enc16(list_len) + data.skip(2));
    (list_len, before, decode_utf8(name), after)
}

/// The name that the data of a server-name extension gives, by what the data is made of: it gives
/// one exactly when it is a list with a host in it, as long as it claims at least, and the name is
/// the first host, in lower case.
pub proof fn lemma_listed_name_by_the_parts(data: Seq<u8>, name: Seq<char>)
    ensures
        listed_name(data) == Some(name) <==> exists|
            list_len: nat,
            before: Seq<(u8, Seq<u8>)>,
            host: Seq<char>,
            after: Seq<u8>,
        |
            {
                &&& data == #[trigger] name_list(list_len, before, host, after)
                &&& list_len <= 0xffff && 2 + list_len <= data.len()
                &&& no_hosts(before)
                &&& encode_utf8(host).len() <= 0xffff
                &&& lowered(host) == name
            },
{
    if listed_name(data) == Some(name) {
        let (list_len, before, host, after) = lemma_names_taken_apart(data);
        assert(data == name_list(list_len, before, host, after));
    }
    if exists|list_len: nat, before: Seq<(u8, Seq<u8>)>, host: Seq<char>, after: Seq<u8>|
        {
            &&& data == #[trigger] name_list(list_len, before, host, after)
            &&& list_len <= 0xffff && 2 + list_len <= data.len()
            &&& no_hosts(before)
            &&& encode_utf8(host).len() <= 0xffff
            &&& lowered(host) == name
        } {
        let (list_len, before, host, after) = choose|
            list_len: nat,
            before: Seq<(u8, Seq<u8>)>,
            host: Seq<char>,
            after: Seq<u8>,
        |
            {
                &&& data == #[trigger] name_list(list_len, before, host, after)
                &&& list_len <= 0xffff && 2 + list_len <= data.len()
                &&& no_hosts(before)
                &&& encode_utf8(host).len() <= 0xffff
                &&& lowered(host) == name
            };
        lemma_names_read(list_len, before, host, after);
    }
}

proof fn lemma_record_taken_apart(buf: Seq<u8>) -> (r: (Seq<u8>, Seq<u8>))
    requires
        record_complete(buf),
    ensures
        r.0.len() == 2,
        record_payload(buf).len() <= 0xffff,
        buf == seq![0x16u8] + r.0 + vec16(record_payload(buf)) + r.1,
{
    lemma_enc16_back(buf, 3);
    let version = buf.subrange(1, 3);
    let rest = buf.skip(5 + be16(buf, 3));
    assert(buf =~= seq![0x16u8] + version + vec16(record_payload(buf)) + rest);
    (version, rest)
}

proof fn lemma_name_taken_apart(buf: Seq<u8>) -> (p: HelloParts)
    requires
        sni_of(buf) is Some,
    ensures
        p.wf(),
        p.bytes() == buf,
        sni_of(buf) == Some(lowered(p.host)),
{
    let hs = record_payload(buf);
    let (version, rest) = lemma_record_taken_apart(buf);
    let (fields, hello_len, hello_after) = lemma_hello_taken_apart(hs, version);
    let exts = hello_extensions(hs)->0;
    let (before, extensions_after) = lemma_extensions_taken_apart(exts);
    let data = server_name_data(exts)->0;
    let (list_len, names_before, host, names_after) = lemma_names_taken_apart(data);
    HelloParts {
        fields,
        hello_len,
        before,
        list_len,
        names_before,
        host,
        names_after,
        extensions_after,
        hello_after,
        rest,
    }
}

/// The server name of a buffer, by what the buffer is made of: it has one exactly when it begins
/// with a ClientHello that lists a host, as the parts say, and the name is that host, in lower
/// case. Anything may stand in the other parts.
pub proof fn lemma_name_by_the_parts(buf: Seq<u8>, name: Seq<char>)
    ensures
        sni_of(buf) == Some(name) <==> exists|p: HelloParts|
            p.wf() && #[trigger] p.bytes() == buf && lowered(p.host) == name,
{
    if sni_of(buf) == Some(name) {
        let p = lemma_name_taken_apart(buf);
        assert(p.bytes() == buf);
    }
    if exists|p: HelloParts| p.wf() && #[trigger] p.bytes() == buf && lowered(p.host) == name {
        let p = choose|p: HelloParts|
            p.wf() && #[trigger] p.bytes() == buf && lowered(p.host) == name;
        lemma_parts_read(p);
    }
}

/// A record is complete exactly when the buffer is one with something, or nothing, behind it: the
/// type of a handshake, two bytes of version, and as many bytes as the length says.
pub proof fn lemma_complete_records(buf: Seq<u8>)
    ensures
        record_complete(buf) <==> exists|version: Seq<u8>, payload: Seq<u8>, rest: Seq<u8>|
            version.len() == 2 && payload.len() <= 0xffff && buf == #[trigger] (seq![0x16u8]
                + version + vec16(payload) + rest),
{
    if record_complete(buf) {
        let (version, rest) = lemma_record_taken_apart(buf);
        assert(buf == seq![0x16u8] + version + vec16(record_payload(buf)) + rest);
    }
    if exists|version: Seq<u8>, payload: Seq<u8>, rest: Seq<u8>|
        version.len() == 2 && payload.len() <= 0xffff && buf == #[trigger] (seq![0x16u8] + version
            + vec16(payload) + rest) {
        let (version, payload, rest) = choose|
            version: Seq<u8>,
            payload: Seq<u8>,
            rest: Seq<u8>,
        |
            version.len() == 2 && payload.len() <= 0xffff && buf == #[trigger] (seq![0x16u8]
                + version + vec16(payload) + rest);
        assert(buf[0] == 0x16u8);
        assert(buf[3] == enc16(payload.len())[0] && buf[4] == enc16(payload.len())[1]);
        assert(be16(buf, 3) == payload.len());
    }
}

} // verus!
