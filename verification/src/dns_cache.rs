//! Remembers which name an address was resolved from.

use crate::text::{chars_of, lowered, string_of, to_lowercase, trim_dots, undotted};
use hickory_proto::op::Message;
use hickory_proto::rr::RData;
use lru::LruCache;
use vstd::prelude::*;

verus! {

/// The shortest time that an entry lives, in nanoseconds: 30 seconds.
pub const MIN_TTL: u64 = 30_000_000_000;

/// The longest time that an entry lives, in nanoseconds: an hour.
pub const MAX_TTL: u64 = 3_600_000_000_000;

/// The largest capacity that a cache can be made with. Its table is allocated at once: two words
/// and a byte for each of a power of two of buckets, of which seven eighths may be filled. A table
/// for this capacity is the largest that stays within half the address space of a 64-bit machine,
/// and one for it fits a 32-bit machine too.
pub const MAX_CAPACITY: usize = usize::MAX / 512 * 7;

/// An IP address.
#[derive(Debug, Clone, Copy, PartialEq, Eq, Structural)]
pub enum IpAddress {
    V4(u32),
    V6(u128),
}

/// An address as the cache files it: the version of the protocol and the number.
pub open spec fn address_key(ip: IpAddress) -> (u8, u128) {
    match ip {
        IpAddress::V4(bits) => (4u8, bits as u128),
        IpAddress::V6(bits) => (6u8, bits),
    }
}

fn key_of(ip: IpAddress) -> (r: (u8, u128))
    ensures
        r == address_key(ip),
{
    match ip {
        IpAddress::V4(bits) => (4u8, bits as u128),
        IpAddress::V6(bits) => (6u8, bits),
    }
}

/// What a resource record carries, as far as the cache cares.
#[derive(Debug, Clone, Copy, PartialEq, Eq, Structural)]
pub enum AnswerData {
    A(u32),
    Aaaa(u128),
    Other,
}

/// One record of the answer section of a DNS message.
#[derive(Debug, Clone)]
pub struct DnsAnswer {
    /// The owner name in its ASCII form, with or without the final dot.
    pub name: String,
    /// Time to live, in seconds.
    pub ttl: u32,
    pub data: AnswerData,
}

impl View for DnsAnswer {
    type V = (Seq<char>, u32, AnswerData);

    open spec fn view(&self) -> (Seq<char>, u32, AnswerData) {
        (self.name@, self.ttl, self.data)
    }
}

/// The answers that a vector holds.
pub open spec fn answer_views(answers: Seq<DnsAnswer>) -> Seq<(Seq<char>, u32, AnswerData)> {
    answers.map_values(|a: DnsAnswer| a@)
}

/// The answer section that the `hickory_proto` decoder finds in a payload: for each record its
/// name as `Name::to_ascii` gives it, its time to live, and its address if it has one.
pub uninterp spec fn dns_answers(payload: Seq<u8>) -> Option<Seq<(Seq<char>, u32, AnswerData)>>;

/// `hickory_proto::op::Message::from_vec`, with the answers of the message read off through
/// `Message::answers`, `Record::name`, `Name::to_ascii`, `Record::ttl` and `Record::data`: nothing
/// when the payload is no DNS message, and otherwise the answers in their order. The result is a
/// function of the payload alone; which messages are well formed and how labels are escaped in
/// ASCII is left to the crate.
#[verifier::external_body]
fn parse_answers(payload: &[u8]) -> (r: Option<Vec<DnsAnswer>>)
    ensures
        match r {
            Some(answers) => dns_answers(payload@) == Some(answer_views(answers@)),
            None => dns_answers(payload@) is None,
        },
{
    let message = Message::from_vec(payload).ok()?;
    let convert = |data: &RData| match data {
        RData::A(a) => AnswerData::A(u32::from(a.0)),
        RData::AAAA(a) => AnswerData::Aaaa(u128::from(a.0)),
        _ => AnswerData::Other,
    };
    Some(
        message.answers().iter().map(
            |r| DnsAnswer { name: r.name().to_ascii(), ttl: r.ttl(), data: convert(r.data()) },
        ).collect(),
    )
}

/// The least-recently-used cache of the `lru` crate, carried as an opaque value.
#[verifier::external_type_specification]
#[verifier::external_body]
#[verifier::reject_recursive_types(K)]
#[verifier::reject_recursive_types(V)]
#[verifier::reject_recursive_types(S)]
pub struct ExLruCache<K, V, S>(lru::LruCache<K, V, S>);

/// The hash builder that the `lru` crate uses unless told otherwise, carried as an opaque value.
#[verifier::external_type_specification]
#[verifier::external_body]
pub struct ExDefaultHasher(lru::DefaultHasher);

/// The entries of a cache, the most recently used first: key, name, and when the entry expires.
pub uninterp spec fn lru_entries(cache: LruCache<(u8, u128), (String, u64)>) -> Seq<
    ((u8, u128), (Seq<char>, u64)),
>;

/// The number of entries that a cache was made to hold.
pub uninterp spec fn lru_capacity(cache: LruCache<(u8, u128), (String, u64)>) -> nat;

/// Cache entries, the most recently used first: key, name, and when the entry expires.
pub type Entries = Seq<((u8, u128), (Seq<char>, u64))>;

/// The first entry filed under a key.
pub open spec fn find(s: Entries, key: (u8, u128)) -> Option<
    (Seq<char>, u64),
>
    decreases s.len(),
{
    if s.len() == 0 {
        None
    } else if s[0].0 == key {
        Some(s[0].1)
    } else {
        find(s.drop_first(), key)
    }
}

/// The entries without the first one filed under a key.
pub open spec fn without(s: Entries, key: (u8, u128)) -> Entries
    decreases s.len(),
{
    if s.len() == 0 {
        s
    } else if s[0].0 == key {
        s.drop_first()
    } else {
        seq![s[0]] + without(s.drop_first(), key)
    }
}

/// The entries after one was put: in front, in place of an older one under the same key, or of the
/// least recently used one when the cache is full.
pub open spec fn put(
    s: Entries,
    capacity: nat,
    key: (u8, u128),
    value: (Seq<char>, u64),
) -> Entries {
    if find(s, key) is Some {
        seq![(key, value)] + without(s, key)
    } else if s.len() == capacity {
        seq![(key, value)] + s.drop_last()
    } else {
        seq![(key, value)] + s
    }
}

/// The entries after one was used: it moves to the front.
pub open spec fn touched(s: Entries, key: (u8, u128)) -> Entries {
    match find(s, key) {
        Some(value) => seq![(key, value)] + without(s, key),
        None => s,
    }
}

/// `lru::LruCache::new`: an empty cache of the given capacity. The table for all entries is
/// allocated here, so the capacity is bounded.
#[verifier::external_body]
fn lru_new(capacity: usize) -> (cache: LruCache<(u8, u128), (String, u64)>)
    requires
        0 < capacity <= MAX_CAPACITY,
    ensures
        lru_entries(cache) == Entries::empty(),
        lru_capacity(cache) == capacity,
{
    LruCache::new(std::num::NonZeroUsize::new(capacity).unwrap())
}

/// `lru::LruCache::get`, with the value copied out: the value under the key, whose entry moves to
/// the front.
#[verifier::external_body]
fn lru_get(cache: &mut LruCache<(u8, u128), (String, u64)>, key: (u8, u128)) -> (r: Option<
    (String, u64),
>)
    ensures
        match r {
            Some(value) => find(lru_entries(*old(cache)), key) == Some((value.0@, value.1)),
            None => find(lru_entries(*old(cache)), key) is None,
        },
        lru_entries(*final(cache)) == touched(lru_entries(*old(cache)), key),
        lru_capacity(*final(cache)) == lru_capacity(*old(cache)),
{
    cache.get(&key).cloned()
}

/// `lru::LruCache::put`, whose returned old value is dropped: the entry stands in front, an older
/// one under the same key is gone, and else, when the cache was full, the least recently used one.
#[verifier::external_body]
fn lru_put(cache: &mut LruCache<(u8, u128), (String, u64)>, key: (u8, u128), name: String, expires: u64)
    ensures
        lru_entries(*final(cache)) == put(
            lru_entries(*old(cache)),
            lru_capacity(*old(cache)),
            key,
            (name@, expires),
        ),
        lru_capacity(*final(cache)) == lru_capacity(*old(cache)),
{
    cache.put(key, (name, expires));
}

/// `lru::LruCache::pop`, whose returned value is dropped: the entry under the key is gone.
#[verifier::external_body]
fn lru_pop(cache: &mut LruCache<(u8, u128), (String, u64)>, key: (u8, u128))
    ensures
        lru_entries(*final(cache)) == without(lru_entries(*old(cache)), key),
        lru_capacity(*final(cache)) == lru_capacity(*old(cache)),
{
    cache.pop(&key);
}

/// The time to live that an entry gets.
pub open spec fn clamped_ttl(ttl: u64) -> u64 {
    if ttl < MIN_TTL {
        MIN_TTL
    } else if ttl > MAX_TTL {
        MAX_TTL
    } else {
        ttl
    }
}

/// The clock can show when an entry made at `now` expires.
pub open spec fn clock_fits(now: u64) -> bool {
    now + MAX_TTL <= u64::MAX
}

/// What a cache with these entries says of an address at `now`.
pub open spec fn answer_at(
    s: Entries,
    ip: IpAddress,
    now: u64,
) -> Option<Seq<char>> {
    match find(s, address_key(ip)) {
        Some((name, expires)) => if expires > now {
            Some(name)
        } else {
            None
        },
        None => None,
    }
}

/// The entries after an address was looked up at `now`: a live entry moves to the front, an
/// expired one goes.
pub open spec fn looked_up(
    s: Entries,
    ip: IpAddress,
    now: u64,
) -> Entries {
    if answer_at(s, ip, now) is Some {
        touched(s, address_key(ip))
    } else {
        without(s, address_key(ip))
    }
}

/// The entries after a name was recorded for an address.
pub open spec fn inserted(
    s: Entries,
    capacity: nat,
    ip: IpAddress,
    name: Seq<char>,
    ttl: u64,
    now: u64,
) -> Entries {
    put(s, capacity, address_key(ip), (name, (now + clamped_ttl(ttl)) as u64))
}

/// The address that a record gives.
pub open spec fn answer_address(data: AnswerData) -> Option<IpAddress> {
    match data {
        AnswerData::A(bits) => Some(IpAddress::V4(bits)),
        AnswerData::Aaaa(bits) => Some(IpAddress::V6(bits)),
        AnswerData::Other => None,
    }
}

/// The entries after one answer was learnt: a record with an address is recorded under it, with
/// the name in lower case and without final dots; any other record is passed over.
pub open spec fn learnt_one(
    s: Entries,
    capacity: nat,
    answer: (Seq<char>, u32, AnswerData),
    now: u64,
) -> Entries {
    match answer_address(answer.2) {
        Some(ip) => inserted(
            s,
            capacity,
            ip,
            lowered(undotted(answer.0)),
            (answer.1 * 1_000_000_000) as u64,
            now,
        ),
        None => s,
    }
}

/// The entries after answers were learnt, in their order.
pub open spec fn learnt(
    s: Entries,
    capacity: nat,
    answers: Seq<(Seq<char>, u32, AnswerData)>,
    now: u64,
) -> Entries
    decreases answers.len(),
{
    if answers.len() == 0 {
        s
    } else {
        learnt_one(learnt(s, capacity, answers.drop_last(), now), capacity, answers.last(), now)
    }
}

/// Names by address, with an expiry each; the least recently used entry makes way.
pub struct DnsCache {
    cache: LruCache<(u8, u128), (String, u64)>,
}

impl DnsCache {
    /// The entries, the most recently used first.
    pub closed spec fn entries(&self) -> Entries {
        lru_entries(self.cache)
    }

    /// The number of entries that the cache can hold.
    pub closed spec fn capacity(&self) -> nat {
        lru_capacity(self.cache)
    }

    /// No two entries share an address, and there are no more of them than the capacity.
    pub open spec fn wf(&self) -> bool {
        entries_wf(self.entries(), self.capacity())
    }

    /// An empty cache. A capacity of zero counts as one.
    pub fn new(capacity: usize) -> (r: DnsCache)
        requires
            capacity <= MAX_CAPACITY,
        ensures
            r.entries() == Entries::empty(),
            r.capacity() == if capacity == 0 {
                1
            } else {
                capacity as int
            },
            r.wf(),
    {
        let capacity: usize = if capacity == 0 {
            1
        } else {
            capacity
        };
        DnsCache { cache: lru_new(capacity) }
    }

    /// The name recorded for an address, if it has not expired.
    pub fn lookup(&mut self, ip: IpAddress, now: u64) -> (r: Option<String>)
        ensures
            match r {
                Some(name) => answer_at(old(self).entries(), ip, now) == Some(name@),
                None => answer_at(old(self).entries(), ip, now) is None,
            },
            r is Some <==> (find(old(self).entries(), address_key(ip)) matches Some(entry)
                && now < entry.1),
            final(self).entries() == looked_up(old(self).entries(), ip, now),
            final(self).capacity() == old(self).capacity(),
            old(self).wf() ==> final(self).wf(),
    {
        proof {
            if self.wf() {
                lemma_lookup_keeps_order(self.entries(), self.capacity(), ip, now);
            }
        }
        let key = key_of(ip);
        match lru_get(&mut self.cache, key) {
            Some((name, expires)) => {
                if expires > now {
                    return Some(name);
                }
                proof {
                    lemma_without_touched(old(self).entries(), key);
                }
                lru_pop(&mut self.cache, key);
                None
            },
            None => {
                proof {
                    lemma_without_absent(old(self).entries(), key);
                }
                None
            },
        }
    }

    /// Records a name for an address, for at least 30 seconds and at most an hour.
    pub fn insert(&mut self, ip: IpAddress, name: String, ttl: u64, now: u64)
        requires
            clock_fits(now),
        ensures
            final(self).entries() == inserted(
                old(self).entries(),
                old(self).capacity(),
                ip,
                name@,
                ttl,
                now,
            ),
            answer_at(final(self).entries(), ip, now) == Some(name@),
            final(self).capacity() == old(self).capacity(),
            old(self).wf() ==> final(self).wf(),
    {
        proof {
            if self.wf() {
                lemma_insert_keeps_order(
                    self.entries(),
                    self.capacity(),
                    ip,
                    name@,
                    ttl,
                    now,
                );
            }
        }
        let ttl: u64 = if ttl < MIN_TTL {
            MIN_TTL
        } else if ttl > MAX_TTL {
            MAX_TTL
        } else {
            ttl
        };
        lru_put(&mut self.cache, key_of(ip), name, now + ttl);
    }

    /// Learns the addresses that the answers of a DNS message give.
    pub fn learn(&mut self, answers: &Vec<DnsAnswer>, now: u64)
        requires
            clock_fits(now),
        ensures
            final(self).entries() == learnt(
                old(self).entries(),
                old(self).capacity(),
                answer_views(answers@),
                now,
            ),
            final(self).capacity() == old(self).capacity(),
            old(self).wf() ==> final(self).wf(),
    {
        proof {
            if self.wf() {
                lemma_learning_keeps_order(
                    self.entries(),
                    self.capacity(),
                    answer_views(answers@),
                    now,
                );
            }
        }
        let ghost all = answer_views(answers@);
        let mut i: usize = 0;
        while i < answers.len()
            invariant
                i <= answers@.len(),
                clock_fits(now),
                all == answer_views(answers@),
                self.entries() == learnt(
                    old(self).entries(),
                    old(self).capacity(),
                    all.take(i as int),
                    now,
                ),
                self.capacity() == old(self).capacity(),
            decreases answers@.len() - i,
        {
            let answer = &answers[i];
            assert(all.take(i + 1).drop_last() =~= all.take(i as int));
            assert(all.take(i + 1).last() == answer@);
            let ttl: u64 = answer.ttl as u64 * 1_000_000_000;
            match answer.data {
                AnswerData::A(bits) => {
                    let name = string_of(&to_lowercase(&trim_dots(&chars_of(&answer.name))));
                    self.insert(IpAddress::V4(bits), name, ttl, now);
                },
                AnswerData::Aaaa(bits) => {
                    let name = string_of(&to_lowercase(&trim_dots(&chars_of(&answer.name))));
                    self.insert(IpAddress::V6(bits), name, ttl, now);
                },
                AnswerData::Other => {},
            }
            i += 1;
        }
        assert(all.take(i as int) =~= all);
    }

    /// Parses a DNS message and learns the addresses that it gives; what is no DNS message teaches
    /// nothing.
    pub fn learn_from_payload(&mut self, payload: &[u8], now: u64)
        requires
            clock_fits(now),
        ensures
            final(self).entries() == match dns_answers(payload@) {
                Some(answers) => learnt(
                    old(self).entries(),
                    old(self).capacity(),
                    answers,
                    now,
                ),
                None => old(self).entries(),
            },
            final(self).capacity() == old(self).capacity(),
            old(self).wf() ==> final(self).wf(),
    {
        match parse_answers(payload) {
            Some(answers) => self.learn(&answers, now),
            None => {},
        }
    }
}

proof fn lemma_without_touched(s: Entries, key: (u8, u128))
    ensures
        without(touched(s, key), key) == without(s, key),
{
    if find(s, key) is Some {
        assert(touched(s, key).drop_first() =~= without(s, key));
    }
}

proof fn lemma_without_absent(s: Entries, key: (u8, u128))
    requires
        find(s, key) is None,
    ensures
        without(s, key) == s,
    decreases s.len(),
{
    if s.len() > 0 {
        lemma_without_absent(s.drop_first(), key);
        assert(seq![s[0]] + s.drop_first() =~= s);
    }
}

/// No two entries share a key, and there are no more of them than the capacity.
pub open spec fn entries_wf(s: Entries, capacity: nat) -> bool {
    &&& 1 <= capacity
    &&& s.len() <= capacity
    &&& forall|i: int, j: int| 0 <= i < j < s.len() ==> (#[trigger] s[i]).0 != (#[trigger] s[j]).0
}

/// Where the first entry filed under a key stands, or the number of entries.
pub open spec fn position(s: Entries, key: (u8, u128)) -> nat
    decreases s.len(),
{
    if s.len() == 0 || s[0].0 == key {
        0
    } else {
        1 + position(s.drop_first(), key)
    }
}

proof fn lemma_position(s: Entries, key: (u8, u128))
    ensures
        position(s, key) <= s.len(),
        position(s, key) < s.len() <==> find(s, key) is Some,
        position(s, key) < s.len() ==> s[position(s, key) as int].0 == key && find(s, key) == Some(
            s[position(s, key) as int].1,
        ),
        forall|i: int| 0 <= i < position(s, key) ==> (#[trigger] s[i]).0 != key,
        without(s, key) == if find(s, key) is Some {
            s.remove(position(s, key) as int)
        } else {
            s
        },
    decreases s.len(),
{
    if s.len() > 0 && s[0].0 != key {
        let t = s.drop_first();
        lemma_position(t, key);
        assert forall|i: int| 0 <= i < position(s, key) implies (#[trigger] s[i]).0 != key by {
            if i > 0 {
                assert(s[i] == t[i - 1]);
            }
        }
        if find(s, key) is Some {
            assert(seq![s[0]] + t.remove(position(t, key) as int) =~= s.remove(
                position(s, key) as int,
            ));
        } else {
            assert(seq![s[0]] + t =~= s);
        }
    } else if s.len() > 0 {
        assert(s.drop_first() =~= s.remove(0));
    }
}

proof fn lemma_position_unique(s: Entries, key: (u8, u128), at: int)
    requires
        0 <= at < s.len(),
        s[at].0 == key,
        forall|i: int| 0 <= i < at ==> (#[trigger] s[i]).0 != key,
    ensures
        position(s, key) == at,
        find(s, key) == Some(s[at].1),
{
    lemma_position(s, key);
    if position(s, key) < at {
        assert(s[position(s, key) as int].0 != key);
    }
}

/// What a cache holds stays within its capacity, with one entry for each address, whatever is
/// recorded.
pub proof fn lemma_insert_keeps_order(
    s: Entries,
    capacity: nat,
    ip: IpAddress,
    name: Seq<char>,
    ttl: u64,
    now: u64,
)
    requires
        entries_wf(s, capacity),
    ensures
        entries_wf(inserted(s, capacity, ip, name, ttl, now), capacity),
{
    lemma_position(s, address_key(ip));
}

/// What a cache holds stays within its capacity, with one entry for each address, whatever is
/// looked up.
pub proof fn lemma_lookup_keeps_order(s: Entries, capacity: nat, ip: IpAddress, now: u64)
    requires
        entries_wf(s, capacity),
    ensures
        entries_wf(looked_up(s, ip, now), capacity),
{
    lemma_position(s, address_key(ip));
}

/// What a cache holds stays within its capacity, with one entry for each address, whatever is
/// learnt.
pub proof fn lemma_learning_keeps_order(
    s: Entries,
    capacity: nat,
    answers: Seq<(Seq<char>, u32, AnswerData)>,
    now: u64,
)
    requires
        entries_wf(s, capacity),
    ensures
        entries_wf(learnt(s, capacity, answers, now), capacity),
    decreases answers.len(),
{
    if answers.len() > 0 {
        lemma_learning_keeps_order(s, capacity, answers.drop_last(), now);
        let before = learnt(s, capacity, answers.drop_last(), now);
        let (name, ttl, data) = answers.last();
        if answer_address(data) is Some {
            lemma_insert_keeps_order(
                before,
                capacity,
                answer_address(data)->0,
                lowered(undotted(name)),
                (ttl * 1_000_000_000) as u64,
                now,
            );
        }
    }
}

/// A lookup gives back the name that was recorded last for the address: for the clamped time to
/// live, so for 30 seconds at least, and no longer than an hour.
pub proof fn lemma_recorded_name_is_found_until_it_expires(
    s: Entries,
    capacity: nat,
    ip: IpAddress,
    name: Seq<char>,
    ttl: u64,
    now: u64,
    later: u64,
)
    requires
        clock_fits(now),
    ensures
        answer_at(inserted(s, capacity, ip, name, ttl, now), ip, later) == if later < now
            + clamped_ttl(ttl) {
            Some(name)
        } else {
            None
        },
        later < now + MIN_TTL ==> answer_at(inserted(s, capacity, ip, name, ttl, now), ip, later)
            == Some(name),
        later >= now + MAX_TTL ==> answer_at(
            inserted(s, capacity, ip, name, ttl, now),
            ip,
            later,
        ) is None,
{
}

/// Recording a name for one address leaves every other one alone, except that a full cache drops
/// the entry that was used least recently.
pub proof fn lemma_insert_leaves_others(
    s: Entries,
    capacity: nat,
    ip: IpAddress,
    name: Seq<char>,
    ttl: u64,
    now: u64,
    other: IpAddress,
)
    requires
        entries_wf(s, capacity),
        other != ip,
        position(s, address_key(other)) + 1 < capacity || find(s, address_key(ip)) is Some,
    ensures
        find(inserted(s, capacity, ip, name, ttl, now), address_key(other)) == find(
            s,
            address_key(other),
        ),
        find(s, address_key(other)) is Some ==> position(
            inserted(s, capacity, ip, name, ttl, now),
            address_key(other),
        ) <= position(s, address_key(other)) + 1,
{
    let key = address_key(ip);
    let there = address_key(other);
    let t = inserted(s, capacity, ip, name, ttl, now);
    lemma_position(s, key);
    lemma_position(s, there);
    lemma_position(t, there);
    let p = position(s, there) as int;
    if p < s.len() {
        if find(s, key) is Some && position(s, key) < p {
            assert(t[p] == s[p]);
            lemma_position_unique(t, there, p);
        } else {
            assert(t[p + 1] == s[p]);
            assert forall|i: int| 0 <= i < p + 1 implies (#[trigger] t[i]).0 != there by {
                if i > 0 {
                    assert(t[i] == s[i - 1]);
                }
            }
            lemma_position_unique(t, there, p + 1);
        }
    } else if position(t, there) < t.len() {
        let q = position(t, there) as int;
        assert(q > 0);
        if find(s, key) is Some && q - 1 >= position(s, key) {
            assert(t[q] == s[q]);
        } else {
            assert(t[q] == s[q - 1]);
        }
        assert(false);
    }
}

/// An expired or absent name stays away: a lookup that found nothing finds nothing later.
pub proof fn lemma_expired_stays_away(s: Entries, capacity: nat, ip: IpAddress, now: u64, later: u64)
    requires
        entries_wf(s, capacity),
        now <= later,
        answer_at(s, ip, now) is None,
    ensures
        answer_at(looked_up(s, ip, now), ip, later) is None,
{
    let key = address_key(ip);
    lemma_position(s, key);
    let t = looked_up(s, ip, now);
    lemma_position(t, key);
    if find(t, key) is Some {
        let q = position(t, key) as int;
        let p = position(s, key) as int;
        if p < s.len() {
            assert(t[q] == if q < p {
                s[q]
            } else {
                s[q + 1]
            });
        }
    }
}

/// A live name can be looked up again and again until it expires.
pub proof fn lemma_lookup_keeps_live_name(s: Entries, ip: IpAddress, now: u64, later: u64)
    requires
        answer_at(s, ip, now) is Some,
    ensures
        find(looked_up(s, ip, now), address_key(ip)) == find(s, address_key(ip)),
        answer_at(looked_up(s, ip, now), ip, later) == answer_at(s, ip, later),
{
}

/// What a DNS message teaches is found: an address among the answers, not given again by a later
/// answer and with fewer answers behind it than the cache has room for, is looked up to the name
/// of its record, in lower case and without final dots, until the time to live is over.
pub proof fn lemma_learnt_name_is_found(
    s: Entries,
    capacity: nat,
    answers: Seq<(Seq<char>, u32, AnswerData)>,
    now: u64,
    at: int,
    ip: IpAddress,
)
    requires
        entries_wf(s, capacity),
        0 <= at < answers.len(),
        answer_address(answers[at].2) == Some(ip),
        forall|i: int|
            at < i < answers.len() ==> answer_address((#[trigger] answers[i]).2) != Some(ip),
        answers.len() - at <= capacity,
    ensures
        find(learnt(s, capacity, answers, now), address_key(ip)) == Some(
            (
                lowered(undotted(answers[at].0)),
                (now + clamped_ttl((answers[at].1 * 1_000_000_000) as u64)) as u64,
            ),
        ),
        position(learnt(s, capacity, answers, now), address_key(ip)) < answers.len() - at,
    decreases answers.len(),
{
    let front = answers.drop_last();
    let before = learnt(s, capacity, front, now);
    let key = address_key(ip);
    lemma_learning_keeps_order(s, capacity, front, now);
    if at < answers.len() - 1 {
        assert forall|i: int| at < i < front.len() implies answer_address((#[trigger] front[i]).2)
            != Some(ip) by {
            assert(front[i] == answers[i]);
        }
        lemma_learnt_name_is_found(s, capacity, front, now, at, ip);
        let last = answers.last();
        assert(last == answers[answers.len() - 1]);
        if answer_address(last.2) is Some {
            lemma_insert_leaves_others(
                before,
                capacity,
                answer_address(last.2)->0,
                lowered(undotted(last.0)),
                (last.1 * 1_000_000_000) as u64,
                now,
                ip,
            );
        }
    } else {
        let after = learnt(s, capacity, answers, now);
        assert(after[0].0 == key);
        lemma_position_unique(after, key, 0);
    }
}

/// Two addresses are filed under the same key only if they are the same; an IPv4 address and an
/// IPv6 address never are.
pub proof fn lemma_addresses_are_kept_apart(a: IpAddress, b: IpAddress)
    ensures
        address_key(a) == address_key(b) <==> a == b,
{
}

/// A recorded name is found for the time to live that it was recorded with, counted from then:
/// that time itself if it lies between thirty seconds and an hour, and the nearer of the two
/// otherwise. From its end on it is not found.
pub proof fn lemma_time_to_live_is_kept(
    s: Entries,
    capacity: nat,
    ip: IpAddress,
    name: Seq<char>,
    ttl: u64,
    now: u64,
    later: u64,
)
    requires
        now + 3_600_000_000_000 <= u64::MAX,
    ensures
        ({
            let found = answer_at(inserted(s, capacity, ip, name, ttl, now), ip, later);
            &&& found is Some ==> found == Some(name)
            &&& 30_000_000_000 <= ttl <= 3_600_000_000_000 ==> (found is Some <==> later < now
                + ttl)
            &&& ttl < 30_000_000_000 ==> (found is Some <==> later < now + 30_000_000_000)
            &&& ttl > 3_600_000_000_000 ==> (found is Some <==> later < now + 3_600_000_000_000)
        }),
{
}

proof fn lemma_find_without_other(s: Entries, key: (u8, u128), other: (u8, u128))
    requires
        key != other,
    ensures
        find(without(s, key), other) == find(s, other),
    decreases s.len(),
{
    if s.len() > 0 && s[0].0 != key {
        lemma_find_without_other(s.drop_first(), key, other);
        let t = seq![s[0]] + without(s.drop_first(), key);
        assert(t[0] == s[0]);
        assert(t.drop_first() =~= without(s.drop_first(), key));
    }
}

/// Looking an address up says nothing new of any other address, at any time.
pub proof fn lemma_lookup_leaves_others(
    s: Entries,
    ip: IpAddress,
    other: IpAddress,
    now: u64,
    later: u64,
)
    requires
        other != ip,
    ensures
        answer_at(looked_up(s, ip, now), other, later) == answer_at(s, other, later),
{
    let key = address_key(ip);
    let there = address_key(other);
    lemma_addresses_are_kept_apart(ip, other);
    lemma_find_without_other(s, key, there);
    if answer_at(s, ip, now) is Some {
        let t = touched(s, key);
        assert(t[0].0 == key);
        assert(t.drop_first() =~= without(s, key));
    }
}

proof fn lemma_find_without_last(s: Entries, key: (u8, u128))
    requires
        s.len() > 0,
    ensures
        find(s.drop_last(), key) is Some ==> find(s.drop_last(), key) == find(s, key),
    decreases s.len(),
{
    if s.len() > 1 && s[0].0 != key {
        lemma_find_without_last(s.drop_first(), key);
        assert(s.drop_last()[0] == s[0]);
        assert(s.drop_last().drop_first() =~= s.drop_first().drop_last());
    }
}

/// Recording a name teaches nothing of any other address: it is answered as before, or its entry
/// made way and it is not answered any more.
pub proof fn lemma_recording_teaches_one_address(
    s: Entries,
    capacity: nat,
    ip: IpAddress,
    name: Seq<char>,
    ttl: u64,
    now: u64,
    other: IpAddress,
)
    requires
        capacity >= 1,
        other != ip,
    ensures
        ({
            let t = inserted(s, capacity, ip, name, ttl, now);
            find(t, address_key(other)) is Some ==> find(t, address_key(other)) == find(
                s,
                address_key(other),
            )
        }),
{
    let key = address_key(ip);
    let there = address_key(other);
    let t = inserted(s, capacity, ip, name, ttl, now);
    lemma_addresses_are_kept_apart(ip, other);
    lemma_find_without_other(s, key, there);
    assert(t[0].0 == key);
    if find(s, key) is Some {
        assert(t.drop_first() =~= without(s, key));
    } else if s.len() == capacity {
        assert(t.drop_first() =~= s.drop_last());
        if s.len() > 0 {
            lemma_find_without_last(s, there);
        }
    } else {
        assert(t.drop_first() =~= s);
    }
}

/// Answers teach nothing of an address that none of them gives.
pub proof fn lemma_answers_teach_their_addresses_alone(
    s: Entries,
    capacity: nat,
    answers: Seq<(Seq<char>, u32, AnswerData)>,
    now: u64,
    ip: IpAddress,
)
    requires
        capacity >= 1,
        forall|i: int|
            0 <= i < answers.len() ==> match (#[trigger] answers[i]).2 {
                AnswerData::A(bits) => ip != IpAddress::V4(bits),
                AnswerData::Aaaa(bits) => ip != IpAddress::V6(bits),
                AnswerData::Other => true,
            },
    ensures
        ({
            let t = learnt(s, capacity, answers, now);
            find(t, address_key(ip)) is Some ==> find(t, address_key(ip)) == find(
                s,
                address_key(ip),
            )
        }),
    decreases answers.len(),
{
    if answers.len() > 0 {
        let front = answers.drop_last();
        let last = answers.last();
        assert(last == answers[answers.len() - 1]);
        assert forall|i: int| 0 <= i < front.len() implies match (#[trigger] front[i]).2 {
            AnswerData::A(bits) => ip != IpAddress::V4(bits),
            AnswerData::Aaaa(bits) => ip != IpAddress::V6(bits),
            AnswerData::Other => true,
        } by {
            assert(front[i] == answers[i]);
        }
        lemma_answers_teach_their_addresses_alone(s, capacity, front, now, ip);
        if answer_address(last.2) is Some {
            lemma_recording_teaches_one_address(
                learnt(s, capacity, front, now),
                capacity,
                answer_address(last.2)->0,
                lowered(undotted(last.0)),
                (last.1 * 1_000_000_000) as u64,
                now,
                ip,
            );
        }
    }
}

/// An address record teaches its name: the last answer of a message that gives an IPv4 or an IPv6
/// address is found under it, by its name in lower case without final dots, for its seconds to
/// live, but for half a minute at least and an hour at most. A record without an address teaches
/// nothing.
pub proof fn lemma_address_records_teach_their_names(
    s: Entries,
    capacity: nat,
    answers: Seq<(Seq<char>, u32, AnswerData)>,
    name: Seq<char>,
    ttl: u32,
    v4: u32,
    v6: u128,
    now: u64,
    later: u64,
)
    requires
        now + 3_600_000_000_000 <= u64::MAX,
    ensures
        ({
            let life = if ttl < 30 {
                30_000_000_000
            } else if ttl > 3600 {
                3_600_000_000_000
            } else {
                ttl * 1_000_000_000
            };
            let expected = if later < now + life {
                Some(lowered(undotted(name)))
            } else {
                None
            };
            let with = |data: AnswerData| learnt(s, capacity, answers.push((name, ttl, data)), now);
            &&& answer_at(with(AnswerData::A(v4)), IpAddress::V4(v4), later) == expected
            &&& answer_at(with(AnswerData::Aaaa(v6)), IpAddress::V6(v6), later) == expected
            &&& with(AnswerData::Other) == learnt(s, capacity, answers, now)
        }),
{
    let a = answers.push((name, ttl, AnswerData::A(v4)));
    let b = answers.push((name, ttl, AnswerData::Aaaa(v6)));
    let c = answers.push((name, ttl, AnswerData::Other));
    assert(a.drop_last() =~= answers && b.drop_last() =~= answers && c.drop_last() =~= answers);
    let before = learnt(s, capacity, answers, now);
    let nanos = (ttl * 1_000_000_000) as u64;
    lemma_time_to_live_is_kept(
        before,
        capacity,
        IpAddress::V4(v4),
        lowered(undotted(name)),
        nanos,
        now,
        later,
    );
    lemma_time_to_live_is_kept(
        before,
        capacity,
        IpAddress::V6(v6),
        lowered(undotted(name)),
        nanos,
        now,
        later,
    );
}

/// What is recorded or looked up and found is the most recently used from then on, and the others
/// keep their order behind it. A full cache that has to make room drops the entry at the end, the
/// least recently used one, and that one alone.
pub proof fn lemma_the_least_recently_used_makes_way(
    s: Entries,
    capacity: nat,
    ip: IpAddress,
    name: Seq<char>,
    ttl: u64,
    now: u64,
)
    requires
        entries_wf(s, capacity),
    ensures
        ({
            let key = address_key(ip);
            let t = inserted(s, capacity, ip, name, ttl, now);
            let others = s.filter(|e: ((u8, u128), (Seq<char>, u64))| e.0 != key);
            &&& t[0].0 == key
            &&& answer_at(s, ip, now) is Some ==> looked_up(s, ip, now)[0].0 == key
            &&& find(s, key) is None && s.len() < capacity ==> t.skip(1) == s
            &&& find(s, key) is None && s.len() == capacity ==> t.skip(1) == s.take(s.len() - 1)
            &&& find(s, key) is Some ==> t.skip(1) == others
            &&& answer_at(s, ip, now) is Some ==> looked_up(s, ip, now).skip(1) == others
            &&& answer_at(s, ip, now) is None ==> looked_up(s, ip, now) == others
        }),
{
    let key = address_key(ip);
    let t = inserted(s, capacity, ip, name, ttl, now);
    lemma_without_is_filter(s, key);
    if find(s, key) is Some {
        assert(t.skip(1) =~= without(s, key));
    } else if s.len() == capacity {
        assert(t.skip(1) =~= s.take(s.len() - 1));
    } else {
        assert(t.skip(1) =~= s);
    }
    if answer_at(s, ip, now) is Some {
        assert(looked_up(s, ip, now).skip(1) =~= without(s, key));
    }
}

proof fn lemma_without_is_filter(s: Entries, key: (u8, u128))
    requires
        forall|i: int, j: int|
            0 <= i < j < s.len() ==> (#[trigger] s[i]).0 != (#[trigger] s[j]).0,
    ensures
        without(s, key) == s.filter(|e: ((u8, u128), (Seq<char>, u64))| e.0 != key),
{
    let pred = |e: ((u8, u128), (Seq<char>, u64))| e.0 != key;
    lemma_position(s, key);
    let p = position(s, key) as int;
    if find(s, key) is Some {
        let front = s.take(p);
        let one = seq![s[p]];
        let back = s.skip(p + 1);
        assert(s =~= front + one + back);
        Seq::filter_distributes_over_add(front + one, back, pred);
        Seq::filter_distributes_over_add(front, one, pred);
        assert forall|i: int| 0 <= i < front.len() implies pred(#[trigger] front[i]) by {
            assert(front[i] == s[i]);
        }
        assert forall|i: int| 0 <= i < back.len() implies pred(#[trigger] back[i]) by {
            assert(back[i] == s[p + 1 + i]);
        }
        lemma_filter_all(front, pred);
        lemma_filter_all(back, pred);
        assert(one.filter(pred) =~= Seq::empty()) by {
            reveal(Seq::filter);
            assert(one.drop_last() =~= Entries::empty());
            assert(one.last() == s[p]);
            assert(!pred(s[p]));
            assert(Entries::empty().filter(pred) =~= Entries::empty());
        }
        assert(s.remove(p) =~= front + back);
        assert(front + one.filter(pred) + back =~= front + back);
    } else {
        assert forall|i: int| 0 <= i < s.len() implies pred(#[trigger] s[i]) by {}
        lemma_filter_all(s, pred);
    }
}

proof fn lemma_filter_all(
    s: Entries,
    pred: spec_fn(((u8, u128), (Seq<char>, u64))) -> bool,
)
    requires
        forall|i: int| 0 <= i < s.len() ==> pred(#[trigger] s[i]),
    ensures
        s.filter(pred) == s,
    decreases s.len(),
{
    reveal(Seq::filter);
    if s.len() > 0 {
        let front = s.drop_last();
        assert(s.last() == s[s.len() - 1]);
        assert(forall|i: int| 0 <= i < front.len() ==> #[trigger] front[i] == s[i]);
        lemma_filter_all(front, pred);
        assert(front.push(s.last()) =~= s);
    }
}

} // verus!
