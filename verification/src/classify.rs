//! Finds the domain family that a host belongs to.

use crate::config::{Config, FamilyConfig};
use crate::limiter::{fresh, SoftLimiter};
use crate::names::{value_of, NameMap};
use crate::text::{
    chars_of, ends, ends_with, lowered, same, string_of, to_lowercase, trim, trim_dots, trimmed,
    undotted,
};
use vstd::prelude::*;
#[allow(unused_imports)]
use vstd::utf8::encode_utf8;

verus! {

/// A host name in the form that is compared: without surrounding whitespace, then without final
/// dots, in lower case.
pub open spec fn normalized(host: Seq<char>) -> Seq<char> {
    lowered(undotted(trimmed(host)))
}

/// A host belongs to a suffix when it is that domain or one below it.
pub open spec fn under(host: Seq<char>, suffix: Seq<char>) -> bool {
    host == suffix || ends(host, seq!['.'] + suffix)
}

/// The length of a text in bytes.
pub open spec fn byte_len(s: Seq<char>) -> nat {
    encode_utf8(s).len()
}

/// Suffixes with the family that each belongs to.
pub type SuffixList = Seq<(Seq<char>, Seq<char>)>;

/// The suffixes that one family lists.
pub open spec fn family_suffixes(name: Seq<char>, domains: Seq<Seq<char>>) -> SuffixList {
    domains.map_values(|d: Seq<char>| (normalized(d), name))
}

/// The suffixes of all families, as they are listed.
pub open spec fn listed(families: Seq<(Seq<char>, FamilyConfig)>) -> SuffixList
    decreases families.len(),
{
    if families.len() == 0 {
        Seq::empty()
    } else {
        listed(families.drop_last()) + family_suffixes(
            families.last().0,
            families.last().1.domains(),
        )
    }
}

/// Longer suffixes come first.
pub open spec fn longest_first(s: SuffixList) -> bool {
    forall|i: int, j: int|
        0 <= i < j < s.len() ==> byte_len((#[trigger] s[i]).0) >= byte_len((#[trigger] s[j]).0)
}

/// The suffixes of one length, in their order.
pub open spec fn of_length(s: SuffixList, len: nat) -> SuffixList {
    s.filter(|e: (Seq<char>, Seq<char>)| byte_len(e.0) == len)
}

/// Two lists hold the same suffixes, and those of equal length in the same order.
pub open spec fn same_within_lengths(a: SuffixList, b: SuffixList) -> bool {
    forall|len: nat| #[trigger] of_length(a, len) == of_length(b, len)
}

/// The family of the first suffix that a host belongs to.
pub open spec fn first_family(s: SuffixList, host: Seq<char>) -> Option<Seq<char>>
    decreases s.len(),
{
    if s.len() == 0 {
        None
    } else if under(host, s[0].0) {
        Some(s[0].1)
    } else {
        first_family(s.drop_first(), host)
    }
}

/// `str::trim`, `trim_end_matches('.')`, `to_ascii_lowercase`, in this order.
pub fn normalize_host(host: &str) -> (r: String)
    ensures
        r@ == normalized(host@),
{
    string_of(&to_lowercase(&trim_dots(&trim(&chars_of(host)))))
}

fn is_under(host: &[char], suffix: &str) -> (r: bool)
    ensures
        r == under(host@, suffix@),
{
    let tail = chars_of(suffix);
    if same(host, &tail) {
        return true;
    }
    let mut dotted: Vec<char> = Vec::new();
    dotted.push('.');
    let mut rest = tail;
    dotted.append(&mut rest);
    assert(dotted@ =~= seq!['.'] + suffix@);
    ends_with(host, &dotted)
}

/// The families, their suffixes and their limiters.
#[derive(Debug, Clone)]
pub struct Classifier {
    /// Lower-case suffix and family name.
    suffixes: Vec<(String, String)>,
    limiters: NameMap<SoftLimiter>,
}

/// The suffix list that a vector holds.
pub open spec fn list_view(v: Seq<(String, String)>) -> SuffixList {
    v.map_values(|e: (String, String)| (e.0@, e.1@))
}

fn bytes_in(s: &String) -> (r: usize)
    ensures
        r == byte_len(s@),
{
    s.as_str().as_bytes().len()
}

proof fn lemma_insert_keeps_lengths(s: SuffixList, at: int, e: (Seq<char>, Seq<char>), len: nat)
    requires
        0 <= at <= s.len(),
        forall|i: int| at <= i < s.len() ==> byte_len((#[trigger] s[i]).0) < byte_len(e.0),
    ensures
        of_length(s.insert(at, e), len) == of_length(s.push(e), len),
{
    let pred = |x: (Seq<char>, Seq<char>)| byte_len(x.0) == len;
    let front = s.take(at);
    let back = s.skip(at);
    let one = seq![e];
    assert(s.insert(at, e) =~= front + one + back);
    assert(s.push(e) =~= front + back + one);
    SuffixList::filter_distributes_over_add(front + one, back, pred);
    SuffixList::filter_distributes_over_add(front, one, pred);
    SuffixList::filter_distributes_over_add(front + back, one, pred);
    SuffixList::filter_distributes_over_add(front, back, pred);
    if len == byte_len(e.0) {
        lemma_filter_none(back, pred);
    } else {
        lemma_filter_none(one, pred);
    }
    assert(front.filter(pred) + one.filter(pred) + back.filter(pred) =~= front.filter(pred)
        + back.filter(pred) + one.filter(pred));
}

proof fn lemma_filter_none(s: SuffixList, pred: spec_fn((Seq<char>, Seq<char>)) -> bool)
    requires
        forall|i: int| 0 <= i < s.len() ==> !pred(#[trigger] s[i]),
    ensures
        s.filter(pred) == SuffixList::empty(),
    decreases s.len(),
{
    reveal(Seq::filter);
    if s.len() > 0 {
        lemma_filter_none(s.drop_last(), pred);
    }
}

proof fn lemma_push_keeps_lengths(a: SuffixList, b: SuffixList, e: (Seq<char>, Seq<char>))
    requires
        same_within_lengths(a, b),
    ensures
        same_within_lengths(a.push(e), b.push(e)),
{
    assert forall|len: nat| #[trigger] of_length(a.push(e), len) == of_length(b.push(e), len) by {
        let pred = |x: (Seq<char>, Seq<char>)| byte_len(x.0) == len;
        assert(a.push(e) =~= a + seq![e]);
        assert(b.push(e) =~= b + seq![e]);
        SuffixList::filter_distributes_over_add(a, seq![e], pred);
        SuffixList::filter_distributes_over_add(b, seq![e], pred);
        assert(of_length(a, len) == of_length(b, len));
    }
}

proof fn lemma_filter_member(
    s: SuffixList,
    pred: spec_fn((Seq<char>, Seq<char>)) -> bool,
    x: (Seq<char>, Seq<char>),
)
    requires
        s.filter(pred).contains(x),
    ensures
        s.contains(x),
    decreases s.len(),
{
    reveal(Seq::filter);
    if s.len() > 0 {
        let front = s.drop_last();
        if front.filter(pred).contains(x) {
            lemma_filter_member(front, pred, x);
            let i = choose|i: int| 0 <= i < front.len() && front[i] == x;
            assert(s[i] == x);
        } else {
            let i = choose|i: int| 0 <= i < s.filter(pred).len() && s.filter(pred)[i] == x;
            assert(s.last() == x) by {
                if pred(s.last()) && i < front.filter(pred).len() {
                    assert(front.filter(pred)[i] == x);
                } else if !pred(s.last()) {
                    assert(front.filter(pred)[i] == x);
                }
            }
        }
    }
}

/// Lists that agree within each length hold the same suffixes.
pub proof fn lemma_same_members(a: SuffixList, b: SuffixList, i: int)
    requires
        same_within_lengths(a, b),
        0 <= i < a.len(),
    ensures
        b.contains(a[i]),
{
    let len = byte_len(a[i].0);
    let pred = |x: (Seq<char>, Seq<char>)| byte_len(x.0) == len;
    a.lemma_filter_contains(pred, i);
    assert(of_length(a, len) == of_length(b, len));
    lemma_filter_member(b, pred, a[i]);
}

/// Files a suffix behind those that are not shorter.
fn file_suffix(list: &mut Vec<(String, String)>, suffix: String, family: String)
    requires
        longest_first(list_view(old(list)@)),
    ensures
        longest_first(list_view(final(list)@)),
        same_within_lengths(
            list_view(final(list)@),
            list_view(old(list)@).push((suffix@, family@)),
        ),
{
    let ghost s = list_view(list@);
    let ghost e = (suffix@, family@);
    let size: usize = bytes_in(&suffix);
    let mut at: usize = list.len();
    while at > 0 && bytes_in(&list[at - 1].0) < size
        invariant
            at <= list@.len(),
            s == list_view(list@),
            e.0 == suffix@,
            size == byte_len(suffix@),
            forall|i: int| at <= i < s.len() ==> byte_len((#[trigger] s[i]).0) < size,
        decreases at,
    {
        assert(s[at - 1].0 == list@[at - 1].0@);
        at -= 1;
    }
    assert(at > 0 ==> byte_len(s[at - 1].0) >= size);
    list.insert(at, (suffix, family));
    let ghost t = list_view(list@);
    proof {
        assert(t =~= s.insert(at as int, e));
        assert forall|i: int, j: int| 0 <= i < j < t.len() implies byte_len((#[trigger] t[i]).0)
            >= byte_len((#[trigger] t[j]).0) by {
            if j < at {
                assert(t[i] == s[i] && t[j] == s[j]);
            } else if j == at {
                assert(t[i] == s[i]);
                if i < at - 1 {
                    assert(byte_len(s[i].0) >= byte_len(s[at - 1].0));
                }
            } else {
                assert(t[j] == s[j - 1]);
                if i < at {
                    assert(t[i] == s[i]);
                } else if i > at {
                    assert(t[i] == s[i - 1]);
                }
            }
        }
        assert forall|len: nat| #[trigger] of_length(t, len) == of_length(s.push(e), len) by {
            lemma_insert_keeps_lengths(s, at as int, e, len);
        }
    }
}

impl Classifier {
    /// The suffixes in the order in which they are tried.
    pub closed spec fn suffixes(&self) -> SuffixList {
        list_view(self.suffixes@)
    }

    /// The limiters by family name.
    pub closed spec fn limiters(&self) -> NameMap<SoftLimiter> {
        self.limiters
    }

    /// Longer suffixes are tried first, and every family has a limiter.
    pub open spec fn wf(&self) -> bool {
        &&& longest_first(self.suffixes())
        &&& self.limiters().wf()
        &&& forall|i: int|
            0 <= i < self.suffixes().len() ==> value_of(
                self.limiters().entries(),
                (#[trigger] self.suffixes()[i]).1,
            ) is Some
        &&& forall|k: Seq<char>| #[trigger]
            value_of(self.limiters().entries(), k) is Some ==> value_of(
                self.limiters().entries(),
                k,
            )->0.wf()
    }

    /// The classifier for a configuration, with limiters whose first cycle begins at `now`.
    pub fn from_config(cfg: &Config, now: u64) -> (r: Classifier)
        requires
            cfg.families.wf(),
            now + 60_000_000_000 <= u64::MAX,
        ensures
            r.wf(),
            same_within_lengths(r.suffixes(), listed(cfg.families.entries())),
            forall|k: Seq<char>| #[trigger]
                value_of(r.limiters().entries(), k) == match value_of(cfg.families.entries(), k) {
                    Some(family) => Some(
                        fresh(family.limit, cfg.soft_ratio, cfg.soft_pace, 60_000_000_000, now),
                    ),
                    None => None,
                },
    {
        let window: u64 = cfg.window_secs() * 1_000_000_000;
        let mut suffixes: Vec<(String, String)> = Vec::new();
        let mut limiters: NameMap<SoftLimiter> = NameMap::new();
        let ghost families = cfg.families.entries();
        assert(list_view(suffixes@) =~= SuffixList::empty());
        let mut i: usize = 0;
        while i < cfg.families.len()
            invariant
                i <= families.len(),
                families == cfg.families.entries(),
                cfg.families.wf(),
                window == 60_000_000_000,
                now + window <= u64::MAX,
                longest_first(list_view(suffixes@)),
                same_within_lengths(list_view(suffixes@), listed(families.take(i as int))),
                limiters.wf(),
                forall|k: Seq<char>| #[trigger]
                    value_of(limiters.entries(), k) == match value_of(families.take(i as int), k) {
                        Some(family) => Some(
                            fresh(family.limit, cfg.soft_ratio, cfg.soft_pace, window, now),
                        ),
                        None => None,
                    },
                forall|j: int|
                    0 <= j < suffixes@.len() ==> value_of(
                        limiters.entries(),
                        (#[trigger] suffixes@[j]).1@,
                    ) is Some,
                forall|k: Seq<char>| #[trigger]
                    value_of(limiters.entries(), k) is Some ==> value_of(
                        limiters.entries(),
                        k,
                    )->0.wf(),
            decreases families.len() - i,
        {
            let name = cfg.families.name_at(i);
            let family = cfg.families.value_at(i);
            let ghost done = families.take(i as int);
            let ghost next = families.take(i + 1);
            proof {
                assert(next.drop_last() =~= done);
                assert(next.last() == families[i as int]);
                assert forall|k: Seq<char>| #[trigger]
                    value_of(next, k) == if k == name@ {
                        Some(*family)
                    } else {
                        value_of(done, k)
                    } by {
                    crate::names::lemma_value_of_next(families, i as int, k);
                }
            }
            let limiter = SoftLimiter::new(
                family.limit,
                cfg.soft_ratio,
                cfg.soft_pace,
                window,
                now,
            );
            limiters.insert(name.clone(), limiter);
            let ghost domains = family.domains();
            let ghost before = listed(done);
            let ghost own = family_suffixes(name@, domains);
            let mut j: usize = 0;
            assert(before + own.take(0) =~= before);
            while j < family.suffixes.len()
                invariant
                    j <= family.suffixes@.len(),
                    domains == family.domains(),
                    own == family_suffixes(name@, domains),
                    longest_first(list_view(suffixes@)),
                    same_within_lengths(list_view(suffixes@), before + own.take(j as int)),
                    value_of(limiters.entries(), name@) is Some,
                    forall|m: int|
                        0 <= m < suffixes@.len() ==> value_of(
                            limiters.entries(),
                            (#[trigger] suffixes@[m]).1@,
                        ) is Some,
                decreases family.suffixes@.len() - j,
            {
                let suffix = normalize_host(&family.suffixes[j]);
                let ghost e = (suffix@, name@);
                let ghost old_list = list_view(suffixes@);
                proof {
                    assert(e == own[j as int]);
                    assert((before + own.take(j as int)).push(e) =~= before + own.take(j + 1));
                    lemma_push_keeps_lengths(old_list, before + own.take(j as int), e);
                }
                file_suffix(&mut suffixes, suffix, name.clone());
                proof {
                    let new_list = list_view(suffixes@);
                    assert forall|len: nat| #[trigger]
                        of_length(new_list, len) == of_length(before + own.take(j + 1), len) by {
                        assert(of_length(new_list, len) == of_length(old_list.push(e), len));
                        assert(of_length(old_list.push(e), len) == of_length(
                            (before + own.take(j as int)).push(e),
                            len,
                        ));
                    }
                    assert forall|m: int| 0 <= m < suffixes@.len() implies value_of(
                        limiters.entries(),
                        (#[trigger] suffixes@[m]).1@,
                    ) is Some by {
                        assert(new_list[m].1 == suffixes@[m].1@);
                        lemma_same_members(new_list, old_list.push(e), m);
                        let q = choose|q: int|
                            0 <= q < old_list.push(e).len() && #[trigger] old_list.push(e)[q]
                                == new_list[m];
                        if q < old_list.len() {
                            assert(old_list[q] == old_list.push(e)[q]);
                        }
                    }
                }
                j += 1;
            }
            assert(own.take(j as int) =~= own);
            assert(listed(next) == before + own);
            i += 1;
        }
        assert(families.take(i as int) =~= families);
        let r = Classifier { suffixes, limiters };
        proof {
            assert forall|m: int| 0 <= m < r.suffixes().len() implies value_of(
                r.limiters().entries(),
                (#[trigger] r.suffixes()[m]).1,
            ) is Some by {
                assert(r.suffixes()[m].1 == suffixes@[m].1@);
            }
        }
        r
    }

    /// The family that a host belongs to.
    pub fn match_host(&self, host: &str) -> (r: Option<&str>)
        ensures
            match r {
                Some(family) => first_family(self.suffixes(), normalized(host@)) == Some(family@),
                None => first_family(self.suffixes(), normalized(host@)) is None,
            },
    {
        let wanted = to_lowercase(&trim_dots(&trim(&chars_of(host))));
        let ghost s = self.suffixes();
        assert(s.skip(0) =~= s);
        let mut i: usize = 0;
        while i < self.suffixes.len()
            invariant
                i <= s.len(),
                s == self.suffixes(),
                wanted@ == normalized(host@),
                first_family(s, wanted@) == first_family(s.skip(i as int), wanted@),
            decreases s.len() - i,
        {
            let entry = &self.suffixes[i];
            assert(s.skip(i as int)[0] == (entry.0@, entry.1@));
            if is_under(&wanted, &entry.0) {
                return Some(entry.1.as_str());
            }
            assert(s.skip(i as int).drop_first() =~= s.skip(i + 1));
            i += 1;
        }
        None
    }

    /// The limiter of a family.
    pub fn limiter(&self, family: &str) -> (r: Option<&SoftLimiter>)
        requires
            self.wf(),
        ensures
            match r {
                Some(l) => value_of(self.limiters().entries(), family@) == Some(*l),
                None => value_of(self.limiters().entries(), family@) is None,
            },
    {
        self.limiters.get(family)
    }

    /// Puts back the state of a family's limiter after a step. A name that is no family is passed
    /// over.
    pub fn set_limiter(&mut self, family: &str, limiter: SoftLimiter)
        requires
            old(self).wf(),
            limiter.wf(),
        ensures
            final(self).wf(),
            final(self).suffixes() == old(self).suffixes(),
            forall|k: Seq<char>| #[trigger]
                value_of(final(self).limiters().entries(), k) == if k == family@ && value_of(
                    old(self).limiters().entries(),
                    k,
                ) is Some {
                    Some(limiter)
                } else {
                    value_of(old(self).limiters().entries(), k)
                },
    {
        match self.limiters.get_mut(family) {
            Some(slot) => {
                *slot = limiter;
            },
            None => {},
        }
    }
}

/// A host belongs to no family exactly when it is under none of the suffixes.
pub proof fn lemma_unmatched_means_under_none(s: SuffixList, host: Seq<char>)
    ensures
        first_family(s, host) is None <==> forall|i: int|
            0 <= i < s.len() ==> !under(host, (#[trigger] s[i]).0),
    decreases s.len(),
{
    if s.len() > 0 {
        let rest = s.drop_first();
        lemma_unmatched_means_under_none(rest, host);
        assert(forall|i: int| 0 <= i < rest.len() ==> #[trigger] rest[i] == s[i + 1]);
        if first_family(rest, host) is Some {
            let j = choose|j: int| 0 <= j < rest.len() && under(host, (#[trigger] rest[j]).0);
            assert(s[j + 1] == rest[j]);
        } else if !under(host, s[0].0) {
            assert forall|i: int| 0 <= i < s.len() implies !under(host, (#[trigger] s[i]).0) by {
                if i > 0 {
                    assert(rest[i - 1] == s[i]);
                }
            }
        }
    }
}

/// The longest suffix wins: where a host is under several suffixes, its family is that of one to
/// which no other is longer, and of the first one listed if several are as long.
pub proof fn lemma_longest_suffix_wins(s: SuffixList, host: Seq<char>)
    requires
        longest_first(s),
        first_family(s, host) is Some,
    ensures
        exists|i: int|
            {
                &&& 0 <= i < s.len()
                &&& first_family(s, host) == Some((#[trigger] s[i]).1)
                &&& under(host, s[i].0)
                &&& forall|j: int| 0 <= j < i ==> !under(host, (#[trigger] s[j]).0)
                &&& forall|j: int|
                    0 <= j < s.len() && under(host, (#[trigger] s[j]).0) ==> byte_len(s[j].0)
                        <= byte_len(s[i].0)
            },
    decreases s.len(),
{
    if under(host, s[0].0) {
        assert(first_family(s, host) == Some(s[0].1));
    } else {
        let rest = s.drop_first();
        assert(forall|i: int| 0 <= i < rest.len() ==> #[trigger] rest[i] == s[i + 1]);
        assert(longest_first(rest));
        lemma_longest_suffix_wins(rest, host);
        let i = choose|i: int|
            {
                &&& 0 <= i < rest.len()
                &&& first_family(rest, host) == Some((#[trigger] rest[i]).1)
                &&& under(host, rest[i].0)
                &&& forall|j: int| 0 <= j < i ==> !under(host, (#[trigger] rest[j]).0)
                &&& forall|j: int|
                    0 <= j < rest.len() && under(host, (#[trigger] rest[j]).0) ==> byte_len(
                        rest[j].0,
                    ) <= byte_len(rest[i].0)
            };
        assert(s[i + 1] == rest[i]);
        assert forall|j: int| 0 <= j < i + 1 implies !under(host, (#[trigger] s[j]).0) by {
            if j > 0 {
                assert(rest[j - 1] == s[j]);
            }
        }
        assert forall|j: int| 0 <= j < s.len() && under(host, (#[trigger] s[j]).0) implies byte_len(
            s[j].0,
        ) <= byte_len(s[i + 1].0) by {
            assert(j > 0);
            assert(rest[j - 1] == s[j]);
        }
    }
}

/// Every host that belongs to a family is paced: the family has a limiter.
pub proof fn lemma_matched_family_has_limiter(c: Classifier, host: Seq<char>)
    requires
        c.wf(),
        first_family(c.suffixes(), host) is Some,
    ensures
        value_of(c.limiters().entries(), first_family(c.suffixes(), host)->0) is Some,
{
    lemma_longest_suffix_wins(c.suffixes(), host);
}

proof fn lemma_lower_keeps_kind(c: char)
    ensures
        crate::text::is_space(crate::text::lower(c)) == crate::text::is_space(c),
        (crate::text::lower(c) == '.') == (c == '.'),
        crate::text::lower(crate::text::lower(c)) == crate::text::lower(c),
{
}

proof fn lemma_lowered_trim_start(s: Seq<char>)
    ensures
        crate::text::trim_start(lowered(s)) == lowered(crate::text::trim_start(s)),
    decreases s.len(),
{
    if s.len() > 0 {
        lemma_lower_keeps_kind(s[0]);
        lemma_lowered_trim_start(s.drop_first());
        assert(lowered(s).drop_first() =~= lowered(s.drop_first()));
    }
}

proof fn lemma_lowered_trim_end(s: Seq<char>)
    ensures
        crate::text::trim_end(lowered(s)) == lowered(crate::text::trim_end(s)),
        undotted(lowered(s)) == lowered(undotted(s)),
    decreases s.len(),
{
    if s.len() > 0 {
        lemma_lower_keeps_kind(s.last());
        lemma_lowered_trim_end(s.drop_last());
        assert(lowered(s).drop_last() =~= lowered(s.drop_last()));
    }
}

/// Letter case does not matter: a host is classified as its lower-case form is.
pub proof fn lemma_case_does_not_matter(host: Seq<char>)
    ensures
        normalized(lowered(host)) == normalized(host),
{
    lemma_lowered_trim_start(host);
    let a = crate::text::trim_start(host);
    lemma_lowered_trim_end(a);
    let b = crate::text::trim_end(a);
    lemma_lowered_trim_end(b);
    let c = undotted(b);
    assert(lowered(lowered(c)) =~= lowered(c)) by {
        assert forall|i: int| 0 <= i < c.len() implies lowered(lowered(c))[i] == lowered(c)[i] by {
            lemma_lower_keeps_kind(c[i]);
        }
    }
}

/// A domain is under itself, and so is every name below it.
pub proof fn lemma_names_below_are_under(label: Seq<char>, suffix: Seq<char>)
    ensures
        under(suffix, suffix),
        under(label + seq!['.'] + suffix, suffix),
{
    let host = label + seq!['.'] + suffix;
    let tail = seq!['.'] + suffix;
    assert(host.subrange(host.len() - tail.len(), host.len() as int) =~= tail);
}

/// A host belongs to a suffix only if it is that domain, or a name with a dot and the domain behind
/// it; a name that merely ends in the same letters does not.
pub proof fn lemma_under_means_the_domain_or_below(host: Seq<char>, suffix: Seq<char>)
    ensures
        under(host, suffix) <==> host == suffix || exists|label: Seq<char>|
            host == #[trigger] (label + seq!['.'] + suffix),
{
    let tail = seq!['.'] + suffix;
    crate::text::lemma_parts_of_a_text(host, tail);
    if exists|front: Seq<char>| host == #[trigger] (front + tail) {
        let front = choose|front: Seq<char>| host == #[trigger] (front + tail);
        assert(front + tail =~= front + seq!['.'] + suffix);
    }
    if exists|label: Seq<char>| host == #[trigger] (label + seq!['.'] + suffix) {
        let label = choose|label: Seq<char>| host == #[trigger] (label + seq!['.'] + suffix);
        assert(label + seq!['.'] + suffix =~= label + tail);
    }
}

/// The form in which hosts are compared: what is left of a host without the whitespace around it
/// and without the dots behind it, in lower case.
pub proof fn lemma_normalized_keeps_the_name(host: Seq<char>)
    ensures
        exists|front: Seq<char>, name: Seq<char>, dots: Seq<char>, back: Seq<char>|
            {
                &&& host == #[trigger] (front + name + dots + back)
                &&& normalized(host) == lowered(name)
                &&& name.len() > 0 ==> name.last() != '.'
                &&& forall|i: int| 0 <= i < dots.len() ==> #[trigger] dots[i] == '.'
                &&& forall|i: int|
                    0 <= i < front.len() ==> crate::text::is_space(#[trigger] front[i])
                &&& forall|i: int| 0 <= i < back.len() ==> crate::text::is_space(#[trigger] back[i])
                &&& (name + dots).len() > 0 ==> !crate::text::is_space((name + dots)[0])
                    && !crate::text::is_space((name + dots).last())
            },
{
    let t = trimmed(host);
    crate::text::lemma_trimming_takes_the_outer_whitespace(host);
    let (front, back) = choose|front: Seq<char>, back: Seq<char>|
        {
            &&& host == #[trigger] (front + trimmed(host) + back)
            &&& forall|i: int| 0 <= i < front.len() ==> crate::text::is_space(#[trigger] front[i])
            &&& forall|i: int| 0 <= i < back.len() ==> crate::text::is_space(#[trigger] back[i])
        };
    crate::text::lemma_final_dots_are_dropped(t);
    let name = undotted(t);
    let dots = choose|dots: Seq<char>|
        t == #[trigger] (undotted(t) + dots) && forall|i: int|
            0 <= i < dots.len() ==> #[trigger] dots[i] == '.';
    assert(host =~= front + name + dots + back);
    assert(name + dots == t);
}

proof fn lemma_bytes_of_prefixed(front: Seq<char>, s: Seq<char>)
    ensures
        byte_len(front + s) >= front.len() + byte_len(s),
    decreases front.len(),
{
    if front.len() == 0 {
        assert(front + s =~= s);
    } else {
        lemma_bytes_of_prefixed(front.drop_first(), s);
        assert((front + s).drop_first() =~= front.drop_first() + s);
        assert((front + s)[0] == front[0]);
    }
}

proof fn lemma_suffix_of_host(host: Seq<char>, suffix: Seq<char>)
    requires
        under(host, suffix),
    ensures
        suffix.len() <= host.len(),
        suffix == host.skip(host.len() - suffix.len()),
{
    lemma_under_means_the_domain_or_below(host, suffix);
    if host == suffix {
        assert(host.skip(0) =~= host);
    } else {
        let label = choose|label: Seq<char>| host == #[trigger] (label + seq!['.'] + suffix);
        assert(host.skip(host.len() - suffix.len()) =~= suffix);
    }
}

proof fn lemma_lengths_agree(host: Seq<char>, a: Seq<char>, b: Seq<char>)
    requires
        under(host, a),
        under(host, b),
    ensures
        byte_len(b) <= byte_len(a) ==> b.len() <= a.len(),
        b.len() == a.len() ==> b == a,
{
    lemma_suffix_of_host(host, a);
    lemma_suffix_of_host(host, b);
    if b.len() > a.len() {
        let front = b.take(b.len() - a.len());
        assert(b =~= front + a);
        lemma_bytes_of_prefixed(front, a);
    }
}

proof fn lemma_first_family_of_joined(a: SuffixList, b: SuffixList, host: Seq<char>)
    ensures
        first_family(a + b, host) == if first_family(a, host) is Some {
            first_family(a, host)
        } else {
            first_family(b, host)
        },
    decreases a.len(),
{
    if a.len() == 0 {
        assert(a + b =~= b);
    } else {
        assert((a + b)[0] == a[0]);
        assert((a + b).drop_first() =~= a.drop_first() + b);
        lemma_first_family_of_joined(a.drop_first(), b, host);
    }
}

proof fn lemma_filter_keeps_unmatched(s: SuffixList, len: nat, host: Seq<char>)
    requires
        first_family(s, host) is None,
    ensures
        first_family(of_length(s, len), host) is None,
{
    let pred = |e: (Seq<char>, Seq<char>)| byte_len(e.0) == len;
    let t = of_length(s, len);
    lemma_unmatched_means_under_none(s, host);
    assert forall|i: int| 0 <= i < t.len() implies !under(host, (#[trigger] t[i]).0) by {
        assert(t.contains(t[i]));
        lemma_filter_member(s, pred, t[i]);
        let k = choose|k: int| 0 <= k < s.len() && s[k] == t[i];
        assert(!under(host, s[k].0));
    }
    lemma_unmatched_means_under_none(t, host);
}

proof fn lemma_first_within_its_length(s: SuffixList, host: Seq<char>, p: int)
    requires
        0 <= p < s.len(),
        under(host, s[p].0),
        forall|j: int| 0 <= j < p ==> !under(host, (#[trigger] s[j]).0),
    ensures
        first_family(of_length(s, byte_len(s[p].0)), host) == Some(s[p].1),
{
    let len = byte_len(s[p].0);
    let pred = |e: (Seq<char>, Seq<char>)| byte_len(e.0) == len;
    let front = s.take(p);
    let one = seq![s[p]];
    let back = s.skip(p + 1);
    assert(s =~= front + one + back);
    SuffixList::filter_distributes_over_add(front + one, back, pred);
    SuffixList::filter_distributes_over_add(front, one, pred);
    assert(forall|j: int| 0 <= j < front.len() ==> #[trigger] front[j] == s[j]);
    lemma_unmatched_means_under_none(front, host);
    lemma_filter_keeps_unmatched(front, len, host);
    assert(one.filter(pred) =~= one) by {
        reveal(Seq::filter);
        assert(one.drop_last() =~= SuffixList::empty());
        assert(one.last() == s[p]);
        assert(SuffixList::empty().filter(pred) =~= SuffixList::empty());
    }
    lemma_first_family_of_joined(front.filter(pred) + one.filter(pred), back.filter(pred), host);
    lemma_first_family_of_joined(front.filter(pred), one.filter(pred), host);
    assert(first_family(one, host) == Some(s[p].1));
}

/// The domain at a position of a family's list, in the form that is compared.
pub open spec fn domain_at(families: Seq<(Seq<char>, FamilyConfig)>, i: int, j: int) -> Seq<char> {
    normalized(families[i].1.suffixes@[j]@)
}

/// A family is there and lists a domain at this position.
pub open spec fn domain_listed(
    families: Seq<(Seq<char>, FamilyConfig)>,
    i: int,
    j: int,
) -> bool {
    0 <= i < families.len() && 0 <= j < families[i].1.suffixes@.len()
}

proof fn lemma_listed_has(families: Seq<(Seq<char>, FamilyConfig)>, i: int, j: int)
    requires
        domain_listed(families, i, j),
    ensures
        listed(families).contains((domain_at(families, i, j), families[i].0)),
    decreases families.len(),
{
    let front = families.drop_last();
    let last = family_suffixes(families.last().0, families.last().1.domains());
    let all = listed(front) + last;
    if i == families.len() - 1 {
        assert(last[j] == (domain_at(families, i, j), families[i].0));
        assert(all[listed(front).len() + j] == last[j]);
    } else {
        assert(front[i] == families[i]);
        lemma_listed_has(front, i, j);
        let k = choose|k: int|
            0 <= k < listed(front).len() && listed(front)[k] == (
                domain_at(families, i, j),
                families[i].0,
            );
        assert(all[k] == listed(front)[k]);
    }
}

proof fn lemma_first_listed(
    families: Seq<(Seq<char>, FamilyConfig)>,
    host: Seq<char>,
    len: nat,
) -> (at: (int, int))
    requires
        first_family(of_length(listed(families), len), host) is Some,
    ensures
        domain_listed(families, at.0, at.1),
        first_family(of_length(listed(families), len), host) == Some(families[at.0].0),
        under(host, domain_at(families, at.0, at.1)),
        byte_len(domain_at(families, at.0, at.1)) == len,
        forall|i: int, j: int|
            #![trigger domain_at(families, i, j)]
            domain_listed(families, i, j) && i < at.0 && byte_len(domain_at(families, i, j)) == len
                ==> !under(host, domain_at(families, i, j)),
    decreases families.len(),
{
    let pred = |e: (Seq<char>, Seq<char>)| byte_len(e.0) == len;
    if families.len() == 0 {
        reveal(Seq::filter);
        assert(listed(families).filter(pred).len() == 0);
        assert(false);
        (0, 0)
    } else {
        let n = families.len() - 1;
        let front = families.drop_last();
        let last = family_suffixes(families.last().0, families.last().1.domains());
        SuffixList::filter_distributes_over_add(listed(front), last, pred);
        lemma_first_family_of_joined(of_length(listed(front), len), of_length(last, len), host);
        if first_family(of_length(listed(front), len), host) is Some {
            let at = lemma_first_listed(front, host, len);
            assert(front[at.0] == families[at.0]);
            assert forall|i: int, j: int|
                #![trigger domain_at(families, i, j)]
                domain_listed(families, i, j) && i < at.0 && byte_len(domain_at(families, i, j))
                    == len implies !under(host, domain_at(families, i, j)) by {
                assert(front[i] == families[i]);
                assert(domain_at(front, i, j) == domain_at(families, i, j));
            }
            at
        } else {
            let t = of_length(last, len);
            lemma_unmatched_means_under_none(t, host);
            lemma_some_matches_first(t, host);
            let q = choose|q: int|
                0 <= q < t.len() && under(host, (#[trigger] t[q]).0) && first_family(t, host)
                    == Some(t[q].1);
            assert(t.contains(t[q]));
            lemma_filter_member(last, pred, t[q]);
            let j = choose|j: int| 0 <= j < last.len() && last[j] == t[q];
            assert(last[j] == (domain_at(families, n, j), families[n].0));
            assert(pred(t[q])) by {
                last.lemma_filter_pred(pred, q);
            }
            assert forall|i: int, k: int|
                #![trigger domain_at(families, i, k)]
                domain_listed(families, i, k) && i < n && byte_len(domain_at(families, i, k))
                    == len implies !under(host, domain_at(families, i, k)) by {
                assert(front[i] == families[i]);
                lemma_listed_has(front, i, k);
                let e = (domain_at(families, i, k), families[i].0);
                let lf = listed(front);
                let m = choose|m: int| 0 <= m < lf.len() && lf[m] == e;
                lf.lemma_filter_contains(pred, m);
                let u = of_length(lf, len);
                let v = choose|v: int| 0 <= v < u.len() && u[v] == e;
                lemma_unmatched_means_under_none(u, host);
                assert(!under(host, u[v].0));
            }
            (n, j)
        }
    }
}

proof fn lemma_some_matches_first(s: SuffixList, host: Seq<char>)
    requires
        first_family(s, host) is Some,
    ensures
        exists|q: int|
            0 <= q < s.len() && under(host, (#[trigger] s[q]).0) && first_family(s, host) == Some(
                s[q].1,
            ),
    decreases s.len(),
{
    if under(host, s[0].0) {
        assert(first_family(s, host) == Some(s[0].1));
    } else {
        let rest = s.drop_first();
        lemma_some_matches_first(rest, host);
        let q = choose|q: int|
            0 <= q < rest.len() && under(host, (#[trigger] rest[q]).0) && first_family(rest, host)
                == Some(rest[q].1);
        assert(s[q + 1] == rest[q]);
    }
}

/// The family of a host, in terms of the configuration, for a list that was made from it: a host
/// is in no family exactly when it is none of the listed domains and below none of them. Else its
/// family lists a domain that it is or is below, no family lists a longer one, and no family that
/// comes earlier lists one as long.
pub proof fn lemma_family_of_a_host(
    families: Seq<(Seq<char>, FamilyConfig)>,
    s: SuffixList,
    host: Seq<char>,
)
    requires
        longest_first(s),
        same_within_lengths(s, listed(families)),
    ensures
        ({
            let belongs = |domain: Seq<char>|
                host == domain || exists|label: Seq<char>|
                    host == #[trigger] (label + seq!['.'] + domain);
            match first_family(s, host) {
                None => forall|i: int, j: int|
                    domain_listed(families, i, j) ==> !belongs(#[trigger] domain_at(families, i, j)),
                Some(family) => exists|i: int, j: int|
                    #![trigger domain_at(families, i, j)]
                    {
                        &&& domain_listed(families, i, j)
                        &&& families[i].0 == family
                        &&& belongs(domain_at(families, i, j))
                        &&& forall|k: int, m: int|
                            domain_listed(families, k, m) && belongs(
                                #[trigger] domain_at(families, k, m),
                            ) ==> domain_at(families, k, m).len() <= domain_at(families, i, j).len()
                                && (domain_at(families, k, m).len() == domain_at(
                                families,
                                i,
                                j,
                            ).len() ==> i <= k)
                    },
            }
        }),
{
    let all = listed(families);
    assert(same_within_lengths(all, s)) by {
        assert forall|len: nat| #[trigger] of_length(all, len) == of_length(s, len) by {
            assert(of_length(s, len) == of_length(all, len));
        }
    }
    assert forall|domain: Seq<char>|
        (host == domain || exists|label: Seq<char>| host == #[trigger] (label + seq!['.'] + domain))
            == #[trigger] under(host, domain) by {
        lemma_under_means_the_domain_or_below(host, domain);
    }
    if first_family(s, host) is None {
        assert forall|i: int, j: int| domain_listed(families, i, j) implies !under(
            host,
            #[trigger] domain_at(families, i, j),
        ) by {
            let k = lemma_listed_in(families, s, i, j);
            lemma_unmatched_means_under_none(s, host);
            assert(!under(host, s[k].0));
        }
    } else {
        lemma_longest_suffix_wins(s, host);
        let p = choose|i: int|
            {
                &&& 0 <= i < s.len()
                &&& first_family(s, host) == Some((#[trigger] s[i]).1)
                &&& under(host, s[i].0)
                &&& forall|j: int| 0 <= j < i ==> !under(host, (#[trigger] s[j]).0)
                &&& forall|j: int|
                    0 <= j < s.len() && under(host, (#[trigger] s[j]).0) ==> byte_len(s[j].0)
                        <= byte_len(s[i].0)
            };
        let len = byte_len(s[p].0);
        lemma_first_within_its_length(s, host, p);
        assert(of_length(s, len) == of_length(all, len));
        let (i, j) = lemma_first_listed(families, host, len);
        let d = domain_at(families, i, j);
        assert forall|k: int, m: int|
            domain_listed(families, k, m) && under(host, #[trigger] domain_at(families, k, m))
                implies domain_at(families, k, m).len() <= d.len() && (domain_at(
            families,
            k,
            m,
        ).len() == d.len() ==> i <= k) by {
            let e = domain_at(families, k, m);
            let q = lemma_listed_in(families, s, k, m);
            assert(under(host, s[q].0));
            lemma_lengths_agree(host, d, e);
        }
        assert(under(host, d));
    }
}

proof fn lemma_listed_in(
    families: Seq<(Seq<char>, FamilyConfig)>,
    s: SuffixList,
    i: int,
    j: int,
) -> (k: int)
    requires
        same_within_lengths(listed(families), s),
        domain_listed(families, i, j),
    ensures
        0 <= k < s.len(),
        s[k] == (domain_at(families, i, j), families[i].0),
{
    let all = listed(families);
    let e = (domain_at(families, i, j), families[i].0);
    lemma_listed_has(families, i, j);
    let m = choose|m: int| 0 <= m < all.len() && all[m] == e;
    lemma_same_members(all, s, m);
    choose|k: int| 0 <= k < s.len() && s[k] == e
}

} // verus!
