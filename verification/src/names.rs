//! A map from names to values that keeps its names in order.

use crate::text::chars_of;
use vstd::prelude::*;

verus! {

/// The order of names: by the first character in which they differ, a name before its extensions.
pub open spec fn text_less(a: Seq<char>, b: Seq<char>) -> bool
    decreases a.len(),
{
    if b.len() == 0 {
        false
    } else if a.len() == 0 {
        true
    } else if a[0] != b[0] {
        a[0] < b[0]
    } else {
        text_less(a.drop_first(), b.drop_first())
    }
}

pub proof fn lemma_text_less_irreflexive(a: Seq<char>)
    ensures
        !text_less(a, a),
    decreases a.len(),
{
    if a.len() > 0 {
        lemma_text_less_irreflexive(a.drop_first());
    }
}

pub proof fn lemma_text_less_transitive(a: Seq<char>, b: Seq<char>, c: Seq<char>)
    requires
        text_less(a, b),
        text_less(b, c),
    ensures
        text_less(a, c),
    decreases a.len(),
{
    if a.len() > 0 && a[0] == b[0] && b[0] == c[0] {
        lemma_text_less_transitive(a.drop_first(), b.drop_first(), c.drop_first());
    }
}

pub proof fn lemma_text_less_total(a: Seq<char>, b: Seq<char>)
    ensures
        text_less(a, b) || a == b || text_less(b, a),
    decreases a.len(),
{
    if a.len() > 0 && b.len() > 0 && a[0] == b[0] {
        lemma_text_less_total(a.drop_first(), b.drop_first());
        if a.drop_first() == b.drop_first() {
            assert(a =~= seq![a[0]] + a.drop_first());
            assert(b =~= seq![b[0]] + b.drop_first());
        }
    } else if a.len() == 0 && b.len() == 0 {
        assert(a =~= b);
    }
}

/// How two names compare.
#[derive(Debug, Clone, Copy, PartialEq, Eq, Structural)]
pub enum NameOrder {
    Before,
    Same,
    After,
}

/// Compares two names.
pub fn order(a: &str, b: &str) -> (r: NameOrder)
    ensures
        r == NameOrder::Before <==> text_less(a@, b@),
        r == NameOrder::Same <==> a@ == b@,
        r == NameOrder::After <==> text_less(b@, a@),
{
    let x = chars_of(a);
    let y = chars_of(b);
    proof {
        lemma_text_less_irreflexive(a@);
        lemma_text_less_total(a@, b@);
        if text_less(a@, b@) && text_less(b@, a@) {
            lemma_text_less_transitive(a@, b@, a@);
        }
    }
    let mut i: usize = 0;
    assert(a@.skip(0) == a@ && b@.skip(0) == b@);
    while i < x.len() && i < y.len()
        invariant
            x@ == a@,
            y@ == b@,
            i <= x@.len(),
            i <= y@.len(),
            a@.take(i as int) == b@.take(i as int),
            text_less(a@, b@) == text_less(a@.skip(i as int), b@.skip(i as int)),
            text_less(b@, a@) == text_less(b@.skip(i as int), a@.skip(i as int)),
            text_less(a@, b@) || a@ == b@ || text_less(b@, a@),
            !(text_less(a@, b@) && text_less(b@, a@)),
            a@ == b@ ==> !text_less(a@, b@),
        decreases x@.len() - i,
    {
        if x[i] < y[i] {
            return NameOrder::Before;
        }
        if y[i] < x[i] {
            return NameOrder::After;
        }
        assert(a@.skip(i as int).drop_first() =~= a@.skip(i + 1));
        assert(b@.skip(i as int).drop_first() =~= b@.skip(i + 1));
        assert(a@.take(i + 1) =~= a@.take(i as int).push(a@[i as int]));
        assert(b@.take(i + 1) =~= b@.take(i as int).push(b@[i as int]));
        i += 1;
    }
    if x.len() < y.len() {
        NameOrder::Before
    } else if y.len() < x.len() {
        NameOrder::After
    } else {
        assert(a@.take(i as int) =~= a@ && b@.take(i as int) =~= b@);
        NameOrder::Same
    }
}

/// Values by name. The names are distinct and stand in order.
#[derive(Debug, Clone)]
pub struct NameMap<V> {
    entries: Vec<(String, V)>,
}

impl<V> NameMap<V> {
    /// The entries in the order of their names.
    pub closed spec fn entries(&self) -> Seq<(Seq<char>, V)> {
        self.entries@.map_values(|e: (String, V)| (e.0@, e.1))
    }

    /// The names are distinct and stand in order.
    pub open spec fn wf(&self) -> bool {
        ordered(self.entries())
    }
}

/// The names of the entries ascend.
pub open spec fn ordered<V>(s: Seq<(Seq<char>, V)>) -> bool {
    forall|i: int, j: int|
        0 <= i < j < s.len() ==> text_less((#[trigger] s[i]).0, (#[trigger] s[j]).0)
}

/// An entry has this name.
pub open spec fn named<V>(s: Seq<(Seq<char>, V)>, name: Seq<char>) -> bool {
    exists|i: int| 0 <= i < s.len() && (#[trigger] s[i]).0 == name
}

/// The value of the entry with this name.
pub open spec fn value_of<V>(s: Seq<(Seq<char>, V)>, name: Seq<char>) -> Option<V> {
    if named(s, name) {
        Some(s[choose|i: int| 0 <= i < s.len() && (#[trigger] s[i]).0 == name].1)
    } else {
        None
    }
}

pub proof fn lemma_value_at<V>(s: Seq<(Seq<char>, V)>, i: int)
    requires
        ordered(s),
        0 <= i < s.len(),
    ensures
        named(s, s[i].0),
        value_of(s, s[i].0) == Some(s[i].1),
{
    let name = s[i].0;
    let j = choose|j: int| 0 <= j < s.len() && (#[trigger] s[j]).0 == name;
    lemma_text_less_irreflexive(name);
    if i < j {
        assert(text_less(s[i].0, s[j].0));
    } else if j < i {
        assert(text_less(s[j].0, s[i].0));
    }
}

impl<V> NameMap<V> {
    /// An empty map.
    pub fn new() -> (r: NameMap<V>)
        ensures
            r.wf(),
            r.entries() == Seq::<(Seq<char>, V)>::empty(),
    {
        let r = NameMap { entries: Vec::new() };
        assert(r.entries() =~= Seq::<(Seq<char>, V)>::empty());
        r
    }

    /// The number of names.
    pub fn len(&self) -> (r: usize)
        ensures
            r == self.entries().len(),
    {
        self.entries.len()
    }

    /// The name at a position.
    pub fn name_at(&self, i: usize) -> (r: &String)
        requires
            i < self.entries().len(),
        ensures
            r@ == self.entries()[i as int].0,
    {
        &self.entries[i].0
    }

    /// The value at a position.
    pub fn value_at(&self, i: usize) -> (r: &V)
        requires
            i < self.entries().len(),
        ensures
            *r == self.entries()[i as int].1,
    {
        &self.entries[i].1
    }

    /// The position of the first entry whose name is not before the given one, and whether it is
    /// that one.
    fn seek(&self, name: &str) -> (r: (usize, bool))
        requires
            self.wf(),
        ensures
            r.0 <= self.entries().len(),
            forall|i: int| 0 <= i < r.0 ==> text_less((#[trigger] self.entries()[i]).0, name@),
            r.1 ==> r.0 < self.entries().len() && self.entries()[r.0 as int].0 == name@,
            !r.1 ==> forall|i: int|
                r.0 <= i < self.entries().len() ==> text_less(
                    name@,
                    (#[trigger] self.entries()[i]).0,
                ),
            r.1 == named(self.entries(), name@),
    {
        let ghost s = self.entries();
        let mut i: usize = 0;
        while i < self.entries.len()
            invariant
                s == self.entries(),
                ordered(s),
                i <= s.len(),
                forall|j: int| 0 <= j < i ==> text_less((#[trigger] s[j]).0, name@),
            decreases s.len() - i,
        {
            match order(&self.entries[i].0, name) {
                NameOrder::Before => {},
                NameOrder::Same => {
                    assert(s[i as int].0 == name@);
                    return (i, true);
                },
                NameOrder::After => {
                    assert forall|j: int| i <= j < s.len() implies text_less(
                        name@,
                        (#[trigger] s[j]).0,
                    ) by {
                        if i < j {
                            lemma_text_less_transitive(name@, s[i as int].0, s[j].0);
                        }
                    }
                    proof {
                        lemma_text_less_irreflexive(name@);
                    }
                    return (i, false);
                },
            }
            i += 1;
        }
        proof {
            lemma_text_less_irreflexive(name@);
        }
        (i, false)
    }

    /// Files a value under a name, in place of an older one.
    pub fn insert(&mut self, name: String, value: V)
        requires
            old(self).wf(),
        ensures
            final(self).wf(),
            forall|k: Seq<char>| #[trigger]
                value_of(final(self).entries(), k) == if k == name@ {
                    Some(value)
                } else {
                    value_of(old(self).entries(), k)
                },
    {
        let (at, found) = self.seek(name.as_str());
        let ghost s = self.entries();
        let ghost key = name@;
        if found {
            self.entries[at].1 = value;
            let ghost t = self.entries();
            assert(t =~= s.update(at as int, (key, value)));
            assert forall|k: Seq<char>| #[trigger]
                value_of(t, k) == if k == key {
                    Some(value)
                } else {
                    value_of(s, k)
                } by {
                lemma_replaced(s, at as int, value, k);
            }
        } else {
            self.entries.insert(at, (name, value));
            let ghost t = self.entries();
            assert(t =~= s.insert(at as int, (key, value)));
            assert forall|i: int, j: int| 0 <= i < j < t.len() implies text_less(
                (#[trigger] t[i]).0,
                (#[trigger] t[j]).0,
            ) by {
                if i < at && at < j {
                    assert(t[j] == s[j - 1]);
                } else if i == at {
                    assert(t[j] == s[j - 1]);
                } else if i > at {
                    assert(t[i] == s[i - 1] && t[j] == s[j - 1]);
                }
            }
            assert forall|k: Seq<char>| #[trigger]
                value_of(t, k) == if k == key {
                    Some(value)
                } else {
                    value_of(s, k)
                } by {
                lemma_inserted(s, at as int, key, value, k);
            }
        }
    }

    /// The value filed under a name.
    pub fn get(&self, name: &str) -> (r: Option<&V>)
        requires
            self.wf(),
        ensures
            match r {
                Some(v) => value_of(self.entries(), name@) == Some(*v),
                None => value_of(self.entries(), name@) is None,
            },
    {
        let (at, found) = self.seek(name);
        if found {
            proof {
                lemma_value_at(self.entries(), at as int);
            }
            Some(&self.entries[at].1)
        } else {
            None
        }
    }

    /// The value filed under a name, to be changed in place.
    pub fn get_mut(&mut self, name: &str) -> (r: Option<&mut V>)
        requires
            old(self).wf(),
        ensures
            match r {
                Some(v) => {
                    &&& value_of(old(self).entries(), name@) == Some(*v)
                    &&& final(self).wf()
                    &&& forall|k: Seq<char>| #[trigger]
                        value_of(final(self).entries(), k) == if k == name@ {
                            Some(*final(v))
                        } else {
                            value_of(old(self).entries(), k)
                        }
                },
                None => {
                    &&& value_of(old(self).entries(), name@) is None
                    &&& *final(self) == *old(self)
                },
            },
    {
        let (at, found) = self.seek(name);
        if found {
            let ghost s = self.entries();
            proof {
                lemma_value_at(s, at as int);
            }
            let v = &mut self.entries[at].1;
            proof {
                let t = s.update(at as int, (s[at as int].0, *final(v)));
                lemma_replaced(s, at as int, *final(v), name@);
                assert forall|k: Seq<char>| #[trigger]
                    value_of(t, k) == if k == name@ {
                        Some(*final(v))
                    } else {
                        value_of(s, k)
                    } by {
                    lemma_replaced(s, at as int, *final(v), k);
                }
                assert(after_borrow(self).entries() =~= t);
            }
            Some(v)
        } else {
            None
        }
    }
}

proof fn lemma_replaced<V>(s: Seq<(Seq<char>, V)>, at: int, value: V, k: Seq<char>)
    requires
        ordered(s),
        0 <= at < s.len(),
    ensures
        ordered(s.update(at, (s[at].0, value))),
        value_of(s.update(at, (s[at].0, value)), k) == if k == s[at].0 {
            Some(value)
        } else {
            value_of(s, k)
        },
{
    let t = s.update(at, (s[at].0, value));
    assert forall|i: int, j: int| 0 <= i < j < t.len() implies text_less(
        (#[trigger] t[i]).0,
        (#[trigger] t[j]).0,
    ) by {
        assert(t[i].0 == s[i].0 && t[j].0 == s[j].0);
    }
    lemma_value_at(t, at);
    if k != s[at].0 {
        if named(s, k) {
            let i = choose|i: int| 0 <= i < s.len() && (#[trigger] s[i]).0 == k;
            lemma_value_at(s, i);
            assert(t[i] == s[i]);
            lemma_value_at(t, i);
        } else if named(t, k) {
            let i = choose|i: int| 0 <= i < t.len() && (#[trigger] t[i]).0 == k;
            assert(s[i].0 == k);
        }
    }
}

proof fn lemma_inserted<V>(s: Seq<(Seq<char>, V)>, at: int, name: Seq<char>, value: V, k: Seq<char>)
    requires
        ordered(s),
        0 <= at <= s.len(),
        !named(s, name),
        ordered(s.insert(at, (name, value))),
    ensures
        value_of(s.insert(at, (name, value)), k) == if k == name {
            Some(value)
        } else {
            value_of(s, k)
        },
{
    let t = s.insert(at, (name, value));
    assert(t[at] == (name, value));
    lemma_value_at(t, at);
    if k != name {
        if named(s, k) {
            let i = choose|i: int| 0 <= i < s.len() && (#[trigger] s[i]).0 == k;
            lemma_value_at(s, i);
            let j = if i < at {
                i
            } else {
                i + 1
            };
            assert(t[j] == s[i]);
            lemma_value_at(t, j);
        } else if named(t, k) {
            let j = choose|j: int| 0 <= j < t.len() && (#[trigger] t[j]).0 == k;
            let i = if j < at {
                j
            } else {
                j - 1
            };
            assert(s[i].0 == k);
        }
    }
}

/// One more entry of an ordered sequence brings one more name.
pub proof fn lemma_value_of_next<V>(s: Seq<(Seq<char>, V)>, i: int, k: Seq<char>)
    requires
        ordered(s),
        0 <= i < s.len(),
    ensures
        value_of(s.take(i + 1), k) == if k == s[i].0 {
            Some(s[i].1)
        } else {
            value_of(s.take(i), k)
        },
{
    let done = s.take(i);
    let next = s.take(i + 1);
    assert(next =~= done.insert(i, (s[i].0, s[i].1)));
    assert(ordered(done));
    assert(ordered(next));
    if named(done, s[i].0) {
        let j = choose|j: int| 0 <= j < done.len() && (#[trigger] done[j]).0 == s[i].0;
        assert(text_less(s[j].0, s[i].0));
        lemma_text_less_irreflexive(s[i].0);
    }
    lemma_inserted(done, i, s[i].0, s[i].1, k);
}

/// The order of names, by position: one name is before another exactly when they agree up to some
/// place where the first one ends or has the smaller character.
pub proof fn lemma_order_by_the_first_difference(a: Seq<char>, b: Seq<char>)
    ensures
        text_less(a, b) <==> exists|k: int|
            {
                &&& 0 <= k <= a.len() && k < b.len()
                &&& #[trigger] a.take(k) == b.take(k)
                &&& k == a.len() || a[k] < b[k]
            },
    decreases a.len(),
{
    let x = a.drop_first();
    let y = b.drop_first();
    if a.len() > 0 && b.len() > 0 && a[0] == b[0] {
        lemma_order_by_the_first_difference(x, y);
        if text_less(a, b) {
            let k = choose|k: int|
                {
                    &&& 0 <= k <= x.len() && k < y.len()
                    &&& #[trigger] x.take(k) == y.take(k)
                    &&& k == x.len() || x[k] < y[k]
                };
            assert(a.take(k + 1) =~= seq![a[0]] + x.take(k));
            assert(b.take(k + 1) =~= seq![b[0]] + y.take(k));
            assert(a.take(k + 1) == b.take(k + 1));
        }
        if exists|k: int|
            {
                &&& 0 <= k <= a.len() && k < b.len()
                &&& #[trigger] a.take(k) == b.take(k)
                &&& k == a.len() || a[k] < b[k]
            } {
            let k = choose|k: int|
                {
                    &&& 0 <= k <= a.len() && k < b.len()
                    &&& #[trigger] a.take(k) == b.take(k)
                    &&& k == a.len() || a[k] < b[k]
                };
            assert(k > 0);
            assert(x.take(k - 1) =~= a.take(k).drop_first());
            assert(y.take(k - 1) =~= b.take(k).drop_first());
            assert(x.take(k - 1) == y.take(k - 1));
        }
    } else {
        if text_less(a, b) {
            assert(a.take(0) =~= b.take(0));
            assert(a.take(0) == b.take(0));
        }
        if exists|k: int|
            {
                &&& 0 <= k <= a.len() && k < b.len()
                &&& #[trigger] a.take(k) == b.take(k)
                &&& k == a.len() || a[k] < b[k]
            } {
            let k = choose|k: int|
                {
                    &&& 0 <= k <= a.len() && k < b.len()
                    &&& #[trigger] a.take(k) == b.take(k)
                    &&& k == a.len() || a[k] < b[k]
                };
            if k > 0 {
                assert(a.take(k)[0] == a[0] && b.take(k)[0] == b[0]);
            }
        }
    }
}

/// A name has a value exactly when an entry holds both.
pub proof fn lemma_value_stands_in_an_entry<V>(s: Seq<(Seq<char>, V)>, name: Seq<char>, value: V)
    requires
        ordered(s),
    ensures
        value_of(s, name) == Some(value) <==> s.contains((name, value)),
{
    if value_of(s, name) == Some(value) {
        let i = choose|i: int| 0 <= i < s.len() && (#[trigger] s[i]).0 == name;
        lemma_value_at(s, i);
        assert(s[i] == (name, value));
    }
    if s.contains((name, value)) {
        let i = choose|i: int| 0 <= i < s.len() && s[i] == (name, value);
        lemma_value_at(s, i);
    }
}

} // verus!
