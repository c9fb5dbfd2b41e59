//! Character-level text handling: trimming, splitting, searching and number rendering.

use vstd::prelude::*;
#[allow(unused_imports)]
use vstd::std_specs::iter::IteratorSpec;

verus! {

/// `String::push` of the standard library: appends the character to the end of the string.
pub assume_specification[ String::push ](s: &mut String, c: char)
    ensures
        final(s)@ == old(s)@.push(c),
;

/// The characters that Unicode gives the property `White_Space`.
pub open spec fn is_space(c: char) -> bool {
    let n = c as u32;
    ||| 0x09 <= n <= 0x0d
    ||| n == 0x20
    ||| n == 0x85
    ||| n == 0xa0
    ||| n == 0x1680
    ||| 0x2000 <= n <= 0x200a
    ||| n == 0x2028
    ||| n == 0x2029
    ||| n == 0x202f
    ||| n == 0x205f
    ||| n == 0x3000
}

/// The ASCII lower-case form of one character.
pub open spec fn lower(c: char) -> char {
    if 'A' <= c <= 'Z' {
        (c as u32 + 32) as char
    } else {
        c
    }
}

/// The ASCII lower-case form of a text.
pub open spec fn lowered(s: Seq<char>) -> Seq<char> {
    s.map_values(|c: char| lower(c))
}

pub fn is_whitespace(c: char) -> (r: bool)
    ensures
        r == is_space(c),
{
    let n: u32 = c as u32;
    (0x09 <= n && n <= 0x0d) || n == 0x20 || n == 0x85 || n == 0xa0 || n == 0x1680 || (0x2000 <= n
        && n <= 0x200a) || n == 0x2028 || n == 0x2029 || n == 0x202f || n == 0x205f || n == 0x3000
}

pub fn to_lower(c: char) -> (r: char)
    ensures
        r == lower(c),
{
    if 'A' <= c && c <= 'Z' {
        let b: u8 = c as u8;
        (b + 32) as char
    } else {
        c
    }
}

/// The characters of a string slice.
pub fn chars_of(s: &str) -> (r: Vec<char>)
    ensures
        r@ == s@,
{
    let mut out: Vec<char> = Vec::new();
    for c in it: s.chars()
        invariant
            it.seq() == s@,
            out@ == s@.take(it.index() as int),
    {
        out.push(c);
    }
    out
}

/// The string that holds the given characters.
pub fn string_of(chars: &[char]) -> (r: String)
    ensures
        r@ == chars@,
{
    let mut out = String::new();
    let mut i: usize = 0;
    while i < chars.len()
        invariant
            i <= chars@.len(),
            out@ == chars@.take(i as int),
        decreases chars@.len() - i,
    {
        out.push(chars[i]);
        i += 1;
        assert(chars@.take(i as int) == chars@.take(i - 1).push(chars@[i - 1]));
    }
    assert(chars@.take(i as int) == chars@);
    out
}

/// The text without the whitespace it begins with.
pub open spec fn trim_start(s: Seq<char>) -> Seq<char>
    decreases s.len(),
{
    if s.len() > 0 && is_space(s[0]) {
        trim_start(s.drop_first())
    } else {
        s
    }
}

/// The text without the whitespace it ends with.
pub open spec fn trim_end(s: Seq<char>) -> Seq<char>
    decreases s.len(),
{
    if s.len() > 0 && is_space(s.last()) {
        trim_end(s.drop_last())
    } else {
        s
    }
}

/// The text without the whitespace at either end.
pub open spec fn trimmed(s: Seq<char>) -> Seq<char> {
    trim_end(trim_start(s))
}

/// The text without the full stops it ends with.
pub open spec fn undotted(s: Seq<char>) -> Seq<char>
    decreases s.len(),
{
    if s.len() > 0 && s.last() == '.' {
        undotted(s.drop_last())
    } else {
        s
    }
}

/// The number of characters of whitespace that `s` begins with is what `trim_start` drops.
fn skip_spaces(s: &[char], from: usize) -> (r: usize)
    requires
        from <= s@.len(),
    ensures
        from <= r <= s@.len(),
        s@.skip(r as int) == trim_start(s@.skip(from as int)),
        r < s@.len() ==> !is_space(s@[r as int]),
        forall|i: int| from <= i < r ==> is_space(#[trigger] s@[i]),
{
    let mut i: usize = from;
    while i < s.len() && is_whitespace(s[i])
        invariant
            from <= i <= s@.len(),
            trim_start(s@.skip(from as int)) == trim_start(s@.skip(i as int)),
            forall|j: int| from <= j < i ==> is_space(#[trigger] s@[j]),
        decreases s@.len() - i,
    {
        assert(s@.skip(i as int).drop_first() == s@.skip(i + 1));
        i += 1;
    }
    i
}

/// `str::trim`, on characters.
pub fn trim(s: &[char]) -> (r: Vec<char>)
    ensures
        r@ == trimmed(s@),
{
    let start: usize = skip_spaces(s, 0);
    assert(s@.skip(0) == s@);
    let mut end: usize = s.len();
    assert(s@.subrange(start as int, end as int) == s@.skip(start as int));
    while start < end && is_whitespace(s[end - 1])
        invariant
            start <= end <= s@.len(),
            trimmed(s@) == trim_end(s@.subrange(start as int, end as int)),
        decreases end - start,
    {
        assert(s@.subrange(start as int, end as int).drop_last() == s@.subrange(
            start as int,
            end - 1,
        ));
        end -= 1;
    }
    copy_range(s, start, end)
}

/// `str::trim_end_matches('.')`, on characters.
pub fn trim_dots(s: &[char]) -> (r: Vec<char>)
    ensures
        r@ == undotted(s@),
{
    let mut end: usize = s.len();
    assert(s@.take(end as int) == s@);
    while end > 0 && s[end - 1] == '.'
        invariant
            end <= s@.len(),
            undotted(s@) == undotted(s@.take(end as int)),
        decreases end,
    {
        assert(s@.take(end as int).drop_last() == s@.take(end - 1));
        end -= 1;
    }
    assert(s@.take(end as int) == s@.subrange(0, end as int));
    copy_range(s, 0, end)
}

/// `str::to_ascii_lowercase`, on characters.
pub fn to_lowercase(s: &[char]) -> (r: Vec<char>)
    ensures
        r@ == lowered(s@),
{
    let mut out: Vec<char> = Vec::new();
    let mut i: usize = 0;
    while i < s.len()
        invariant
            i <= s@.len(),
            out@ == lowered(s@.take(i as int)),
        decreases s@.len() - i,
    {
        out.push(to_lower(s[i]));
        i += 1;
        assert(lowered(s@.take(i as int)) == lowered(s@.take(i - 1)).push(lower(s@[i - 1])));
    }
    assert(s@.take(i as int) == s@);
    out
}

/// The characters from `from` up to, but not with, `to`.
pub fn copy_range(s: &[char], from: usize, to: usize) -> (r: Vec<char>)
    requires
        from <= to <= s@.len(),
    ensures
        r@ == s@.subrange(from as int, to as int),
{
    let mut out: Vec<char> = Vec::new();
    let mut i: usize = from;
    while i < to
        invariant
            from <= i <= to <= s@.len(),
            out@ == s@.subrange(from as int, i as int),
        decreases to - i,
    {
        out.push(s[i]);
        i += 1;
        assert(s@.subrange(from as int, i as int) == s@.subrange(from as int, i - 1).push(
            s@[i - 1],
        ));
    }
    out
}

/// Whether `needle` stands in `hay` at position `at`.
pub open spec fn occurs_at(hay: Seq<char>, needle: Seq<char>, at: int) -> bool {
    0 <= at && at + needle.len() <= hay.len() && hay.subrange(at, at + needle.len()) == needle
}

/// Whether `needle` stands anywhere in `hay`.
pub open spec fn has_text(hay: Seq<char>, needle: Seq<char>) -> bool {
    exists|at: int| #[trigger] occurs_at(hay, needle, at)
}

/// Whether `hay` begins with `head`.
pub open spec fn begins(hay: Seq<char>, head: Seq<char>) -> bool {
    occurs_at(hay, head, 0)
}

/// Whether `hay` ends with `tail`.
pub open spec fn ends(hay: Seq<char>, tail: Seq<char>) -> bool {
    occurs_at(hay, tail, hay.len() - tail.len())
}

fn stands_at(hay: &[char], needle: &[char], at: usize) -> (r: bool)
    ensures
        r == occurs_at(hay@, needle@, at as int),
{
    if at > hay.len() || hay.len() - at < needle.len() {
        return false;
    }
    let len: usize = hay.len();
    let mut i: usize = 0;
    while i < needle.len()
        invariant
            i <= needle@.len(),
            at + needle@.len() <= len == hay@.len(),
            forall|j: int| 0 <= j < i ==> hay@[at + j] == #[trigger] needle@[j],
        decreases needle@.len() - i,
    {
        if hay[at + i] != needle[i] {
            assert(hay@.subrange(at as int, at + needle@.len())[i as int] != needle@[i as int]);
            return false;
        }
        i += 1;
    }
    assert(hay@.subrange(at as int, at + needle@.len()) =~= needle@);
    true
}

/// `str::starts_with`, on characters.
pub fn starts_with(hay: &[char], head: &[char]) -> (r: bool)
    ensures
        r == begins(hay@, head@),
{
    stands_at(hay, head, 0)
}

/// `str::ends_with`, on characters.
pub fn ends_with(hay: &[char], tail: &[char]) -> (r: bool)
    ensures
        r == ends(hay@, tail@),
{
    if hay.len() < tail.len() {
        return false;
    }
    stands_at(hay, tail, hay.len() - tail.len())
}

/// `str::contains`, on characters.
pub fn contains(hay: &[char], needle: &[char]) -> (r: bool)
    ensures
        r == has_text(hay@, needle@),
{
    let mut at: usize = 0;
    while at < hay.len()
        invariant
            at <= hay@.len(),
            forall|i: int| 0 <= i < at ==> !#[trigger] occurs_at(hay@, needle@, i),
        decreases hay@.len() - at,
    {
        if stands_at(hay, needle, at) {
            return true;
        }
        at += 1;
    }
    stands_at(hay, needle, at)
}

/// Whether two texts are the same.
pub fn same(a: &[char], b: &[char]) -> (r: bool)
    ensures
        r == (a@ == b@),
{
    if a.len() != b.len() {
        return false;
    }
    proof {
        if a@ == b@ {
            assert(a@.subrange(0, b@.len() as int) == b@);
        }
        if occurs_at(a@, b@, 0) {
            assert(a@.subrange(0, b@.len() as int) == a@);
        }
    }
    stands_at(a, b, 0)
}

/// The position of the first line feed at or after `from`, or the length of the text.
pub open spec fn line_end(s: Seq<char>, from: int) -> int
    decreases s.len() - from,
{
    if from < 0 || from >= s.len() {
        s.len() as int
    } else if s[from] == '\n' {
        from
    } else {
        line_end(s, from + 1)
    }
}

/// A line whose terminator was a line feed loses a carriage return at its end.
pub open spec fn without_return(s: Seq<char>) -> Seq<char> {
    if s.len() > 0 && s.last() == '\r' {
        s.drop_last()
    } else {
        s
    }
}

/// The lines of a text from position `from` on, without their terminators.
pub open spec fn lines_from(s: Seq<char>, from: int) -> Seq<Seq<char>>
    decreases s.len() - from,
    via lines_from_decreases
{
    if from < 0 || from >= s.len() {
        Seq::empty()
    } else {
        let end = line_end(s, from);
        if end >= s.len() {
            seq![s.skip(from)]
        } else {
            seq![without_return(s.subrange(from, end))] + lines_from(s, end + 1)
        }
    }
}

#[via_fn]
proof fn lines_from_decreases(s: Seq<char>, from: int) {
    if 0 <= from < s.len() {
        lemma_line_end(s, from);
    }
}

proof fn lemma_line_end(s: Seq<char>, from: int)
    requires
        0 <= from <= s.len(),
    ensures
        from <= line_end(s, from) <= s.len(),
    decreases s.len() - from,
{
    if from < s.len() && s[from] != '\n' {
        lemma_line_end(s, from + 1);
    }
}

/// The lines of a text: split at line feeds, each with or without a carriage return before it.
pub open spec fn lines_of(s: Seq<char>) -> Seq<Seq<char>> {
    lines_from(s, 0)
}

/// The texts that a vector of character vectors holds.
pub open spec fn texts(v: Seq<Vec<char>>) -> Seq<Seq<char>> {
    v.map_values(|t: Vec<char>| t@)
}

/// `str::lines`, on characters.
pub fn lines(s: &[char]) -> (r: Vec<Vec<char>>)
    ensures
        texts(r@) == lines_of(s@),
{
    let mut out: Vec<Vec<char>> = Vec::new();
    let mut from: usize = 0;
    assert(texts(out@) + lines_from(s@, 0) =~= lines_of(s@));
    while from < s.len()
        invariant
            from <= s@.len(),
            texts(out@) + lines_from(s@, from as int) == lines_of(s@),
        decreases s@.len() - from,
    {
        let mut end: usize = from;
        while end < s.len() && s[end] != '\n'
            invariant
                from <= end <= s@.len(),
                line_end(s@, from as int) == line_end(s@, end as int),
            decreases s@.len() - end,
        {
            end += 1;
        }
        let ghost before = texts(out@);
        if end == s.len() {
            assert(s@.subrange(from as int, end as int) == s@.skip(from as int));
            let last = copy_range(s, from, end);
            out.push(last);
            assert(texts(out@) =~= before.push(last@));
            assert(lines_from(s@, end as int) =~= Seq::<Seq<char>>::empty());
            assert(texts(out@) + lines_from(s@, end as int) =~= before + lines_from(
                s@,
                from as int,
            ));
            from = end;
        } else {
            let stop: usize = if end > from && s[end - 1] == '\r' {
                end - 1
            } else {
                end
            };
            assert(s@.subrange(from as int, stop as int) =~= without_return(
                s@.subrange(from as int, end as int),
            ));
            let line = copy_range(s, from, stop);
            out.push(line);
            assert(texts(out@) =~= before.push(line@));
            assert(texts(out@) + lines_from(s@, end + 1) =~= before + lines_from(s@, from as int));
            from = end + 1;
        }
    }
    assert(texts(out@) + lines_from(s@, from as int) =~= texts(out@));
    out
}

/// The position of the first whitespace at or after `from`, or the length of the text.
pub open spec fn word_end(s: Seq<char>, from: int) -> int
    decreases s.len() - from,
{
    if from < 0 || from >= s.len() {
        s.len() as int
    } else if is_space(s[from]) {
        from
    } else {
        word_end(s, from + 1)
    }
}

/// The words of a text from position `from` on: the longest runs without whitespace.
pub open spec fn words_from(s: Seq<char>, from: int) -> Seq<Seq<char>>
    decreases s.len() - from,
    via words_from_decreases
{
    if from < 0 || from >= s.len() {
        Seq::empty()
    } else if is_space(s[from]) {
        words_from(s, from + 1)
    } else {
        seq![s.subrange(from, word_end(s, from))] + words_from(s, word_end(s, from))
    }
}

#[via_fn]
proof fn words_from_decreases(s: Seq<char>, from: int) {
    if 0 <= from < s.len() {
        lemma_word_end(s, from);
        lemma_word_end(s, from + 1);
    }
}

proof fn lemma_word_end(s: Seq<char>, from: int)
    requires
        0 <= from <= s.len(),
    ensures
        from <= word_end(s, from) <= s.len(),
    decreases s.len() - from,
{
    if from < s.len() && !is_space(s[from]) {
        lemma_word_end(s, from + 1);
    }
}

/// The words of a text, split at whitespace.
pub open spec fn words_of(s: Seq<char>) -> Seq<Seq<char>> {
    words_from(s, 0)
}

/// `str::split_whitespace`, on characters.
pub fn words(s: &[char]) -> (r: Vec<Vec<char>>)
    ensures
        texts(r@) == words_of(s@),
{
    let mut out: Vec<Vec<char>> = Vec::new();
    let mut from: usize = 0;
    assert(texts(out@) + words_from(s@, 0) =~= words_of(s@));
    while from < s.len()
        invariant
            from <= s@.len(),
            texts(out@) + words_from(s@, from as int) == words_of(s@),
        decreases s@.len() - from,
    {
        if is_whitespace(s[from]) {
            from += 1;
        } else {
            let mut end: usize = from;
            while end < s.len() && !is_whitespace(s[end])
                invariant
                    from <= end <= s@.len(),
                    word_end(s@, from as int) == word_end(s@, end as int),
                    end == from ==> from < s@.len() && !is_space(s@[from as int]),
                decreases s@.len() - end,
            {
                end += 1;
            }
            let ghost before = texts(out@);
            let word = copy_range(s, from, end);
            out.push(word);
            assert(texts(out@) =~= before.push(word@));
            assert(texts(out@) + words_from(s@, end as int) =~= before + words_from(
                s@,
                from as int,
            ));
            from = end;
        }
    }
    assert(texts(out@) + words_from(s@, from as int) =~= texts(out@));
    out
}

/// The decimal digit for a number below ten.
pub open spec fn digit(n: nat) -> char {
    (n + 48) as char
}

/// A number in decimal, without leading zeros.
pub open spec fn decimal(n: nat) -> Seq<char>
    decreases n,
{
    if n < 10 {
        seq![digit(n)]
    } else {
        decimal(n / 10).push(digit(n % 10))
    }
}

/// The decimal form of a number.
pub fn render(n: u64) -> (r: String)
    ensures
        r@ == decimal(n as nat),
    decreases n,
{
    let mut out = if n < 10 {
        String::new()
    } else {
        render(n / 10)
    };
    let low: u8 = (n % 10) as u8;
    out.push((low + 48) as char);
    assert(out@ =~= decimal(n as nat));
    out
}

/// A text stands in another one at its beginning, at its end or anywhere exactly when the other is
/// it with something behind it, in front of it, or around it.
pub proof fn lemma_parts_of_a_text(hay: Seq<char>, part: Seq<char>)
    ensures
        begins(hay, part) <==> exists|rest: Seq<char>| hay == #[trigger] (part + rest),
        ends(hay, part) <==> exists|front: Seq<char>| hay == #[trigger] (front + part),
        has_text(hay, part) <==> exists|front: Seq<char>, rest: Seq<char>|
            hay == #[trigger] (front + part + rest),
{
    let n = part.len() as int;
    if begins(hay, part) {
        assert(hay =~= part + hay.skip(n));
    }
    if exists|rest: Seq<char>| hay == #[trigger] (part + rest) {
        let rest = choose|rest: Seq<char>| hay == #[trigger] (part + rest);
        assert((part + rest).subrange(0, n) =~= part);
    }
    if ends(hay, part) {
        assert(hay =~= hay.take(hay.len() - n) + part);
    }
    if exists|front: Seq<char>| hay == #[trigger] (front + part) {
        let front = choose|front: Seq<char>| hay == #[trigger] (front + part);
        assert((front + part).subrange(hay.len() - n, hay.len() as int) =~= part);
    }
    if has_text(hay, part) {
        let at = choose|at: int| #[trigger] occurs_at(hay, part, at);
        assert(hay =~= hay.take(at) + part + hay.skip(at + n));
    }
    if exists|front: Seq<char>, rest: Seq<char>| hay == #[trigger] (front + part + rest) {
        let (front, rest) = choose|front: Seq<char>, rest: Seq<char>|
            hay == #[trigger] (front + part + rest);
        assert(hay.subrange(front.len() as int, front.len() + n) =~= part);
        assert(occurs_at(hay, part, front.len() as int));
    }
}

proof fn lemma_trim_start_cut(s: Seq<char>) -> (k: int)
    ensures
        0 <= k <= s.len(),
        trim_start(s) == s.skip(k),
        forall|i: int| 0 <= i < k ==> is_space(#[trigger] s[i]),
        k < s.len() ==> !is_space(s[k]),
    decreases s.len(),
{
    if s.len() > 0 && is_space(s[0]) {
        let t = s.drop_first();
        let k = lemma_trim_start_cut(t);
        assert(t.skip(k) =~= s.skip(k + 1));
        assert forall|i: int| 0 <= i < k + 1 implies is_space(#[trigger] s[i]) by {
            if i > 0 {
                assert(t[i - 1] == s[i]);
            }
        }
        k + 1
    } else {
        assert(s.skip(0) =~= s);
        0
    }
}

proof fn lemma_trim_end_cut(s: Seq<char>) -> (m: int)
    ensures
        0 <= m <= s.len(),
        trim_end(s) == s.take(m),
        forall|i: int| m <= i < s.len() ==> is_space(#[trigger] s[i]),
        m > 0 ==> !is_space(s[m - 1]),
    decreases s.len(),
{
    if s.len() > 0 && is_space(s.last()) {
        let t = s.drop_last();
        let m = lemma_trim_end_cut(t);
        assert(t.take(m) =~= s.take(m));
        assert forall|i: int| m <= i < s.len() implies is_space(#[trigger] s[i]) by {
            if i < s.len() - 1 {
                assert(t[i] == s[i]);
            }
        }
        m
    } else {
        assert(s.take(s.len() as int) =~= s);
        s.len() as int
    }
}

/// Trimming takes away whitespace at both ends, all of it there, and nothing else.
pub proof fn lemma_trimming_takes_the_outer_whitespace(s: Seq<char>)
    ensures
        exists|front: Seq<char>, back: Seq<char>|
            {
                &&& s == #[trigger] (front + trimmed(s) + back)
                &&& forall|i: int| 0 <= i < front.len() ==> is_space(#[trigger] front[i])
                &&& forall|i: int| 0 <= i < back.len() ==> is_space(#[trigger] back[i])
            },
        trimmed(s).len() > 0 ==> !is_space(trimmed(s)[0]) && !is_space(trimmed(s).last()),
{
    let k = lemma_trim_start_cut(s);
    let t = trim_start(s);
    let m = lemma_trim_end_cut(t);
    let front = s.take(k);
    let back = t.skip(m);
    assert(s =~= front + trimmed(s) + back);
    assert forall|i: int| 0 <= i < front.len() implies is_space(#[trigger] front[i]) by {
        assert(front[i] == s[i]);
    }
    assert forall|i: int| 0 <= i < back.len() implies is_space(#[trigger] back[i]) by {
        assert(back[i] == t[m + i]);
    }
    if m > 0 {
        assert(t[0] == s[k]);
        assert(trimmed(s)[0] == t[0]);
        assert(trimmed(s).last() == t[m - 1]);
    }
}

/// Dropping final dots takes away dots, all at the end, and nothing else.
pub proof fn lemma_final_dots_are_dropped(s: Seq<char>)
    ensures
        exists|dots: Seq<char>|
            s == #[trigger] (undotted(s) + dots) && forall|i: int|
                0 <= i < dots.len() ==> #[trigger] dots[i] == '.',
        undotted(s).len() > 0 ==> undotted(s).last() != '.',
    decreases s.len(),
{
    if s.len() > 0 && s.last() == '.' {
        let t = s.drop_last();
        lemma_final_dots_are_dropped(t);
        let dots = choose|dots: Seq<char>|
            t == #[trigger] (undotted(t) + dots) && forall|i: int|
                0 <= i < dots.len() ==> #[trigger] dots[i] == '.';
        let more = dots.push('.');
        assert(s =~= t.push('.'));
        assert((undotted(t) + dots).push('.') =~= undotted(t) + more);
        assert(s == undotted(s) + more);
        assert(forall|i: int| 0 <= i < more.len() ==> #[trigger] more[i] == '.');
    } else {
        let none = Seq::<char>::empty();
        assert(s =~= undotted(s) + none);
    }
}

/// Lower case changes the letters `A` to `Z` alone, each on its own.
pub proof fn lemma_lower_case_is_ascii(s: Seq<char>, i: int)
    requires
        0 <= i < s.len(),
    ensures
        lowered(s).len() == s.len(),
        'A' <= s[i] <= 'Z' ==> lowered(s)[i] as int == s[i] as int + 32,
        !('A' <= s[i] <= 'Z') ==> lowered(s)[i] == s[i],
{
}

proof fn lemma_line_end_shift(a: Seq<char>, b: Seq<char>, k: int)
    requires
        0 <= k <= b.len(),
    ensures
        line_end(a + b, a.len() + k) == a.len() + line_end(b, k),
    decreases b.len() - k,
{
    if k < b.len() && b[k] != '\n' {
        assert((a + b)[a.len() + k] == b[k]);
        lemma_line_end_shift(a, b, k + 1);
    } else if k < b.len() {
        assert((a + b)[a.len() + k] == b[k]);
    }
}

proof fn lemma_lines_shift(a: Seq<char>, b: Seq<char>, k: int)
    requires
        0 <= k <= b.len(),
    ensures
        lines_from(a + b, a.len() + k) == lines_from(b, k),
    decreases b.len() - k,
{
    if k < b.len() {
        lemma_line_end_shift(a, b, k);
        lemma_line_end(b, k);
        let end = line_end(b, k);
        if end >= b.len() {
            assert((a + b).skip(a.len() + k) =~= b.skip(k));
        } else {
            assert((a + b).subrange(a.len() + k, a.len() + end) =~= b.subrange(k, end));
            lemma_lines_shift(a, b, end + 1);
        }
    }
}

proof fn lemma_first_line_end(line: Seq<char>, rest: Seq<char>, k: int)
    requires
        0 <= k <= line.len(),
        forall|i: int| 0 <= i < line.len() ==> #[trigger] line[i] != '\n',
    ensures
        line_end(line + seq!['\n'] + rest, k) == line.len(),
        line_end(line, k) == line.len(),
    decreases line.len() - k,
{
    let all = line + seq!['\n'] + rest;
    if k < line.len() {
        assert(all[k] == line[k]);
        lemma_first_line_end(line, rest, k + 1);
    } else {
        assert(all[k] == '\n');
    }
}

proof fn lemma_terminated_line(line: Seq<char>, rest: Seq<char>)
    requires
        forall|i: int| 0 <= i < line.len() ==> #[trigger] line[i] != '\n',
    ensures
        lines_of(line + seq!['\n'] + rest) == seq![without_return(line)] + lines_of(rest),
{
    let head = line + seq!['\n'];
    let all = head + rest;
    lemma_first_line_end(line, rest, 0);
    assert(all.subrange(0, line.len() as int) =~= line);
    lemma_lines_shift(head, rest, 0);
}

/// The lines of a text, one after the other: what stands before a line feed is a line, without a
/// carriage return at its end, and the lines of the rest follow; a rest without a line feed is a
/// line if it is not empty.
pub proof fn lemma_lines_one_by_one(line: Seq<char>, rest: Seq<char>)
    requires
        forall|i: int| 0 <= i < line.len() ==> #[trigger] line[i] != '\n',
    ensures
        line.len() == 0 || line.last() != '\r' ==> lines_of(line + seq!['\n'] + rest) == seq![line]
            + lines_of(rest),
        lines_of(line + seq!['\r'] + seq!['\n'] + rest) == seq![line] + lines_of(rest),
        lines_of(line) == if line.len() == 0 {
            Seq::empty()
        } else {
            seq![line]
        },
{
    lemma_terminated_line(line, rest);
    let back = line + seq!['\r'];
    assert forall|i: int| 0 <= i < back.len() implies #[trigger] back[i] != '\n' by {
        if i < line.len() {
            assert(back[i] == line[i]);
        }
    }
    lemma_terminated_line(back, rest);
    assert(back.drop_last() =~= line);
    lemma_first_line_end(line, rest, 0);
    assert(line.skip(0) =~= line);
}

/// Lines that end with a line feed stay lines, whatever text comes behind them.
pub proof fn lemma_lines_of_joined_texts(a: Seq<char>, b: Seq<char>)
    requires
        a.len() > 0 ==> a.last() == '\n',
    ensures
        lines_of(a + b) == lines_of(a) + lines_of(b),
{
    lemma_lines_join(a, b, 0);
    lemma_lines_shift(a, b, 0);
}

proof fn lemma_lines_join(a: Seq<char>, b: Seq<char>, k: int)
    requires
        a.len() > 0 ==> a.last() == '\n',
        0 <= k <= a.len(),
    ensures
        lines_from(a + b, k) == lines_from(a, k) + lines_from(b, 0),
    decreases a.len() - k,
{
    if k == a.len() {
        lemma_lines_shift(a, b, 0);
        assert(lines_from(a, k) + lines_from(b, 0) =~= lines_from(b, 0));
    } else {
        lemma_line_end_inside(a, b, k);
        let end = line_end(a, k);
        assert((a + b).subrange(k, end) =~= a.subrange(k, end));
        lemma_lines_join(a, b, end + 1);
        let one = seq![without_return(a.subrange(k, end))];
        assert(one + (lines_from(a, end + 1) + lines_from(b, 0)) =~= (one + lines_from(a, end + 1))
            + lines_from(b, 0));
    }
}

proof fn lemma_line_end_inside(a: Seq<char>, b: Seq<char>, k: int)
    requires
        a.len() > 0,
        a.last() == '\n',
        0 <= k < a.len(),
    ensures
        line_end(a + b, k) == line_end(a, k),
        k <= line_end(a, k) < a.len(),
    decreases a.len() - k,
{
    assert((a + b)[k] == a[k]);
    if a[k] != '\n' {
        lemma_line_end_inside(a, b, k + 1);
    }
}

proof fn lemma_word_end_shift(a: Seq<char>, b: Seq<char>, k: int)
    requires
        0 <= k <= b.len(),
    ensures
        word_end(a + b, a.len() + k) == a.len() + word_end(b, k),
    decreases b.len() - k,
{
    if k < b.len() {
        assert((a + b)[a.len() + k] == b[k]);
        if !is_space(b[k]) {
            lemma_word_end_shift(a, b, k + 1);
        }
    }
}

proof fn lemma_words_shift(a: Seq<char>, b: Seq<char>, k: int)
    requires
        0 <= k <= b.len(),
    ensures
        words_from(a + b, a.len() + k) == words_from(b, k),
    decreases b.len() - k,
{
    if k < b.len() {
        assert((a + b)[a.len() + k] == b[k]);
        if is_space(b[k]) {
            lemma_words_shift(a, b, k + 1);
        } else {
            lemma_word_end_shift(a, b, k);
            lemma_word_end(b, k + 1);
            let end = word_end(b, k);
            assert((a + b).subrange(a.len() + k, a.len() + end) =~= b.subrange(k, end));
            lemma_words_shift(a, b, end);
        }
    }
}

proof fn lemma_first_word_end(word: Seq<char>, rest: Seq<char>, k: int)
    requires
        0 <= k <= word.len(),
        forall|i: int| 0 <= i < word.len() ==> !is_space(#[trigger] word[i]),
        rest.len() > 0 ==> is_space(rest[0]),
    ensures
        word_end(word + rest, k) == word.len(),
    decreases word.len() - k,
{
    let all = word + rest;
    if k < word.len() {
        assert(all[k] == word[k]);
        lemma_first_word_end(word, rest, k + 1);
    } else if rest.len() > 0 {
        assert(all[k] == rest[0]);
    }
}

/// The words of a text, one after the other: whitespace in front does not matter, and a run
/// without whitespace, up to whitespace or the end, is a word, followed by the words of the rest.
pub proof fn lemma_words_one_by_one(space: char, word: Seq<char>, rest: Seq<char>)
    requires
        is_space(space),
        word.len() > 0,
        forall|i: int| 0 <= i < word.len() ==> !is_space(#[trigger] word[i]),
        rest.len() > 0 ==> is_space(rest[0]),
    ensures
        words_of(Seq::<char>::empty()) == Seq::<Seq<char>>::empty(),
        words_of(seq![space] + rest) == words_of(rest),
        words_of(seq![space] + word + rest) == words_of(word + rest),
        words_of(word + rest) == seq![word] + words_of(rest),
{
    lemma_words_shift(seq![space], rest, 0);
    assert((seq![space] + rest)[0] == space);
    assert(seq![space] + word + rest =~= seq![space] + (word + rest));
    lemma_words_shift(seq![space], word + rest, 0);
    assert((seq![space] + (word + rest))[0] == space);
    lemma_first_word_end(word, rest, 0);
    assert((word + rest)[0] == word[0]);
    assert((word + rest).subrange(0, word.len() as int) =~= word);
    lemma_words_shift(word, rest, 0);
}

/// The number that decimal digits stand for.
pub open spec fn read_decimal(s: Seq<char>) -> int
    decreases s.len(),
{
    if s.len() == 0 {
        0
    } else {
        read_decimal(s.drop_last()) * 10 + (s.last() as int - '0' as int)
    }
}

/// A number in decimal reads back as itself. It is made of digits alone, at least one, and does not
/// begin with a zero unless that is all of it.
pub proof fn lemma_decimal_reads_back(n: nat)
    requires
        n <= u64::MAX,
    ensures
        read_decimal(decimal(n)) == n,
        decimal(n).len() > 0,
        forall|i: int| 0 <= i < decimal(n).len() ==> '0' <= (#[trigger] decimal(n)[i]) <= '9',
        decimal(n)[0] == '0' ==> decimal(n).len() == 1,
    decreases n,
{
    if n < 10 {
        let s = decimal(n);
        assert(s.drop_last() =~= Seq::<char>::empty());
        reveal_with_fuel(read_decimal, 2);
    } else {
        lemma_decimal_reads_back(n / 10);
        let front = decimal(n / 10);
        let s = decimal(n);
        assert(s.drop_last() =~= front);
        assert forall|i: int| 0 <= i < s.len() implies '0' <= (#[trigger] s[i]) <= '9' by {
            if i < front.len() {
                assert(s[i] == front[i]);
            }
        }
        assert(s[0] == front[0]);
        if s[0] == '0' {
            assert(front.len() == 1);
            assert(front.drop_last() =~= Seq::<char>::empty());
            reveal_with_fuel(read_decimal, 2);
            assert(read_decimal(front) == 0);
        }
    }
}

} // verus!
