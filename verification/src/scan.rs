//! Searching, splitting, replacing and joining text.
use crate::text::{extend, pieces, rows, same, to_chars};
use vstd::prelude::*;
use vstd::slice::slice_subrange;

verus! {

/// Whether `needle` stands in `s` at position `i`.
pub open spec fn occurs_at(s: Seq<char>, needle: Seq<char>, i: int) -> bool {
    &&& 0 <= i
    &&& i + needle.len() <= s.len()
    &&& s.subrange(i, i + needle.len()) == needle
}

/// The first position at or after `from` where `needle` stands in `s`.
pub open spec fn index_from(s: Seq<char>, needle: Seq<char>, from: int) -> Option<int>
    decreases s.len() + 1 - from,
{
    if from < 0 || from + needle.len() > s.len() {
        None
    } else if occurs_at(s, needle, from) {
        Some(from)
    } else {
        index_from(s, needle, from + 1)
    }
}

/// Whether `needle` stands somewhere in `s`.
pub open spec fn has_text(s: Seq<char>, needle: Seq<char>) -> bool {
    index_from(s, needle, 0) is Some
}

/// Whether the character `c` stands somewhere in `s`.
pub open spec fn has_char(s: Seq<char>, c: char) -> bool {
    exists|i: int| 0 <= i < s.len() && #[trigger] s[i] == c
}

/// Whether `s` begins with `head`.
pub open spec fn starts_with(s: Seq<char>, head: Seq<char>) -> bool {
    head.len() <= s.len() && s.take(head.len() as int) == head
}

/// Whether the last character of `s` is `c`.
pub open spec fn ends_with_char(s: Seq<char>, c: char) -> bool {
    s.len() > 0 && s.last() == c
}

/// Whether the first character of `s` is `c`.
pub open spec fn starts_with_char(s: Seq<char>, c: char) -> bool {
    s.len() > 0 && s[0] == c
}

/// What `index_from` finds is the first place at or after `from`.
pub proof fn lemma_index_from(s: Seq<char>, needle: Seq<char>, from: int)
    requires
        0 <= from,
    ensures
        match index_from(s, needle, from) {
            Some(i) => from <= i && occurs_at(s, needle, i) && forall|j: int|
                from <= j < i ==> !#[trigger] occurs_at(s, needle, j),
            None => forall|j: int| from <= j ==> !#[trigger] occurs_at(s, needle, j),
        },
    decreases s.len() + 1 - from,
{
    if from + needle.len() > s.len() {
    } else if occurs_at(s, needle, from) {
    } else {
        lemma_index_from(s, needle, from + 1);
    }
}

/// Whether `needle` stands in `s` at position `i`.
pub fn stands_at(s: &[char], needle: &[char], i: usize) -> (r: bool)
    ensures
        r == occurs_at(s@, needle@, i as int),
{
    if i > s.len() || s.len() - i < needle.len() {
        return false;
    }
    let part = slice_subrange(s, i, i + needle.len());
    same(part, needle)
}

/// Finds the first position at or after `from` where `needle` stands in `s`.
pub fn find_from(s: &[char], needle: &[char], from: usize) -> (r: Option<usize>)
    ensures
        match r {
            Some(i) => index_from(s@, needle@, from as int) == Some(i as int) && i + needle@.len()
                <= s@.len(),
            None => index_from(s@, needle@, from as int) is None,
        },
{
    let mut i: usize = from;
    while i <= s.len() && s.len() - i >= needle.len()
        invariant
            from <= i,
            index_from(s@, needle@, from as int) == index_from(s@, needle@, i as int),
        decreases s@.len() + 1 - i,
    {
        if stands_at(s, needle, i) {
            return Some(i);
        }
        assert(i < s@.len()) by {
            if i == s@.len() {
                assert(s@.subrange(i as int, i as int) =~= needle@);
            }
        }
        i += 1;
    }
    None
}

/// Whether `needle` stands somewhere in `s`.
pub fn contains(s: &[char], needle: &[char]) -> (r: bool)
    ensures
        r == has_text(s@, needle@),
{
    find_from(s, needle, 0).is_some()
}

/// Whether `needle` stands somewhere in `s`.
pub fn contains_str(s: &[char], needle: &str) -> (r: bool)
    ensures
        r == has_text(s@, needle@),
{
    let n = to_chars(needle);
    contains(s, n.as_slice())
}

/// Whether the character `c` stands somewhere in `s`.
pub fn contains_char(s: &[char], c: char) -> (r: bool)
    ensures
        r == has_char(s@, c),
{
    let mut i: usize = 0;
    while i < s.len()
        invariant
            i <= s@.len(),
            forall|j: int| 0 <= j < i ==> s@[j] != c,
        decreases s@.len() - i,
    {
        if s[i] == c {
            return true;
        }
        i += 1;
    }
    false
}

/// Whether the character `c` is one of those of the string `set`.
pub fn char_in(set: &str, c: char) -> (r: bool)
    ensures
        r == has_char(set@, c),
{
    let v = to_chars(set);
    contains_char(v.as_slice(), c)
}

/// Whether `s` begins with `head`.
pub fn begins_with(s: &[char], head: &str) -> (r: bool)
    ensures
        r == starts_with(s@, head@),
{
    let h = to_chars(head);
    let r = stands_at(s, h.as_slice(), 0);
    proof {
        if h@.len() <= s@.len() {
            assert(s@.take(h@.len() as int) =~= s@.subrange(0, h@.len() as int));
        }
    }
    r
}

/// Whether the last character of `s` is `c`.
pub fn ends_char(s: &[char], c: char) -> (r: bool)
    ensures
        r == ends_with_char(s@, c),
{
    s.len() > 0 && s[s.len() - 1] == c
}

/// Whether the first character of `s` is `c`.
pub fn starts_char(s: &[char], c: char) -> (r: bool)
    ensures
        r == starts_with_char(s@, c),
{
    s.len() > 0 && s[0] == c
}

// ---------------------------------------------------------------------------------------------
// Splitting
// ---------------------------------------------------------------------------------------------

/// The parts of `s` between the occurrences of the character `c`; there is always one part more
/// than there are occurrences.
pub open spec fn parts(s: Seq<char>, c: char) -> Seq<Seq<char>>
    decreases s.len(),
{
    if s.len() == 0 {
        seq![Seq::<char>::empty()]
    } else {
        let p = parts(s.drop_last(), c);
        if s.last() == c {
            p.push(Seq::<char>::empty())
        } else {
            p.drop_last().push(p.last().push(s.last()))
        }
    }
}

pub proof fn lemma_parts_nonempty(s: Seq<char>, c: char)
    ensures
        parts(s, c).len() >= 1,
    decreases s.len(),
{
    if s.len() > 0 {
        lemma_parts_nonempty(s.drop_last(), c);
    }
}

/// The start and end of each part of `v` between occurrences of `c`.
pub fn part_bounds(v: &[char], c: char) -> (r: Vec<(usize, usize)>)
    ensures
        r@.len() == parts(v@, c).len(),
        r@.len() >= 1,
        forall|k: int|
            #![trigger r@[k]]
            0 <= k < r@.len() ==> r@[k].0 <= r@[k].1 <= v@.len() && v@.subrange(
                r@[k].0 as int,
                r@[k].1 as int,
            ) == parts(v@, c)[k],
        r@[0].0 == 0,
        r@[r@.len() - 1].1 == v@.len(),
        forall|k: int, l: int|
            #![trigger r@[k], r@[l]]
            0 <= k && l == k + 1 && l < r@.len() ==> r@[k].1 + 1 == r@[l].0 && v@[r@[k].1 as int]
                == c,
        forall|k: int, i: int|
            #![trigger r@[k], v@[i]]
            0 <= k < r@.len() && r@[k].0 <= i < r@[k].1 ==> v@[i] != c,
{
    let mut out: Vec<(usize, usize)> = Vec::new();
    let mut start: usize = 0;
    let mut i: usize = 0;
    assert(v@.take(0) =~= Seq::<char>::empty());
    assert(v@.subrange(0, 0) =~= Seq::<char>::empty());
    while i < v.len()
        invariant
            start <= i <= v@.len(),
            parts(v@.take(i as int), c).len() == out@.len() + 1,
            parts(v@.take(i as int), c)[out@.len() as int] == v@.subrange(start as int, i as int),
            forall|k: int|
                #![trigger out@[k]]
                0 <= k < out@.len() ==> out@[k].0 <= out@[k].1 <= v@.len() && v@.subrange(
                    out@[k].0 as int,
                    out@[k].1 as int,
                ) == parts(v@.take(i as int), c)[k],
            out@.len() == 0 ==> start == 0,
            out@.len() > 0 ==> out@[0].0 == 0,
            out@.len() > 0 ==> out@[out@.len() - 1].1 + 1 == start,
            forall|k: int|
                #![trigger out@[k]]
                0 <= k < out@.len() ==> out@[k].1 < i && v@[out@[k].1 as int] == c,
            forall|k: int, l: int|
                #![trigger out@[k], out@[l]]
                0 <= k && l == k + 1 && l < out@.len() ==> out@[k].1 + 1 == out@[l].0,
            forall|k: int, j: int|
                #![trigger out@[k], v@[j]]
                0 <= k < out@.len() && out@[k].0 <= j < out@[k].1 ==> v@[j] != c,
            forall|j: int| start <= j < i ==> #[trigger] v@[j] != c,
        decreases v@.len() - i,
    {
        let ghost before = v@.take(i as int);
        let ghost after = v@.take(i + 1);
        assert(after.drop_last() =~= before);
        assert(after.last() == v@[i as int]);
        if v[i] == c {
            out.push((start, i));
            start = i + 1;
            assert(v@.subrange(start as int, i + 1) =~= Seq::<char>::empty());
        } else {
            assert(v@.subrange(start as int, i + 1) =~= v@.subrange(start as int, i as int).push(
                v@[i as int],
            ));
        }
        i += 1;
    }
    assert(v@.take(i as int) =~= v@);
    out.push((start, v.len()));
    out
}

/// Splits at every occurrence of `c`.
pub fn split_char(v: &[char], c: char) -> (r: Vec<&[char]>)
    ensures
        pieces(r@) == parts(v@, c),
{
    let bounds = part_bounds(v, c);
    let mut out: Vec<&[char]> = Vec::new();
    let mut k: usize = 0;
    while k < bounds.len()
        invariant
            k <= bounds@.len(),
            out@.len() == k,
            bounds@.len() == parts(v@, c).len(),
            forall|j: int|
                #![trigger bounds@[j]]
                0 <= j < bounds@.len() ==> bounds@[j].0 <= bounds@[j].1 <= v@.len() && v@.subrange(
                    bounds@[j].0 as int,
                    bounds@[j].1 as int,
                ) == parts(v@, c)[j],
            forall|j: int| 0 <= j < k ==> (#[trigger] out@[j])@ == parts(v@, c)[j],
        decreases bounds@.len() - k,
    {
        let (a, b) = bounds[k];
        out.push(slice_subrange(v, a, b));
        k += 1;
    }
    assert(pieces(out@) =~= parts(v@, c));
    out
}

/// The parts of `s` between characters of `set`.
pub open spec fn parts_any(s: Seq<char>, set: Seq<char>) -> Seq<Seq<char>>
    decreases s.len(),
{
    if s.len() == 0 {
        seq![Seq::<char>::empty()]
    } else {
        let p = parts_any(s.drop_last(), set);
        if has_char(set, s.last()) {
            p.push(Seq::<char>::empty())
        } else {
            p.drop_last().push(p.last().push(s.last()))
        }
    }
}

/// Splits at every character of `set`.
pub fn split_any(v: &[char], set: &str) -> (r: Vec<Vec<char>>)
    ensures
        rows(r@) == parts_any(v@, set@),
{
    let mut out: Vec<Vec<char>> = Vec::new();
    let mut cur: Vec<char> = Vec::new();
    let mut i: usize = 0;
    assert(rows(out@).push(cur@) =~= seq![Seq::<char>::empty()]);
    assert(v@.take(0) =~= Seq::<char>::empty());
    while i < v.len()
        invariant
            i <= v@.len(),
            rows(out@).push(cur@) == parts_any(v@.take(i as int), set@),
        decreases v@.len() - i,
    {
        let ghost done = rows(out@);
        let ghost now = cur@;
        assert(v@.take(i + 1).drop_last() =~= v@.take(i as int));
        if char_in(set, v[i]) {
            out.push(cur);
            cur = Vec::new();
            assert(rows(out@).push(cur@) =~= done.push(now).push(Seq::<char>::empty()));
        } else {
            cur.push(v[i]);
            assert(done.push(now).drop_last() =~= done);
        }
        i += 1;
    }
    assert(v@.take(i as int) =~= v@);
    let ghost done = rows(out@);
    let ghost last = cur@;
    out.push(cur);
    assert(rows(out@) =~= done.push(last));
    out
}

/// The text without one trailing carriage return.
pub open spec fn without_cr(s: Seq<char>) -> Seq<char> {
    if ends_with_char(s, '\r') {
        s.drop_last()
    } else {
        s
    }
}

/// The lines of a text: the parts between line feeds, each but the last without one trailing
/// carriage return; an empty last part is no line.
pub open spec fn lines_of(s: Seq<char>) -> Seq<Seq<char>> {
    let p = parts(s, '\n');
    let n = if p.last().len() == 0 {
        (p.len() - 1) as nat
    } else {
        p.len()
    };
    Seq::new(
        n,
        |k: int|
            if k < p.len() - 1 {
                without_cr(p[k])
            } else {
                p[k]
            },
    )
}

/// Splits a text into its lines.
pub fn lines(v: &[char]) -> (r: Vec<&[char]>)
    ensures
        pieces(r@) == lines_of(v@),
{
    let all = split_char(v, '\n');
    let ghost p = parts(v@, '\n');
    proof {
        lemma_parts_nonempty(v@, '\n');
        assert(pieces(all@).len() == all@.len());
        assert forall|k: int| 0 <= k < p.len() implies (#[trigger] all@[k])@ == p[k] by {
            assert(pieces(all@)[k] == p[k]);
        }
    }
    let total = all.len();
    let n: usize = if all[total - 1].len() == 0 {
        total - 1
    } else {
        total
    };
    let mut out: Vec<&[char]> = Vec::new();
    let mut k: usize = 0;
    while k < n
        invariant
            k <= n <= total,
            total == all@.len(),
            total == p.len(),
            p == parts(v@, '\n'),
            n == lines_of(v@).len(),
            out@.len() == k,
            forall|j: int| 0 <= j < p.len() ==> (#[trigger] all@[j])@ == p[j],
            forall|j: int| 0 <= j < k ==> (#[trigger] out@[j])@ == lines_of(v@)[j],
        decreases n - k,
    {
        let line = all[k];
        if k + 1 < total && ends_char(line, '\r') {
            let cut = slice_subrange(line, 0, line.len() - 1);
            assert(cut@ =~= line@.drop_last());
            out.push(cut);
        } else {
            out.push(line);
        }
        k += 1;
    }
    assert(pieces(out@) =~= lines_of(v@));
    out
}

// ---------------------------------------------------------------------------------------------
// Joining
// ---------------------------------------------------------------------------------------------

/// The texts one after the other, with `sep` between any two.
pub open spec fn joined(items: Seq<Seq<char>>, sep: Seq<char>) -> Seq<char>
    decreases items.len(),
{
    if items.len() == 0 {
        Seq::empty()
    } else if items.len() == 1 {
        items[0]
    } else {
        joined(items.drop_last(), sep) + sep + items.last()
    }
}

pub proof fn lemma_joined_concat(a: Seq<Seq<char>>, b: Seq<Seq<char>>, sep: Seq<char>)
    requires
        a.len() > 0,
        b.len() > 0,
    ensures
        joined(a + b, sep) == joined(a, sep) + sep + joined(b, sep),
    decreases b.len(),
{
    let c = a + b;
    assert(c.last() == b.last());
    if b.len() == 1 {
        assert(c.drop_last() =~= a);
    } else {
        assert(c.drop_last() =~= a + b.drop_last());
        lemma_joined_concat(a, b.drop_last(), sep);
        assert(joined(a, sep) + sep + joined(b.drop_last(), sep) + sep + b.last() =~= joined(a, sep)
            + sep + (joined(b.drop_last(), sep) + sep + b.last()));
    }
}

/// Joins texts with a separator.
pub fn join(items: &Vec<Vec<char>>, sep: &str) -> (r: Vec<char>)
    ensures
        r@ == joined(rows(items@), sep@),
{
    let s = to_chars(sep);
    let mut out: Vec<char> = Vec::new();
    let mut i: usize = 0;
    while i < items.len()
        invariant
            i <= items@.len(),
            s@ == sep@,
            out@ == joined(rows(items@).take(i as int), sep@),
        decreases items@.len() - i,
    {
        proof {
            let all = rows(items@);
            assert(all.take(i + 1).drop_last() =~= all.take(i as int));
            assert(all.take(i + 1).last() == items@[i as int]@);
            assert(all.take(0) =~= Seq::<Seq<char>>::empty());
        }
        if i > 0 {
            extend(&mut out, s.as_slice());
        } else {
            assert(out@ =~= Seq::<char>::empty());
        }
        extend(&mut out, items[i].as_slice());
        proof {
            if i == 0 {
                assert(out@ =~= items@[0]@);
            } else {
                assert(out@ =~= joined(rows(items@).take(i as int), sep@) + sep@ + items@[i as int]@);
            }
        }
        i += 1;
    }
    assert(rows(items@).take(items@.len() as int) =~= rows(items@));
    out
}

// ---------------------------------------------------------------------------------------------
// Replacing
// ---------------------------------------------------------------------------------------------

/// Every occurrence of `from`, taken from the left without overlap, replaced by `to`.
pub open spec fn replaced(s: Seq<char>, from: Seq<char>, to: Seq<char>) -> Seq<char>
    decreases s.len(),
{
    if from.len() == 0 {
        s
    } else if s.len() == 0 {
        s
    } else if occurs_at(s, from, 0) {
        to + replaced(s.skip(from.len() as int), from, to)
    } else {
        seq![s[0]] + replaced(s.skip(1), from, to)
    }
}

/// Replaces every occurrence of `from`, which is not empty, by `to`.
pub fn replace(s: &[char], from: &str, to: &[char]) -> (r: Vec<char>)
    requires
        from@.len() > 0,
    ensures
        r@ == replaced(s@, from@, to@),
{
    let f = to_chars(from);
    let mut out: Vec<char> = Vec::new();
    let mut i: usize = 0;
    assert(s@.skip(0) =~= s@);
    assert(out@ + replaced(s@, from@, to@) =~= replaced(s@, from@, to@));
    while i < s.len()
        invariant
            i <= s@.len(),
            f@ == from@,
            from@.len() > 0,
            out@ + replaced(s@.skip(i as int), from@, to@) == replaced(s@, from@, to@),
        decreases s@.len() - i,
    {
        let ghost rest = s@.skip(i as int);
        let ghost before = out@;
        let hit = stands_at(s, f.as_slice(), i);
        proof {
            if i + from@.len() <= s@.len() {
                assert(rest.subrange(0, from@.len() as int) =~= s@.subrange(
                    i as int,
                    i + from@.len(),
                ));
            }
            assert(hit == occurs_at(rest, from@, 0));
        }
        if hit {
            extend(&mut out, to);
            proof {
                assert(rest.skip(from@.len() as int) =~= s@.skip(i + from@.len()));
                assert(before + replaced(rest, from@, to@) =~= out@ + replaced(
                    s@.skip(i + from@.len()),
                    from@,
                    to@,
                ));
            }
            i += f.len();
        } else {
            out.push(s[i]);
            proof {
                assert(rest.skip(1) =~= s@.skip(i + 1));
                assert(before + replaced(rest, from@, to@) =~= out@ + replaced(
                    s@.skip(i + 1),
                    from@,
                    to@,
                ));
            }
            i += 1;
        }
    }
    assert(s@.skip(i as int) =~= Seq::<char>::empty());
    assert(out@ + Seq::<char>::empty() =~= out@);
    out
}

/// How often `needle` stands in `s`, counted from the left without overlap.
pub open spec fn occurrences(s: Seq<char>, needle: Seq<char>) -> nat
    decreases s.len(),
{
    if needle.len() == 0 || s.len() == 0 {
        0
    } else if occurs_at(s, needle, 0) {
        1 + occurrences(s.skip(needle.len() as int), needle)
    } else {
        occurrences(s.skip(1), needle)
    }
}

/// Counts the occurrences of `needle`, which is not empty.
pub fn count_text(s: &[char], needle: &[char]) -> (r: usize)
    requires
        needle@.len() > 0,
    ensures
        r == occurrences(s@, needle@),
        r <= s@.len(),
{
    let mut n: usize = 0;
    let mut i: usize = 0;
    assert(s@.skip(0) =~= s@);
    while i < s.len()
        invariant
            i <= s@.len(),
            n <= i,
            needle@.len() > 0,
            n + occurrences(s@.skip(i as int), needle@) == occurrences(s@, needle@),
        decreases s@.len() - i,
    {
        let ghost rest = s@.skip(i as int);
        let hit = stands_at(s, needle, i);
        proof {
            if i + needle@.len() <= s@.len() {
                assert(rest.subrange(0, needle@.len() as int) =~= s@.subrange(
                    i as int,
                    i + needle@.len(),
                ));
            }
            assert(hit == occurs_at(rest, needle@, 0));
            assert(rest.skip(1) =~= s@.skip(i + 1));
        }
        if hit {
            assert(rest.skip(needle@.len() as int) =~= s@.skip(i + needle@.len()));
            n += 1;
            i += needle.len();
        } else {
            i += 1;
        }
    }
    assert(s@.skip(i as int) =~= Seq::<char>::empty());
    n
}

// ---------------------------------------------------------------------------------------------
// Ends
// ---------------------------------------------------------------------------------------------

/// The text without leading characters of `set`.
pub open spec fn stripped_start(s: Seq<char>, set: Seq<char>) -> Seq<char>
    decreases s.len(),
{
    if s.len() > 0 && has_char(set, s[0]) {
        stripped_start(s.drop_first(), set)
    } else {
        s
    }
}

/// The text without trailing characters of `set`.
pub open spec fn stripped_end(s: Seq<char>, set: Seq<char>) -> Seq<char>
    decreases s.len(),
{
    if s.len() > 0 && has_char(set, s.last()) {
        stripped_end(s.drop_last(), set)
    } else {
        s
    }
}

/// Drops leading characters of `set`.
pub fn strip_start<'a>(v: &'a [char], set: &str) -> (r: &'a [char])
    ensures
        r@ == stripped_start(v@, set@),
{
    let mut a: usize = 0;
    assert(v@.skip(0) =~= v@);
    while a < v.len() && char_in(set, v[a])
        invariant
            a <= v@.len(),
            stripped_start(v@, set@) == stripped_start(v@.skip(a as int), set@),
        decreases v@.len() - a,
    {
        assert(v@.skip(a as int).drop_first() =~= v@.skip(a + 1));
        a += 1;
    }
    let r = slice_subrange(v, a, v.len());
    assert(r@ =~= v@.skip(a as int));
    r
}

/// Drops trailing characters of `set`.
pub fn strip_end<'a>(v: &'a [char], set: &str) -> (r: &'a [char])
    ensures
        r@ == stripped_end(v@, set@),
{
    let mut b: usize = v.len();
    assert(v@.take(b as int) =~= v@);
    while b > 0 && char_in(set, v[b - 1])
        invariant
            b <= v@.len(),
            stripped_end(v@, set@) == stripped_end(v@.take(b as int), set@),
        decreases b,
    {
        assert(v@.take(b as int).drop_last() =~= v@.take(b - 1));
        b -= 1;
    }
    let r = slice_subrange(v, 0, b);
    assert(r@ =~= v@.take(b as int));
    r
}

/// Whether `s` ends with `tail`.
pub open spec fn ends_with(s: Seq<char>, tail: Seq<char>) -> bool {
    occurs_at(s, tail, s.len() - tail.len())
}

/// The text without `tail` at its end, as often as it stands there.
pub open spec fn without_tails(s: Seq<char>, tail: Seq<char>) -> Seq<char>
    decreases s.len(),
{
    if tail.len() > 0 && ends_with(s, tail) {
        without_tails(s.take(s.len() - tail.len()), tail)
    } else {
        s
    }
}

/// Drops `tail` from the end, as often as it stands there.
pub fn drop_tails<'a>(v: &'a [char], tail: &str) -> (r: &'a [char])
    ensures
        r@ == without_tails(v@, tail@),
{
    let t = to_chars(tail);
    let mut b: usize = v.len();
    assert(v@.take(b as int) =~= v@);
    while t.len() > 0 && b >= t.len() && stands_at(
        slice_subrange(v, 0, b),
        t.as_slice(),
        b - t.len(),
    )
        invariant
            b <= v@.len(),
            t@ == tail@,
            without_tails(v@, tail@) == without_tails(v@.take(b as int), tail@),
        decreases b,
    {
        proof {
            assert(v@.subrange(0, b as int) =~= v@.take(b as int));
            assert(v@.take(b as int).take(b - t@.len()) =~= v@.take(b - t@.len()));
        }
        b -= t.len();
    }
    let r = slice_subrange(v, 0, b);
    assert(r@ =~= v@.take(b as int));
    r
}

/// The last position at or before `i` where `needle` stands in `s`.
pub open spec fn last_at(s: Seq<char>, needle: Seq<char>, i: int) -> Option<int>
    decreases i + 1,
{
    if i < 0 {
        None
    } else if occurs_at(s, needle, i) {
        Some(i)
    } else {
        last_at(s, needle, i - 1)
    }
}

/// Finds the last position where `needle` stands in `s`.
pub fn find_last(s: &[char], needle: &[char]) -> (r: Option<usize>)
    ensures
        match r {
            Some(i) => last_at(s@, needle@, s@.len() as int) == Some(i as int) && i + needle@.len()
                <= s@.len(),
            None => last_at(s@, needle@, s@.len() as int) is None,
        },
{
    let mut i: usize = s.len();
    loop
        invariant
            i <= s@.len(),
            last_at(s@, needle@, s@.len() as int) == last_at(s@, needle@, i as int),
        decreases i,
    {
        if stands_at(s, needle, i) {
            return Some(i);
        }
        if i == 0 {
            assert(last_at(s@, needle@, -1) is None);
            return None;
        }
        i -= 1;
    }
}

// ---------------------------------------------------------------------------------------------
// What holds of every text
// ---------------------------------------------------------------------------------------------

/// A text is found if and only if it stands somewhere.
pub proof fn texts_are_found_where_they_stand(s: Seq<char>, needle: Seq<char>)
    ensures
        has_text(s, needle) <==> exists|i: int| #[trigger] occurs_at(s, needle, i),
{
    lemma_index_from(s, needle, 0);
}

proof fn lemma_occurs_later(s: Seq<char>, needle: Seq<char>, n: int, i: int)
    requires
        0 <= n <= s.len(),
        0 <= i,
    ensures
        occurs_at(s.skip(n), needle, i) <==> occurs_at(s, needle, n + i),
{
    if n + i + needle.len() <= s.len() {
        assert(s.skip(n).subrange(i, i + needle.len()) =~= s.subrange(
            n + i,
            n + i + needle.len(),
        ));
    }
}

/// A text is counted at least once if and only if it stands somewhere.
pub proof fn texts_are_counted_where_they_stand(s: Seq<char>, needle: Seq<char>)
    requires
        needle.len() > 0,
    ensures
        occurrences(s, needle) > 0 <==> exists|i: int| #[trigger] occurs_at(s, needle, i),
    decreases s.len(),
{
    if s.len() > 0 && !occurs_at(s, needle, 0) {
        texts_are_counted_where_they_stand(s.skip(1), needle);
        assert forall|i: int| #[trigger] occurs_at(s, needle, i) implies occurs_at(
            s.skip(1),
            needle,
            i - 1,
        ) by {
            if i > 0 {
                lemma_occurs_later(s, needle, 1, i - 1);
            }
        }
        assert forall|i: int| #[trigger] occurs_at(s.skip(1), needle, i) implies occurs_at(
            s,
            needle,
            i + 1,
        ) by {
            lemma_occurs_later(s, needle, 1, i);
        }
        if exists|i: int| #[trigger] occurs_at(s, needle, i) {
            let i = choose|i: int| #[trigger] occurs_at(s, needle, i);
            assert(occurs_at(s.skip(1), needle, i - 1));
        }
        if exists|i: int| #[trigger] occurs_at(s.skip(1), needle, i) {
            let i = choose|i: int| #[trigger] occurs_at(s.skip(1), needle, i);
            assert(occurs_at(s, needle, i + 1));
        }
    }
}

/// Replacing a text changes the length once for each place where it was counted, and nothing where
/// it does not stand.
pub proof fn replacing_changes_what_is_counted(s: Seq<char>, from: Seq<char>, to: Seq<char>)
    requires
        from.len() > 0,
    ensures
        replaced(s, from, to).len() == s.len() + occurrences(s, from) * (to.len() - from.len()),
        occurrences(s, from) == 0 ==> replaced(s, from, to) == s,
        replaced(s, from, from) == s,
    decreases s.len(),
{
    let d = to.len() - from.len();
    if s.len() == 0 {
        assert(0 * d == 0) by (nonlinear_arith);
    } else {
        if occurs_at(s, from, 0) {
            let rest = s.skip(from.len() as int);
            replacing_changes_what_is_counted(rest, from, to);
            let n = occurrences(rest, from) as int;
            assert((1 + n) * d == d + n * d) by (nonlinear_arith);
            assert(s =~= from + rest);
        } else {
            let rest = s.skip(1);
            replacing_changes_what_is_counted(rest, from, to);
            assert(s =~= seq![s[0]] + rest);
        }
    }
}

/// The parts between the occurrences of a character, joined by it, are the text again, and none of
/// them holds it.
pub proof fn parts_make_the_text(s: Seq<char>, c: char)
    ensures
        joined(parts(s, c), seq![c]) == s,
        forall|k: int, i: int|
            #![trigger parts(s, c)[k][i]]
            0 <= k < parts(s, c).len() && 0 <= i < parts(s, c)[k].len() ==> parts(s, c)[k][i] != c,
    decreases s.len(),
{
    let sep = seq![c];
    let all = parts(s, c);
    if s.len() == 0 {
        assert(joined(all, sep) =~= s);
    } else {
        let head = s.drop_last();
        let p = parts(head, c);
        lemma_parts_nonempty(head, c);
        parts_make_the_text(head, c);
        if s.last() == c {
            assert(all.drop_last() =~= p);
            assert(joined(all, sep) =~= head.push(c));
            assert forall|k: int, i: int|
                #![trigger all[k][i]]
                0 <= k < all.len() && 0 <= i < all[k].len() implies all[k][i] != c by {
                if k < p.len() {
                    assert(all[k] == p[k]);
                    assert(p[k][i] != c);
                }
            }
        } else {
            let q = p.drop_last();
            assert(all.drop_last() =~= q);
            if p.len() == 1 {
                assert(joined(p, sep) == p[0]);
                assert(joined(all, sep) =~= p[0].push(s.last()));
            } else {
                assert(joined(p, sep) == joined(q, sep) + sep + p.last());
                assert(joined(all, sep) =~= joined(p, sep).push(s.last()));
            }
            assert(head.push(s.last()) =~= s);
            assert forall|k: int, i: int|
                #![trigger all[k][i]]
                0 <= k < all.len() && 0 <= i < all[k].len() implies all[k][i] != c by {
                if k < p.len() - 1 {
                    assert(all[k] == p[k]);
                    assert(p[k][i] != c);
                } else if i < p.last().len() {
                    assert(p[p.len() - 1][i] != c);
                }
            }
        }
        assert(head.push(s.last()) =~= s);
    }
}

/// The lines of a text without carriage returns, joined by line feeds, are the text again, but for
/// a line feed at its end.
pub proof fn lines_make_the_text(s: Seq<char>)
    requires
        forall|i: int| 0 <= i < s.len() ==> #[trigger] s[i] != '\r',
    ensures
        s.len() > 0 && s.last() == '\n' ==> joined(lines_of(s), seq!['\n']) == s.drop_last(),
        s.len() == 0 || s.last() != '\n' ==> joined(lines_of(s), seq!['\n']) == s,
{
    let sep = seq!['\n'];
    let p = parts(s, '\n');
    lemma_parts_nonempty(s, '\n');
    parts_make_the_text(s, '\n');
    lemma_parts_inside(s, '\n');
    let ls = lines_of(s);
    assert forall|k: int| 0 <= k < ls.len() implies #[trigger] ls[k] == p[k] by {
        if p[k].len() > 0 {
            assert(s.contains(p[k][p[k].len() - 1]));
        }
    }
    if p.last().len() == 0 {
        assert(ls =~= p.drop_last());
        if p.len() == 1 {
            assert(joined(p, sep) == p[0]);
            assert(s =~= Seq::<char>::empty());
            assert(joined(ls, sep) =~= s);
        } else {
            assert(joined(p, sep) =~= joined(ls, sep) + sep);
            assert(s.drop_last() =~= joined(ls, sep));
        }
    } else {
        assert(ls =~= p);
        if p.len() > 1 {
            assert(s.last() == p.last()[p.last().len() - 1]);
        }
        assert(p[p.len() - 1][p.last().len() - 1] != '\n');
    }
}

proof fn lemma_parts_inside(s: Seq<char>, c: char)
    ensures
        forall|k: int, i: int|
            #![trigger parts(s, c)[k][i]]
            0 <= k < parts(s, c).len() && 0 <= i < parts(s, c)[k].len() ==> s.contains(
                parts(s, c)[k][i],
            ),
    decreases s.len(),
{
    if s.len() > 0 {
        let head = s.drop_last();
        let p = parts(head, c);
        let all = parts(s, c);
        lemma_parts_nonempty(head, c);
        lemma_parts_inside(head, c);
        assert forall|k: int, i: int|
            #![trigger all[k][i]]
            0 <= k < all.len() && 0 <= i < all[k].len() implies s.contains(all[k][i]) by {
            if k < p.len() && i < p[k].len() {
                assert(all[k][i] == p[k][i]);
                let m = choose|m: int| 0 <= m < head.len() && head[m] == p[k][i];
                assert(s[m] == p[k][i]);
            } else {
                assert(s[s.len() - 1] == all[k][i]);
            }
        }
    }
}

/// What is left after characters are stripped from the start begins with another one, and those
/// that went were all to be stripped; so too at the end.
pub proof fn stripping_takes_only_the_set(s: Seq<char>, set: Seq<char>)
    ensures
        exists|k: int|
            0 <= k <= s.len() && stripped_start(s, set) == #[trigger] s.skip(k) && forall|i: int|
                0 <= i < k ==> set.contains(#[trigger] s[i]),
        stripped_start(s, set).len() > 0 ==> !set.contains(stripped_start(s, set)[0]),
        exists|k: int|
            0 <= k <= s.len() && stripped_end(s, set) == #[trigger] s.take(k) && forall|i: int|
                k <= i < s.len() ==> set.contains(#[trigger] s[i]),
        stripped_end(s, set).len() > 0 ==> !set.contains(stripped_end(s, set).last()),
    decreases s.len(),
{
    assert(s.skip(0) =~= s);
    assert(s.take(s.len() as int) =~= s);
    if s.len() > 0 {
        if has_char(set, s[0]) {
            let t = s.drop_first();
            stripping_takes_only_the_set(t, set);
            let k = choose|k: int|
                0 <= k <= t.len() && stripped_start(t, set) == #[trigger] t.skip(k) && forall|i: int|
                    0 <= i < k ==> set.contains(#[trigger] t[i]);
            assert(t.skip(k) =~= s.skip(k + 1));
            assert forall|i: int| 0 <= i < k + 1 implies set.contains(#[trigger] s[i]) by {
                if i > 0 {
                    assert(t[i - 1] == s[i]);
                }
            }
        }
        if has_char(set, s.last()) {
            let t = s.drop_last();
            stripping_takes_only_the_set(t, set);
            let k = choose|k: int|
                0 <= k <= t.len() && stripped_end(t, set) == #[trigger] t.take(k) && forall|i: int|
                    k <= i < t.len() ==> set.contains(#[trigger] t[i]);
            assert(t.take(k) =~= s.take(k));
            assert forall|i: int| k <= i < s.len() implies set.contains(#[trigger] s[i]) by {
                if i < t.len() {
                    assert(t[i] == s[i]);
                }
            }
        }
    }
}

pub proof fn lemma_nothing_replaced(s: Seq<char>, from: Seq<char>, to: Seq<char>)
    requires
        from.len() > 0,
        forall|k: int| 0 <= k < s.len() ==> #[trigger] s[k] != from[0],
    ensures
        replaced(s, from, to) == s,
    decreases s.len(),
{
    if s.len() > 0 {
        let rest = s.skip(1);
        assert forall|k: int| 0 <= k < rest.len() implies #[trigger] rest[k] != from[0] by {
            assert(rest[k] == s[k + 1]);
        }
        lemma_nothing_replaced(rest, from, to);
        if occurs_at(s, from, 0) {
            assert(s.subrange(0, from.len() as int)[0] == s[0]);
        }
        assert(seq![s[0]] + rest =~= s);
    }
}

/// Each of several texts stands in their join.
pub proof fn joined_texts_stand_in_the_join(items: Seq<Seq<char>>, sep: Seq<char>, k: int)
    requires
        0 <= k < items.len(),
    ensures
        exists|i: int| #[trigger] occurs_at(joined(items, sep), items[k], i),
    decreases items.len(),
{
    let all = joined(items, sep);
    let n = items[k].len() as int;
    if items.len() == 1 {
        assert(all.subrange(0, n) =~= items[k]);
        assert(occurs_at(all, items[k], 0));
    } else {
        let head = joined(items.drop_last(), sep);
        if k == items.len() - 1 {
            let i = (head.len() + sep.len()) as int;
            assert(all.subrange(i, i + n) =~= items[k]);
            assert(occurs_at(all, items[k], i));
        } else {
            joined_texts_stand_in_the_join(items.drop_last(), sep, k);
            let i = choose|i: int| #[trigger] occurs_at(head, items[k], i);
            assert(all.subrange(i, i + n) =~= head.subrange(i, i + n));
            assert(occurs_at(all, items[k], i));
        }
    }
}

/// What stands in a text stands in every text that the text stands in.
pub proof fn lemma_stands_through(s: Seq<char>, t: Seq<char>, u: Seq<char>)
    requires
        exists|i: int| #[trigger] occurs_at(s, t, i),
        exists|i: int| #[trigger] occurs_at(t, u, i),
    ensures
        exists|i: int| #[trigger] occurs_at(s, u, i),
{
    let a = choose|i: int| #[trigger] occurs_at(s, t, i);
    let b = choose|i: int| #[trigger] occurs_at(t, u, i);
    assert(s.subrange(a + b, a + b + u.len()) =~= s.subrange(a, a + t.len()).subrange(
        b,
        b + u.len(),
    ));
    assert(occurs_at(s, u, a + b));
}

/// The parts between separators are what the text holds besides them: put together they are the
/// text without its separators, and each separator begins a new part.
pub proof fn parts_hold_all_but_the_set(s: Seq<char>, set: Seq<char>)
    ensures
        joined(parts_any(s, set), Seq::empty()) == s.filter(|c: char| !set.contains(c)),
        parts_any(s, set).len() == 1 + s.filter(|c: char| set.contains(c)).len(),
    decreases s.len(),
{
    reveal(Seq::filter);
    let none = Seq::<char>::empty();
    let all = parts_any(s, set);
    if s.len() == 0 {
        assert(joined(all, none) =~= s);
    } else {
        let head = s.drop_last();
        let p = parts_any(head, set);
        parts_hold_all_but_the_set(head, set);
        if has_char(set, s.last()) {
            assert(set.contains(s.last()));
            assert(all.drop_last() =~= p);
            assert(joined(all, none) =~= joined(p, none));
        } else {
            assert(!set.contains(s.last()));
            let q = p.drop_last();
            assert(all.drop_last() =~= q);
            if p.len() == 1 {
                assert(joined(all, none) =~= joined(p, none).push(s.last()));
            } else {
                assert(joined(p, none) == joined(q, none) + none + p.last());
                assert(joined(all, none) =~= joined(p, none).push(s.last()));
            }
        }
    }
}

/// One character is replaced wherever it stands, and all others stay; texts may be taken apart
/// anywhere.
pub proof fn single_characters_are_replaced(a: Seq<char>, b: Seq<char>, c: char, to: Seq<char>)
    ensures
        replaced(a + b, seq![c], to) == replaced(a, seq![c], to) + replaced(b, seq![c], to),
        a.len() == 1 && a[0] == c ==> replaced(a, seq![c], to) == to,
        a.len() == 1 && a[0] != c ==> replaced(a, seq![c], to) == a,
    decreases a.len(),
{
    let n = seq![c];
    if a.len() == 0 {
        assert(a + b =~= b);
        assert(replaced(a, n, to) + replaced(b, n, to) =~= replaced(b, n, to));
    } else {
        let rest = a.skip(1);
        single_characters_are_replaced(rest, b, c, to);
        assert((a + b).skip(1) =~= rest + b);
        assert((a + b).subrange(0, 1) =~= seq![a[0]]);
        assert(a.subrange(0, 1) =~= seq![a[0]]);
        assert(seq![a[0]][0] == a[0] && n[0] == c);
        assert(replaced(a + b, n, to) =~= replaced(a, n, to) + replaced(b, n, to));
        if a.len() == 1 {
            assert(rest =~= Seq::<char>::empty());
            assert(replaced(rest, n, to) =~= Seq::<char>::empty());
            assert(replaced(a, n, to) =~= (if a[0] == c {
                to
            } else {
                a
            }));
        }
    }
}

/// A text that stands in another once, at `a.len()`, is replaced there, and the rest stays: its
/// first character occurs nowhere else.
pub proof fn one_text_is_replaced(a: Seq<char>, from: Seq<char>, b: Seq<char>, to: Seq<char>)
    requires
        from.len() > 0,
        forall|k: int| 0 <= k < a.len() ==> #[trigger] a[k] != from[0],
        forall|k: int| 0 <= k < b.len() ==> #[trigger] b[k] != from[0],
    ensures
        replaced(a + from + b, from, to) == a + to + b,
    decreases a.len(),
{
    let s = a + from + b;
    if a.len() == 0 {
        assert(s.subrange(0, from.len() as int) =~= from);
        assert(s.skip(from.len() as int) =~= b);
        lemma_nothing_replaced(b, from, to);
        assert(to + b =~= a + to + b);
    } else {
        let rest = a.skip(1);
        assert forall|k: int| 0 <= k < rest.len() implies #[trigger] rest[k] != from[0] by {
            assert(rest[k] == a[k + 1]);
        }
        one_text_is_replaced(rest, from, b, to);
        assert(s.skip(1) =~= rest + from + b);
        assert(s[0] == a[0]);
        if occurs_at(s, from, 0) {
            assert(s.subrange(0, from.len() as int)[0] == s[0]);
        }
        assert(seq![a[0]] + (rest + to + b) =~= a + to + b);
    }
}

/// Where the first character of `from` stands once, and something else follows it, nothing is
/// replaced.
pub proof fn lemma_other_text_stays(
    a: Seq<char>,
    t: Seq<char>,
    from: Seq<char>,
    to: Seq<char>,
    d: int,
)
    requires
        0 < d < from.len(),
        d < t.len(),
        t[d] != from[d],
        forall|k: int| 0 <= k < a.len() ==> #[trigger] a[k] != from[0],
        forall|k: int| 1 <= k < t.len() ==> #[trigger] t[k] != from[0],
    ensures
        replaced(a + t, from, to) == a + t,
    decreases a.len(),
{
    let s = a + t;
    if a.len() == 0 {
        assert(s =~= t);
        if occurs_at(t, from, 0) {
            assert(t.subrange(0, from.len() as int)[d] == t[d]);
        }
        let rest = t.skip(1);
        assert forall|k: int| 0 <= k < rest.len() implies #[trigger] rest[k] != from[0] by {
            assert(rest[k] == t[k + 1]);
        }
        lemma_nothing_replaced(rest, from, to);
        assert(seq![t[0]] + rest =~= t);
    } else {
        let rest = a.skip(1);
        assert forall|k: int| 0 <= k < rest.len() implies #[trigger] rest[k] != from[0] by {
            assert(rest[k] == a[k + 1]);
        }
        lemma_other_text_stays(rest, t, from, to, d);
        assert(s.skip(1) =~= rest + t);
        assert(s[0] == a[0]);
        if occurs_at(s, from, 0) {
            assert(s.subrange(0, from.len() as int)[0] == s[0]);
        }
        assert(seq![a[0]] + (rest + t) =~= s);
    }
}

} // verus!
