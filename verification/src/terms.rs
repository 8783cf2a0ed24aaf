//! Search terms out of what a user types.
use crate::normalize::{
    ascii_alnum, ascii_lower, hanzi, hanzi_chars, hanzi_of, is_hanzi, is_latin_or_digit, lower_chars,
    lower_text, normal, normalize_chars, to_lower,
};
use crate::offsets::{byte_len, count_bytes};
use crate::pinyin_idx::{phrase_pinyin_variants, variants_of};
use crate::scan::{
    contains_char, has_char, lines, lines_of, replace, replaced, starts_char, starts_with_char,
    strip_end, strip_start, stripped_end, stripped_start,
};
use crate::text::{
    copy, extend, extend_str, pieces, rows, same, same_str, texts, to_chars, to_text, trim,
    trimmed,
};
use vstd::prelude::*;
use vstd::slice::slice_subrange;

verus! {

// ---------------------------------------------------------------------------------------------
// Stop words
// ---------------------------------------------------------------------------------------------

/// The words of a list with one word per line; blank lines and those that begin with `#` do not
/// count.
pub open spec fn listed_words(ls: Seq<Seq<char>>) -> Seq<Seq<char>>
    decreases ls.len(),
{
    if ls.len() == 0 {
        Seq::empty()
    } else {
        let before = listed_words(ls.drop_last());
        let t = trimmed(ls.last());
        if t.len() == 0 || starts_with_char(t, '#') {
            before
        } else {
            before.push(t)
        }
    }
}

/// Reads a list of stop words.
pub fn stopwords(list: &str) -> (r: Vec<String>)
    ensures
        texts(r@) == listed_words(lines_of(list@)),
{
    let v = to_chars(list);
    let ls = lines(v.as_slice());
    let ghost all = lines_of(list@);
    let mut out: Vec<String> = Vec::new();
    assert(texts(out@) =~= Seq::<Seq<char>>::empty());
    let mut i: usize = 0;
    while i < ls.len()
        invariant
            i <= ls@.len(),
            all == lines_of(list@),
            pieces(ls@) == all,
            texts(out@) == listed_words(all.take(i as int)),
        decreases ls@.len() - i,
    {
        proof {
            assert(all.take(i + 1).drop_last() =~= all.take(i as int));
            assert(all.take(i + 1).last() == pieces(ls@)[i as int]);
        }
        let t = trim(ls[i]);
        if t.len() > 0 && !starts_char(t, '#') {
            let ghost before = texts(out@);
            out.push(to_text(t));
            assert(texts(out@) =~= before.push(t@));
        }
        i += 1;
    }
    assert(all.take(i as int) =~= all);
    out
}

/// Whether a text is one of the stop words.
pub fn is_stopword(words: &Vec<String>, s: &str) -> (r: bool)
    ensures
        r == texts(words@).contains(s@),
{
    let v = to_chars(s);
    crate::cuts::holds_name(words, v.as_slice())
}

// ---------------------------------------------------------------------------------------------
// Runs of characters
// ---------------------------------------------------------------------------------------------

/// Runs of Chinese characters and of ASCII letters and digits: the finished ones, and the one at
/// hand with its sort, which is 1 for Chinese, 2 for ASCII and 0 for none.
#[verifier::ext_equal]
pub struct Runs {
    pub done: Seq<Seq<char>>,
    pub cur: Seq<char>,
    pub sort: int,
}

/// The sort of a character.
pub open spec fn char_sort(c: char) -> int {
    if hanzi(c) {
        1
    } else if ascii_alnum(c) {
        2
    } else {
        0
    }
}

/// The finished runs, the one at hand among them unless it is empty.
pub open spec fn all_runs(r: Runs) -> Seq<Seq<char>> {
    if r.cur.len() == 0 {
        r.done
    } else {
        r.done.push(r.cur)
    }
}

/// The runs after one more character; letters turn to lower case.
pub open spec fn next_runs(r: Runs, c: char) -> Runs {
    let k = char_sort(c);
    if k == 0 {
        Runs { done: all_runs(r), cur: Seq::empty(), sort: 0 }
    } else if k == r.sort {
        Runs { done: r.done, cur: r.cur.push(ascii_lower(c)), sort: k }
    } else {
        Runs { done: all_runs(r), cur: seq![ascii_lower(c)], sort: k }
    }
}

/// The runs of a text.
pub open spec fn runs_in(s: Seq<char>) -> Runs
    decreases s.len(),
{
    if s.len() == 0 {
        Runs { done: Seq::empty(), cur: Seq::empty(), sort: 0 }
    } else {
        next_runs(runs_in(s.drop_last()), s.last())
    }
}

/// The runs of a text.
pub open spec fn runs_of(s: Seq<char>) -> Seq<Seq<char>> {
    all_runs(runs_in(s))
}

fn flush(done: &mut Vec<Vec<char>>, cur: Vec<char>)
    ensures
        rows(final(done)@) == (if cur@.len() == 0 {
            rows(old(done)@)
        } else {
            rows(old(done)@).push(cur@)
        }),
{
    let ghost before = rows(done@);
    if cur.len() > 0 {
        let ghost c = cur@;
        done.push(cur);
        assert(rows(done@) =~= before.push(c));
    }
}

fn extract_runs(q: &[char]) -> (r: Vec<Vec<char>>)
    ensures
        rows(r@) == runs_of(q@),
{
    let mut done: Vec<Vec<char>> = Vec::new();
    let mut cur: Vec<char> = Vec::new();
    let mut sort: u8 = 0;
    assert(rows(done@) =~= Seq::<Seq<char>>::empty());
    let mut i: usize = 0;
    while i < q.len()
        invariant
            i <= q@.len(),
            runs_in(q@.take(i as int)) == (Runs {
                done: rows(done@),
                cur: cur@,
                sort: sort as int,
            }),
        decreases q@.len() - i,
    {
        assert(q@.take(i + 1).drop_last() =~= q@.take(i as int));
        let c = q[i];
        let k: u8 = if is_hanzi(c) {
            1
        } else if is_latin_or_digit(c) {
            2
        } else {
            0
        };
        if k != 0 && k == sort {
            cur.push(to_lower(c));
        } else {
            let old_cur = cur;
            flush(&mut done, old_cur);
            cur = Vec::new();
            if k != 0 {
                cur.push(to_lower(c));
                assert(cur@ =~= seq![ascii_lower(c)]);
            } else {
                assert(cur@ =~= Seq::<char>::empty());
            }
            sort = k;
        }
        i += 1;
    }
    assert(q@.take(i as int) =~= q@);
    flush(&mut done, cur);
    done
}

// ---------------------------------------------------------------------------------------------
// Candidates
// ---------------------------------------------------------------------------------------------

/// A term with its weight.
pub type Weighted = (int, Seq<char>);

/// How many characters of a text are not blanks.
pub open spec fn solid_len(s: Seq<char>) -> nat
    decreases s.len(),
{
    if s.len() == 0 {
        0
    } else {
        solid_len(s.drop_last()) + (if s.last() == ' ' {
            0nat
        } else {
            1nat
        })
    }
}

/// The spellings of at least three letters, with a weight.
pub open spec fn weighted_spellings(vs: Seq<Seq<char>>, weight: int) -> Seq<Weighted>
    decreases vs.len(),
{
    if vs.len() == 0 {
        Seq::empty()
    } else {
        let before = weighted_spellings(vs.drop_last(), weight);
        if solid_len(vs.last()) >= 3 {
            before.push((weight, vs.last()))
        } else {
            before
        }
    }
}

/// The stretches of `w` characters of a run among the first `n`, without those that begin or end
/// with a stop word.
pub open spec fn grams_upto(run: Seq<char>, w: int, n: int, words: Seq<Seq<char>>) -> Seq<Seq<char>>
    decreases n,
{
    if n <= 0 {
        Seq::empty()
    } else {
        let before = grams_upto(run, w, n - 1, words);
        let i = n - 1;
        if words.contains(seq![run[i]]) || words.contains(seq![run[i + w - 1]]) {
            before
        } else {
            before.push(run.subrange(i, i + w))
        }
    }
}

/// The stretches of `w` characters of a run.
pub open spec fn grams(run: Seq<char>, w: int, words: Seq<Seq<char>>) -> Seq<Seq<char>> {
    grams_upto(run, w, run.len() - w + 1, words)
}

/// The first `n` of a list of texts.
pub open spec fn at_most(v: Seq<Seq<char>>, n: int) -> Seq<Seq<char>> {
    if v.len() <= n {
        v
    } else {
        v.take(n)
    }
}

/// The candidates that stretches of a long run make: each that is no stop word, and its spellings.
pub open spec fn gram_candidates(gs: Seq<Seq<char>>, words: Seq<Seq<char>>) -> Seq<Weighted>
    decreases gs.len(),
{
    if gs.len() == 0 {
        Seq::empty()
    } else {
        let before = gram_candidates(gs.drop_last(), words);
        let g = gs.last();
        if words.contains(g) {
            before
        } else {
            before.push((50 + g.len() as int, g)) + weighted_spellings(variants_of(g), 40)
        }
    }
}

/// Whether a text is made of ASCII letters and digits.
pub open spec fn all_alnum(s: Seq<char>) -> bool {
    forall|i: int| 0 <= i < s.len() ==> ascii_alnum(#[trigger] s[i])
}

/// The candidates of a run: an ASCII run of three characters at least; a Chinese run of at most
/// six characters with its spellings; of a longer one its stretches of four and three characters.
pub open spec fn run_candidates(run: Seq<char>, gram_cap: int, words: Seq<Seq<char>>) -> Seq<
    Weighted,
> {
    if all_alnum(run) {
        if run.len() >= 3 {
            seq![(80int, run)]
        } else {
            Seq::empty()
        }
    } else if run.len() <= 6 {
        (if run.len() >= 3 && !words.contains(run) {
            seq![(100 + run.len() as int, run)]
        } else {
            Seq::<Weighted>::empty()
        }) + (if run.len() >= 2 {
            weighted_spellings(variants_of(run), 70)
        } else {
            Seq::<Weighted>::empty()
        })
    } else {
        gram_candidates(at_most(grams(run, 4, words) + grams(run, 3, words), gram_cap), words)
    }
}

/// The candidates of several runs.
pub open spec fn runs_candidates(rs: Seq<Seq<char>>, gram_cap: int, words: Seq<Seq<char>>) -> Seq<
    Weighted,
>
    decreases rs.len(),
{
    if rs.len() == 0 {
        Seq::empty()
    } else {
        runs_candidates(rs.drop_last(), gram_cap, words) + run_candidates(
            rs.last(),
            gram_cap,
            words,
        )
    }
}

/// The ASCII letters and digits of a text.
pub open spec fn compacted(s: Seq<char>) -> Seq<char>
    decreases s.len(),
{
    if s.len() == 0 {
        Seq::empty()
    } else if ascii_alnum(s.last()) {
        compacted(s.drop_last()).push(s.last())
    } else {
        compacted(s.drop_last())
    }
}

/// The candidates that the whole query makes: without Chinese characters its letters and digits in
/// one word, and itself if it has a blank; with at most six of them itself and its spellings.
pub open spec fn whole_candidates(q: Seq<char>, words: Seq<Seq<char>>) -> Seq<Weighted> {
    let n = hanzi_of(q).len();
    if n == 0 {
        (if compacted(q).len() >= 3 {
            seq![(95int, compacted(q))]
        } else {
            Seq::<Weighted>::empty()
        }) + (if has_char(q, ' ') {
            seq![(90int, q)]
        } else {
            Seq::<Weighted>::empty()
        })
    } else if n <= 6 && q.len() >= 3 {
        (if !words.contains(q) {
            seq![(90int, q)]
        } else {
            Seq::<Weighted>::empty()
        }) + weighted_spellings(variants_of(q), 60)
    } else {
        Seq::empty()
    }
}

/// Whether a list of weighted terms holds a term.
pub open spec fn holds_term(v: Seq<Weighted>, t: Seq<char>) -> bool {
    exists|i: int| 0 <= i < v.len() && (#[trigger] v[i]).1 == t
}

/// The candidates that are not empty, each term once, the first weight counting.
pub open spec fn distinct(v: Seq<Weighted>) -> Seq<Weighted>
    decreases v.len(),
{
    if v.len() == 0 {
        Seq::empty()
    } else {
        with_candidate(distinct(v.drop_last()), v.last())
    }
}

/// A list of distinct candidates with one more, unless it is empty or there already.
pub open spec fn with_candidate(v: Seq<Weighted>, c: Weighted) -> Seq<Weighted> {
    if c.1.len() == 0 || holds_term(v, c.1) {
        v
    } else {
        v.push(c)
    }
}

/// Whether candidate `a` must stand behind candidate `b`: it weighs less, or as much and takes
/// more bytes.
pub open spec fn ranks_behind(a: Weighted, b: Weighted) -> bool {
    a.0 < b.0 || (a.0 == b.0 && byte_len(a.1) > byte_len(b.1))
}

/// A ranked list with one more candidate: before those that must stand behind it.
pub open spec fn with_ranked(v: Seq<Weighted>, c: Weighted) -> Seq<Weighted>
    decreases v.len(),
{
    if v.len() == 0 || !ranks_behind(v.last(), c) {
        v.push(c)
    } else {
        with_ranked(v.drop_last(), c).push(v.last())
    }
}

/// The candidates by descending weight, those of the same weight by ascending length.
pub open spec fn ranked(v: Seq<Weighted>) -> Seq<Weighted>
    decreases v.len(),
{
    if v.len() == 0 {
        Seq::empty()
    } else {
        with_ranked(ranked(v.drop_last()), v.last())
    }
}

/// All candidates for a query in normal form.
pub open spec fn candidates(q: Seq<char>, gram_cap: int, words: Seq<Seq<char>>) -> Seq<Weighted> {
    runs_candidates(runs_of(q), gram_cap, words) + whole_candidates(q, words)
}

/// The terms of a query: at most `term_cap` of its candidates, the best first, escaped.
pub open spec fn terms_of(
    query: Seq<char>,
    term_cap: int,
    gram_cap: int,
    words: Seq<Seq<char>>,
) -> Seq<Seq<char>> {
    let best = ranked(distinct(candidates(normal(query), gram_cap, words)));
    let n = if best.len() <= term_cap {
        best.len()
    } else {
        term_cap as nat
    };
    Seq::new(n, |i: int| escaped(best[i].1))
}

// ---------------------------------------------------------------------------------------------
// Escaping
// ---------------------------------------------------------------------------------------------

/// A word that the full-text search reads as an operator.
pub open spec fn is_operator(t: Seq<char>) -> bool {
    let u = lower_text(t);
    u == "and"@ || u == "or"@ || u == "not"@ || u == "near"@ || u == "match"@
}

/// A term as the full-text search takes it: letters and digits as they are, anything else and the
/// operators in quotes, with the quotes in it doubled.
pub open spec fn escaped(t: Seq<char>) -> Seq<char> {
    if all_alnum(t) && !is_operator(t) {
        t
    } else {
        "\""@ + replaced(t, "\""@, "\"\""@) + "\""@
    }
}

/// The term that an escaped term stands for.
pub open spec fn unescaped(t: Seq<char>) -> Seq<char> {
    replaced(stripped_end(stripped_start(trimmed(t), "\""@), "\""@), "\"\""@, "\""@)
}

// ---------------------------------------------------------------------------------------------
// Executable side
// ---------------------------------------------------------------------------------------------

/// The values of weighted terms.
pub open spec fn weighted_views(v: Seq<(i32, Vec<char>)>) -> Seq<Weighted> {
    Seq::new(v.len(), |i: int| (v[i].0 as int, v[i].1@))
}

fn has_term(v: &Vec<(i32, Vec<char>)>, t: &[char]) -> (r: bool)
    ensures
        r == holds_term(weighted_views(v@), t@),
{
    let mut i: usize = 0;
    while i < v.len()
        invariant
            i <= v@.len(),
            forall|j: int| 0 <= j < i ==> (#[trigger] weighted_views(v@)[j]).1 != t@,
        decreases v@.len() - i,
    {
        if same(v[i].1.as_slice(), t) {
            assert(weighted_views(v@)[i as int].1 == t@);
            return true;
        }
        i += 1;
    }
    false
}

fn offer(out: &mut Vec<(i32, Vec<char>)>, weight: i32, t: &[char], Ghost(given): Ghost<Seq<Weighted>>)
    requires
        weighted_views(old(out)@) == distinct(given),
    ensures
        weighted_views(final(out)@) == distinct(given.push((weight as int, t@))),
{
    let ghost before = weighted_views(out@);
    proof {
        let now = given.push((weight as int, t@));
        assert(now.drop_last() =~= given);
        assert(now.last() == (weight as int, t@));
    }
    if t.len() > 0 && !has_term(out, t) {
        out.push((weight, copy(t)));
        assert(weighted_views(out@) =~= before.push((weight as int, t@)));
    }
}

fn count_solid(v: &[char]) -> (r: usize)
    ensures
        r == solid_len(v@),
{
    let mut n: usize = 0;
    let mut i: usize = 0;
    while i < v.len()
        invariant
            i <= v@.len(),
            n <= i,
            n == solid_len(v@.take(i as int)),
        decreases v@.len() - i,
    {
        assert(v@.take(i + 1).drop_last() =~= v@.take(i as int));
        if v[i] != ' ' {
            n += 1;
        }
        i += 1;
    }
    assert(v@.take(i as int) =~= v@);
    n
}

fn offer_spellings(
    out: &mut Vec<(i32, Vec<char>)>,
    weight: i32,
    t: &[char],
    Ghost(given): Ghost<Seq<Weighted>>,
)
    requires
        weighted_views(old(out)@) == distinct(given),
    ensures
        weighted_views(final(out)@) == distinct(
            given + weighted_spellings(variants_of(t@), weight as int),
        ),
{
    let name = to_text(t);
    let vs = phrase_pinyin_variants(name.as_str());
    let ghost all = texts(vs@);
    let mut i: usize = 0;
    assert(given + weighted_spellings(all.take(0), weight as int) =~= given);
    while i < vs.len()
        invariant
            i <= vs@.len(),
            all == texts(vs@),
            weighted_views(out@) == distinct(
                given + weighted_spellings(all.take(i as int), weight as int),
            ),
        decreases vs@.len() - i,
    {
        let ghost sofar = weighted_spellings(all.take(i as int), weight as int);
        proof {
            assert(all.take(i + 1).drop_last() =~= all.take(i as int));
            assert(all.take(i + 1).last() == vs@[i as int]@);
        }
        let v = to_chars(vs[i].as_str());
        if count_solid(v.as_slice()) >= 3 {
            offer(out, weight, v.as_slice(), Ghost(given + sofar));
            assert((given + sofar).push((weight as int, v@)) =~= given + sofar.push(
                (weight as int, v@),
            ));
        }
        i += 1;
    }
    assert(all.take(i as int) =~= all);
}

fn one_char(c: char) -> (r: Vec<char>)
    ensures
        r@ == seq![c],
{
    let mut v: Vec<char> = Vec::new();
    v.push(c);
    assert(v@ =~= seq![c]);
    v
}

fn push_grams(out: &mut Vec<Vec<char>>, run: &[char], w: usize, words: &Vec<String>)
    requires
        1 <= w <= run@.len(),
    ensures
        rows(final(out)@) == rows(old(out)@) + grams(run@, w as int, texts(words@)),
{
    let ghost before = rows(out@);
    let n: usize = run.len() - w + 1;
    let mut i: usize = 0;
    assert(before + grams_upto(run@, w as int, 0, texts(words@)) =~= before);
    while i < n
        invariant
            i <= n,
            1 <= w,
            n + w == run@.len() + 1,
            rows(out@) == before + grams_upto(run@, w as int, i as int, texts(words@)),
        decreases n - i,
    {
        let ghost sofar = grams_upto(run@, w as int, i as int, texts(words@));
        let first = one_char(run[i]);
        let last = one_char(run[i + w - 1]);
        if !crate::cuts::holds_name(words, first.as_slice()) && !crate::cuts::holds_name(
            words,
            last.as_slice(),
        ) {
            let g = slice_subrange(run, i, i + w);
            let ghost now = rows(out@);
            out.push(copy(g));
            proof {
                assert(rows(out@) =~= now.push(g@));
                assert((before + sofar).push(g@) =~= before + sofar.push(g@));
            }
        }
        i += 1;
    }
}

fn offer_grams(
    out: &mut Vec<(i32, Vec<char>)>,
    gs: &Vec<Vec<char>>,
    cap: usize,
    words: &Vec<String>,
    Ghost(given): Ghost<Seq<Weighted>>,
)
    requires
        weighted_views(old(out)@) == distinct(given),
        forall|i: int| 0 <= i < gs@.len() ==> (#[trigger] gs@[i])@.len() <= 1000,
    ensures
        weighted_views(final(out)@) == distinct(
            given + gram_candidates(at_most(rows(gs@), cap as int), texts(words@)),
        ),
{
    let ghost all = at_most(rows(gs@), cap as int);
    let n: usize = if gs.len() <= cap {
        gs.len()
    } else {
        cap
    };
    let mut i: usize = 0;
    assert(given + gram_candidates(all.take(0), texts(words@)) =~= given);
    while i < n
        invariant
            i <= n,
            n <= gs@.len(),
            n == all.len(),
            all == at_most(rows(gs@), cap as int),
            forall|i: int| 0 <= i < gs@.len() ==> (#[trigger] gs@[i])@.len() <= 1000,
            weighted_views(out@) == distinct(
                given + gram_candidates(all.take(i as int), texts(words@)),
            ),
        decreases n - i,
    {
        let ghost sofar = gram_candidates(all.take(i as int), texts(words@));
        proof {
            assert(all.take(i + 1).drop_last() =~= all.take(i as int));
            assert(all.take(i + 1).last() == gs@[i as int]@);
        }
        let g = gs[i].as_slice();
        if !crate::cuts::holds_name(words, g) {
            let weight: i32 = 50 + g.len() as i32;
            offer(out, weight, g, Ghost(given + sofar));
            let ghost mid = sofar.push((weight as int, g@));
            assert((given + sofar).push((weight as int, g@)) =~= given + mid);
            offer_spellings(out, 40, g, Ghost(given + mid));
            assert(given + mid + weighted_spellings(variants_of(g@), 40) =~= given + (mid
                + weighted_spellings(variants_of(g@), 40)));
        }
        i += 1;
    }
    assert(all.take(i as int) =~= all);
}

fn is_alnum(v: &[char]) -> (r: bool)
    ensures
        r == all_alnum(v@),
{
    let mut i: usize = 0;
    while i < v.len()
        invariant
            i <= v@.len(),
            forall|j: int| 0 <= j < i ==> ascii_alnum(#[trigger] v@[j]),
        decreases v@.len() - i,
    {
        if !is_latin_or_digit(v[i]) {
            return false;
        }
        i += 1;
    }
    true
}

proof fn lemma_grams_len(run: Seq<char>, w: int, n: int, words: Seq<Seq<char>>)
    requires
        0 <= w,
        n + w <= run.len() + 1,
    ensures
        forall|i: int|
            0 <= i < grams_upto(run, w, n, words).len() ==> (#[trigger] grams_upto(
                run,
                w,
                n,
                words,
            )[i]).len() == w,
    decreases n,
{
    if n > 0 {
        lemma_grams_len(run, w, n - 1, words);
        let before = grams_upto(run, w, n - 1, words);
        let now = grams_upto(run, w, n, words);
        assert forall|i: int| 0 <= i < now.len() implies (#[trigger] now[i]).len() == w by {
            if i < before.len() {
                assert(now[i] == before[i]);
            }
        }
    }
}

fn offer_run(
    out: &mut Vec<(i32, Vec<char>)>,
    run: &[char],
    gram_cap: usize,
    words: &Vec<String>,
    Ghost(given): Ghost<Seq<Weighted>>,
)
    requires
        weighted_views(old(out)@) == distinct(given),
    ensures
        weighted_views(final(out)@) == distinct(
            given + run_candidates(run@, gram_cap as int, texts(words@)),
        ),
{
    assert(given + Seq::<Weighted>::empty() =~= given);
    if is_alnum(run) {
        if run.len() >= 3 {
            offer(out, 80, run, Ghost(given));
            assert(given.push((80int, run@)) =~= given + seq![(80int, run@)]);
        }
    } else if run.len() <= 6 {
        let ghost mut sofar = Seq::<Weighted>::empty();
        if run.len() >= 3 && !crate::cuts::holds_name(words, run) {
            let weight: i32 = 100 + run.len() as i32;
            offer(out, weight, run, Ghost(given));
            proof {
                sofar = seq![(weight as int, run@)];
                assert(given.push((weight as int, run@)) =~= given + sofar);
            }
        }
        if run.len() >= 2 {
            offer_spellings(out, 70, run, Ghost(given + sofar));
            assert(given + sofar + weighted_spellings(variants_of(run@), 70) =~= given + (sofar
                + weighted_spellings(variants_of(run@), 70)));
        } else {
            assert(sofar + Seq::<Weighted>::empty() =~= sofar);
        }
    } else {
        let mut gs: Vec<Vec<char>> = Vec::new();
        push_grams(&mut gs, run, 4, words);
        push_grams(&mut gs, run, 3, words);
        proof {
            let a = grams(run@, 4, texts(words@));
            let b = grams(run@, 3, texts(words@));
            assert(rows(gs@) =~= a + b);
            lemma_grams_len(run@, 4, run@.len() - 4 + 1, texts(words@));
            lemma_grams_len(run@, 3, run@.len() - 3 + 1, texts(words@));
            assert forall|i: int| 0 <= i < gs@.len() implies (#[trigger] gs@[i])@.len() <= 1000 by {
                assert(rows(gs@)[i] == gs@[i]@);
                if i < a.len() {
                    assert((a + b)[i] == a[i]);
                } else {
                    assert((a + b)[i] == b[i - a.len()]);
                }
            }
        }
        offer_grams(out, &gs, gram_cap, words, Ghost(given));
    }
}

fn compact(v: &[char]) -> (r: Vec<char>)
    ensures
        r@ == compacted(v@),
{
    let mut out: Vec<char> = Vec::new();
    let mut i: usize = 0;
    while i < v.len()
        invariant
            i <= v@.len(),
            out@ == compacted(v@.take(i as int)),
        decreases v@.len() - i,
    {
        assert(v@.take(i + 1).drop_last() =~= v@.take(i as int));
        if is_latin_or_digit(v[i]) {
            out.push(v[i]);
        }
        i += 1;
    }
    assert(v@.take(i as int) =~= v@);
    out
}

fn offer_whole(
    out: &mut Vec<(i32, Vec<char>)>,
    q: &[char],
    words: &Vec<String>,
    Ghost(given): Ghost<Seq<Weighted>>,
)
    requires
        weighted_views(old(out)@) == distinct(given),
    ensures
        weighted_views(final(out)@) == distinct(given + whole_candidates(q@, texts(words@))),
{
    let n = hanzi_chars(q).len();
    let ghost mut sofar = Seq::<Weighted>::empty();
    assert(given + sofar =~= given);
    if n == 0 {
        let c = compact(q);
        if c.len() >= 3 {
            offer(out, 95, c.as_slice(), Ghost(given));
            proof {
                sofar = seq![(95int, c@)];
                assert(given.push((95int, c@)) =~= given + sofar);
            }
        }
        if contains_char(q, ' ') {
            offer(out, 90, q, Ghost(given + sofar));
            assert((given + sofar).push((90int, q@)) =~= given + (sofar + seq![(90int, q@)]));
        } else {
            assert(sofar + Seq::<Weighted>::empty() =~= sofar);
        }
    } else if n <= 6 && q.len() >= 3 {
        if !crate::cuts::holds_name(words, q) {
            offer(out, 90, q, Ghost(given));
            proof {
                sofar = seq![(90int, q@)];
                assert(given.push((90int, q@)) =~= given + sofar);
            }
        }
        offer_spellings(out, 60, q, Ghost(given + sofar));
        assert(given + sofar + weighted_spellings(variants_of(q@), 60) =~= given + (sofar
            + weighted_spellings(variants_of(q@), 60)));
    }
}

fn insert_ranked(v: &mut Vec<(i32, Vec<char>)>, weight: i32, t: &[char])
    ensures
        weighted_views(final(v)@) == with_ranked(weighted_views(old(v)@), (weight as int, t@)),
{
    let ghost s = weighted_views(v@);
    let ghost c = (weight as int, t@);
    let bytes = count_bytes(t);
    let mut k: usize = v.len();
    assert(s.take(k as int) =~= s);
    assert(with_ranked(s, c) + s.skip(k as int) =~= with_ranked(s, c));
    while k > 0 && (v[k - 1].0 < weight || (v[k - 1].0 == weight && count_bytes(
        v[k - 1].1.as_slice(),
    ) > bytes))
        invariant
            k <= v@.len(),
            s == weighted_views(v@),
            c == (weight as int, t@),
            bytes == byte_len(t@),
            with_ranked(s, c) == with_ranked(s.take(k as int), c) + s.skip(k as int),
        decreases k,
    {
        proof {
            let h = s.take(k as int);
            assert(h.last() == s[k - 1]);
            assert(h.drop_last() =~= s.take(k - 1));
            assert(with_ranked(h.drop_last(), c).push(h.last()) + s.skip(k as int) =~= with_ranked(
                h.drop_last(),
                c,
            ) + s.skip(k - 1));
        }
        k -= 1;
    }
    proof {
        if k > 0 {
            assert(s.take(k as int).last() == s[k - 1]);
        }
    }
    v.insert(k, (weight, copy(t)));
    assert(weighted_views(v@) =~= s.take(k as int).push(c) + s.skip(k as int));
}

/// Extracts the terms of a query: at most `term_cap` of them, out of at most `gram_cap` stretches
/// of each long run. `words` are the stop words.
pub fn extract_terms_limited(q1: &str, term_cap: usize, gram_cap: usize, words: &Vec<String>) -> (r: Vec<
    String,
>)
    ensures
        texts(r@) == terms_of(q1@, term_cap as int, gram_cap as int, texts(words@)),
{
    let raw = to_chars(q1);
    let q = normalize_chars(raw.as_slice());
    let runs = extract_runs(q.as_slice());
    let ghost all = rows(runs@);
    let mut found: Vec<(i32, Vec<char>)> = Vec::new();
    assert(weighted_views(found@) =~= Seq::<Weighted>::empty());
    let mut i: usize = 0;
    while i < runs.len()
        invariant
            i <= runs@.len(),
            all == rows(runs@),
            weighted_views(found@) == distinct(
                runs_candidates(all.take(i as int), gram_cap as int, texts(words@)),
            ),
        decreases runs@.len() - i,
    {
        proof {
            assert(all.take(i + 1).drop_last() =~= all.take(i as int));
            assert(all.take(i + 1).last() == runs@[i as int]@);
        }
        offer_run(
            &mut found,
            runs[i].as_slice(),
            gram_cap,
            words,
            Ghost(runs_candidates(all.take(i as int), gram_cap as int, texts(words@))),
        );
        i += 1;
    }
    assert(all.take(i as int) =~= all);
    offer_whole(
        &mut found,
        q.as_slice(),
        words,
        Ghost(runs_candidates(all, gram_cap as int, texts(words@))),
    );
    let ghost kept = weighted_views(found@);
    let mut best: Vec<(i32, Vec<char>)> = Vec::new();
    assert(weighted_views(best@) =~= Seq::<Weighted>::empty());
    let mut k: usize = 0;
    while k < found.len()
        invariant
            k <= found@.len(),
            kept == weighted_views(found@),
            weighted_views(best@) == ranked(kept.take(k as int)),
        decreases found@.len() - k,
    {
        proof {
            assert(kept.take(k + 1).drop_last() =~= kept.take(k as int));
            assert(kept.take(k + 1).last() == kept[k as int]);
        }
        insert_ranked(&mut best, found[k].0, found[k].1.as_slice());
        k += 1;
    }
    assert(kept.take(k as int) =~= kept);
    let ghost top = weighted_views(best@);
    let n: usize = if best.len() <= term_cap {
        best.len()
    } else {
        term_cap
    };
    let mut out: Vec<String> = Vec::new();
    let mut j: usize = 0;
    while j < n
        invariant
            j <= n,
            n <= best@.len(),
            top == weighted_views(best@),
            out@.len() == j,
            forall|m: int| 0 <= m < j ==> (#[trigger] out@[m])@ == escaped(top[m].1),
        decreases n - j,
    {
        assert(top[j as int].1 == best@[j as int].1@);
        out.push(escape_chars(best[j].1.as_slice()));
        j += 1;
    }
    assert(texts(out@) =~= terms_of(q1@, term_cap as int, gram_cap as int, texts(words@)));
    out
}

/// Extracts the terms of a query.
pub fn extract_terms(q1: &str, words: &Vec<String>) -> (r: Vec<String>)
    ensures
        texts(r@) == terms_of(q1@, 48, 32, texts(words@)),
{
    extract_terms_limited(q1, 48, 32, words)
}

/// Extracts the terms of a query, with more stretches of long runs.
pub fn extract_terms_relaxed(q1: &str, words: &Vec<String>) -> (r: Vec<String>)
    ensures
        texts(r@) == terms_of(q1@, 48, 48, texts(words@)),
{
    extract_terms_limited(q1, 48, 48, words)
}

fn escape_chars(t: &[char]) -> (r: String)
    ensures
        r@ == escaped(t@),
{
    let low = lower_chars(t);
    let u = low.as_slice();
    let operator = same_str(u, "and") || same_str(u, "or") || same_str(u, "not") || same_str(
        u,
        "near",
    ) || same_str(u, "match");
    if !operator && is_alnum(t) {
        return to_text(t);
    }
    proof {
        reveal_strlit("\"");
    }
    let twice = to_chars("\"\"");
    let inner = replace(t, "\"", twice.as_slice());
    let mut out = to_chars("\"");
    extend(&mut out, inner.as_slice());
    extend_str(&mut out, "\"");
    to_text(out.as_slice())
}

/// Escapes a term for the full-text search.
pub fn escape_fts_term(term: &str) -> (r: String)
    ensures
        r@ == escaped(term@),
{
    let v = to_chars(term);
    escape_chars(v.as_slice())
}

/// Undoes the escaping of a term.
pub fn unescape_fts_term(term: &str) -> (r: String)
    ensures
        r@ == unescaped(term@),
{
    proof {
        reveal_strlit("\"\"");
    }
    let v = to_chars(term);
    let t = strip_end(strip_start(trim(v.as_slice()), "\""), "\"");
    let once = to_chars("\"");
    let out = replace(t, "\"\"", once.as_slice());
    to_text(out.as_slice())
}

// ---------------------------------------------------------------------------------------------
// What holds of every query
// ---------------------------------------------------------------------------------------------

proof fn lemma_doubled(t: Seq<char>)
    ensures
        replaced(replaced(t, seq!['"'], seq!['"', '"']), seq!['"', '"'], seq!['"']) == t,
        t.len() > 0 ==> replaced(t, seq!['"'], seq!['"', '"']).len() > 0,
        t.len() > 0 ==> replaced(t, seq!['"'], seq!['"', '"'])[0] == t[0],
        t.len() > 0 ==> replaced(t, seq!['"'], seq!['"', '"']).last() == t.last(),
    decreases t.len(),
{
    let one = seq!['"'];
    let two = seq!['"', '"'];
    let d = replaced(t, one, two);
    if t.len() > 0 {
        let rest = t.skip(1);
        lemma_doubled(rest);
        let e = replaced(rest, one, two);
        assert(t =~= seq![t[0]] + rest);
        if t[0] == '"' {
            assert(t.subrange(0, 1) =~= one);
            assert(crate::scan::occurs_at(t, one, 0));
            assert(d =~= two + e);
            assert(d.subrange(0, 2) =~= two);
            assert(crate::scan::occurs_at(d, two, 0));
            assert(d.skip(2) =~= e);
        } else {
            assert(t.subrange(0, 1)[0] == t[0]);
            assert(!crate::scan::occurs_at(t, one, 0));
            assert(d =~= seq![t[0]] + e);
            if d.len() >= 2 {
                assert(d.subrange(0, 2)[0] == t[0]);
            }
            assert(!crate::scan::occurs_at(d, two, 0));
            assert(d.skip(1) =~= e);
        }
        if rest.len() > 0 {
            assert(d.last() == e.last());
            assert(rest.last() == t.last());
        } else {
            assert(e =~= rest);
        }
    } else {
        assert(d =~= t);
    }
}

/// Undoing the escaping of a term gives the term back, unless it begins or ends with a quote.
pub proof fn unescape_undoes_escape(t: Seq<char>)
    requires
        t.len() > 0 ==> t[0] != '"' && t.last() != '"',
    ensures
        unescaped(escaped(t)) == t,
{
    reveal_strlit("\"");
    reveal_strlit("\"\"");
    let one = "\""@;
    assert(one =~= seq!['"']);
    assert("\"\""@ =~= seq!['"', '"']);
    lemma_doubled(t);
    if all_alnum(t) && !is_operator(t) {
        lemma_plain(t);
    } else {
        let d = replaced(t, one, "\"\""@);
        let q = one + d + one;
        assert(q[0] == '"' && q.last() == '"');
        assert(!crate::text::is_space('"'));
        assert(crate::text::trimmed_start(q) == q);
        assert(trimmed(q) == q);
        assert(has_char(one, '"')) by {
            assert(one[0] == '"');
        }
        let a = q.drop_first();
        assert(a =~= d + one);
        if t.len() > 0 {
            assert(!has_char(one, d[0]));
            assert(a[0] == d[0]);
            assert(stripped_start(a, one) == a);
            assert(stripped_start(q, one) == a);
            assert(a.last() == '"');
            assert(a.drop_last() =~= d);
            assert(!has_char(one, d.last()));
            assert(stripped_end(d, one) == d);
            assert(stripped_end(a, one) == d);
        } else {
            assert(d =~= Seq::<char>::empty());
            assert(a =~= one);
            let b = a.drop_first();
            assert(b =~= Seq::<char>::empty());
            assert(stripped_start(b, one) == b);
            assert(stripped_start(a, one) == b);
            assert(stripped_start(q, one) == b);
            assert(stripped_end(b, one) == b);
        }
    }
}

proof fn lemma_plain(t: Seq<char>)
    requires
        all_alnum(t),
    ensures
        unescaped(t) == t,
{
    reveal_strlit("\"");
    reveal_strlit("\"\"");
    let one = "\""@;
    assert(one =~= seq!['"']);
    if t.len() > 0 {
        assert(ascii_alnum(t[0]));
        assert(ascii_alnum(t[t.len() - 1]));
        assert(!crate::text::is_space(t[0]));
        assert(!crate::text::is_space(t.last()));
        assert(crate::text::trimmed_start(t) == t);
        assert(!has_char(one, t[0]));
        assert(!has_char(one, t.last()));
    } else {
        assert(crate::text::trimmed_start(t) == t);
    }
    assert(stripped_start(t, one) == t);
    assert(stripped_end(t, one) == t);
    lemma_no_quote(t);
}

proof fn lemma_no_quote(t: Seq<char>)
    requires
        all_alnum(t),
    ensures
        replaced(t, "\"\""@, "\""@) == t,
    decreases t.len(),
{
    reveal_strlit("\"\"");
    if t.len() > 0 {
        let rest = t.skip(1);
        assert forall|i: int| 0 <= i < rest.len() implies ascii_alnum(#[trigger] rest[i]) by {
            assert(rest[i] == t[i + 1]);
        }
        lemma_no_quote(rest);
        assert(ascii_alnum(t[0]));
        if t.len() >= 2 {
            assert(t.subrange(0, 2)[0] == t[0]);
            assert("\"\""@[0] == '"');
        }
        assert(!crate::scan::occurs_at(t, "\"\""@, 0));
        assert(t =~= seq![t[0]] + rest);
    }
}

/// Whether all terms of a list have three characters at least.
pub open spec fn all_long(v: Seq<Weighted>) -> bool {
    forall|i: int| 0 <= i < v.len() ==> (#[trigger] v[i]).1.len() >= 3
}

proof fn lemma_solid_len(s: Seq<char>)
    ensures
        solid_len(s) <= s.len(),
    decreases s.len(),
{
    if s.len() > 0 {
        lemma_solid_len(s.drop_last());
    }
}

proof fn lemma_spellings_long(vs: Seq<Seq<char>>, weight: int)
    ensures
        all_long(weighted_spellings(vs, weight)),
    decreases vs.len(),
{
    if vs.len() > 0 {
        lemma_spellings_long(vs.drop_last(), weight);
        lemma_solid_len(vs.last());
    }
}

proof fn lemma_long_concat(a: Seq<Weighted>, b: Seq<Weighted>)
    requires
        all_long(a),
        all_long(b),
    ensures
        all_long(a + b),
{
    assert forall|i: int| 0 <= i < (a + b).len() implies (#[trigger] (a + b)[i]).1.len() >= 3 by {
        if i < a.len() {
            assert((a + b)[i] == a[i]);
        } else {
            assert((a + b)[i] == b[i - a.len()]);
        }
    }
}

proof fn lemma_grams_long(gs: Seq<Seq<char>>, words: Seq<Seq<char>>)
    requires
        forall|i: int| 0 <= i < gs.len() ==> (#[trigger] gs[i]).len() >= 3,
    ensures
        all_long(gram_candidates(gs, words)),
    decreases gs.len(),
{
    if gs.len() > 0 {
        let g = gs.last();
        assert(g == gs[gs.len() - 1]);
        lemma_grams_long(gs.drop_last(), words);
        let before = gram_candidates(gs.drop_last(), words);
        lemma_spellings_long(variants_of(g), 40);
        if !words.contains(g) {
            lemma_long_concat(
                before.push((50 + g.len() as int, g)),
                weighted_spellings(variants_of(g), 40),
            );
        }
    }
}

proof fn lemma_run_long(run: Seq<char>, gram_cap: int, words: Seq<Seq<char>>)
    requires
        gram_cap >= 0,
    ensures
        all_long(run_candidates(run, gram_cap, words)),
{
    if all_alnum(run) {
    } else if run.len() <= 6 {
        lemma_spellings_long(variants_of(run), 70);
        let a = if run.len() >= 3 && !words.contains(run) {
            seq![(100 + run.len() as int, run)]
        } else {
            Seq::<Weighted>::empty()
        };
        let b = if run.len() >= 2 {
            weighted_spellings(variants_of(run), 70)
        } else {
            Seq::<Weighted>::empty()
        };
        lemma_long_concat(a, b);
    } else {
        let a = grams(run, 4, words);
        let b = grams(run, 3, words);
        lemma_grams_len(run, 4, run.len() - 4 + 1, words);
        lemma_grams_len(run, 3, run.len() - 3 + 1, words);
        let gs = at_most(a + b, gram_cap);
        assert forall|i: int| 0 <= i < gs.len() implies (#[trigger] gs[i]).len() >= 3 by {
            assert(gs[i] == (a + b)[i]);
            if i < a.len() {
                assert((a + b)[i] == a[i]);
            } else {
                assert((a + b)[i] == b[i - a.len()]);
            }
        }
        lemma_grams_long(gs, words);
    }
}

proof fn lemma_runs_long(rs: Seq<Seq<char>>, gram_cap: int, words: Seq<Seq<char>>)
    requires
        gram_cap >= 0,
    ensures
        all_long(runs_candidates(rs, gram_cap, words)),
    decreases rs.len(),
{
    if rs.len() > 0 {
        lemma_runs_long(rs.drop_last(), gram_cap, words);
        lemma_run_long(rs.last(), gram_cap, words);
        lemma_long_concat(
            runs_candidates(rs.drop_last(), gram_cap, words),
            run_candidates(rs.last(), gram_cap, words),
        );
    }
}

proof fn lemma_whole_long(query: Seq<char>, words: Seq<Seq<char>>)
    ensures
        all_long(whole_candidates(normal(query), words)),
{
    let q = normal(query);
    crate::normalize::normal_form_is_tidy(query);
    let n = hanzi_of(q).len();
    if n == 0 {
        if has_char(q, ' ') {
            let i = choose|i: int| 0 <= i < q.len() && #[trigger] q[i] == ' ';
            assert(crate::text::is_space(' '));
            assert(0 < i < q.len() - 1);
        }
        let a = if compacted(q).len() >= 3 {
            seq![(95int, compacted(q))]
        } else {
            Seq::<Weighted>::empty()
        };
        let b = if has_char(q, ' ') {
            seq![(90int, q)]
        } else {
            Seq::<Weighted>::empty()
        };
        lemma_long_concat(a, b);
    } else if n <= 6 && q.len() >= 3 {
        lemma_spellings_long(variants_of(q), 60);
        let a = if !words.contains(q) {
            seq![(90int, q)]
        } else {
            Seq::<Weighted>::empty()
        };
        lemma_long_concat(a, weighted_spellings(variants_of(q), 60));
    }
}

proof fn lemma_distinct_long(v: Seq<Weighted>)
    requires
        all_long(v),
    ensures
        all_long(distinct(v)),
    decreases v.len(),
{
    if v.len() > 0 {
        assert(v.last() == v[v.len() - 1]);
        lemma_distinct_long(v.drop_last());
    }
}

proof fn lemma_with_ranked_long(v: Seq<Weighted>, c: Weighted)
    requires
        all_long(v),
        c.1.len() >= 3,
    ensures
        all_long(with_ranked(v, c)),
    decreases v.len(),
{
    if v.len() > 0 && ranks_behind(v.last(), c) {
        assert(v.last() == v[v.len() - 1]);
        lemma_with_ranked_long(v.drop_last(), c);
    }
}

proof fn lemma_ranked_long(v: Seq<Weighted>)
    requires
        all_long(v),
    ensures
        all_long(ranked(v)),
    decreases v.len(),
{
    if v.len() > 0 {
        assert(v.last() == v[v.len() - 1]);
        lemma_ranked_long(v.drop_last());
        lemma_with_ranked_long(ranked(v.drop_last()), v.last());
    }
}

/// Every term of a query stands for three characters at least, as the full-text index needs it,
/// and there are at most `term_cap` terms.
pub proof fn terms_are_long(query: Seq<char>, term_cap: int, gram_cap: int, words: Seq<Seq<char>>, k: int)
    requires
        0 <= term_cap,
        0 <= gram_cap,
        0 <= k < terms_of(query, term_cap, gram_cap, words).len(),
    ensures
        terms_of(query, term_cap, gram_cap, words).len() <= term_cap,
        exists|t: Seq<char>|
            t.len() >= 3 && terms_of(query, term_cap, gram_cap, words)[k] == #[trigger] escaped(t),
{
    let q = normal(query);
    let all = candidates(q, gram_cap, words);
    lemma_runs_long(runs_of(q), gram_cap, words);
    lemma_whole_long(query, words);
    lemma_long_concat(runs_candidates(runs_of(q), gram_cap, words), whole_candidates(q, words));
    lemma_distinct_long(all);
    let best = ranked(distinct(all));
    lemma_ranked_long(distinct(all));
    assert(best[k].1.len() >= 3);
    assert(terms_of(query, term_cap, gram_cap, words)[k] == escaped(best[k].1));
}

// ---------------------------------------------------------------------------------------------
// What a query is searched by
// ---------------------------------------------------------------------------------------------

/// Whether the characters from `a` to `b` are a longest stretch of characters of one sort.
pub open spec fn is_run(q: Seq<char>, a: int, b: int, sort: int) -> bool {
    &&& 0 <= a < b <= q.len()
    &&& forall|i: int| a <= i < b ==> char_sort(#[trigger] q[i]) == sort
    &&& a > 0 ==> char_sort(q[a - 1]) != sort
    &&& b < q.len() ==> char_sort(q[b]) != sort
}

/// Whether the characters from `a` to `b` are a longest stretch of Chinese characters.
pub open spec fn is_hanzi_run(q: Seq<char>, a: int, b: int) -> bool {
    &&& 0 <= a < b <= q.len()
    &&& forall|i: int| a <= i < b ==> hanzi(#[trigger] q[i])
    &&& a > 0 ==> !hanzi(q[a - 1])
    &&& b < q.len() ==> !hanzi(q[b])
}

/// Whether the characters from `a` to `b` are a longest stretch of ASCII letters and digits.
pub open spec fn is_latin_run(q: Seq<char>, a: int, b: int) -> bool {
    &&& 0 <= a < b <= q.len()
    &&& forall|i: int| a <= i < b ==> ascii_alnum(#[trigger] q[i])
    &&& a > 0 ==> !ascii_alnum(q[a - 1])
    &&& b < q.len() ==> !ascii_alnum(q[b])
}

proof fn lemma_run_sort(q: Seq<char>, k: int)
    requires
        0 <= k <= q.len(),
    ensures
        runs_in(q.take(k)).sort == (if k == 0 {
            0
        } else {
            char_sort(q[k - 1])
        }),
{
    if k > 0 {
        assert(q.take(k).last() == q[k - 1]);
    }
}

proof fn lemma_run_at_hand(q: Seq<char>, a: int, b: int, sort: int, k: int)
    requires
        is_run(q, a, b, sort),
        sort != 0,
        a < k <= b,
    ensures
        runs_in(q.take(k)).sort == sort,
        runs_in(q.take(k)).cur == lower_text(q.subrange(a, k)),
    decreases k,
{
    assert(q.take(k).drop_last() =~= q.take(k - 1));
    assert(q.take(k).last() == q[k - 1]);
    assert(char_sort(q[k - 1]) == sort);
    if k == a + 1 {
        lemma_run_sort(q, a);
        assert(lower_text(q.subrange(a, k)) =~= seq![ascii_lower(q[a])]);
    } else {
        lemma_run_at_hand(q, a, b, sort, k - 1);
        assert(lower_text(q.subrange(a, k)) =~= lower_text(q.subrange(a, k - 1)).push(
            ascii_lower(q[k - 1]),
        ));
    }
}

proof fn lemma_run_found(q: Seq<char>, a: int, b: int, sort: int, k: int)
    requires
        is_run(q, a, b, sort),
        sort != 0,
        b <= k <= q.len(),
    ensures
        all_runs(runs_in(q.take(k))).contains(lower_text(q.subrange(a, b))),
        k > b ==> runs_in(q.take(k)).done.contains(lower_text(q.subrange(a, b))),
    decreases k,
{
    let run = lower_text(q.subrange(a, b));
    let now = runs_in(q.take(k));
    lemma_run_at_hand(q, a, b, sort, b);
    if k == b {
        assert(all_runs(now).last() == run);
    } else {
        lemma_run_found(q, a, b, sort, k - 1);
        assert(q.take(k).drop_last() =~= q.take(k - 1));
        assert(q.take(k).last() == q[k - 1]);
        assert(now.done.contains(run));
        let m = choose|m: int| 0 <= m < now.done.len() && now.done[m] == run;
        assert(all_runs(now)[m] == run);
    }
}

proof fn lemma_candidate_of_run(rs: Seq<Seq<char>>, gram_cap: int, words: Seq<Seq<char>>, run: Seq<char>, t: Seq<char>)
    requires
        rs.contains(run),
        holds_term(run_candidates(run, gram_cap, words), t),
    ensures
        holds_term(runs_candidates(rs, gram_cap, words), t),
    decreases rs.len(),
{
    let before = runs_candidates(rs.drop_last(), gram_cap, words);
    let more = run_candidates(rs.last(), gram_cap, words);
    let k = choose|k: int| 0 <= k < rs.len() && rs[k] == run;
    if k < rs.len() - 1 {
        assert(rs.drop_last()[k] == run);
        lemma_candidate_of_run(rs.drop_last(), gram_cap, words, run, t);
    }
    lemma_holds_concat(before, more, t);
}

proof fn lemma_holds_concat(a: Seq<Weighted>, b: Seq<Weighted>, t: Seq<char>)
    ensures
        holds_term(a + b, t) <==> holds_term(a, t) || holds_term(b, t),
{
    let c = a + b;
    if holds_term(a, t) {
        let i = choose|i: int| 0 <= i < a.len() && (#[trigger] a[i]).1 == t;
        assert(c[i].1 == t);
    }
    if holds_term(b, t) {
        let i = choose|i: int| 0 <= i < b.len() && (#[trigger] b[i]).1 == t;
        assert(c[a.len() + i].1 == t);
    }
    if holds_term(c, t) {
        let i = choose|i: int| 0 <= i < c.len() && (#[trigger] c[i]).1 == t;
        if i < a.len() {
            assert(a[i].1 == t);
        } else {
            assert(b[i - a.len()].1 == t);
        }
    }
}

proof fn lemma_distinct_holds(v: Seq<Weighted>, t: Seq<char>)
    requires
        t.len() > 0,
    ensures
        holds_term(distinct(v), t) <==> holds_term(v, t),
    decreases v.len(),
{
    if v.len() > 0 {
        let head = v.drop_last();
        lemma_distinct_holds(head, t);
        let before = distinct(head);
        let now = distinct(v);
        if holds_term(head, t) {
            let i = choose|i: int| 0 <= i < head.len() && (#[trigger] head[i]).1 == t;
            assert(v[i].1 == t);
        }
        if holds_term(v, t) {
            let i = choose|i: int| 0 <= i < v.len() && (#[trigger] v[i]).1 == t;
            if i < head.len() {
                assert(head[i].1 == t);
            }
        }
        if holds_term(before, t) {
            let i = choose|i: int| 0 <= i < before.len() && (#[trigger] before[i]).1 == t;
            assert(now[i].1 == t);
        }
        if holds_term(now, t) {
            let i = choose|i: int| 0 <= i < now.len() && (#[trigger] now[i]).1 == t;
            if i < before.len() {
                assert(before[i].1 == t);
            } else {
                assert(v[v.len() - 1].1 == t);
            }
        }
        if v.last().1 == t {
            assert(v[v.len() - 1].1 == t);
            if !holds_term(before, t) {
                assert(now[before.len() as int].1 == t);
            }
        }
    }
}

proof fn lemma_with_ranked_holds(v: Seq<Weighted>, c: Weighted, x: Weighted)
    ensures
        with_ranked(v, c).contains(x) <==> v.contains(x) || x == c,
        with_ranked(v, c).len() == v.len() + 1,
    decreases v.len(),
{
    let r = with_ranked(v, c);
    if v.len() == 0 || !ranks_behind(v.last(), c) {
        if v.contains(x) {
            let i = choose|i: int| 0 <= i < v.len() && v[i] == x;
            assert(r[i] == x);
        }
        assert(r[v.len() as int] == c);
        if r.contains(x) {
            let i = choose|i: int| 0 <= i < r.len() && r[i] == x;
            if i < v.len() {
                assert(v[i] == x);
            }
        }
    } else {
        let head = v.drop_last();
        lemma_with_ranked_holds(head, c, x);
        let q = with_ranked(head, c);
        if q.contains(x) {
            let i = choose|i: int| 0 <= i < q.len() && q[i] == x;
            assert(r[i] == x);
        }
        assert(r[q.len() as int] == v.last());
        if v.contains(x) {
            let i = choose|i: int| 0 <= i < v.len() && v[i] == x;
            if i < head.len() {
                assert(head[i] == x);
            }
        }
        if head.contains(x) {
            let i = choose|i: int| 0 <= i < head.len() && head[i] == x;
            assert(v[i] == x);
        }
        assert(v[v.len() - 1] == v.last());
        if r.contains(x) {
            let i = choose|i: int| 0 <= i < r.len() && r[i] == x;
            if i < q.len() {
                assert(q[i] == x);
            }
        }
    }
}

proof fn lemma_ranked_holds(v: Seq<Weighted>, x: Weighted)
    ensures
        ranked(v).contains(x) <==> v.contains(x),
        ranked(v).len() == v.len(),
    decreases v.len(),
{
    if v.len() > 0 {
        let head = v.drop_last();
        lemma_ranked_holds(head, x);
        lemma_with_ranked_holds(ranked(head), v.last(), x);
        if v.contains(x) {
            let i = choose|i: int| 0 <= i < v.len() && v[i] == x;
            if i < head.len() {
                assert(head[i] == x);
            }
        }
        if head.contains(x) {
            let i = choose|i: int| 0 <= i < head.len() && head[i] == x;
            assert(v[i] == x);
        }
        assert(v[v.len() - 1] == v.last());
    }
}

proof fn lemma_candidate_is_term(
    query: Seq<char>,
    term_cap: int,
    gram_cap: int,
    words: Seq<Seq<char>>,
    t: Seq<char>,
)
    requires
        t.len() > 0,
        terms_of(query, term_cap, gram_cap, words).len() < term_cap,
        holds_term(candidates(normal(query), gram_cap, words), t),
    ensures
        terms_of(query, term_cap, gram_cap, words).contains(escaped(t)),
{
    let all = candidates(normal(query), gram_cap, words);
    let few = distinct(all);
    let best = ranked(few);
    lemma_distinct_holds(all, t);
    let i = choose|i: int| 0 <= i < few.len() && (#[trigger] few[i]).1 == t;
    lemma_ranked_holds(few, few[i]);
    assert(few.contains(few[i]));
    let k = choose|k: int| 0 <= k < best.len() && best[k] == few[i];
    assert(terms_of(query, term_cap, gram_cap, words)[k] == escaped(t));
}

proof fn lemma_run_is_searched(
    query: Seq<char>,
    term_cap: int,
    gram_cap: int,
    words: Seq<Seq<char>>,
    a: int,
    b: int,
    sort: int,
    t: Seq<char>,
)
    requires
        t.len() > 0,
        terms_of(query, term_cap, gram_cap, words).len() < term_cap,
        sort != 0,
        is_run(normal(query), a, b, sort),
        holds_term(
            run_candidates(lower_text(normal(query).subrange(a, b)), gram_cap, words),
            t,
        ),
    ensures
        terms_of(query, term_cap, gram_cap, words).contains(escaped(t)),
{
    let q = normal(query);
    let run = lower_text(q.subrange(a, b));
    lemma_run_found(q, a, b, sort, q.len() as int);
    assert(q.take(q.len() as int) =~= q);
    lemma_candidate_of_run(runs_of(q), gram_cap, words, run, t);
    lemma_holds_concat(
        runs_candidates(runs_of(q), gram_cap, words),
        whole_candidates(q, words),
        t,
    );
    lemma_candidate_is_term(query, term_cap, gram_cap, words, t);
}

proof fn lemma_hanzi_as_run(q: Seq<char>, a: int, b: int)
    requires
        is_hanzi_run(q, a, b),
    ensures
        is_run(q, a, b, 1),
        lower_text(q.subrange(a, b)) == q.subrange(a, b),
        !all_alnum(q.subrange(a, b)),
{
    let run = q.subrange(a, b);
    assert forall|i: int| a <= i < b implies char_sort(#[trigger] q[i]) == 1 by {
        assert(hanzi(q[i]));
    }
    assert forall|i: int| 0 <= i < run.len() implies #[trigger] lower_text(run)[i] == run[i] by {
        assert(hanzi(q[a + i]));
    }
    assert(lower_text(run) =~= run);
    assert(hanzi(q[a]));
    assert(run[0] == q[a]);
    assert(!ascii_alnum(run[0]));
}

proof fn lemma_grams_hold(run: Seq<char>, w: int, n: int, words: Seq<Seq<char>>, i: int)
    requires
        0 <= i < n,
        !words.contains(seq![run[i]]),
        !words.contains(seq![run[i + w - 1]]),
    ensures
        grams_upto(run, w, n, words).contains(run.subrange(i, i + w)),
        grams_upto(run, w, n, words).len() <= n,
    decreases n,
{
    let before = grams_upto(run, w, n - 1, words);
    let now = grams_upto(run, w, n, words);
    lemma_grams_count(run, w, n, words);
    if i == n - 1 {
        assert(now.last() == run.subrange(i, i + w));
    } else {
        lemma_grams_hold(run, w, n - 1, words, i);
        let k = choose|k: int| 0 <= k < before.len() && before[k] == run.subrange(i, i + w);
        assert(now[k] == before[k]);
    }
}

proof fn lemma_grams_count(run: Seq<char>, w: int, n: int, words: Seq<Seq<char>>)
    requires
        0 <= n,
    ensures
        grams_upto(run, w, n, words).len() <= n,
    decreases n,
{
    if n > 0 {
        lemma_grams_count(run, w, n - 1, words);
    }
}

proof fn lemma_spelling_held(vs: Seq<Seq<char>>, weight: int, v: Seq<char>)
    requires
        vs.contains(v),
        solid_len(v) >= 3,
    ensures
        holds_term(weighted_spellings(vs, weight), v),
    decreases vs.len(),
{
    let head = vs.drop_last();
    let before = weighted_spellings(head, weight);
    let now = weighted_spellings(vs, weight);
    let k = choose|k: int| 0 <= k < vs.len() && vs[k] == v;
    if k < head.len() {
        assert(head[k] == v);
        lemma_spelling_held(head, weight, v);
        let i = choose|i: int| 0 <= i < before.len() && (#[trigger] before[i]).1 == v;
        assert(now[i].1 == v);
    } else {
        assert(now[before.len() as int].1 == v);
    }
}

proof fn lemma_gram_held(gs: Seq<Seq<char>>, words: Seq<Seq<char>>, g: Seq<char>, t: Seq<char>)
    requires
        gs.contains(g),
        !words.contains(g),
        t == g || (variants_of(g).contains(t) && solid_len(t) >= 3),
    ensures
        holds_term(gram_candidates(gs, words), t),
    decreases gs.len(),
{
    let head = gs.drop_last();
    let before = gram_candidates(head, words);
    let k = choose|k: int| 0 <= k < gs.len() && gs[k] == g;
    if k < head.len() {
        assert(head[k] == g);
        lemma_gram_held(head, words, g, t);
        let i = choose|i: int| 0 <= i < before.len() && (#[trigger] before[i]).1 == t;
        let now = gram_candidates(gs, words);
        assert(now[i].1 == t);
    } else {
        let one = before.push((50 + g.len() as int, g));
        let more = weighted_spellings(variants_of(g), 40);
        if t == g {
            assert(one[before.len() as int].1 == t);
            assert(holds_term(one, t));
        } else {
            lemma_spelling_held(variants_of(g), 40, t);
        }
        lemma_holds_concat(one, more, t);
    }
}

/// A long stretch of Chinese in a query is searched by its parts: every three and every four
/// neighbouring characters of a run of more than six, in characters and by each spelling of three
/// letters at least, unless they begin or end with a stop word or are one. The caps are not
/// reached where the run has few enough parts and there are fewer terms than allowed.
pub proof fn long_runs_are_searched_by_their_parts(
    query: Seq<char>,
    term_cap: int,
    gram_cap: int,
    words: Seq<Seq<char>>,
    a: int,
    b: int,
    i: int,
    w: int,
)
    requires
        terms_of(query, term_cap, gram_cap, words).len() < term_cap,
        is_hanzi_run(normal(query), a, b),
        b - a > 6,
        2 * (b - a) - 5 <= gram_cap,
        w == 3 || w == 4,
        a <= i,
        i + w <= b,
        !words.contains(seq![normal(query)[i]]),
        !words.contains(seq![normal(query)[i + w - 1]]),
        !words.contains(normal(query).subrange(i, i + w)),
    ensures
        terms_of(query, term_cap, gram_cap, words).contains(
            escaped(normal(query).subrange(i, i + w)),
        ),
        forall|v: Seq<char>| #[trigger]
            variants_of(normal(query).subrange(i, i + w)).contains(v) && solid_len(v) >= 3
                ==> terms_of(query, term_cap, gram_cap, words).contains(escaped(v)),
{
    let q = normal(query);
    let run = q.subrange(a, b);
    let g = q.subrange(i, i + w);
    let four = grams(run, 4, words);
    let three = grams(run, 3, words);
    let gs = four + three;
    lemma_hanzi_as_run(q, a, b);
    lemma_grams_count(run, 4, run.len() - 4 + 1, words);
    lemma_grams_count(run, 3, run.len() - 3 + 1, words);
    assert(at_most(gs, gram_cap) == gs);
    lemma_grams_hold(run, w, run.len() - w + 1, words, i - a);
    assert(run.subrange(i - a, i - a + w) =~= g);
    if w == 4 {
        let k = choose|k: int| 0 <= k < four.len() && four[k] == g;
        assert(gs[k] == g);
    } else {
        let k = choose|k: int| 0 <= k < three.len() && three[k] == g;
        assert(gs[four.len() + k] == g);
    }
    lemma_gram_held(gs, words, g, g);
    lemma_run_is_searched(query, term_cap, gram_cap, words, a, b, 1, g);
    assert forall|v: Seq<char>| #[trigger] variants_of(g).contains(v) && solid_len(v) >= 3 implies terms_of(
        query,
        term_cap,
        gram_cap,
        words,
    ).contains(escaped(v)) by {
        lemma_solid_len(v);
        lemma_gram_held(gs, words, g, v);
        lemma_run_is_searched(query, term_cap, gram_cap, words, a, b, 1, v);
    }
}

/// A short stretch of Chinese in a query is searched as it is: a run of three to six characters
/// that is no stop word, and one of two to six by each spelling of three letters at least, as long
/// as there are fewer terms than allowed.
pub proof fn short_runs_are_searched_whole(
    query: Seq<char>,
    term_cap: int,
    gram_cap: int,
    words: Seq<Seq<char>>,
    a: int,
    b: int,
)
    requires
        terms_of(query, term_cap, gram_cap, words).len() < term_cap,
        is_hanzi_run(normal(query), a, b),
        2 <= b - a <= 6,
    ensures
        b - a >= 3 && !words.contains(normal(query).subrange(a, b)) ==> terms_of(
            query,
            term_cap,
            gram_cap,
            words,
        ).contains(escaped(normal(query).subrange(a, b))),
        forall|v: Seq<char>| #[trigger]
            variants_of(normal(query).subrange(a, b)).contains(v) && solid_len(v) >= 3 ==> terms_of(
                query,
                term_cap,
                gram_cap,
                words,
            ).contains(escaped(v)),
{
    let q = normal(query);
    let run = q.subrange(a, b);
    lemma_hanzi_as_run(q, a, b);
    let one = if run.len() >= 3 && !words.contains(run) {
        seq![(100 + run.len() as int, run)]
    } else {
        Seq::<Weighted>::empty()
    };
    let more = weighted_spellings(variants_of(run), 70);
    if run.len() >= 3 && !words.contains(run) {
        assert(one[0].1 == run);
        lemma_holds_concat(one, more, run);
        lemma_run_is_searched(query, term_cap, gram_cap, words, a, b, 1, run);
    }
    assert forall|v: Seq<char>| #[trigger] variants_of(run).contains(v) && solid_len(v) >= 3 implies terms_of(
        query,
        term_cap,
        gram_cap,
        words,
    ).contains(escaped(v)) by {
        lemma_solid_len(v);
        lemma_spelling_held(variants_of(run), 70, v);
        lemma_holds_concat(one, more, v);
        lemma_run_is_searched(query, term_cap, gram_cap, words, a, b, 1, v);
    }
}

/// Latin words of three letters or digits at least are searched as they are, in lower case, as long
/// as there are fewer terms than allowed.
pub proof fn latin_words_are_searched(
    query: Seq<char>,
    term_cap: int,
    gram_cap: int,
    words: Seq<Seq<char>>,
    a: int,
    b: int,
)
    requires
        terms_of(query, term_cap, gram_cap, words).len() < term_cap,
        is_latin_run(normal(query), a, b),
        b - a >= 3,
    ensures
        terms_of(query, term_cap, gram_cap, words).contains(
            escaped(lower_text(normal(query).subrange(a, b))),
        ),
{
    let q = normal(query);
    let run = lower_text(q.subrange(a, b));
    assert forall|i: int| a <= i < b implies char_sort(#[trigger] q[i]) == 2 by {
        assert(ascii_alnum(q[i]));
    }
    assert forall|i: int| 0 <= i < run.len() implies ascii_alnum(#[trigger] run[i]) by {
        assert(ascii_alnum(q[a + i]));
    }
    assert(run_candidates(run, gram_cap, words)[0].1 == run);
    lemma_run_is_searched(query, term_cap, gram_cap, words, a, b, 2, run);
}

proof fn lemma_no_hanzi(s: Seq<char>)
    requires
        forall|i: int| 0 <= i < s.len() ==> !hanzi(#[trigger] s[i]),
    ensures
        hanzi_of(s).len() == 0,
    decreases s.len(),
{
    if s.len() > 0 {
        let head = s.drop_last();
        assert forall|i: int| 0 <= i < head.len() implies !hanzi(#[trigger] head[i]) by {
            assert(head[i] == s[i]);
        }
        lemma_no_hanzi(head);
        assert(!hanzi(s[s.len() - 1]));
    }
}

proof fn lemma_compacted(s: Seq<char>)
    ensures
        compacted(s) == s.filter(|c: char| ascii_alnum(c)),
    decreases s.len(),
{
    reveal(Seq::filter);
    if s.len() > 0 {
        lemma_compacted(s.drop_last());
    }
}

/// The whole query is searched too, as long as there are fewer terms than allowed. Without Chinese
/// characters, its letters and digits in one word, from three on, and the query itself where it has
/// a blank. With one to six Chinese characters, the query itself, from three characters on, unless
/// it is a stop word.
pub proof fn whole_queries_are_searched(
    query: Seq<char>,
    term_cap: int,
    gram_cap: int,
    words: Seq<Seq<char>>,
)
    requires
        terms_of(query, term_cap, gram_cap, words).len() < term_cap,
    ensures
        ({
            let q = normal(query);
            let word = q.filter(|c: char| ascii_alnum(c));
            let terms = terms_of(query, term_cap, gram_cap, words);
            &&& (forall|i: int| 0 <= i < q.len() ==> !hanzi(#[trigger] q[i])) ==> {
                &&& word.len() >= 3 ==> terms.contains(escaped(word))
                &&& q.contains(' ') ==> terms.contains(escaped(q))
            }
            &&& 1 <= hanzi_of(q).len() <= 6 && q.len() >= 3 && !words.contains(q)
                ==> terms.contains(escaped(q))
        }),
{
    let q = normal(query);
    let word = q.filter(|c: char| ascii_alnum(c));
    let runs = runs_candidates(runs_of(q), gram_cap, words);
    let whole = whole_candidates(q, words);
    lemma_compacted(q);
    if forall|i: int| 0 <= i < q.len() ==> !hanzi(#[trigger] q[i]) {
        lemma_no_hanzi(q);
        let a = if compacted(q).len() >= 3 {
            seq![(95int, compacted(q))]
        } else {
            Seq::<Weighted>::empty()
        };
        let b = if has_char(q, ' ') {
            seq![(90int, q)]
        } else {
            Seq::<Weighted>::empty()
        };
        if word.len() >= 3 {
            assert(a[0].1 == word);
            lemma_holds_concat(a, b, word);
            lemma_holds_concat(runs, whole, word);
            lemma_candidate_is_term(query, term_cap, gram_cap, words, word);
        }
        if q.contains(' ') {
            let i = choose|i: int| 0 <= i < q.len() && q[i] == ' ';
            assert(has_char(q, ' '));
            assert(b[0].1 == q);
            lemma_holds_concat(a, b, q);
            lemma_holds_concat(runs, whole, q);
            lemma_candidate_is_term(query, term_cap, gram_cap, words, q);
        }
    }
    if 1 <= hanzi_of(q).len() <= 6 && q.len() >= 3 && !words.contains(q) {
        let a = seq![(90int, q)];
        let b = weighted_spellings(variants_of(q), 60);
        assert(a[0].1 == q);
        lemma_holds_concat(a, b, q);
        lemma_holds_concat(runs, whole, q);
        lemma_candidate_is_term(query, term_cap, gram_cap, words, q);
    }
}

/// Whether a text is a stretch of a query in lower case, its letters and digits in one word, the
/// query itself, or a spelling of a stretch of it.
pub open spec fn comes_from(q: Seq<char>, t: Seq<char>) -> bool {
    ||| exists|a: int, b: int|
        0 <= a <= b <= q.len() && #[trigger] stretch_gives(lower_text(q.subrange(a, b)), t)
    ||| t == q.filter(|c: char| ascii_alnum(c))
    ||| stretch_gives(q, t)
}

/// Whether a text is a stretch, a stretch of that, or a spelling of one of these.
pub open spec fn stretch_gives(run: Seq<char>, t: Seq<char>) -> bool {
    ||| t == run
    ||| variants_of(run).contains(t)
    ||| exists|i: int, w: int|
        0 <= i <= i + w <= run.len() && (t == #[trigger] run.subrange(i, i + w) || variants_of(
            run.subrange(i, i + w),
        ).contains(t))
}

proof fn lemma_runs_come_from(q: Seq<char>, k: int)
    requires
        0 <= k <= q.len(),
    ensures
        ({
            let r = runs_in(q.take(k));
            &&& r.cur.len() <= k
            &&& r.cur == lower_text(q.subrange(k - r.cur.len(), k))
            &&& forall|m: int|
                0 <= m < r.done.len() ==> exists|a: int, b: int|
                    0 <= a <= b <= q.len() && #[trigger] r.done[m] == #[trigger] lower_text(
                        q.subrange(a, b),
                    )
        }),
    decreases k,
{
    let r = runs_in(q.take(k));
    if k == 0 {
        assert(lower_text(q.subrange(0, 0)) =~= Seq::<char>::empty());
        assert(r.cur =~= Seq::<char>::empty());
    } else {
        lemma_runs_come_from(q, k - 1);
        let p = runs_in(q.take(k - 1));
        let c = q[k - 1];
        assert(q.take(k).drop_last() =~= q.take(k - 1));
        assert(q.take(k).last() == c);
        let n = p.cur.len() as int;
        assert(lower_text(q.subrange(k - 1, k)) =~= seq![ascii_lower(c)]);
        assert(lower_text(q.subrange(k, k)) =~= Seq::<char>::empty());
        assert(lower_text(q.subrange(k - 1 - n, k)) =~= lower_text(
            q.subrange(k - 1 - n, k - 1),
        ).push(ascii_lower(c)));
        assert forall|m: int| 0 <= m < r.done.len() implies exists|a: int, b: int|
            0 <= a <= b <= q.len() && #[trigger] r.done[m] == #[trigger] lower_text(
                q.subrange(a, b),
            ) by {
            if m < p.done.len() {
                assert(r.done[m] == p.done[m]);
            } else {
                assert(r.done[m] == lower_text(q.subrange(k - 1 - n, k - 1)));
            }
        }
    }
}

proof fn lemma_spelling_of(vs: Seq<Seq<char>>, weight: int, t: Seq<char>)
    requires
        holds_term(weighted_spellings(vs, weight), t),
    ensures
        vs.contains(t),
    decreases vs.len(),
{
    if vs.len() > 0 {
        let head = vs.drop_last();
        let before = weighted_spellings(head, weight);
        let now = weighted_spellings(vs, weight);
        let i = choose|i: int| 0 <= i < now.len() && (#[trigger] now[i]).1 == t;
        if i < before.len() {
            assert(before[i].1 == t);
            lemma_spelling_of(head, weight, t);
            let k = choose|k: int| 0 <= k < head.len() && head[k] == t;
            assert(vs[k] == t);
        } else {
            assert(vs[vs.len() - 1] == t);
        }
    }
}

proof fn lemma_gram_of(run: Seq<char>, w: int, n: int, words: Seq<Seq<char>>, k: int)
    requires
        0 <= k < grams_upto(run, w, n, words).len(),
    ensures
        exists|i: int|
            0 <= i < n && #[trigger] run.subrange(i, i + w) == grams_upto(run, w, n, words)[k],
    decreases n,
{
    let before = grams_upto(run, w, n - 1, words);
    let now = grams_upto(run, w, n, words);
    if k < before.len() {
        assert(now[k] == before[k]);
        lemma_gram_of(run, w, n - 1, words, k);
    } else {
        assert(run.subrange(n - 1, n - 1 + w) == now[k]);
    }
}

proof fn lemma_gram_candidate_of(gs: Seq<Seq<char>>, words: Seq<Seq<char>>, t: Seq<char>)
    requires
        holds_term(gram_candidates(gs, words), t),
    ensures
        exists|k: int|
            0 <= k < gs.len() && (t == #[trigger] gs[k] || variants_of(gs[k]).contains(t)),
    decreases gs.len(),
{
    if gs.len() > 0 {
        let head = gs.drop_last();
        let before = gram_candidates(head, words);
        let g = gs.last();
        assert(gs[gs.len() - 1] == g);
        if holds_term(before, t) {
            lemma_gram_candidate_of(head, words, t);
            let k = choose|k: int|
                0 <= k < head.len() && (t == #[trigger] head[k] || variants_of(head[k]).contains(t));
            assert(gs[k] == head[k]);
        } else if !words.contains(g) {
            let one = before.push((50 + g.len() as int, g));
            let more = weighted_spellings(variants_of(g), 40);
            lemma_holds_concat(one, more, t);
            if holds_term(one, t) {
                let i = choose|i: int| 0 <= i < one.len() && (#[trigger] one[i]).1 == t;
                if i < before.len() {
                    assert(before[i].1 == t);
                }
            } else {
                lemma_spelling_of(variants_of(g), 40, t);
            }
        }
    }
}

proof fn lemma_run_candidate_of(run: Seq<char>, gram_cap: int, words: Seq<Seq<char>>, t: Seq<char>)
    requires
        0 <= gram_cap,
        holds_term(run_candidates(run, gram_cap, words), t),
    ensures
        stretch_gives(run, t),
{
    let all = run_candidates(run, gram_cap, words);
    if all_alnum(run) {
        let i = choose|i: int| 0 <= i < all.len() && (#[trigger] all[i]).1 == t;
    } else if run.len() <= 6 {
        let a = if run.len() >= 3 && !words.contains(run) {
            seq![(100 + run.len() as int, run)]
        } else {
            Seq::<Weighted>::empty()
        };
        let b = if run.len() >= 2 {
            weighted_spellings(variants_of(run), 70)
        } else {
            Seq::<Weighted>::empty()
        };
        lemma_holds_concat(a, b, t);
        if holds_term(b, t) {
            lemma_spelling_of(variants_of(run), 70, t);
        } else {
            let i = choose|i: int| 0 <= i < a.len() && (#[trigger] a[i]).1 == t;
        }
    } else {
        let four = grams(run, 4, words);
        let three = grams(run, 3, words);
        let gs = at_most(four + three, gram_cap);
        lemma_gram_candidate_of(gs, words, t);
        let k = choose|k: int|
            0 <= k < gs.len() && (t == #[trigger] gs[k] || variants_of(gs[k]).contains(t));
        assert(gs[k] == (four + three)[k]);
        if k < four.len() {
            lemma_gram_of(run, 4, run.len() - 4 + 1, words, k);
            let i = choose|i: int|
                0 <= i < run.len() - 4 + 1 && #[trigger] run.subrange(i, i + 4) == four[k];
            let w = 4int;
            assert(run.subrange(i, i + w) == gs[k]);
        } else {
            lemma_gram_of(run, 3, run.len() - 3 + 1, words, k - four.len());
            let i = choose|i: int|
                0 <= i < run.len() - 3 + 1 && #[trigger] run.subrange(i, i + 3) == three[k
                    - four.len()];
            let w = 3int;
            assert(run.subrange(i, i + w) == gs[k]);
        }
    }
}

proof fn lemma_runs_candidate_of(
    rs: Seq<Seq<char>>,
    gram_cap: int,
    words: Seq<Seq<char>>,
    t: Seq<char>,
)
    requires
        0 <= gram_cap,
        holds_term(runs_candidates(rs, gram_cap, words), t),
    ensures
        exists|k: int| 0 <= k < rs.len() && stretch_gives(#[trigger] rs[k], t),
    decreases rs.len(),
{
    if rs.len() > 0 {
        let head = rs.drop_last();
        let before = runs_candidates(head, gram_cap, words);
        let more = run_candidates(rs.last(), gram_cap, words);
        lemma_holds_concat(before, more, t);
        if holds_term(before, t) {
            lemma_runs_candidate_of(head, gram_cap, words, t);
            let k = choose|k: int| 0 <= k < head.len() && stretch_gives(#[trigger] head[k], t);
            assert(rs[k] == head[k]);
        } else {
            lemma_run_candidate_of(rs.last(), gram_cap, words, t);
            assert(stretch_gives(rs[rs.len() - 1], t));
        }
    }
}

/// Nothing is searched that the query does not say: every term stands for a stretch of it, for a
/// spelling of one, or for the query as a whole.
pub proof fn terms_come_from_the_query(
    query: Seq<char>,
    term_cap: int,
    gram_cap: int,
    words: Seq<Seq<char>>,
    k: int,
)
    requires
        0 <= term_cap,
        0 <= gram_cap,
        0 <= k < terms_of(query, term_cap, gram_cap, words).len(),
    ensures
        exists|t: Seq<char>|
            comes_from(normal(query), t) && terms_of(query, term_cap, gram_cap, words)[k]
                == #[trigger] escaped(t),
{
    let q = normal(query);
    let all = candidates(q, gram_cap, words);
    let few = distinct(all);
    let best = ranked(few);
    let t = best[k].1;
    terms_are_long(query, term_cap, gram_cap, words, k);
    lemma_ranked_holds(few, best[k]);
    assert(best.contains(best[k]));
    let i = choose|i: int| 0 <= i < few.len() && few[i] == best[k];
    assert(few[i].1 == t);
    lemma_distinct_long_again(query, gram_cap, words);
    lemma_distinct_holds(all, t);
    let runs = runs_candidates(runs_of(q), gram_cap, words);
    let whole = whole_candidates(q, words);
    lemma_holds_concat(runs, whole, t);
    lemma_compacted(q);
    if holds_term(runs, t) {
        lemma_runs_candidate_of(runs_of(q), gram_cap, words, t);
        let m = choose|m: int| 0 <= m < runs_of(q).len() && stretch_gives(#[trigger] runs_of(q)[m], t);
        lemma_runs_come_from(q, q.len() as int);
        assert(q.take(q.len() as int) =~= q);
        let r = runs_in(q);
        if m < r.done.len() {
            assert(runs_of(q)[m] == r.done[m]);
            let (a, b) = choose|a: int, b: int|
                0 <= a <= b <= q.len() && r.done[m] == #[trigger] lower_text(q.subrange(a, b));
            assert(stretch_gives(lower_text(q.subrange(a, b)), t));
        } else {
            let a = q.len() - r.cur.len();
            assert(stretch_gives(lower_text(q.subrange(a, q.len() as int)), t));
        }
    } else {
        let n = hanzi_of(q).len();
        if n == 0 {
            let a = if compacted(q).len() >= 3 {
                seq![(95int, compacted(q))]
            } else {
                Seq::<Weighted>::empty()
            };
            let b = if has_char(q, ' ') {
                seq![(90int, q)]
            } else {
                Seq::<Weighted>::empty()
            };
            lemma_holds_concat(a, b, t);
        } else {
            let a = if !words.contains(q) {
                seq![(90int, q)]
            } else {
                Seq::<Weighted>::empty()
            };
            let b = weighted_spellings(variants_of(q), 60);
            lemma_holds_concat(a, b, t);
            if holds_term(b, t) {
                lemma_spelling_of(variants_of(q), 60, t);
            }
        }
    }
    assert(comes_from(q, t));
    assert(terms_of(query, term_cap, gram_cap, words)[k] == escaped(t));
}

proof fn lemma_distinct_long_again(query: Seq<char>, gram_cap: int, words: Seq<Seq<char>>)
    requires
        0 <= gram_cap,
    ensures
        all_long(distinct(candidates(normal(query), gram_cap, words))),
{
    let q = normal(query);
    lemma_runs_long(runs_of(q), gram_cap, words);
    lemma_whole_long(query, words);
    lemma_long_concat(runs_candidates(runs_of(q), gram_cap, words), whole_candidates(q, words));
    lemma_distinct_long(candidates(q, gram_cap, words));
}

/// Whether no candidate of a list stands behind one that it outranks.
pub open spec fn well_ranked(v: Seq<Weighted>) -> bool {
    forall|i: int, j: int|
        #![trigger v[i], v[j]]
        0 <= i < j < v.len() ==> v[i].0 > v[j].0 || (v[i].0 == v[j].0 && byte_len(v[i].1)
            <= byte_len(v[j].1))
}

proof fn lemma_with_ranked(v: Seq<Weighted>, c: Weighted)
    requires
        well_ranked(v),
    ensures
        well_ranked(with_ranked(v, c)),
    decreases v.len(),
{
    let r = with_ranked(v, c);
    if v.len() == 0 || !ranks_behind(v.last(), c) {
        assert forall|i: int, j: int| #![trigger r[i], r[j]] 0 <= i < j < r.len() implies r[i].0 > r[j].0
            || (r[i].0 == r[j].0 && byte_len(r[i].1) <= byte_len(r[j].1)) by {
            assert(r[i] == v[i]);
            if j < v.len() {
                assert(r[j] == v[j]);
            } else if i < v.len() - 1 {
                assert(v[v.len() - 1] == v.last());
            }
        }
    } else {
        let head = v.drop_last();
        assert forall|i: int, j: int|
            #![trigger head[i], head[j]]
            0 <= i < j < head.len() implies head[i].0 > head[j].0 || (head[i].0 == head[j].0
            && byte_len(head[i].1) <= byte_len(head[j].1)) by {
            assert(head[i] == v[i] && head[j] == v[j]);
        }
        lemma_with_ranked(head, c);
        let q = with_ranked(head, c);
        assert forall|i: int, j: int| #![trigger r[i], r[j]] 0 <= i < j < r.len() implies r[i].0 > r[j].0
            || (r[i].0 == r[j].0 && byte_len(r[i].1) <= byte_len(r[j].1)) by {
            assert(r[i] == q[i]);
            if j < q.len() {
                assert(r[j] == q[j]);
            } else {
                lemma_with_ranked_holds(head, c, q[i]);
                assert(q.contains(q[i]));
                if head.contains(q[i]) {
                    let m = choose|m: int| 0 <= m < head.len() && head[m] == q[i];
                    assert(v[m] == q[i] && v[v.len() - 1] == v.last());
                }
            }
        }
    }
}

proof fn lemma_ranked(v: Seq<Weighted>)
    ensures
        well_ranked(ranked(v)),
    decreases v.len(),
{
    if v.len() > 0 {
        lemma_ranked(v.drop_last());
        lemma_with_ranked(ranked(v.drop_last()), v.last());
    }
}

proof fn lemma_light_spellings(vs: Seq<Seq<char>>, weight: int)
    ensures
        forall|i: int|
            0 <= i < weighted_spellings(vs, weight).len() ==> (#[trigger] weighted_spellings(
                vs,
                weight,
            )[i]).0 == weight,
    decreases vs.len(),
{
    if vs.len() > 0 {
        lemma_light_spellings(vs.drop_last(), weight);
        let before = weighted_spellings(vs.drop_last(), weight);
        let now = weighted_spellings(vs, weight);
        assert forall|i: int| 0 <= i < now.len() implies (#[trigger] now[i]).0 == weight by {
            if i < before.len() {
                assert(now[i] == before[i]);
            }
        }
    }
}

proof fn lemma_distinct_from(v: Seq<Weighted>)
    ensures
        forall|i: int|
            0 <= i < distinct(v).len() ==> v.contains(#[trigger] distinct(v)[i]),
        v.len() > 0 && v[0].1.len() > 0 ==> distinct(v).len() > 0 && distinct(v)[0] == v[0],
    decreases v.len(),
{
    if v.len() > 0 {
        let head = v.drop_last();
        lemma_distinct_from(head);
        let before = distinct(head);
        let now = distinct(v);
        assert forall|i: int| 0 <= i < now.len() implies v.contains(#[trigger] now[i]) by {
            if i < before.len() {
                assert(now[i] == before[i]);
                let k = choose|k: int| 0 <= k < head.len() && head[k] == before[i];
                assert(v[k] == before[i]);
            } else {
                assert(v[v.len() - 1] == now[i]);
            }
        }
        if head.len() > 0 {
            assert(head[0] == v[0]);
        } else {
            assert(before =~= Seq::<Weighted>::empty());
        }
    }
}

/// A name of three to six Chinese characters that is no stop word is searched before anything else.
pub proof fn a_name_is_searched_first(
    query: Seq<char>,
    term_cap: int,
    gram_cap: int,
    words: Seq<Seq<char>>,
)
    requires
        term_cap >= 1,
        gram_cap >= 0,
        3 <= normal(query).len() <= 6,
        forall|i: int| 0 <= i < normal(query).len() ==> hanzi(#[trigger] normal(query)[i]),
        !words.contains(normal(query)),
    ensures
        terms_of(query, term_cap, gram_cap, words).len() > 0,
        terms_of(query, term_cap, gram_cap, words)[0] == escaped(normal(query)),
{
    let q = normal(query);
    let n = q.len() as int;
    assert(is_hanzi_run(q, 0, n));
    lemma_hanzi_as_run(q, 0, n);
    assert(q.subrange(0, n) =~= q);
    lemma_run_at_hand(q, 0, n, 1, n);
    assert(q.take(n) =~= q);
    lemma_only_run(q, n);
    let rs = runs_of(q);
    assert(rs =~= seq![q]);
    assert(rs.drop_last() =~= Seq::<Seq<char>>::empty());
    let runs = runs_candidates(rs, gram_cap, words);
    let one = seq![(100 + n, q)];
    let more = weighted_spellings(variants_of(q), 70);
    assert(rs.last() == q);
    assert(runs_candidates(rs.drop_last(), gram_cap, words) =~= Seq::<Weighted>::empty());
    assert(run_candidates(q, gram_cap, words) == one + more);
    assert(runs =~= one + more);
    let whole = whole_candidates(q, words);
    let all = candidates(q, gram_cap, words);
    let few = distinct(all);
    let best = ranked(few);
    assert(all[0] == (100 + n, q));
    lemma_distinct_from(all);
    lemma_light_spellings(variants_of(q), 70);
    lemma_light_spellings(variants_of(q), 60);
    lemma_ranked(few);
    lemma_ranked_holds(few, few[0]);
    assert(few.contains(few[0]));
    let k = choose|k: int| 0 <= k < best.len() && best[k] == few[0];
    lemma_ranked_holds(few, best[0]);
    assert(best.contains(best[0]));
    assert(few.contains(best[0]));
    let i = choose|i: int| 0 <= i < few.len() && few[i] == best[0];
    assert(all.contains(few[i]));
    let m = choose|m: int| 0 <= m < all.len() && all[m] == best[0];
    if k > 0 {
        assert(best[0].0 >= best[k].0);
    }
    assert(best[0].0 >= 100 + n);
    assert(m == 0) by {
        if m > 0 {
            assert(all[m].0 <= 95) by {
                if m < runs.len() {
                    assert(all[m] == more[m - 1]);
                } else {
                    assert(all[m] == whole[m - runs.len()]);
                    lemma_whole_weights(q, words, m - runs.len());
                }
            }
        }
    }
}

proof fn lemma_whole_weights(q: Seq<char>, words: Seq<Seq<char>>, i: int)
    requires
        0 <= i < whole_candidates(q, words).len(),
    ensures
        whole_candidates(q, words)[i].0 <= 95,
{
    lemma_light_spellings(variants_of(q), 60);
    let n = hanzi_of(q).len();
    let whole = whole_candidates(q, words);
    if n > 0 {
        let a = if !words.contains(q) {
            seq![(90int, q)]
        } else {
            Seq::<Weighted>::empty()
        };
        let b = weighted_spellings(variants_of(q), 60);
        if i < a.len() {
            assert(whole[i] == a[i]);
        } else {
            assert(whole[i] == b[i - a.len()]);
        }
    }
}

proof fn lemma_only_run(q: Seq<char>, k: int)
    requires
        0 <= k <= q.len(),
        forall|i: int| 0 <= i < q.len() ==> hanzi(#[trigger] q[i]),
    ensures
        runs_in(q.take(k)).done.len() == 0,
        k > 0 ==> runs_in(q.take(k)).sort == 1,
    decreases k,
{
    if k > 0 {
        lemma_only_run(q, k - 1);
        assert(q.take(k).drop_last() =~= q.take(k - 1));
        assert(q.take(k).last() == q[k - 1]);
        assert(hanzi(q[k - 1]));
        if k == 1 {
            assert(q.take(0) =~= Seq::<char>::empty());
        }
    }
}

} // verus!
