//! The rules of a search: which terms are looked for, in which order the index is asked, and how
//! what was found is ranked.
//!
//! The caller asks the index and measures the time; scores are numbers of its own, of which only
//! the order counts here.
use crate::normalize::{hanzi, hanzi_of, hanzi_chars, is_hanzi, normal, normalize_chars};
use crate::order::{comes_before, keys_of, slot, sorted_by_key, sorted_texts, text_less, with_item};
use crate::scan::{
    contains, count_text, has_text, join, joined, occurrences, replace, replaced,
    single_characters_are_replaced,
};
use crate::terms::{
    escape_fts_term, escaped, extract_terms, extract_terms_relaxed, terms_of, unescape_fts_term,
    unescaped,
};
use crate::text::{
    extend, extend_str, prefix, rows, same, same_str, take_prefix, texts, to_chars, to_text,
    to_texts,
};
use crate::types::{Chunk, ChunkView};
use vstd::prelude::*;

verus! {

/// The greatest number of characters of a query.
pub const QUERY_CHAR_CAP: usize = 2000;

/// After how many milliseconds a search stops.
pub const HARD_TIMEOUT_MS: u128 = 4500;

/// How many milliseconds the encoding of a query may take.
pub const SEMANTIC_BUDGET_MS: u128 = 800;

/// How many entries the comparison of vectors puts forward.
pub const SEMANTIC_TOP_K: usize = 50;

/// What is searched for.
#[derive(Debug, Clone, Copy)]
pub struct SearchQuery<'a> {
    /// What the user typed.
    pub text: &'a str,
    /// Whether there is an encoder, so that vectors can be compared.
    pub embed: bool,
}

// ---------------------------------------------------------------------------------------------
// Terms
// ---------------------------------------------------------------------------------------------

/// The values of pairs of a term and what it stands for.
pub open spec fn pair_views(v: Seq<(String, String)>) -> Seq<(Seq<char>, Seq<char>)> {
    Seq::new(v.len(), |i: int| (v[i].0@, v[i].1@))
}

/// What a term stands for: the last pair with that term counts.
pub open spec fn synonym_of(syn: Seq<(Seq<char>, Seq<char>)>, t: Seq<char>) -> Option<Seq<char>>
    decreases syn.len(),
{
    if syn.len() == 0 {
        None
    } else if syn.last().0 == t {
        Some(syn.last().1)
    } else {
        synonym_of(syn.drop_last(), t)
    }
}

/// What a term stands for, escaped; nothing if it stands for nothing else.
pub open spec fn synonym_term(syn: Seq<(Seq<char>, Seq<char>)>, t: Seq<char>) -> Seq<Seq<char>> {
    match synonym_of(syn, t) {
        Some(c) => seq![escaped(c)],
        None => Seq::empty(),
    }
}

/// What terms stand for, looked up without and with their escaping.
pub open spec fn synonym_terms(syn: Seq<(Seq<char>, Seq<char>)>, terms: Seq<Seq<char>>) -> Seq<
    Seq<char>,
>
    decreases terms.len(),
{
    if terms.len() == 0 {
        Seq::empty()
    } else {
        synonym_terms(syn, terms.drop_last()) + synonym_term(syn, unescaped(terms.last()))
            + synonym_term(syn, terms.last())
    }
}

/// Whether a term holds a Chinese character.
pub open spec fn is_hanzi_term(t: Seq<char>) -> bool {
    hanzi_of(unescaped(t)).len() > 0
}

/// The terms that hold a Chinese character, or those that do not.
pub open spec fn terms_with(terms: Seq<Seq<char>>, hanzi_ones: bool) -> Seq<Seq<char>>
    decreases terms.len(),
{
    if terms.len() == 0 {
        Seq::empty()
    } else if is_hanzi_term(terms.last()) == hanzi_ones {
        terms_with(terms.drop_last(), hanzi_ones).push(terms.last())
    } else {
        terms_with(terms.drop_last(), hanzi_ones)
    }
}

/// The length of the run of Chinese characters at the end of a text.
pub open spec fn hanzi_tail(s: Seq<char>) -> nat
    decreases s.len(),
{
    if s.len() == 0 || !hanzi(s.last()) {
        0
    } else {
        hanzi_tail(s.drop_last()) + 1
    }
}

/// Whether a text has a run of more than six Chinese characters.
pub open spec fn long_run(s: Seq<char>) -> bool {
    exists|k: int| 0 <= k <= s.len() && hanzi_tail(#[trigger] s.take(k)) > 6
}

/// A text as a pattern, with the signs that stand for anything escaped.
pub open spec fn like_escaped(s: Seq<char>) -> Seq<char> {
    replaced(
        replaced(replaced(s, "\\"@, "\\\\"@), "%"@, "\\%"@),
        "_"@,
        "\\_"@,
    )
}

/// A query made ready.
#[derive(Debug)]
pub struct QueryPlan {
    /// The query, cut to its greatest length.
    pub text: String,
    /// Its normal form.
    pub norm: String,
    /// All terms, in ascending order.
    pub terms: Vec<String>,
    /// The terms with Chinese characters.
    pub hanzi_terms: Vec<String>,
    /// The terms without.
    pub pinyin_terms: Vec<String>,
    /// More terms with Chinese characters, for when little is found.
    pub relaxed_terms: Vec<String>,
    /// How many Chinese characters the query has.
    pub n_hanzi: usize,
    /// Whether it has a long run of them.
    pub long_run: bool,
}

/// All terms of a query, what they stand for among them.
pub open spec fn query_terms(
    text: Seq<char>,
    words: Seq<Seq<char>>,
    syn: Seq<(Seq<char>, Seq<char>)>,
) -> Seq<Seq<char>> {
    let base = terms_of(text, 48, 32, words);
    sorted_texts(base + synonym_terms(syn, base))
}

impl QueryPlan {
    /// Whether this is the plan of a query, given the stop words and the synonyms.
    pub open spec fn is_plan_of(
        &self,
        query: Seq<char>,
        words: Seq<Seq<char>>,
        syn: Seq<(Seq<char>, Seq<char>)>,
    ) -> bool {
        let text = prefix(query, QUERY_CHAR_CAP as int);
        &&& self.text@ == text
        &&& self.norm@ == normal(text)
        &&& texts(self.terms@) == query_terms(text, words, syn)
        &&& texts(self.hanzi_terms@) == terms_with(query_terms(text, words, syn), true)
        &&& texts(self.pinyin_terms@) == terms_with(query_terms(text, words, syn), false)
        &&& texts(self.relaxed_terms@) == terms_with(terms_of(text, 48, 48, words), true)
        &&& self.n_hanzi == hanzi_of(normal(text)).len()
        &&& self.long_run == long_run(normal(text))
    }
}

fn find_synonym<'a>(syn: &'a Vec<(String, String)>, t: &[char]) -> (r: Option<&'a String>)
    ensures
        match r {
            Some(c) => synonym_of(pair_views(syn@), t@) == Some(c@),
            None => synonym_of(pair_views(syn@), t@) is None,
        },
{
    let ghost all = pair_views(syn@);
    let mut k: usize = syn.len();
    assert(all.take(k as int) =~= all);
    while k > 0
        invariant
            k <= syn@.len(),
            all == pair_views(syn@),
            synonym_of(all, t@) == synonym_of(all.take(k as int), t@),
        decreases k,
    {
        proof {
            assert(all.take(k as int).last() == all[k - 1]);
            assert(all.take(k as int).drop_last() =~= all.take(k - 1));
        }
        if same_str(t, syn[k - 1].0.as_str()) {
            return Some(&syn[k - 1].1);
        }
        k -= 1;
    }
    None
}

fn push_synonym(
    out: &mut Vec<Vec<char>>,
    syn: &Vec<(String, String)>,
    t: &[char],
    Ghost(given): Ghost<Seq<Seq<char>>>,
)
    requires
        rows(old(out)@) == sorted_texts(given),
    ensures
        rows(final(out)@) == sorted_texts(given + synonym_term(pair_views(syn@), t@)),
{
    assert(given + Seq::<Seq<char>>::empty() =~= given);
    match find_synonym(syn, t) {
        Some(c) => {
            let e = escape_fts_term(c.as_str());
            let v = to_chars(e.as_str());
            crate::order::insert_text(out, v.as_slice());
            proof {
                let now = given.push(v@);
                assert(now.drop_last() =~= given);
                assert(now =~= given + seq![v@]);
            }
        },
        None => {},
    }
}

fn all_terms(base: &Vec<String>, syn: &Vec<(String, String)>) -> (r: Vec<String>)
    ensures
        texts(r@) == sorted_texts(texts(base@) + synonym_terms(pair_views(syn@), texts(base@))),
{
    let ghost all = texts(base@);
    let ghost with = pair_views(syn@);
    let mut out: Vec<Vec<char>> = Vec::new();
    assert(rows(out@) =~= Seq::<Seq<char>>::empty());
    let mut i: usize = 0;
    while i < base.len()
        invariant
            i <= base@.len(),
            all == texts(base@),
            rows(out@) == sorted_texts(all.take(i as int)),
        decreases base@.len() - i,
    {
        proof {
            assert(all.take(i + 1).drop_last() =~= all.take(i as int));
            assert(all.take(i + 1).last() == base@[i as int]@);
        }
        let v = to_chars(base[i].as_str());
        crate::order::insert_text(&mut out, v.as_slice());
        i += 1;
    }
    assert(all.take(i as int) =~= all);
    let mut k: usize = 0;
    assert(all + synonym_terms(with, all.take(0)) =~= all);
    while k < base.len()
        invariant
            k <= base@.len(),
            all == texts(base@),
            with == pair_views(syn@),
            rows(out@) == sorted_texts(all + synonym_terms(with, all.take(k as int))),
        decreases base@.len() - k,
    {
        let ghost sofar = all + synonym_terms(with, all.take(k as int));
        proof {
            assert(all.take(k + 1).drop_last() =~= all.take(k as int));
            assert(all.take(k + 1).last() == base@[k as int]@);
        }
        let raw = unescape_fts_term(base[k].as_str());
        let r = to_chars(raw.as_str());
        push_synonym(&mut out, syn, r.as_slice(), Ghost(sofar));
        let ghost mid = sofar + synonym_term(with, r@);
        let t = to_chars(base[k].as_str());
        push_synonym(&mut out, syn, t.as_slice(), Ghost(mid));
        assert(mid + synonym_term(with, t@) =~= all + (synonym_terms(with, all.take(k as int))
            + synonym_term(with, r@) + synonym_term(with, t@)));
        k += 1;
    }
    assert(all.take(k as int) =~= all);
    to_texts(&out)
}

fn pick_terms(terms: &Vec<String>, hanzi_ones: bool) -> (r: Vec<String>)
    ensures
        texts(r@) == terms_with(texts(terms@), hanzi_ones),
{
    let ghost all = texts(terms@);
    let mut out: Vec<String> = Vec::new();
    assert(texts(out@) =~= Seq::<Seq<char>>::empty());
    let mut i: usize = 0;
    while i < terms.len()
        invariant
            i <= terms@.len(),
            all == texts(terms@),
            texts(out@) == terms_with(all.take(i as int), hanzi_ones),
        decreases terms@.len() - i,
    {
        proof {
            assert(all.take(i + 1).drop_last() =~= all.take(i as int));
            assert(all.take(i + 1).last() == terms@[i as int]@);
        }
        let raw = unescape_fts_term(terms[i].as_str());
        let v = to_chars(raw.as_str());
        let any = hanzi_chars(v.as_slice()).len() > 0;
        if any == hanzi_ones {
            let ghost before = texts(out@);
            out.push(terms[i].clone());
            assert(texts(out@) =~= before.push(terms@[i as int]@));
        }
        i += 1;
    }
    assert(all.take(i as int) =~= all);
    out
}

fn has_long_run(v: &[char]) -> (r: bool)
    ensures
        r == long_run(v@),
{
    let mut n: usize = 0;
    let mut i: usize = 0;
    while i < v.len()
        invariant
            i <= v@.len(),
            n <= i,
            n == hanzi_tail(v@.take(i as int)),
            forall|k: int| 0 <= k <= i ==> hanzi_tail(#[trigger] v@.take(k)) <= 6,
        decreases v@.len() - i,
    {
        proof {
            assert(v@.take(i + 1).drop_last() =~= v@.take(i as int));
            assert(v@.take(i + 1).last() == v@[i as int]);
        }
        if is_hanzi(v[i]) {
            n += 1;
            if n > 6 {
                assert(hanzi_tail(v@.take(i + 1)) > 6);
                return true;
            }
        } else {
            n = 0;
        }
        i += 1;
    }
    false
}

/// Makes a query ready.
pub fn plan_query(query: &str, words: &Vec<String>, synonyms: &Vec<(String, String)>) -> (r: QueryPlan)
    ensures
        r.is_plan_of(query@, texts(words@), pair_views(synonyms@)),
{
    let all = to_chars(query);
    let cut = take_prefix(all.as_slice(), QUERY_CHAR_CAP);
    let text = to_text(cut);
    let base = extract_terms(text.as_str(), words);
    let terms = all_terms(&base, synonyms);
    let hanzi_terms = pick_terms(&terms, true);
    let pinyin_terms = pick_terms(&terms, false);
    let relaxed = extract_terms_relaxed(text.as_str(), words);
    let relaxed_terms = pick_terms(&relaxed, true);
    let n = normalize_chars(cut);
    let norm = to_text(n.as_slice());
    let n_hanzi = hanzi_chars(n.as_slice()).len();
    let long = has_long_run(n.as_slice());
    QueryPlan {
        text,
        norm,
        terms,
        hanzi_terms,
        pinyin_terms,
        relaxed_terms,
        n_hanzi,
        long_run: long,
    }
}

// ---------------------------------------------------------------------------------------------
// Asking the index
// ---------------------------------------------------------------------------------------------

/// The ways in which an entry is found.
#[derive(Debug, Clone, Copy, PartialEq, Eq, Structural)]
pub enum Lane {
    /// By the full-text index.
    Fts,
    /// By its title, its other names or its path.
    Index,
    /// By its body.
    Body,
    /// By its vectors.
    Semantic,
}

impl Lane {
    /// The name of the lane.
    pub open spec fn label(&self) -> Seq<char> {
        match self {
            Lane::Fts => "fts"@,
            Lane::Index => "index"@,
            Lane::Body => "body"@,
            Lane::Semantic => "semantic"@,
        }
    }

    /// The name of the lane.
    pub fn name(&self) -> (r: String)
        ensures
            r@ == self.label(),
    {
        match self {
            Lane::Fts => "fts".to_string(),
            Lane::Index => "index".to_string(),
            Lane::Body => "body".to_string(),
            Lane::Semantic => "semantic".to_string(),
        }
    }

    /// The weight of the lane, in hundredths.
    pub fn weight(&self) -> (r: u32)
        ensures
            r == (match self {
                Lane::Fts => 100,
                Lane::Index => 240,
                Lane::Body => 35,
                Lane::Semantic => 100int,
            }),
    {
        match self {
            Lane::Fts => 100,
            Lane::Index => 240,
            Lane::Body => 35,
            Lane::Semantic => 100,
        }
    }
}

/// The stages of a search, in their order.
#[derive(Debug, Clone, Copy, PartialEq, Eq, Structural)]
pub enum Stage {
    Hanzi,
    Relaxed,
    Index,
    Body,
    Pinyin,
    Semantic,
    Done,
}

/// What is to be done at a stage.
#[derive(Debug)]
pub enum Step {
    /// Nothing.
    Pass,
    /// Ask the full-text index for the expression. If that is refused, ask for each of the terms.
    Fts { expr: String, terms: Vec<String>, limit: i64 },
    /// Look for the pattern in the title, the other names and the path, or in the body.
    Like { pattern: String, lane: Lane },
    /// Compare vectors.
    Semantic,
}

/// The stage after a stage.
pub open spec fn stage_after(s: Stage) -> Stage {
    match s {
        Stage::Hanzi => Stage::Relaxed,
        Stage::Relaxed => Stage::Index,
        Stage::Index => Stage::Body,
        Stage::Body => Stage::Pinyin,
        Stage::Pinyin => Stage::Semantic,
        Stage::Semantic => Stage::Done,
        Stage::Done => Stage::Done,
    }
}

/// Goes on to the next stage.
pub fn next_stage(s: Stage) -> (r: Stage)
    ensures
        r == stage_after(s),
{
    match s {
        Stage::Hanzi => Stage::Relaxed,
        Stage::Relaxed => Stage::Index,
        Stage::Index => Stage::Body,
        Stage::Body => Stage::Pinyin,
        Stage::Pinyin => Stage::Semantic,
        Stage::Semantic => Stage::Done,
        Stage::Done => Stage::Done,
    }
}

/// Whether something is done at a stage, when `found` entries have been found so far and there is
/// time left.
pub open spec fn stage_runs(p: &QueryPlan, stage: Stage, found: int, embed: bool) -> bool {
    match stage {
        Stage::Hanzi => p.hanzi_terms@.len() > 0,
        Stage::Relaxed => found < 3 && p.long_run && p.relaxed_terms@.len() > 0,
        Stage::Index => 1 <= p.n_hanzi <= 12,
        Stage::Body => 1 <= p.n_hanzi <= 4,
        Stage::Pinyin => found < 3 && p.pinyin_terms@.len() > 0,
        Stage::Semantic => embed,
        Stage::Done => false,
    }
}

/// Whether a step asks the full-text index for any of the terms.
pub open spec fn asks_for(step: Step, terms: Seq<Seq<char>>, limit: int) -> bool {
    match step {
        Step::Fts { expr, terms: ts, limit: l } => expr@ == joined(terms, " OR "@) && texts(ts@)
            == terms && l == limit,
        _ => false,
    }
}

/// Whether a step looks for the query in a lane.
pub open spec fn looks_for(step: Step, norm: Seq<char>, lane: Lane) -> bool {
    match step {
        Step::Like { pattern, lane: l } => pattern@ == "%"@ + like_escaped(norm) + "%"@ && l == lane,
        _ => false,
    }
}

/// Whether a step is the one of a stage that runs.
pub open spec fn is_step_of(step: Step, p: &QueryPlan, stage: Stage) -> bool {
    match stage {
        Stage::Hanzi => asks_for(step, texts(p.hanzi_terms@), 50),
        Stage::Relaxed => asks_for(step, texts(p.relaxed_terms@), 50),
        Stage::Index => looks_for(step, p.norm@, Lane::Index),
        Stage::Body => looks_for(step, p.norm@, Lane::Body),
        Stage::Pinyin => asks_for(step, texts(p.pinyin_terms@), 30),
        Stage::Semantic => step is Semantic,
        Stage::Done => step is Pass,
    }
}

fn fts_step(terms: &Vec<String>, limit: i64) -> (r: Step)
    ensures
        asks_for(r, texts(terms@), limit as int),
{
    let mut all: Vec<Vec<char>> = Vec::new();
    let mut i: usize = 0;
    while i < terms.len()
        invariant
            i <= terms@.len(),
            all@.len() == i,
            forall|j: int| 0 <= j < i ==> (#[trigger] all@[j])@ == terms@[j]@,
        decreases terms@.len() - i,
    {
        all.push(to_chars(terms[i].as_str()));
        i += 1;
    }
    assert(rows(all@) =~= texts(terms@));
    let expr = join(&all, " OR ");
    Step::Fts {
        expr: to_text(expr.as_slice()),
        terms: crate::cuts::clone_names(terms),
        limit,
    }
}

fn like_step(norm: &str, lane: Lane) -> (r: Step)
    ensures
        looks_for(r, norm@, lane),
{
    proof {
        reveal_strlit("\\");
        reveal_strlit("%");
        reveal_strlit("_");
    }
    let v = to_chars(norm);
    let a = to_chars("\\\\");
    let b = to_chars("\\%");
    let c = to_chars("\\_");
    let x = replace(v.as_slice(), "\\", a.as_slice());
    let y = replace(x.as_slice(), "%", b.as_slice());
    let z = replace(y.as_slice(), "_", c.as_slice());
    let mut out = to_chars("%");
    extend(&mut out, z.as_slice());
    extend_str(&mut out, "%");
    Step::Like { pattern: to_text(out.as_slice()), lane }
}

/// Decides what is to be done at a stage. `found` is the number of entries found so far, `late`
/// whether the time is up, `embed` whether vectors can be compared.
pub fn step_at(p: &QueryPlan, stage: Stage, found: usize, late: bool, embed: bool) -> (r: Step)
    ensures
        if !late && stage_runs(p, stage, found as int, embed) {
            is_step_of(r, p, stage)
        } else {
            r is Pass
        },
{
    if late {
        return Step::Pass;
    }
    match stage {
        Stage::Hanzi => if p.hanzi_terms.len() > 0 {
            fts_step(&p.hanzi_terms, 50)
        } else {
            Step::Pass
        },
        Stage::Relaxed => if found < 3 && p.long_run && p.relaxed_terms.len() > 0 {
            fts_step(&p.relaxed_terms, 50)
        } else {
            Step::Pass
        },
        Stage::Index => if 1 <= p.n_hanzi && p.n_hanzi <= 12 {
            like_step(p.norm.as_str(), Lane::Index)
        } else {
            Step::Pass
        },
        Stage::Body => if 1 <= p.n_hanzi && p.n_hanzi <= 4 {
            like_step(p.norm.as_str(), Lane::Body)
        } else {
            Step::Pass
        },
        Stage::Pinyin => if found < 3 && p.pinyin_terms.len() > 0 {
            fts_step(&p.pinyin_terms, 30)
        } else {
            Step::Pass
        },
        Stage::Semantic => if embed {
            Step::Semantic
        } else {
            Step::Pass
        },
        Stage::Done => Step::Pass,
    }
}

/// Whether the time of a search is up.
pub fn timed_out(elapsed_ms: u128) -> (r: bool)
    ensures
        r == (elapsed_ms >= 4500),
{
    elapsed_ms >= HARD_TIMEOUT_MS
}

/// Whether the encoding of a query took too long.
pub fn over_budget(elapsed_ms: u128) -> (r: bool)
    ensures
        r == (elapsed_ms > 800),
{
    elapsed_ms > SEMANTIC_BUDGET_MS
}

/// The terms that are shown to the user: those with Chinese characters if there are any.
pub fn shown_terms(p: &QueryPlan) -> (r: Vec<String>)
    ensures
        texts(r@) == (if p.hanzi_terms@.len() == 0 {
            texts(p.terms@)
        } else {
            texts(p.hanzi_terms@)
        }),
{
    if p.hanzi_terms.len() == 0 {
        crate::cuts::clone_names(&p.terms)
    } else {
        crate::cuts::clone_names(&p.hanzi_terms)
    }
}

// ---------------------------------------------------------------------------------------------
// Gathering what was found
// ---------------------------------------------------------------------------------------------

/// An entry that was found: by which lanes, and at which place in each list.
#[derive(Debug)]
pub struct Found {
    pub id: i64,
    pub marks: Vec<(Lane, usize)>,
}

/// An entry that was found, as a mathematical value.
#[verifier::ext_equal]
pub struct FoundView {
    pub id: int,
    pub marks: Seq<(Lane, int)>,
}

/// The values of marks.
pub open spec fn mark_views(v: Seq<(Lane, usize)>) -> Seq<(Lane, int)> {
    Seq::new(v.len(), |i: int| (v[i].0, v[i].1 as int))
}

impl View for Found {
    type V = FoundView;

    open spec fn view(&self) -> FoundView {
        FoundView { id: self.id as int, marks: mark_views(self.marks@) }
    }
}

/// The values of what was found.
pub open spec fn found_views(v: Seq<Found>) -> Seq<FoundView> {
    Seq::new(v.len(), |i: int| v[i]@)
}

/// Where an entry stands in what was found, at or after `i`.
pub open spec fn place_of(v: Seq<FoundView>, id: int, i: int) -> Option<int>
    decreases v.len() - i,
{
    if i < 0 || i >= v.len() {
        None
    } else if v[i].id == id {
        Some(i)
    } else {
        place_of(v, id, i + 1)
    }
}

/// What was found, with one more mark for an entry.
pub open spec fn with_mark(v: Seq<FoundView>, id: int, lane: Lane, rank: int) -> Seq<FoundView> {
    match place_of(v, id, 0) {
        Some(i) => v.update(i, FoundView { id, marks: v[i].marks.push((lane, rank)) }),
        None => v.push(FoundView { id, marks: seq![(lane, rank)] }),
    }
}

/// What was found, with one more mark for each entry of a list, at its place in the list.
pub open spec fn with_marks(v: Seq<FoundView>, ids: Seq<i64>, lane: Lane) -> Seq<FoundView>
    decreases ids.len(),
{
    if ids.len() == 0 {
        v
    } else {
        with_mark(
            with_marks(v, ids.drop_last(), lane),
            ids.last() as int,
            lane,
            ids.len() - 1,
        )
    }
}

fn find_place(v: &Vec<Found>, id: i64) -> (r: Option<usize>)
    ensures
        match r {
            Some(i) => place_of(found_views(v@), id as int, 0) == Some(i as int) && i < v@.len()
                && v@[i as int].id == id,
            None => place_of(found_views(v@), id as int, 0) is None,
        },
{
    let ghost all = found_views(v@);
    let mut i: usize = 0;
    while i < v.len()
        invariant
            i <= v@.len(),
            all == found_views(v@),
            place_of(all, id as int, 0) == place_of(all, id as int, i as int),
        decreases v@.len() - i,
    {
        assert(all[i as int] == v@[i as int]@);
        if v[i].id == id {
            return Some(i);
        }
        i += 1;
    }
    None
}

fn clone_marks(v: &Vec<(Lane, usize)>) -> (r: Vec<(Lane, usize)>)
    ensures
        r@ == v@,
{
    let mut out: Vec<(Lane, usize)> = Vec::new();
    let mut i: usize = 0;
    while i < v.len()
        invariant
            i <= v@.len(),
            out@ == v@.take(i as int),
        decreases v@.len() - i,
    {
        out.push(v[i]);
        assert(out@ =~= v@.take(i + 1));
        i += 1;
    }
    assert(v@.take(i as int) =~= v@);
    out
}

/// Adds a list of entries that a lane put forward, the best first.
pub fn add_list(found: &mut Vec<Found>, ids: &Vec<i64>, lane: Lane)
    ensures
        found_views(final(found)@) == with_marks(found_views(old(found)@), ids@, lane),
{
    let ghost start = found_views(found@);
    let mut i: usize = 0;
    while i < ids.len()
        invariant
            i <= ids@.len(),
            found_views(found@) == with_marks(start, ids@.take(i as int), lane),
        decreases ids@.len() - i,
    {
        let ghost before = found_views(found@);
        proof {
            assert(ids@.take(i + 1).drop_last() =~= ids@.take(i as int));
            assert(ids@.take(i + 1).last() == ids@[i as int]);
        }
        let id = ids[i];
        match find_place(found, id) {
            Some(k) => {
                let mut marks = clone_marks(&found[k].marks);
                let ghost was = mark_views(marks@);
                marks.push((lane, i));
                assert(mark_views(marks@) =~= was.push((lane, i as int)));
                let f = Found { id, marks };
                found.set(k, f);
                proof {
                    assert(before[k as int].marks =~= was);
                    assert(found_views(found@) =~= before.update(k as int, f@));
                }
            },
            None => {
                let mut marks: Vec<(Lane, usize)> = Vec::new();
                marks.push((lane, i));
                assert(mark_views(marks@) =~= seq![(lane, i as int)]);
                let f = Found { id, marks };
                found.push(f);
                assert(found_views(found@) =~= before.push(f@));
            },
        }
        i += 1;
    }
    assert(ids@.take(i as int) =~= ids@);
}

/// The lanes by which an entry was found, in the order in which they found it.
pub open spec fn lanes_of(marks: Seq<(Lane, int)>) -> Seq<Lane>
    decreases marks.len(),
{
    if marks.len() == 0 {
        Seq::empty()
    } else {
        let before = lanes_of(marks.drop_last());
        if before.contains(marks.last().0) {
            before
        } else {
            before.push(marks.last().0)
        }
    }
}

/// Lists the lanes by which an entry was found.
pub fn lanes(f: &Found) -> (r: Vec<Lane>)
    ensures
        r@ == lanes_of(f@.marks),
{
    let ghost all = f@.marks;
    let mut out: Vec<Lane> = Vec::new();
    assert(out@ =~= Seq::<Lane>::empty());
    let mut i: usize = 0;
    while i < f.marks.len()
        invariant
            i <= f.marks@.len(),
            all == mark_views(f.marks@),
            out@ == lanes_of(all.take(i as int)),
        decreases f.marks@.len() - i,
    {
        proof {
            assert(all.take(i + 1).drop_last() =~= all.take(i as int));
            assert(all.take(i + 1).last() == all[i as int]);
        }
        let lane = f.marks[i].0;
        let mut there = false;
        let mut k: usize = 0;
        while k < out.len()
            invariant
                k <= out@.len(),
                there <==> exists|j: int| 0 <= j < k && #[trigger] out@[j] == lane,
            decreases out@.len() - k,
        {
            if out[k] == lane {
                there = true;
            }
            k += 1;
        }
        if !there {
            assert(!out@.contains(lane));
            out.push(lane);
        }
        i += 1;
    }
    assert(all.take(i as int) =~= all);
    out
}

// ---------------------------------------------------------------------------------------------
// Ranking
// ---------------------------------------------------------------------------------------------

/// The places of a list by descending score, equal scores in their order; `cap` at most.
pub open spec fn best_places(scores: Seq<u64>, cap: nat) -> Seq<int> {
    let sorted = sorted_by_key(Seq::new(scores.len(), |i: int| (-(scores[i] as int), i)));
    Seq::new(
        if sorted.len() <= cap {
            sorted.len()
        } else {
            cap
        },
        |i: int| sorted[i].1,
    )
}

/// The values of places with scores.
pub open spec fn scored_views(v: Seq<(u64, usize)>) -> Seq<(int, int)> {
    Seq::new(v.len(), |i: int| (-(v[i].0 as int), v[i].1 as int))
}

fn find_score_slot(v: &Vec<(u64, usize)>, score: u64) -> (r: usize)
    ensures
        r == slot(keys_of(scored_views(v@)), -(score as int)),
        r <= v@.len(),
{
    let ghost keys = keys_of(scored_views(v@));
    let mut k: usize = v.len();
    assert(keys.take(k as int) =~= keys);
    while k > 0 && v[k - 1].0 < score
        invariant
            k <= v@.len(),
            keys == keys_of(scored_views(v@)),
            slot(keys, -(score as int)) == slot(keys.take(k as int), -(score as int)),
        decreases k,
    {
        proof {
            let t = keys.take(k as int);
            assert(t.last() == keys[k - 1]);
            assert(keys[k - 1] == -(v@[k - 1].0 as int));
            assert(t.drop_last() =~= keys.take(k - 1));
        }
        k -= 1;
    }
    proof {
        if k > 0 {
            assert(keys.take(k as int).last() == keys[k - 1]);
            assert(keys[k - 1] == -(v@[k - 1].0 as int));
        }
    }
    k
}

/// Orders places by descending score and keeps the best.
pub fn best_of(scores: &Vec<u64>, cap: usize) -> (r: Vec<usize>)
    ensures
        r@.len() == best_places(scores@, cap as nat).len(),
        forall|i: int|
            0 <= i < r@.len() ==> (#[trigger] r@[i]) as int == best_places(scores@, cap as nat)[i],
        forall|i: int| 0 <= i < r@.len() ==> (#[trigger] r@[i]) < scores@.len(),
{
    let ghost all = Seq::new(scores@.len(), |i: int| (-(scores@[i] as int), i));
    let mut v: Vec<(u64, usize)> = Vec::new();
    assert(scored_views(v@) =~= Seq::<(int, int)>::empty());
    let mut i: usize = 0;
    while i < scores.len()
        invariant
            i <= scores@.len(),
            all == Seq::new(scores@.len(), |i: int| (-(scores@[i] as int), i)),
            scored_views(v@) == sorted_by_key(all.take(i as int)),
            forall|k: int| 0 <= k < v@.len() ==> (#[trigger] v@[k]).1 < i,
        decreases scores@.len() - i,
    {
        let ghost before = scored_views(v@);
        let ghost old_v = v@;
        proof {
            assert(all.take(i + 1).drop_last() =~= all.take(i as int));
            assert(all.take(i + 1).last() == all[i as int]);
        }
        let at = find_score_slot(&v, scores[i]);
        v.insert(at, (scores[i], i));
        proof {
            let x = (-(scores@[i as int] as int), i as int);
            assert(scored_views(v@) =~= with_item(before, x));
            assert forall|k: int| 0 <= k < v@.len() implies (#[trigger] v@[k]).1 < i + 1 by {
                if k < at {
                    assert(v@[k] == old_v[k]);
                } else if k > at {
                    assert(v@[k] == old_v[k - 1]);
                }
            }
        }
        i += 1;
    }
    assert(all.take(i as int) =~= all);
    let n: usize = if v.len() <= cap {
        v.len()
    } else {
        cap
    };
    let mut out: Vec<usize> = Vec::new();
    let mut k: usize = 0;
    while k < n
        invariant
            k <= n,
            n <= v@.len(),
            out@.len() == k,
            forall|j: int| 0 <= j < k ==> #[trigger] out@[j] == v@[j].1,
        decreases n - k,
    {
        out.push(v[k].1);
        k += 1;
    }
    proof {
        assert(scored_views(v@).len() == v@.len());
        assert forall|j: int| 0 <= j < out@.len() implies (#[trigger] out@[j]) as int
            == best_places(scores@, cap as nat)[j] by {
            assert(scored_views(v@)[j].1 == out@[j]);
        }
    }
    out
}

/// The best score of each entry, in the order in which they came.
pub open spec fn best_scores(rows: Seq<(i64, u64)>) -> Seq<(i64, u64)>
    decreases rows.len(),
{
    if rows.len() == 0 {
        Seq::empty()
    } else {
        with_score(best_scores(rows.drop_last()), rows.last())
    }
}

/// Where an entry stands in a list of scores, at or after `i`.
pub open spec fn score_place(v: Seq<(i64, u64)>, id: i64, i: int) -> Option<int>
    decreases v.len() - i,
{
    if i < 0 || i >= v.len() {
        None
    } else if v[i].0 == id {
        Some(i)
    } else {
        score_place(v, id, i + 1)
    }
}

/// A list of best scores after one more score.
pub open spec fn with_score(v: Seq<(i64, u64)>, x: (i64, u64)) -> Seq<(i64, u64)> {
    match score_place(v, x.0, 0) {
        Some(i) => if x.1 > v[i].1 {
            v.update(i, x)
        } else {
            v
        },
        None => v.push(x),
    }
}

/// The scores of a list.
pub open spec fn just_scores(v: Seq<(i64, u64)>) -> Seq<u64> {
    Seq::new(v.len(), |i: int| v[i].1)
}

/// The entries whose vectors are nearest, each by its best sub-block; fifty at most.
pub open spec fn nearest(rows: Seq<(i64, u64)>) -> Seq<i64> {
    let best = best_scores(rows);
    let places = best_places(just_scores(best), SEMANTIC_TOP_K as nat);
    Seq::new(places.len(), |i: int| best[places[i]].0)
}

/// Picks the entries whose vectors are nearest. `rows` holds the entry and the score of each
/// sub-block; an entry counts by its best one only.
pub fn nearest_chunks(rows: &Vec<(i64, u64)>) -> (r: Vec<i64>)
    ensures
        r@ == nearest(rows@),
{
    let mut best: Vec<(i64, u64)> = Vec::new();
    assert(best@ =~= Seq::<(i64, u64)>::empty());
    let mut i: usize = 0;
    while i < rows.len()
        invariant
            i <= rows@.len(),
            best@ == best_scores(rows@.take(i as int)),
        decreases rows@.len() - i,
    {
        proof {
            assert(rows@.take(i + 1).drop_last() =~= rows@.take(i as int));
            assert(rows@.take(i + 1).last() == rows@[i as int]);
        }
        let x = rows[i];
        let mut k: usize = 0;
        while k < best.len() && best[k].0 != x.0
            invariant
                k <= best@.len(),
                score_place(best@, x.0, 0) == score_place(best@, x.0, k as int),
            decreases best@.len() - k,
        {
            k += 1;
        }
        if k < best.len() {
            if x.1 > best[k].1 {
                best.set(k, x);
            }
        } else {
            best.push(x);
        }
        i += 1;
    }
    assert(rows@.take(i as int) =~= rows@);
    let mut scores: Vec<u64> = Vec::new();
    let mut j: usize = 0;
    while j < best.len()
        invariant
            j <= best@.len(),
            scores@ == just_scores(best@).take(j as int),
        decreases best@.len() - j,
    {
        scores.push(best[j].1);
        assert(scores@ =~= just_scores(best@).take(j + 1));
        j += 1;
    }
    assert(just_scores(best@).take(j as int) =~= just_scores(best@));
    let places = best_of(&scores, SEMANTIC_TOP_K);
    let mut out: Vec<i64> = Vec::new();
    let mut m: usize = 0;
    while m < places.len()
        invariant
            m <= places@.len(),
            scores@.len() == best@.len(),
            forall|n: int| 0 <= n < places@.len() ==> (#[trigger] places@[n]) < scores@.len(),
            out@.len() == m,
            forall|n: int| 0 <= n < m ==> #[trigger] out@[n] == best@[places@[n] as int].0,
        decreases places@.len() - m,
    {
        out.push(best[places[m]].0);
        m += 1;
    }
    assert(out@ =~= nearest(rows@));
    out
}

// ---------------------------------------------------------------------------------------------
// Hits
// ---------------------------------------------------------------------------------------------

/// What tells hits apart: the document and the normal form of the title.
pub open spec fn hit_identity(c: ChunkView) -> (int, Seq<char>) {
    (c.source_document_id, normal(c.title))
}

/// The values of identities.
pub open spec fn identity_views(v: Seq<(i64, Vec<char>)>) -> Seq<(int, Seq<char>)> {
    Seq::new(v.len(), |i: int| (v[i].0 as int, v[i].1@))
}

/// Takes an entry into the hits unless one of the same document and title is there. `seen` are the
/// identities of the hits so far.
pub fn accept_hit(seen: &mut Vec<(i64, Vec<char>)>, chunk: &Chunk) -> (r: bool)
    ensures
        r == !identity_views(old(seen)@).contains(hit_identity(chunk@)),
        identity_views(final(seen)@) == (if r {
            identity_views(old(seen)@).push(hit_identity(chunk@))
        } else {
            identity_views(old(seen)@)
        }),
{
    let ghost before = identity_views(seen@);
    let t = to_chars(chunk.title.as_str());
    let n = normalize_chars(t.as_slice());
    let mut there = false;
    let mut i: usize = 0;
    while i < seen.len()
        invariant
            i <= seen@.len(),
            n@ == normal(chunk.title@),
            before == identity_views(seen@),
            there <==> exists|j: int| 0 <= j < i && #[trigger] before[j] == hit_identity(chunk@),
        decreases seen@.len() - i,
    {
        assert(before[i as int] == (seen@[i as int].0 as int, seen@[i as int].1@));
        if seen[i].0 == chunk.source_document_id && same(seen[i].1.as_slice(), n.as_slice()) {
            assert(before[i as int] == hit_identity(chunk@));
            there = true;
        }
        i += 1;
    }
    if there {
        false
    } else {
        assert(!before.contains(hit_identity(chunk@)));
        seen.push((chunk.source_document_id, n));
        assert(identity_views(seen@) =~= before.push(hit_identity(chunk@)));
        true
    }
}

/// Whether no more entries are loaded: the time is up and there are five hits.
pub fn enough_hits(late: bool, hits: usize) -> (r: bool)
    ensures
        r == (late && hits >= 5),
{
    late && hits >= 5
}

/// Whether the query stands in one of the other names.
pub open spec fn in_names(names: Seq<Seq<char>>, q: Seq<char>) -> bool {
    exists|i: int| 0 <= i < names.len() && has_text(normal(#[trigger] names[i]), q)
}

fn is_in_names(names: &Vec<String>, q: &[char]) -> (r: bool)
    ensures
        r == in_names(texts(names@), q@),
{
    let ghost all = texts(names@);
    let mut i: usize = 0;
    while i < names.len()
        invariant
            i <= names@.len(),
            all == texts(names@),
            forall|j: int| 0 <= j < i ==> !has_text(normal(#[trigger] all[j]), q@),
        decreases names@.len() - i,
    {
        assert(all[i as int] == names@[i as int]@);
        let v = to_chars(names[i].as_str());
        let n = normalize_chars(v.as_slice());
        if contains(n.as_slice(), q) {
            return true;
        }
        i += 1;
    }
    false
}

/// How the query stands in an entry.
#[derive(Debug, Clone, Copy, PartialEq, Eq, Structural)]
pub enum Boost {
    /// It does not.
    Absent,
    /// It is the title.
    Title,
    /// It stands in the title.
    InTitle,
    /// It stands in one of the other names.
    InName,
    /// It stands in the body, so many times among so many characters.
    InBody { times: usize, chars: usize },
}

/// How a query in normal form stands in an entry.
pub open spec fn boost_of(c: ChunkView, q: Seq<char>) -> Boost {
    if q.len() == 0 {
        Boost::Absent
    } else if normal(c.title) == q {
        Boost::Title
    } else if has_text(normal(c.title), q) {
        Boost::InTitle
    } else if in_names(c.aliases, q) {
        Boost::InName
    } else if occurrences(normal(c.body), q) == 0 {
        Boost::Absent
    } else {
        Boost::InBody {
            times: occurrences(normal(c.body), q) as usize,
            chars: if normal(c.body).len() == 0 {
                1
            } else {
                normal(c.body).len() as usize
            },
        }
    }
}

/// Tells how a query in normal form stands in an entry.
pub fn contains_boost(chunk: &Chunk, q: &str) -> (r: Boost)
    ensures
        r == boost_of(chunk@, q@),
{
    let query = to_chars(q);
    if query.len() == 0 {
        return Boost::Absent;
    }
    let t = to_chars(chunk.title.as_str());
    let title = normalize_chars(t.as_slice());
    if same(title.as_slice(), query.as_slice()) {
        return Boost::Title;
    }
    if contains(title.as_slice(), query.as_slice()) {
        return Boost::InTitle;
    }
    if is_in_names(&chunk.aliases, query.as_slice()) {
        return Boost::InName;
    }
    let b = to_chars(chunk.body.as_str());
    let body = normalize_chars(b.as_slice());
    let times = count_text(body.as_slice(), query.as_slice());
    if times == 0 {
        return Boost::Absent;
    }
    let chars: usize = if body.len() == 0 {
        1
    } else {
        body.len()
    };
    Boost::InBody { times, chars }
}

/// Whether a hit is an entry about the query rather than one that mentions it.
pub open spec fn is_entry_hit(lanes: Seq<Lane>, c: ChunkView, q: Seq<char>) -> bool {
    q.len() > 0 && (lanes.contains(Lane::Index) || has_text(normal(c.title), q) || in_names(
        c.aliases,
        q,
    ))
}

/// Whether a hit is an entry about the query rather than one that mentions it.
pub fn indexish(lanes: &Vec<Lane>, chunk: &Chunk, q: &str) -> (r: bool)
    ensures
        r == is_entry_hit(lanes@, chunk@, q@),
{
    let query = to_chars(q);
    if query.len() == 0 {
        return false;
    }
    let mut by_index = false;
    let mut i: usize = 0;
    while i < lanes.len()
        invariant
            i <= lanes@.len(),
            by_index <==> exists|j: int| 0 <= j < i && #[trigger] lanes@[j] == Lane::Index,
        decreases lanes@.len() - i,
    {
        if lanes[i] == Lane::Index {
            by_index = true;
        }
        i += 1;
    }
    if by_index {
        assert(lanes@.contains(Lane::Index));
        return true;
    }
    assert(!lanes@.contains(Lane::Index));
    let t = to_chars(chunk.title.as_str());
    let title = normalize_chars(t.as_slice());
    contains(title.as_slice(), query.as_slice()) || is_in_names(&chunk.aliases, query.as_slice())
}

/// What hits are ordered by.
#[derive(Debug)]
pub struct HitKey {
    pub indexish: bool,
    pub score: u64,
    pub source_rank: i64,
    pub title: String,
}

/// What hits are ordered by, as a mathematical value.
#[verifier::ext_equal]
pub struct HitKeyView {
    pub indexish: bool,
    pub score: int,
    pub source_rank: int,
    pub title: Seq<char>,
}

impl View for HitKey {
    type V = HitKeyView;

    open spec fn view(&self) -> HitKeyView {
        HitKeyView {
            indexish: self.indexish,
            score: self.score as int,
            source_rank: self.source_rank as int,
            title: self.title@,
        }
    }
}

/// The values of keys.
pub open spec fn hit_key_views(v: Seq<HitKey>) -> Seq<HitKeyView> {
    Seq::new(v.len(), |i: int| v[i]@)
}

/// Whether a hit comes before another: entries about the query first, then by descending score,
/// then by the rank of the source, then by title.
pub open spec fn hit_before(a: HitKeyView, b: HitKeyView) -> bool {
    if a.indexish != b.indexish {
        a.indexish
    } else if a.score != b.score {
        a.score > b.score
    } else if a.source_rank != b.source_rank {
        a.source_rank < b.source_rank
    } else {
        text_less(a.title, b.title)
    }
}

/// An ordered list of hits with one more in its place, behind those that it does not come before.
pub open spec fn with_hit(keys: Seq<HitKeyView>, order: Seq<int>, k: int) -> Seq<int>
    decreases order.len(),
{
    if order.len() == 0 || !hit_before(keys[k], keys[order.last()]) {
        order.push(k)
    } else {
        with_hit(keys, order.drop_last(), k).push(order.last())
    }
}

/// The first `n` hits in their order.
pub open spec fn hits_in_order(keys: Seq<HitKeyView>, n: int) -> Seq<int>
    decreases n,
{
    if n <= 0 {
        Seq::empty()
    } else {
        with_hit(keys, hits_in_order(keys, n - 1), n - 1)
    }
}

/// The twenty best hits in their order.
pub open spec fn top_hits(keys: Seq<HitKeyView>) -> Seq<int> {
    let all = hits_in_order(keys, keys.len() as int);
    if all.len() <= 20 {
        all
    } else {
        all.take(20)
    }
}

fn is_before(a: &HitKey, b: &HitKey) -> (r: bool)
    ensures
        r == hit_before(a@, b@),
{
    if a.indexish != b.indexish {
        a.indexish
    } else if a.score != b.score {
        a.score > b.score
    } else if a.source_rank != b.source_rank {
        a.source_rank < b.source_rank
    } else {
        let x = to_chars(a.title.as_str());
        let y = to_chars(b.title.as_str());
        comes_before(x.as_slice(), y.as_slice())
    }
}

/// Places as mathematical integers.
pub open spec fn place_views(v: Seq<usize>) -> Seq<int> {
    Seq::new(v.len(), |i: int| v[i] as int)
}

/// Orders hits and keeps the twenty best. Returns their places in `keys`.
pub fn order_hits(keys: &Vec<HitKey>) -> (r: Vec<usize>)
    ensures
        place_views(r@) == top_hits(hit_key_views(keys@)),
        r@.len() <= 20,
        forall|i: int| 0 <= i < r@.len() ==> (#[trigger] r@[i]) < keys@.len(),
{
    let ghost all = hit_key_views(keys@);
    let mut order: Vec<usize> = Vec::new();
    assert(place_views(order@) =~= Seq::<int>::empty());
    let mut i: usize = 0;
    while i < keys.len()
        invariant
            i <= keys@.len(),
            all == hit_key_views(keys@),
            place_views(order@) == hits_in_order(all, i as int),
            forall|j: int| 0 <= j < order@.len() ==> (#[trigger] order@[j]) < i,
        decreases keys@.len() - i,
    {
        let ghost s = place_views(order@);
        let ghost old_order = order@;
        let mut k: usize = order.len();
        assert(s.take(k as int) =~= s);
        assert(with_hit(all, s, i as int) + s.skip(k as int) =~= with_hit(all, s, i as int));
        while k > 0 && is_before(&keys[i], &keys[order[k - 1]])
            invariant
                i < keys@.len(),
                k <= order@.len(),
                all == hit_key_views(keys@),
                s == place_views(order@),
                forall|j: int| 0 <= j < order@.len() ==> (#[trigger] order@[j]) < i,
                with_hit(all, s, i as int) == with_hit(all, s.take(k as int), i as int) + s.skip(
                    k as int,
                ),
            decreases k,
        {
            proof {
                let t = s.take(k as int);
                assert(t.last() == order@[k - 1]);
                assert(all[order@[k - 1] as int] == keys@[order@[k - 1] as int]@);
                assert(t.drop_last() =~= s.take(k - 1));
                assert(with_hit(all, t.drop_last(), i as int).push(t.last()) + s.skip(k as int)
                    =~= with_hit(all, t.drop_last(), i as int) + s.skip(k - 1));
            }
            k -= 1;
        }
        proof {
            if k > 0 {
                assert(s.take(k as int).last() == order@[k - 1]);
                assert(all[order@[k - 1] as int] == keys@[order@[k - 1] as int]@);
            }
            assert(all[i as int] == keys@[i as int]@);
        }
        order.insert(k, i);
        proof {
            assert(place_views(order@) =~= s.take(k as int).push(i as int) + s.skip(k as int));
            assert forall|j: int| 0 <= j < order@.len() implies (#[trigger] order@[j]) < i + 1 by {
                if j < k {
                    assert(order@[j] == old_order[j]);
                } else if j > k {
                    assert(order@[j] == old_order[j - 1]);
                }
            }
        }
        i += 1;
    }
    let mut out: Vec<usize> = Vec::new();
    let mut n: usize = 0;
    while n < order.len() && n < 20
        invariant
            n <= order@.len(),
            n <= 20,
            out@ == order@.take(n as int),
            forall|j: int| 0 <= j < order@.len() ==> (#[trigger] order@[j]) < keys@.len(),
        decreases order@.len() - n,
    {
        out.push(order[n]);
        assert(out@ =~= order@.take(n + 1));
        n += 1;
    }
    assert(place_views(out@) =~= top_hits(all));
    out
}

// ---------------------------------------------------------------------------------------------
// What holds of every search
// ---------------------------------------------------------------------------------------------

/// Whether no entry stands twice in what was found.
pub open spec fn ids_differ(v: Seq<FoundView>) -> bool {
    forall|i: int, j: int| #![trigger v[i], v[j]] 0 <= i < j < v.len() ==> v[i].id != v[j].id
}

proof fn lemma_place_of(v: Seq<FoundView>, id: int, i: int)
    requires
        0 <= i,
    ensures
        match place_of(v, id, i) {
            Some(k) => i <= k < v.len() && v[k].id == id,
            None => forall|k: int| i <= k < v.len() ==> (#[trigger] v[k]).id != id,
        },
    decreases v.len() - i,
{
    if i < v.len() && v[i].id != id {
        lemma_place_of(v, id, i + 1);
    }
}

/// However many lists are added, every entry is found once, with all its marks together.
pub proof fn found_entries_differ(v: Seq<FoundView>, ids: Seq<i64>, lane: Lane)
    requires
        ids_differ(v),
    ensures
        ids_differ(with_marks(v, ids, lane)),
    decreases ids.len(),
{
    if ids.len() > 0 {
        found_entries_differ(v, ids.drop_last(), lane);
        let before = with_marks(v, ids.drop_last(), lane);
        lemma_place_of(before, ids.last() as int, 0);
    }
}

proof fn lemma_hit_order(a: HitKeyView, b: HitKeyView, c: HitKeyView)
    ensures
        hit_before(a, b) ==> !hit_before(b, a),
        !hit_before(a, b) && !hit_before(b, c) ==> !hit_before(a, c),
{
    crate::order::text_order_is_total(a.title, b.title);
    crate::order::text_order_is_total(b.title, c.title);
    crate::order::text_order_is_total(a.title, c.title);
    crate::order::text_order_is_total(b.title, a.title);
    if text_less(c.title, b.title) && text_less(b.title, a.title) {
        crate::order::text_order_is_transitive(c.title, b.title, a.title);
    }
}

/// Whether no hit in an order comes before one that stands ahead of it.
pub open spec fn well_ordered(keys: Seq<HitKeyView>, order: Seq<int>) -> bool {
    forall|i: int, j: int|
        #![trigger order[i], order[j]]
        0 <= i < j < order.len() ==> !hit_before(keys[order[j]], keys[order[i]])
}

proof fn lemma_with_hit(keys: Seq<HitKeyView>, order: Seq<int>, k: int)
    requires
        well_ordered(keys, order),
    ensures
        well_ordered(keys, with_hit(keys, order, k)),
        with_hit(keys, order, k).len() == order.len() + 1,
        forall|i: int|
            0 <= i < with_hit(keys, order, k).len() ==> (#[trigger] with_hit(keys, order, k)[i])
                == k || order.contains(with_hit(keys, order, k)[i]),
    decreases order.len(),
{
    let r = with_hit(keys, order, k);
    if order.len() == 0 || !hit_before(keys[k], keys[order.last()]) {
        assert forall|i: int, j: int|
            #![trigger r[i], r[j]]
            0 <= i < j < r.len() implies !hit_before(keys[r[j]], keys[r[i]]) by {
            if j == order.len() && i < order.len() - 1 {
                assert(!hit_before(keys[order[order.len() - 1]], keys[order[i]]));
                lemma_hit_order(keys[k], keys[order.last()], keys[order[i]]);
            }
        }
        assert forall|i: int| 0 <= i < r.len() implies (#[trigger] r[i]) == k || order.contains(
            r[i],
        ) by {
            if i < order.len() {
                assert(order[i] == r[i]);
            }
        }
    } else {
        let head = order.drop_last();
        lemma_with_hit(keys, head, k);
        let q = with_hit(keys, head, k);
        let last = order.last();
        assert forall|i: int, j: int|
            #![trigger r[i], r[j]]
            0 <= i < j < r.len() implies !hit_before(keys[r[j]], keys[r[i]]) by {
            if j == q.len() {
                assert(q[i] == k || head.contains(q[i]));
                if q[i] == k {
                    lemma_hit_order(keys[k], keys[last], keys[last]);
                } else {
                    let m = choose|m: int| 0 <= m < head.len() && head[m] == q[i];
                    assert(order[m] == q[i]);
                    assert(!hit_before(keys[order[order.len() - 1]], keys[order[m]]));
                }
            }
        }
        assert forall|i: int| 0 <= i < r.len() implies (#[trigger] r[i]) == k || order.contains(
            r[i],
        ) by {
            if i < q.len() {
                assert(q[i] == r[i]);
                if head.contains(q[i]) {
                    let m = choose|m: int| 0 <= m < head.len() && head[m] == q[i];
                    assert(order[m] == q[i]);
                }
            } else {
                assert(order[order.len() - 1] == r[i]);
            }
        }
    }
}

proof fn lemma_hits_in_order(keys: Seq<HitKeyView>, n: int)
    requires
        0 <= n,
    ensures
        well_ordered(keys, hits_in_order(keys, n)),
        hits_in_order(keys, n).len() == n,
    decreases n,
{
    if n > 0 {
        lemma_hits_in_order(keys, n - 1);
        lemma_with_hit(keys, hits_in_order(keys, n - 1), n - 1);
    }
}

/// Hits are shown in their order, twenty at most, and all of them if there are no more.
pub proof fn hits_are_in_order(keys: Seq<HitKeyView>)
    ensures
        well_ordered(keys, top_hits(keys)),
        top_hits(keys).len() == (if keys.len() <= 20 {
            keys.len()
        } else {
            20
        }),
{
    lemma_hits_in_order(keys, keys.len() as int);
    let all = hits_in_order(keys, keys.len() as int);
    let top = top_hits(keys);
    assert forall|i: int, j: int|
        #![trigger top[i], top[j]]
        0 <= i < j < top.len() implies !hit_before(keys[top[j]], keys[top[i]]) by {
        assert(top[i] == all[i] && top[j] == all[j]);
    }
}

// ---------------------------------------------------------------------------------------------
// The best ones
// ---------------------------------------------------------------------------------------------

/// Whether a list of keys and places holds a place.
pub open spec fn holds_place(t: Seq<(int, int)>, i: int) -> bool {
    exists|k: int| 0 <= k < t.len() && (#[trigger] t[k]).1 == i
}

proof fn lemma_sorted_scores(scores: Seq<u64>, n: int)
    requires
        0 <= n <= scores.len(),
    ensures
        ({
            let all = Seq::new(scores.len(), |i: int| (-(scores[i] as int), i));
            let t = sorted_by_key(all.take(n));
            &&& t.len() == n
            &&& forall|k: int|
                0 <= k < n ==> 0 <= (#[trigger] t[k]).1 < n && t[k].0 == -(scores[t[k].1] as int)
            &&& forall|i: int, j: int|
                #![trigger t[i], t[j]]
                0 <= i < j < n ==> t[i].0 < t[j].0 || (t[i].0 == t[j].0 && t[i].1 < t[j].1)
            &&& forall|i: int| 0 <= i < n ==> #[trigger] holds_place(t, i)
        }),
    decreases n,
{
    let all = Seq::new(scores.len(), |i: int| (-(scores[i] as int), i));
    if n > 0 {
        lemma_sorted_scores(scores, n - 1);
        let before = sorted_by_key(all.take(n - 1));
        assert(all.take(n).drop_last() =~= all.take(n - 1));
        let x = all[n - 1];
        assert(all.take(n).last() == x);
        let keys = keys_of(before);
        crate::order::lemma_slot(keys, x.0);
        let at = slot(keys, x.0);
        let t = sorted_by_key(all.take(n));
        assert(t == before.insert(at, x));
        assert forall|k: int| 0 <= k < n implies 0 <= (#[trigger] t[k]).1 < n && t[k].0 == -(
        scores[t[k].1] as int) by {
            if k < at {
                assert(t[k] == before[k]);
            } else if k > at {
                assert(t[k] == before[k - 1]);
            }
        }
        assert forall|i: int, j: int|
            #![trigger t[i], t[j]]
            0 <= i < j < n implies t[i].0 < t[j].0 || (t[i].0 == t[j].0 && t[i].1 < t[j].1) by {
            let a = if i < at {
                i
            } else {
                i - 1
            };
            let b = if j < at {
                j
            } else {
                j - 1
            };
            if i != at {
                assert(t[i] == before[a]);
            }
            if j != at {
                assert(t[j] == before[b]);
            }
            if i == at {
                assert(keys[b] > x.0);
            } else if j == at {
                assert(keys[at - 1] <= x.0);
                if i < at - 1 {
                    assert(before[i].0 <= before[at - 1].0);
                }
            }
        }
        assert forall|i: int| 0 <= i < n implies #[trigger] holds_place(t, i) by {
            if i == n - 1 {
                assert(t[at].1 == i);
            } else {
                assert(holds_place(before, i));
                let k = choose|k: int| 0 <= k < before.len() && (#[trigger] before[k]).1 == i;
                if k < at {
                    assert(t[k] == before[k]);
                } else {
                    assert(t[k + 1] == before[k]);
                }
            }
        }
    }
}

/// The places kept of a list of scores are the best: they are places of the list, each once, by
/// descending score, of equal scores the earlier one first; no place that is left out has a greater
/// score than one that is kept, and none is left out unless there are more than `cap`.
pub proof fn best_places_are_the_best(scores: Seq<u64>, cap: nat)
    ensures
        best_places(scores, cap).len() == (if scores.len() <= cap {
            scores.len()
        } else {
            cap
        }),
        forall|i: int|
            0 <= i < best_places(scores, cap).len() ==> 0 <= #[trigger] best_places(scores, cap)[i]
                < scores.len(),
        forall|i: int, j: int|
            #![trigger best_places(scores, cap)[i], best_places(scores, cap)[j]]
            0 <= i < j < best_places(scores, cap).len() ==> {
                let a = best_places(scores, cap)[i];
                let b = best_places(scores, cap)[j];
                scores[a] > scores[b] || (scores[a] == scores[b] && a < b)
            },
        forall|k: int, i: int|
            #![trigger scores[k], best_places(scores, cap)[i]]
            0 <= k < scores.len() && 0 <= i < best_places(scores, cap).len() && !best_places(
                scores,
                cap,
            ).contains(k) ==> scores[k] <= scores[best_places(scores, cap)[i]],
        forall|k: int|
            0 <= k < scores.len() && scores.len() <= cap ==> #[trigger] best_places(
                scores,
                cap,
            ).contains(k),
{
    let n = scores.len() as int;
    let all = Seq::new(scores.len(), |i: int| (-(scores[i] as int), i));
    lemma_sorted_scores(scores, n);
    assert(all.take(n) =~= all);
    let t = sorted_by_key(all);
    let p = best_places(scores, cap);
    assert forall|i: int| 0 <= i < p.len() implies 0 <= #[trigger] p[i] < scores.len() by {
        assert(p[i] == t[i].1);
    }
    assert forall|i: int, j: int| #![trigger p[i], p[j]] 0 <= i < j < p.len() implies scores[p[i]]
        > scores[p[j]] || (scores[p[i]] == scores[p[j]] && p[i] < p[j]) by {
        assert(p[i] == t[i].1 && p[j] == t[j].1);
    }
    assert forall|k: int| #![trigger scores[k]] 0 <= k < scores.len() implies p.contains(k) || (p.len()
        == cap && forall|i: int| 0 <= i < p.len() ==> scores[k] <= scores[#[trigger] p[i]]) by {
        assert(holds_place(t, k));
        let m = choose|m: int| 0 <= m < t.len() && (#[trigger] t[m]).1 == k;
        if m < p.len() {
            assert(p[m] == k);
        } else {
            assert forall|i: int| 0 <= i < p.len() implies scores[k] <= scores[#[trigger] p[i]] by {
                assert(p[i] == t[i].1);
                assert(t[i].0 <= t[m].0);
            }
        }
    }
    assert forall|k: int| 0 <= k < scores.len() && scores.len() <= cap implies #[trigger] p.contains(
        k,
    ) by {
        assert(holds_place(t, k));
        let m = choose|m: int| 0 <= m < t.len() && (#[trigger] t[m]).1 == k;
        assert(p[m] == k);
    }
}

/// Whether `m` is the greatest score that the rows give to an entry.
pub open spec fn is_top_score(rows: Seq<(i64, u64)>, id: i64, m: u64) -> bool {
    &&& rows.contains((id, m))
    &&& forall|k: int| 0 <= k < rows.len() && (#[trigger] rows[k]).0 == id ==> rows[k].1 <= m
}

/// Whether a row speaks of an entry.
pub open spec fn has_row(rows: Seq<(i64, u64)>, id: i64) -> bool {
    exists|k: int| 0 <= k < rows.len() && (#[trigger] rows[k]).0 == id
}

proof fn lemma_score_place(v: Seq<(i64, u64)>, id: i64, i: int)
    requires
        0 <= i,
    ensures
        match score_place(v, id, i) {
            Some(k) => i <= k < v.len() && v[k].0 == id,
            None => forall|k: int| i <= k < v.len() ==> (#[trigger] v[k]).0 != id,
        },
    decreases v.len() - i,
{
    if i < v.len() && v[i].0 != id {
        lemma_score_place(v, id, i + 1);
    }
}

/// In the list of best scores each entry of the rows stands once, with the greatest score that a
/// row gives it.
pub proof fn best_scores_are_the_greatest(rows: Seq<(i64, u64)>)
    ensures
        forall|k: int|
            0 <= k < best_scores(rows).len() ==> is_top_score(
                rows,
                (#[trigger] best_scores(rows)[k]).0,
                best_scores(rows)[k].1,
            ),
        forall|j: int, k: int|
            #![trigger best_scores(rows)[j], best_scores(rows)[k]]
            0 <= j < k < best_scores(rows).len() ==> best_scores(rows)[j].0 != best_scores(
                rows,
            )[k].0,
        forall|n: int|
            #![trigger rows[n]]
            0 <= n < rows.len() ==> has_row(best_scores(rows), rows[n].0),
    decreases rows.len(),
{
    if rows.len() > 0 {
        let head = rows.drop_last();
        let x = rows.last();
        best_scores_are_the_greatest(head);
        let before = best_scores(head);
        let now = best_scores(rows);
        lemma_score_place(before, x.0, 0);
        assert(rows[rows.len() - 1] == x);
        assert forall|k: int| 0 <= k < now.len() implies is_top_score(
            rows,
            (#[trigger] now[k]).0,
            now[k].1,
        ) by {
            if k < before.len() {
                assert(now[k].0 == before[k].0);
                assert(is_top_score(head, before[k].0, before[k].1));
                let m = choose|m: int| 0 <= m < head.len() && head[m] == before[k];
                assert(rows[m] == before[k]);
            }
            if now[k] == x {
                assert(rows.contains(x));
            }
            assert forall|n: int| 0 <= n < rows.len() && (#[trigger] rows[n]).0
                == now[k].0 implies rows[n].1 <= now[k].1 by {
                if n < head.len() {
                    assert(head[n] == rows[n]);
                    if k >= before.len() {
                        assert(has_row(before, head[n].0));
                    }
                }
            }
        }
        assert forall|n: int| #![trigger rows[n]] 0 <= n < rows.len() implies has_row(
            now,
            rows[n].0,
        ) by {
            if n < head.len() {
                assert(head[n] == rows[n]);
                assert(has_row(before, rows[n].0));
                let m = choose|m: int| 0 <= m < before.len() && (#[trigger] before[m]).0
                    == rows[n].0;
                assert(now[m].0 == rows[n].0);
            } else {
                match score_place(before, x.0, 0) {
                    Some(i) => {
                        assert(now[i].0 == x.0);
                    },
                    None => {
                        assert(now[before.len() as int].0 == x.0);
                    },
                }
            }
        }
    }
}

/// The entries that are nearest are entries of the rows, each once, fifty at most. An entry counts
/// by the greatest score that a row gives it: of two that are returned the one with the greater
/// comes first, and none that is left out has a greater one than one that is returned. None is left
/// out where fewer than fifty are returned.
pub proof fn nearest_by_their_best_rows(rows: Seq<(i64, u64)>)
    ensures
        nearest(rows).len() <= 50,
        forall|i: int|
            0 <= i < nearest(rows).len() ==> has_row(rows, #[trigger] nearest(rows)[i]),
        forall|i: int, j: int|
            #![trigger nearest(rows)[i], nearest(rows)[j]]
            0 <= i < j < nearest(rows).len() ==> nearest(rows)[i] != nearest(rows)[j],
        forall|i: int, j: int, a: u64, b: u64|
            #![trigger is_top_score(rows, nearest(rows)[i], a), is_top_score(rows, nearest(rows)[j], b)]
            0 <= i < nearest(rows).len() && 0 <= j < nearest(rows).len() && is_top_score(
                rows,
                nearest(rows)[i],
                a,
            ) && is_top_score(rows, nearest(rows)[j], b) && a > b ==> i < j,
        forall|i: int, id: i64, a: u64, b: u64|
            #![trigger is_top_score(rows, nearest(rows)[i], a), is_top_score(rows, id, b)]
            0 <= i < nearest(rows).len() && !nearest(rows).contains(id) && is_top_score(
                rows,
                nearest(rows)[i],
                a,
            ) && is_top_score(rows, id, b) ==> b <= a,
        forall|n: int|
            #![trigger rows[n]]
            0 <= n < rows.len() && nearest(rows).len() < 50 ==> nearest(rows).contains(rows[n].0),
{
    let best = best_scores(rows);
    let scores = just_scores(best);
    let places = best_places(scores, 50);
    let r = nearest(rows);
    best_scores_are_the_greatest(rows);
    best_places_are_the_best(scores, 50);
    assert(r.len() == places.len());
    assert forall|i: int| 0 <= i < r.len() implies has_row(rows, #[trigger] r[i]) && r[i]
        == best[places[i]].0 by {
        assert(is_top_score(rows, best[places[i]].0, best[places[i]].1));
        let m = choose|m: int| 0 <= m < rows.len() && rows[m] == best[places[i]];
        assert(rows[m].0 == r[i]);
    }
    assert forall|i: int, j: int| #![trigger r[i], r[j]] 0 <= i < j < r.len() implies r[i] != r[j] by {
        assert(r[i] == best[places[i]].0 && r[j] == best[places[j]].0);
        assert(places[i] != places[j]);
    }
    assert forall|i: int, a: u64|
        0 <= i < r.len() && #[trigger] is_top_score(rows, r[i], a) implies a == scores[places[i]] by {
        let b = best[places[i]];
        assert(is_top_score(rows, b.0, b.1));
        let m = choose|m: int| 0 <= m < rows.len() && rows[m] == (r[i], a);
        let k = choose|k: int| 0 <= k < rows.len() && rows[k] == b;
        assert(rows[m].0 == r[i] && rows[k].0 == r[i]);
    }
    assert forall|i: int, j: int, a: u64, b: u64|
        #![trigger is_top_score(rows, r[i], a), is_top_score(rows, r[j], b)]
        0 <= i < r.len() && 0 <= j < r.len() && is_top_score(rows, r[i], a) && is_top_score(
            rows,
            r[j],
            b,
        ) && a > b implies i < j by {
        assert(a == scores[places[i]] && b == scores[places[j]]);
    }
    assert forall|id: i64, b: u64| #[trigger] is_top_score(rows, id, b) implies exists|k: int|
        0 <= k < best.len() && #[trigger] best[k] == (id, b) by {
        let m = choose|m: int| 0 <= m < rows.len() && rows[m] == (id, b);
        assert(has_row(best, rows[m].0));
        let k = choose|k: int| 0 <= k < best.len() && (#[trigger] best[k]).0 == id;
        assert(is_top_score(rows, best[k].0, best[k].1));
        let n = choose|n: int| 0 <= n < rows.len() && rows[n] == best[k];
        assert(rows[n].0 == id && rows[m].0 == id);
    }
    assert forall|i: int, id: i64, a: u64, b: u64|
        #![trigger is_top_score(rows, r[i], a), is_top_score(rows, id, b)]
        0 <= i < r.len() && !r.contains(id) && is_top_score(rows, r[i], a) && is_top_score(
            rows,
            id,
            b,
        ) implies b <= a by {
        let k = choose|k: int| 0 <= k < best.len() && #[trigger] best[k] == (id, b);
        if places.contains(k) {
            let m = choose|m: int| 0 <= m < places.len() && places[m] == k;
            assert(r[m] == id);
        }
        assert(scores[k] <= scores[places[i]]);
        assert(a == scores[places[i]]);
    }
    assert forall|n: int|
        #![trigger rows[n]]
        0 <= n < rows.len() && r.len() < 50 implies r.contains(rows[n].0) by {
        assert(has_row(best, rows[n].0));
        let k = choose|k: int| 0 <= k < best.len() && (#[trigger] best[k]).0 == rows[n].0;
        assert(scores[k] == best[k].1);
        assert(places.contains(k));
        let m = choose|m: int| 0 <= m < places.len() && places[m] == k;
        assert(r[m] == rows[n].0);
    }
}

/// Whether a mark is one of those of an entry.
pub open spec fn has_mark(v: Seq<FoundView>, id: int, lane: Lane, rank: int) -> bool {
    exists|k: int| 0 <= k < v.len() && (#[trigger] v[k]).id == id && v[k].marks.contains((lane, rank))
}

proof fn lemma_with_mark(v: Seq<FoundView>, id: int, lane: Lane, rank: int)
    requires
        ids_differ(v),
    ensures
        forall|i: int, l: Lane, n: int| #[trigger]
            has_mark(with_mark(v, id, lane, rank), i, l, n) <==> has_mark(v, i, l, n) || (i == id && l
                == lane && n == rank),
{
    let r = with_mark(v, id, lane, rank);
    lemma_place_of(v, id, 0);
    match place_of(v, id, 0) {
        Some(k) => {
            assert(r[k].marks.last() == (lane, rank));
            assert(r[k].marks[v[k].marks.len() as int] == (lane, rank));
            assert forall|i: int, l: Lane, n: int| #[trigger]
                has_mark(r, i, l, n) <==> has_mark(v, i, l, n) || (i == id && l == lane && n == rank) by {
                if has_mark(r, i, l, n) {
                    let m = choose|m: int|
                        0 <= m < r.len() && (#[trigger] r[m]).id == i && r[m].marks.contains((l, n));
                    if m != k {
                        assert(v[m] == r[m]);
                    } else {
                        let x = choose|x: int| 0 <= x < r[m].marks.len() && r[m].marks[x] == (l, n);
                        if x < v[k].marks.len() {
                            assert(v[k].marks[x] == (l, n));
                        }
                        assert(v[k].id == i);
                    }
                }
                if has_mark(v, i, l, n) {
                    let m = choose|m: int|
                        0 <= m < v.len() && (#[trigger] v[m]).id == i && v[m].marks.contains((l, n));
                    if m != k {
                        assert(v[m] == r[m]);
                    } else {
                        let x = choose|x: int| 0 <= x < v[m].marks.len() && v[m].marks[x] == (l, n);
                        assert(r[k].marks[x] == (l, n));
                        assert(r[k].id == i);
                    }
                }
                if i == id && l == lane && n == rank {
                    assert(r[k].id == i);
                }
            }
        },
        None => {
            let k = v.len() as int;
            assert(r[k].marks[0] == (lane, rank));
            assert forall|i: int, l: Lane, n: int| #[trigger]
                has_mark(r, i, l, n) <==> has_mark(v, i, l, n) || (i == id && l == lane && n == rank) by {
                if has_mark(r, i, l, n) {
                    let m = choose|m: int|
                        0 <= m < r.len() && (#[trigger] r[m]).id == i && r[m].marks.contains((l, n));
                    if m < k {
                        assert(v[m] == r[m]);
                    }
                }
                if has_mark(v, i, l, n) {
                    let m = choose|m: int|
                        0 <= m < v.len() && (#[trigger] v[m]).id == i && v[m].marks.contains((l, n));
                    assert(v[m] == r[m]);
                }
                if i == id && l == lane && n == rank {
                    assert(r[k].id == i);
                }
            }
        },
    }
}

/// A list gives each of its entries a mark with its place in the list, and gives no other marks;
/// the marks of earlier lists stay.
pub proof fn lists_leave_their_marks(v: Seq<FoundView>, ids: Seq<i64>, lane: Lane)
    requires
        ids_differ(v),
    ensures
        forall|id: int, l: Lane, n: int| #[trigger]
            has_mark(with_marks(v, ids, lane), id, l, n) <==> has_mark(v, id, l, n) || (l == lane && 0
                <= n < ids.len() && ids[n] == id),
    decreases ids.len(),
{
    if ids.len() > 0 {
        let head = ids.drop_last();
        lists_leave_their_marks(v, head, lane);
        found_entries_differ(v, head, lane);
        let before = with_marks(v, head, lane);
        lemma_with_mark(before, ids.last() as int, lane, ids.len() - 1);
        assert forall|id: int, l: Lane, n: int| #[trigger]
            has_mark(with_marks(v, ids, lane), id, l, n) <==> has_mark(v, id, l, n) || (l == lane && 0
                <= n < ids.len() && ids[n] == id) by {
            assert(has_mark(before, id, l, n) || !has_mark(before, id, l, n));
            if 0 <= n < head.len() {
                assert(head[n] == ids[n]);
            }
        }
    }
}

/// The lanes of an entry are those of its marks, each once.
pub proof fn lanes_are_those_of_the_marks(marks: Seq<(Lane, int)>)
    ensures
        forall|l: Lane| #[trigger]
            lanes_of(marks).contains(l) <==> exists|k: int|
                0 <= k < marks.len() && (#[trigger] marks[k]).0 == l,
        forall|i: int, j: int|
            #![trigger lanes_of(marks)[i], lanes_of(marks)[j]]
            0 <= i < j < lanes_of(marks).len() ==> lanes_of(marks)[i] != lanes_of(marks)[j],
    decreases marks.len(),
{
    if marks.len() > 0 {
        let head = marks.drop_last();
        lanes_are_those_of_the_marks(head);
        let before = lanes_of(head);
        let now = lanes_of(marks);
        let last = marks.last().0;
        assert(marks[marks.len() - 1].0 == last);
        assert forall|l: Lane| #[trigger] now.contains(l) <==> exists|k: int|
            0 <= k < marks.len() && (#[trigger] marks[k]).0 == l by {
            if now.contains(l) {
                let i = choose|i: int| 0 <= i < now.len() && now[i] == l;
                if i < before.len() {
                    assert(before[i] == l);
                    assert(before.contains(l));
                    let k = choose|k: int| 0 <= k < head.len() && (#[trigger] head[k]).0 == l;
                    assert(marks[k].0 == l);
                }
            }
            if exists|k: int| 0 <= k < marks.len() && (#[trigger] marks[k]).0 == l {
                let k = choose|k: int| 0 <= k < marks.len() && (#[trigger] marks[k]).0 == l;
                if k < head.len() {
                    assert(head[k].0 == l);
                    assert(before.contains(l));
                    let i = choose|i: int| 0 <= i < before.len() && before[i] == l;
                    assert(now[i] == l);
                } else if !before.contains(last) {
                    assert(now[before.len() as int] == l);
                }
            }
        }
        assert forall|i: int, j: int|
            #![trigger now[i], now[j]]
            0 <= i < j < now.len() implies now[i] != now[j] by {
            assert(now[i] == before[i]);
            if j < before.len() {
                assert(now[j] == before[j]);
            }
        }
    }
}

proof fn lemma_hit_places(keys: Seq<HitKeyView>, n: int)
    requires
        0 <= n,
    ensures
        forall|i: int|
            0 <= i < hits_in_order(keys, n).len() ==> 0 <= #[trigger] hits_in_order(keys, n)[i] < n,
        forall|k: int| 0 <= k < n ==> #[trigger] hits_in_order(keys, n).contains(k),
        forall|i: int, j: int|
            #![trigger hits_in_order(keys, n)[i], hits_in_order(keys, n)[j]]
            0 <= i < j < hits_in_order(keys, n).len() ==> hits_in_order(keys, n)[i]
                != hits_in_order(keys, n)[j],
    decreases n,
{
    if n > 0 {
        lemma_hit_places(keys, n - 1);
        lemma_hit_inserted(keys, hits_in_order(keys, n - 1), n - 1);
        let before = hits_in_order(keys, n - 1);
        let now = hits_in_order(keys, n);
        assert forall|i: int| 0 <= i < now.len() implies 0 <= #[trigger] now[i] < n by {
            assert(now.contains(now[i]));
            if before.contains(now[i]) {
                let m = choose|m: int| 0 <= m < before.len() && before[m] == now[i];
                assert(0 <= before[m] < n - 1);
            }
        }
        assert forall|k: int| 0 <= k < n implies #[trigger] now.contains(k) by {
            if k < n - 1 {
                assert(before.contains(k));
            }
        }
        assert(!before.contains(n - 1)) by {
            if before.contains(n - 1) {
                let m = choose|m: int| 0 <= m < before.len() && before[m] == n - 1;
                assert(before[m] < n - 1);
            }
        }
    }
}

proof fn lemma_hit_inserted(keys: Seq<HitKeyView>, order: Seq<int>, k: int)
    ensures
        forall|x: int| #[trigger]
            with_hit(keys, order, k).contains(x) <==> order.contains(x) || x == k,
        (forall|i: int, j: int|
            #![trigger order[i], order[j]]
            0 <= i < j < order.len() ==> order[i] != order[j]) && !order.contains(k) ==> forall|
            i: int,
            j: int,
        |
            #![trigger with_hit(keys, order, k)[i], with_hit(keys, order, k)[j]]
            0 <= i < j < with_hit(keys, order, k).len() ==> with_hit(keys, order, k)[i] != with_hit(
                keys,
                order,
                k,
            )[j],
    decreases order.len(),
{
    let r = with_hit(keys, order, k);
    if order.len() == 0 || !hit_before(keys[k], keys[order.last()]) {
        assert(r[order.len() as int] == k);
        assert forall|x: int| #[trigger] r.contains(x) <==> order.contains(x) || x == k by {
            if order.contains(x) {
                let m = choose|m: int| 0 <= m < order.len() && order[m] == x;
                assert(r[m] == x);
            }
            if r.contains(x) {
                let m = choose|m: int| 0 <= m < r.len() && r[m] == x;
                if m < order.len() {
                    assert(order[m] == x);
                }
            }
        }
        if !order.contains(k) {
            assert forall|i: int| 0 <= i < order.len() implies #[trigger] r[i] != k && r[i]
                == order[i] by {}
        }
    } else {
        let head = order.drop_last();
        lemma_hit_inserted(keys, head, k);
        let q = with_hit(keys, head, k);
        let last = order.last();
        assert(order[order.len() - 1] == last);
        assert(r[q.len() as int] == last);
        assert forall|x: int| #[trigger] r.contains(x) <==> order.contains(x) || x == k by {
            if order.contains(x) {
                let m = choose|m: int| 0 <= m < order.len() && order[m] == x;
                if m < head.len() {
                    assert(head[m] == x);
                    assert(q.contains(x));
                }
            }
            if q.contains(x) {
                let m = choose|m: int| 0 <= m < q.len() && q[m] == x;
                assert(r[m] == x);
            }
            if x == k {
                assert(q.contains(x));
            }
            if r.contains(x) {
                let m = choose|m: int| 0 <= m < r.len() && r[m] == x;
                if m < q.len() {
                    assert(q[m] == x);
                    assert(q.contains(x));
                    if head.contains(x) {
                        let n = choose|n: int| 0 <= n < head.len() && head[n] == x;
                        assert(order[n] == x);
                    }
                }
            }
        }
        if (forall|i: int, j: int|
            #![trigger order[i], order[j]]
            0 <= i < j < order.len() ==> order[i] != order[j]) && !order.contains(k) {
            assert forall|i: int, j: int|
                #![trigger head[i], head[j]]
                0 <= i < j < head.len() implies head[i] != head[j] by {
                assert(order[i] == head[i] && order[j] == head[j]);
            }
            assert(!head.contains(k)) by {
                if head.contains(k) {
                    let n = choose|n: int| 0 <= n < head.len() && head[n] == k;
                    assert(order[n] == k);
                }
            }
            assert forall|i: int, j: int|
                #![trigger r[i], r[j]]
                0 <= i < j < r.len() implies r[i] != r[j] by {
                assert(r[i] == q[i]);
                if j < q.len() {
                    assert(r[j] == q[j]);
                } else {
                    assert(q.contains(q[i]));
                    if head.contains(q[i]) {
                        let n = choose|n: int| 0 <= n < head.len() && head[n] == q[i];
                        assert(order[n] == q[i]);
                    }
                }
            }
        }
    }
}

/// Whether one hit may be shown before another: not behind an entry about the query unless it is
/// one, and among those alike in that not with a lower score, a later source or a later title, the
/// first of these that differs counting.
pub open spec fn may_precede(a: HitKeyView, b: HitKeyView) -> bool {
    &&& b.indexish ==> a.indexish
    &&& a.indexish == b.indexish ==> a.score >= b.score
    &&& a.indexish == b.indexish && a.score == b.score ==> a.source_rank <= b.source_rank
    &&& a.indexish == b.indexish && a.score == b.score && a.source_rank == b.source_rank
        ==> !text_less(b.title, a.title)
}

/// The hits that are shown are the best twenty: places of the list, each once, in their order, and
/// none that is left out had to come before one of them.
pub proof fn the_best_hits_are_shown(keys: Seq<HitKeyView>)
    ensures
        forall|i: int|
            0 <= i < top_hits(keys).len() ==> 0 <= #[trigger] top_hits(keys)[i] < keys.len(),
        forall|i: int, j: int|
            #![trigger top_hits(keys)[i], top_hits(keys)[j]]
            0 <= i < j < top_hits(keys).len() ==> top_hits(keys)[i] != top_hits(keys)[j]
                && may_precede(keys[top_hits(keys)[i]], keys[top_hits(keys)[j]]),
        forall|k: int, i: int|
            #![trigger keys[k], top_hits(keys)[i]]
            0 <= k < keys.len() && 0 <= i < top_hits(keys).len() && !top_hits(keys).contains(k)
                ==> may_precede(keys[top_hits(keys)[i]], keys[k]),
        forall|k: int|
            0 <= k < keys.len() && keys.len() <= 20 ==> #[trigger] top_hits(keys).contains(k),
{
    let n = keys.len() as int;
    let all = hits_in_order(keys, n);
    let top = top_hits(keys);
    lemma_hits_in_order(keys, n);
    lemma_hit_places(keys, n);
    assert forall|i: int| 0 <= i < top.len() implies 0 <= #[trigger] top[i] < keys.len() by {
        assert(top[i] == all[i]);
    }
    assert forall|a: HitKeyView, b: HitKeyView| !hit_before(b, a) implies #[trigger] may_precede(
        a,
        b,
    ) by {}
    assert forall|i: int, j: int|
        #![trigger top[i], top[j]]
        0 <= i < j < top.len() implies top[i] != top[j] && may_precede(keys[top[i]], keys[top[j]]) by {
        assert(top[i] == all[i] && top[j] == all[j]);
    }
    assert forall|k: int, i: int|
        #![trigger keys[k], top[i]]
        0 <= k < keys.len() && 0 <= i < top.len() && !top.contains(k) implies may_precede(
        keys[top[i]],
        keys[k],
    ) by {
        assert(all.contains(k));
        let m = choose|m: int| 0 <= m < all.len() && all[m] == k;
        if m < top.len() {
            assert(top[m] == k);
        }
        assert(top[i] == all[i]);
        assert(!hit_before(keys[all[m]], keys[all[i]]));
    }
    assert forall|k: int| 0 <= k < keys.len() && keys.len() <= 20 implies #[trigger] top.contains(
        k,
    ) by {
        assert(all.contains(k));
    }
}

/// The last pair with a term tells what it stands for.
pub proof fn the_last_synonym_counts(syn: Seq<(Seq<char>, Seq<char>)>, t: Seq<char>, i: int)
    requires
        0 <= i < syn.len(),
        syn[i].0 == t,
        forall|j: int| i < j < syn.len() ==> (#[trigger] syn[j]).0 != t,
    ensures
        synonym_of(syn, t) == Some(syn[i].1),
    decreases syn.len(),
{
    if i < syn.len() - 1 {
        assert(syn[syn.len() - 1].0 != t);
        let head = syn.drop_last();
        assert forall|j: int| i < j < head.len() implies (#[trigger] head[j]).0 != t by {
            assert(syn[j].0 != t);
        }
        the_last_synonym_counts(head, t, i);
    }
}

proof fn lemma_synonym_terms(
    syn: Seq<(Seq<char>, Seq<char>)>,
    terms: Seq<Seq<char>>,
    k: int,
    c: Seq<char>,
)
    requires
        0 <= k < terms.len(),
        synonym_of(syn, unescaped(terms[k])) == Some(c) || synonym_of(syn, terms[k]) == Some(c),
    ensures
        synonym_terms(syn, terms).contains(escaped(c)),
    decreases terms.len(),
{
    let head = terms.drop_last();
    let before = synonym_terms(syn, head);
    let a = synonym_term(syn, unescaped(terms.last()));
    let b = synonym_term(syn, terms.last());
    let now = synonym_terms(syn, terms);
    assert(now == before + a + b);
    if k < head.len() {
        lemma_synonym_terms(syn, head, k, c);
        let i = choose|i: int| 0 <= i < before.len() && before[i] == escaped(c);
        assert(now[i] == escaped(c));
    } else if synonym_of(syn, unescaped(terms[k])) == Some(c) {
        assert(now[before.len() as int] == a[0]);
    } else {
        assert(now[(before.len() + a.len()) as int] == b[0]);
    }
}

/// A query is searched by all its terms and by what they stand for: every term of the query is
/// among the terms of the plan, and so is, escaped, whatever the synonyms give for one. A term with
/// Chinese characters is one of the first sort, any other of the second.
pub proof fn queries_are_searched_by_their_terms(
    text: Seq<char>,
    words: Seq<Seq<char>>,
    syn: Seq<(Seq<char>, Seq<char>)>,
)
    ensures
        forall|t: Seq<char>| #[trigger]
            terms_of(text, 48, 32, words).contains(t) ==> query_terms(text, words, syn).contains(t),
        forall|k: int, c: Seq<char>|
            #![trigger terms_of(text, 48, 32, words)[k], escaped(c)]
            0 <= k < terms_of(text, 48, 32, words).len() && (synonym_of(
                syn,
                unescaped(terms_of(text, 48, 32, words)[k]),
            ) == Some(c) || synonym_of(syn, terms_of(text, 48, 32, words)[k]) == Some(c))
                ==> query_terms(text, words, syn).contains(escaped(c)),
        forall|t: Seq<char>| #[trigger]
            query_terms(text, words, syn).contains(t) ==> (terms_with(
                query_terms(text, words, syn),
                true,
            ).contains(t) <==> hanzi_of(unescaped(t)).len() > 0) && (terms_with(
                query_terms(text, words, syn),
                false,
            ).contains(t) <==> hanzi_of(unescaped(t)).len() == 0),
{
    let base = terms_of(text, 48, 32, words);
    let more = synonym_terms(syn, base);
    let all = query_terms(text, words, syn);
    crate::order::sorted_texts_ascend(base + more);
    assert forall|t: Seq<char>| #[trigger] base.contains(t) implies all.contains(t) by {
        let k = choose|k: int| 0 <= k < base.len() && base[k] == t;
        assert((base + more)[k] == t);
        assert((base + more).contains(t));
    }
    assert forall|k: int, c: Seq<char>|
        #![trigger base[k], escaped(c)]
        0 <= k < base.len() && (synonym_of(syn, unescaped(base[k])) == Some(c) || synonym_of(
            syn,
            base[k],
        ) == Some(c)) implies all.contains(escaped(c)) by {
        lemma_synonym_terms(syn, base, k, c);
        let i = choose|i: int| 0 <= i < more.len() && more[i] == escaped(c);
        assert((base + more)[base.len() + i] == escaped(c));
        assert((base + more).contains(escaped(c)));
    }
    lemma_terms_with(all, true);
    lemma_terms_with(all, false);
}

proof fn lemma_terms_with(terms: Seq<Seq<char>>, ones: bool)
    ensures
        forall|t: Seq<char>| #[trigger]
            terms_with(terms, ones).contains(t) <==> terms.contains(t) && is_hanzi_term(t) == ones,
    decreases terms.len(),
{
    if terms.len() > 0 {
        let head = terms.drop_last();
        lemma_terms_with(head, ones);
        let before = terms_with(head, ones);
        let now = terms_with(terms, ones);
        let last = terms.last();
        assert(terms[terms.len() - 1] == last);
        assert forall|t: Seq<char>| #[trigger] now.contains(t) <==> terms.contains(t) && is_hanzi_term(t)
            == ones by {
            if now.contains(t) {
                let i = choose|i: int| 0 <= i < now.len() && now[i] == t;
                if i < before.len() {
                    assert(before[i] == t);
                    assert(before.contains(t));
                    let k = choose|k: int| 0 <= k < head.len() && head[k] == t;
                    assert(terms[k] == t);
                }
            }
            if terms.contains(t) && is_hanzi_term(t) == ones {
                let k = choose|k: int| 0 <= k < terms.len() && terms[k] == t;
                if k < head.len() {
                    assert(head[k] == t);
                    assert(before.contains(t));
                    let i = choose|i: int| 0 <= i < before.len() && before[i] == t;
                    assert(now[i] == t);
                } else {
                    assert(now[before.len() as int] == t);
                }
            }
        }
    }
}

/// How the query stands in an entry: its title, a part of its title, a part of another name, or so
/// many times in its body, the first of these that holds.
pub proof fn boosts_say_where_the_query_stands(c: ChunkView, q: Seq<char>)
    requires
        q.len() > 0,
    ensures
        boost_of(c, q) is Title <==> normal(c.title) == q,
        boost_of(c, q) is InTitle <==> normal(c.title) != q && exists|i: int| #[trigger]
            crate::scan::occurs_at(normal(c.title), q, i),
        boost_of(c, q) is InName ==> exists|k: int, i: int|
            0 <= k < c.aliases.len() && #[trigger] crate::scan::occurs_at(
                normal(c.aliases[k]),
                q,
                i,
            ),
        boost_of(c, q) is Absent ==> (forall|i: int|
            !#[trigger] crate::scan::occurs_at(normal(c.title), q, i)) && (forall|i: int|
            !#[trigger] crate::scan::occurs_at(normal(c.body), q, i)) && forall|k: int, i: int|
            0 <= k < c.aliases.len() ==> !#[trigger] crate::scan::occurs_at(
                normal(c.aliases[k]),
                q,
                i,
            ),
{
    crate::scan::texts_are_found_where_they_stand(normal(c.title), q);
    crate::scan::texts_are_counted_where_they_stand(normal(c.body), q);
    assert forall|k: int, i: int|
        0 <= k < c.aliases.len() && #[trigger] crate::scan::occurs_at(
            normal(c.aliases[k]),
            q,
            i,
        ) implies in_names(c.aliases, q) by {
        crate::scan::texts_are_found_where_they_stand(normal(c.aliases[k]), q);
    }
    if in_names(c.aliases, q) {
        let k = choose|k: int| 0 <= k < c.aliases.len() && has_text(normal(#[trigger] c.aliases[k]), q);
        crate::scan::texts_are_found_where_they_stand(normal(c.aliases[k]), q);
        let i = choose|i: int| #[trigger] crate::scan::occurs_at(normal(c.aliases[k]), q, i);
        assert(crate::scan::occurs_at(normal(c.aliases[k]), q, i));
    }
    if normal(c.title) == q {
        assert(q.subrange(0, q.len() as int) =~= q);
        assert(crate::scan::occurs_at(normal(c.title), q, 0));
    }
}

/// A pattern stands for its text: a percent sign, an underscore and a backslash get a backslash
/// before them, every other character stays, one character after the other.
pub proof fn patterns_stand_for_their_text(a: Seq<char>, c: char)
    ensures
        like_escaped(a + seq![c]) == like_escaped(a) + (if c == '%' || c == '_' || c == '\\' {
            seq!['\\', c]
        } else {
            seq![c]
        }),
        like_escaped(Seq::empty()) == Seq::<char>::empty(),
{
    reveal_strlit("\\");
    reveal_strlit("\\\\");
    reveal_strlit("%");
    reveal_strlit("\\%");
    reveal_strlit("_");
    reveal_strlit("\\_");
    assert("\\"@ =~= seq!['\\']);
    assert("%"@ =~= seq!['%']);
    assert("_"@ =~= seq!['_']);
    let b1 = "\\\\"@;
    let b2 = "\\%"@;
    let b3 = "\\_"@;
    assert(b1 =~= seq!['\\', '\\']);
    assert(b2 =~= seq!['\\', '%']);
    assert(b3 =~= seq!['\\', '_']);
    let x = seq![c];
    let one = replaced(x, seq!['\\'], b1);
    single_characters_are_replaced(a, x, '\\', b1);
    single_characters_are_replaced(x, Seq::empty(), '\\', b1);
    let a1 = replaced(a, seq!['\\'], b1);
    single_characters_are_replaced(a1, one, '%', b2);
    let two = replaced(one, seq!['%'], b2);
    let a2 = replaced(a1, seq!['%'], b2);
    single_characters_are_replaced(a2, two, '_', b3);
    let back = seq!['\\'];
    single_characters_are_replaced(back, back, '%', b2);
    single_characters_are_replaced(back, back, '_', b3);
    assert(back + back =~= b1);
    if c == '\\' {
        assert(one == b1);
        assert(two =~= b1);
        assert(replaced(two, seq!['_'], b3) =~= b1);
    } else if c == '%' {
        single_characters_are_replaced(x, Seq::empty(), '%', b2);
        assert(two == b2);
        single_characters_are_replaced(back, x, '_', b3);
        single_characters_are_replaced(x, Seq::empty(), '_', b3);
        assert(back + x =~= b2);
        assert(replaced(two, seq!['_'], b3) =~= b2);
    } else {
        single_characters_are_replaced(x, Seq::empty(), '%', b2);
        single_characters_are_replaced(x, Seq::empty(), '_', b3);
    }
}

} // verus!
