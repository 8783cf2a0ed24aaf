//! What the window shows: previews, highlights, the selection, messages, and the settings file.
use crate::llm::{shortened_text, truncate, LlmConfig};
use crate::number::{decimal, signed_decimal, write_decimal, write_signed};
use crate::scan::{
    contains, find_from, has_text, index_from, join, joined, lemma_index_from, replace, replaced,
    strip_end, strip_start, stripped_end, stripped_start,
};
use crate::text::{
    copy, extend, extend_str, is_blank, rows, same_str, texts, to_chars, to_text, trim, trimmed,
};
use crate::types::ImportReport;
use vstd::prelude::*;
use vstd::slice::slice_subrange;

verus! {

// ---------------------------------------------------------------------------------------------
// Previews and highlights
// ---------------------------------------------------------------------------------------------

/// Where the preview of a body begins: eighty characters before the query, if that stands in it.
pub open spec fn preview_start(body: Seq<char>, query: Seq<char>) -> int {
    let q = trimmed(query);
    if q.len() == 0 {
        0
    } else {
        match index_from(body, q, 0) {
            Some(i) => if i > 80 {
                i - 80
            } else {
                0
            },
            None => 0,
        }
    }
}

/// The preview of a body that is longer than `max` characters.
pub open spec fn preview(body: Seq<char>, query: Seq<char>, max: int) -> Seq<char> {
    let a = preview_start(body, query);
    let b = if a + max <= body.len() {
        a + max
    } else {
        body.len() as int
    };
    (if a > 0 {
        "…"@
    } else {
        Seq::<char>::empty()
    }) + body.subrange(a, b) + (if b < body.len() {
        "…"@
    } else {
        Seq::<char>::empty()
    })
}

/// A preview of a body of at most `max_chars` characters around the query, and whether anything
/// was left out.
pub fn snippet_around(body: &str, query: &str, max_chars: usize) -> (r: (String, bool))
    ensures
        r.1 == (body@.len() > max_chars),
        r.0@ == (if body@.len() <= max_chars {
            body@
        } else {
            preview(body@, query@, max_chars as int)
        }),
{
    let v = to_chars(body);
    if v.len() <= max_chars {
        return (to_text(v.as_slice()), false);
    }
    let q_all = to_chars(query);
    let q = trim(q_all.as_slice());
    let a: usize = if q.len() == 0 {
        0
    } else {
        match find_from(v.as_slice(), q, 0) {
            Some(i) => if i > 80 {
                i - 80
            } else {
                0
            },
            None => 0,
        }
    };
    let b: usize = if max_chars <= v.len() - a {
        a + max_chars
    } else {
        v.len()
    };
    let mut out: Vec<char> = Vec::new();
    if a > 0 {
        extend_str(&mut out, "…");
    }
    extend(&mut out, slice_subrange(v.as_slice(), a, b));
    if b < v.len() {
        extend_str(&mut out, "…");
    }
    assert(out@ =~= preview(body@, query@, max_chars as int));
    (to_text(out.as_slice()), true)
}

/// A stretch of a text, and whether it is highlighted.
pub type Stretch = (Seq<char>, bool);

/// A stretch alone, or nothing if it is empty.
pub open spec fn kept_stretch(s: Seq<char>) -> Seq<Stretch> {
    if s.len() == 0 {
        Seq::empty()
    } else {
        seq![(s, false)]
    }
}

/// The stretches of a text with every occurrence of `q`, from the left, highlighted.
pub open spec fn stretches(s: Seq<char>, q: Seq<char>) -> Seq<Stretch>
    decreases s.len(),
{
    match index_from(s, q, 0) {
        Some(i) => if q.len() == 0 || i < 0 || i + q.len() > s.len() {
            kept_stretch(s)
        } else {
            kept_stretch(s.take(i)) + seq![(q, true)] + stretches(s.skip(i + q.len()), q)
        },
        None => kept_stretch(s),
    }
}

/// The stretches of a body; one for the whole if there is no query.
pub open spec fn highlighted(body: Seq<char>, query: Seq<char>) -> Seq<Stretch> {
    let q = trimmed(query);
    if q.len() == 0 {
        seq![(body, false)]
    } else {
        stretches(body, q)
    }
}

/// Stretches put together again.
pub open spec fn flattened(v: Seq<Stretch>) -> Seq<char>
    decreases v.len(),
{
    if v.len() == 0 {
        Seq::empty()
    } else {
        flattened(v.drop_last()) + v.last().0
    }
}

proof fn lemma_flattened_concat(a: Seq<Stretch>, b: Seq<Stretch>)
    ensures
        flattened(a + b) == flattened(a) + flattened(b),
    decreases b.len(),
{
    if b.len() == 0 {
        assert(a + b =~= a);
        assert(flattened(a) + Seq::<char>::empty() =~= flattened(a));
    } else {
        lemma_flattened_concat(a, b.drop_last());
        assert((a + b).drop_last() =~= a + b.drop_last());
        assert((a + b).last() == b.last());
        assert(flattened(a) + flattened(b.drop_last()) + b.last().0 =~= flattened(a) + (flattened(
            b.drop_last(),
        ) + b.last().0));
    }
}

proof fn lemma_one_stretch(x: Stretch)
    ensures
        flattened(seq![x]) == x.0,
{
    assert(seq![x].drop_last() =~= Seq::<Stretch>::empty());
    assert(flattened(Seq::<Stretch>::empty()) + x.0 =~= x.0);
}

proof fn lemma_kept_stretch(s: Seq<char>)
    ensures
        flattened(kept_stretch(s)) == s,
{
    if s.len() > 0 {
        lemma_one_stretch((s, false));
    } else {
        assert(s =~= Seq::<char>::empty());
    }
}

proof fn lemma_stretches(s: Seq<char>, q: Seq<char>)
    ensures
        flattened(stretches(s, q)) == s,
    decreases s.len(),
{
    lemma_index_from(s, q, 0);
    match index_from(s, q, 0) {
        Some(i) => if q.len() == 0 || i < 0 || i + q.len() > s.len() {
            lemma_kept_stretch(s);
        } else {
            let rest = s.skip(i + q.len());
            lemma_stretches(rest, q);
            lemma_kept_stretch(s.take(i));
            lemma_one_stretch((q, true));
            let a = kept_stretch(s.take(i));
            lemma_flattened_concat(a, seq![(q, true)]);
            lemma_flattened_concat(a + seq![(q, true)], stretches(rest, q));
            assert(s.subrange(i, i + q.len()) == q);
            assert(s =~= s.take(i) + q + rest);
        },
        None => {
            lemma_kept_stretch(s);
        },
    }
}

/// Highlighting leaves the text as it is: the stretches put together are the body.
pub proof fn highlighting_keeps_the_text(body: Seq<char>, query: Seq<char>)
    ensures
        flattened(highlighted(body, query)) == body,
{
    if trimmed(query).len() == 0 {
        lemma_one_stretch((body, false));
    } else {
        lemma_stretches(body, trimmed(query));
    }
}

/// The values of stretches.
pub open spec fn stretch_views(v: Seq<(String, bool)>) -> Seq<Stretch> {
    Seq::new(v.len(), |i: int| (v[i].0@, v[i].1))
}

fn push_stretch(out: &mut Vec<(String, bool)>, s: &[char])
    ensures
        stretch_views(final(out)@) == stretch_views(old(out)@) + kept_stretch(s@),
{
    let ghost before = stretch_views(out@);
    if s.len() > 0 {
        let t = to_text(s);
        out.push((t, false));
        assert(stretch_views(out@) =~= before + seq![(s@, false)]);
    } else {
        assert(stretch_views(out@) =~= before + kept_stretch(s@));
    }
}

/// Cuts a body into stretches with every occurrence of the query highlighted.
pub fn highlight(body: &str, query: &str) -> (r: Vec<(String, bool)>)
    ensures
        stretch_views(r@) == highlighted(body@, query@),
{
    let v = to_chars(body);
    let q_all = to_chars(query);
    let q = trim(q_all.as_slice());
    let mut out: Vec<(String, bool)> = Vec::new();
    if q.len() == 0 {
        out.push((to_text(v.as_slice()), false));
        assert(stretch_views(out@) =~= seq![(body@, false)]);
        return out;
    }
    let mut at: usize = 0;
    let ghost whole = stretches(body@, q@);
    proof {
        assert(v@.skip(0) =~= v@);
        assert(stretch_views(out@) + whole =~= whole);
    }
    loop
        invariant_except_break
            at <= v@.len(),
            q@.len() > 0,
            v@ == body@,
            stretch_views(out@) + stretches(v@.skip(at as int), q@) == whole,
        ensures
            stretch_views(out@) == whole,
        decreases v@.len() - at,
    {
        let rest = slice_subrange(v.as_slice(), at, v.len());
        assert(rest@ =~= v@.skip(at as int));
        match find_from(rest, q, 0) {
            Some(i) => {
                let ghost before = stretch_views(out@);
                let head = slice_subrange(rest, 0, i);
                assert(head@ =~= rest@.take(i as int));
                push_stretch(&mut out, head);
                let ghost mid = stretch_views(out@);
                let t = to_text(q);
                out.push((t, true));
                proof {
                    let tail = stretches(v@.skip(at + i + q@.len()), q@);
                    assert(stretch_views(out@) =~= mid + seq![(q@, true)]);
                    assert(rest@.skip(i + q@.len()) =~= v@.skip(at + i + q@.len()));
                    assert(before + (kept_stretch(head@) + seq![(q@, true)] + tail) =~= before
                        + kept_stretch(head@) + seq![(q@, true)] + tail);
                }
                at = at + i + q.len();
            },
            None => {
                push_stretch(&mut out, rest);
                break;
            },
        }
    }
    out
}

// ---------------------------------------------------------------------------------------------
// Selection
// ---------------------------------------------------------------------------------------------

/// Where an entry stands in a list, at or after `i`.
pub open spec fn place_in(ids: Seq<i64>, id: i64, i: int) -> Option<int>
    decreases ids.len() - i,
{
    if i < 0 || i >= ids.len() {
        None
    } else if ids[i] == id {
        Some(i)
    } else {
        place_in(ids, id, i + 1)
    }
}

/// The place of the entry at hand: the one being read, or else the selected one, or else the first.
pub open spec fn current_place(ids: Seq<i64>, reading: Option<i64>, selected: Option<i64>) -> int {
    match (match reading {
        Some(id) => Some(id),
        None => selected,
    }) {
        Some(id) => match place_in(ids, id, 0) {
            Some(i) => i,
            None => 0,
        },
        None => 0,
    }
}

/// A number brought between zero and `max`.
pub open spec fn clamped(n: int, max: int) -> int {
    if n < 0 {
        0
    } else if n > max {
        max
    } else {
        n
    }
}

/// Moves the selection by `delta` places in the list of hits, no further than its ends. Nothing
/// moves where there are no hits.
pub fn move_selection(ids: &Vec<i64>, reading: Option<i64>, selected: Option<i64>, delta: i32) -> (r: Option<
    i64,
>)
    ensures
        r == (if ids@.len() == 0 {
            None
        } else {
            Some(
                ids@[clamped(
                    current_place(ids@, reading, selected) + delta,
                    ids@.len() - 1,
                )],
            )
        }),
{
    if ids.len() == 0 {
        return None;
    }
    let at_hand = match reading {
        Some(id) => Some(id),
        None => selected,
    };
    let mut cur: usize = 0;
    match at_hand {
        Some(id) => {
            let mut i: usize = 0;
            while i < ids.len() && ids[i] != id
                invariant
                    i <= ids@.len(),
                    place_in(ids@, id, 0) == place_in(ids@, id, i as int),
                decreases ids@.len() - i,
            {
                i += 1;
            }
            if i < ids.len() {
                cur = i;
            }
        },
        None => {},
    }
    let want: i128 = cur as i128 + delta as i128;
    let last: usize = ids.len() - 1;
    let next: usize = if want < 0 {
        0
    } else if want > last as i128 {
        last
    } else {
        want as usize
    };
    Some(ids[next])
}

/// What the keys Enter and Escape do.
#[derive(Debug, Clone, Copy, PartialEq, Eq, Structural)]
pub enum KeyAction {
    /// Nothing.
    Pass,
    /// Open an entry.
    Open(i64),
    /// Copy the whole text of an entry.
    CopyFull(i64),
}

/// Decides what the keys do: Escape closes the entry being read; Enter outside the search field
/// opens the selected entry, or copies it if one is being read. Returns the entry being read after
/// Escape, and what Enter does.
pub fn on_keys(
    enter: bool,
    escape: bool,
    search_focused: bool,
    has_store: bool,
    reading: Option<i64>,
    selected: Option<i64>,
) -> (r: (Option<i64>, KeyAction))
    ensures
        r.0 == (if escape {
            None
        } else {
            reading
        }),
        r.1 == (match selected {
            Some(id) if enter && !search_focused && has_store => if r.0 is Some {
                KeyAction::CopyFull(id)
            } else {
                KeyAction::Open(id)
            },
            _ => KeyAction::Pass,
        }),
{
    let now = if escape {
        None
    } else {
        reading
    };
    let action = match selected {
        Some(id) => if enter && !search_focused && has_store {
            if now.is_some() {
                KeyAction::CopyFull(id)
            } else {
                KeyAction::Open(id)
            }
        } else {
            KeyAction::Pass
        },
        None => KeyAction::Pass,
    };
    (now, action)
}

/// Whether the card of a hit says that it is an entry about the query: the index found it, or the
/// query stands in its title.
pub fn is_entry_card(by_index: bool, title: &str, query: &str) -> (r: bool)
    ensures
        r == (by_index || (trimmed(query@).len() > 0 && has_text(title@, trimmed(query@)))),
{
    let q_all = to_chars(query);
    let q = trim(q_all.as_slice());
    let t = to_chars(title);
    by_index || (q.len() > 0 && contains(t.as_slice(), q))
}

// ---------------------------------------------------------------------------------------------
// Messages
// ---------------------------------------------------------------------------------------------

fn number(out: &mut Vec<char>, n: u64)
    ensures
        final(out)@ == old(out)@ + decimal(n as nat),
{
    let d = write_decimal(n);
    extend(out, d.as_slice());
}

/// Texts with a Chinese semicolon between any two.
pub open spec fn listed(v: Seq<Seq<char>>) -> Seq<char> {
    joined(v, "；"@)
}

fn write_list(v: &Vec<String>) -> (r: String)
    ensures
        r@ == listed(texts(v@)),
{
    let mut all: Vec<Vec<char>> = Vec::new();
    let mut i: usize = 0;
    while i < v.len()
        invariant
            i <= v@.len(),
            all@.len() == i,
            forall|j: int| 0 <= j < i ==> (#[trigger] all@[j])@ == v@[j]@,
        decreases v@.len() - i,
    {
        all.push(to_chars(v[i].as_str()));
        i += 1;
    }
    assert(rows(all@) =~= texts(v@));
    let s = join(&all, "；");
    to_text(s.as_slice())
}

/// The message after an import.
pub open spec fn import_message(r: crate::db::ReportView) -> Seq<char> {
    "导入完成：成功 "@ + decimal(r.ok as nat) + " / 跳过 "@ + decimal(r.skip as nat) + " / 失败 "@
        + decimal(r.fail as nat) + " / 条目 "@ + decimal(r.chunks as nat) + " / 未挂修正 "@ + decimal(
        r.unmatched as nat,
    ) + (if r.errors.len() == 0 {
        Seq::<char>::empty()
    } else {
        " · "@ + listed(r.errors)
    }) + (if r.warnings.len() == 0 {
        Seq::<char>::empty()
    } else {
        " · "@ + shortened_text(listed(r.warnings), 200)
    })
}

/// Writes the message after an import. Warnings are cut to 200 characters.
pub fn import_summary(r: &ImportReport) -> (s: String)
    ensures
        s@ == import_message(r@),
{
    let mut m = to_chars("导入完成：成功 ");
    number(&mut m, r.files_ok as u64);
    extend_str(&mut m, " / 跳过 ");
    number(&mut m, r.files_skip as u64);
    extend_str(&mut m, " / 失败 ");
    number(&mut m, r.files_fail as u64);
    extend_str(&mut m, " / 条目 ");
    number(&mut m, r.chunks as u64);
    extend_str(&mut m, " / 未挂修正 ");
    number(&mut m, r.unmatched_corrections as u64);
    let ghost base = m@;
    assert(texts(r.errors@).len() == r.errors@.len());
    assert(texts(r.warnings@).len() == r.warnings@.len());
    if r.errors.len() > 0 {
        let e = write_list(&r.errors);
        extend_str(&mut m, " · ");
        extend_str(&mut m, e.as_str());
        assert(m@ =~= base + (" · "@ + listed(texts(r.errors@))));
    } else {
        assert(m@ =~= base + Seq::<char>::empty());
    }
    let ghost mid = m@;
    if r.warnings.len() > 0 {
        let w = write_list(&r.warnings);
        let short = truncate(w.as_str(), 200);
        extend_str(&mut m, " · ");
        extend_str(&mut m, short.as_str());
        assert(m@ =~= mid + (" · "@ + shortened_text(listed(texts(r.warnings@)), 200)));
    } else {
        assert(m@ =~= mid + Seq::<char>::empty());
    }
    to_text(m.as_slice())
}

/// The message after vectors were made for `n` entries; empty if there is nothing to say.
pub open spec fn backfill_message(n: nat, notes: Seq<Seq<char>>) -> Seq<char> {
    let head = if n > 0 {
        "语义向量补算完成："@ + decimal(n) + " 条"@
    } else {
        Seq::empty()
    };
    if notes.len() == 0 {
        head
    } else if head.len() == 0 {
        shortened_text(listed(notes), 200)
    } else {
        head + " · "@ + shortened_text(listed(notes), 200)
    }
}

/// Writes the message after vectors were made for `n` entries.
pub fn backfill_status(n: usize, notes: &Vec<String>) -> (s: String)
    ensures
        s@ == backfill_message(n as nat, texts(notes@)),
{
    let mut m: Vec<char> = Vec::new();
    assert(m@ =~= Seq::<char>::empty());
    if n > 0 {
        m = to_chars("语义向量补算完成：");
        number(&mut m, n as u64);
        extend_str(&mut m, " 条");
    }
    assert(texts(notes@).len() == notes@.len());
    if notes.len() > 0 {
        let w = write_list(notes);
        let short = truncate(w.as_str(), 200);
        if m.len() > 0 {
            extend_str(&mut m, " · ");
            extend_str(&mut m, short.as_str());
        } else {
            m = to_chars(short.as_str());
        }
    }
    to_text(m.as_slice())
}

/// What an import adds to its message after vectors were made for `n` more entries.
pub open spec fn backfill_note(n: nat, notes: Seq<Seq<char>>) -> Seq<char> {
    (if n > 0 {
        "语义向量补算 "@ + decimal(n) + " 条"@
    } else {
        Seq::<char>::empty()
    }) + (if n > 0 && notes.len() > 0 {
        "·"@
    } else {
        Seq::<char>::empty()
    }) + listed(notes)
}

/// Writes what an import adds to its message after vectors were made; nothing if there were no
/// entries and no notes.
pub fn backfill_summary(n: usize, notes: &Vec<String>) -> (r: Option<String>)
    ensures
        match r {
            Some(s) => (n > 0 || notes@.len() > 0) && s@ == backfill_note(n as nat, texts(notes@)),
            None => n == 0 && notes@.len() == 0,
        },
{
    if n == 0 && notes.len() == 0 {
        return None;
    }
    assert(texts(notes@).len() == notes@.len());
    let mut m: Vec<char> = Vec::new();
    if n > 0 {
        m = to_chars("语义向量补算 ");
        number(&mut m, n as u64);
        extend_str(&mut m, " 条");
        if notes.len() > 0 {
            extend_str(&mut m, "·");
        }
    }
    let w = write_list(notes);
    extend_str(&mut m, w.as_str());
    assert(m@ =~= backfill_note(n as nat, texts(notes@)));
    Some(to_text(m.as_slice()))
}

/// Terms without the quotes around them, eight at most.
pub open spec fn bare_terms(terms: Seq<Seq<char>>) -> Seq<Seq<char>> {
    Seq::new(
        if terms.len() <= 8 {
            terms.len()
        } else {
            8
        },
        |i: int| stripped_end(stripped_start(terms[i], "\""@), "\""@),
    )
}

/// The message after a search.
pub open spec fn search_message(
    latency_ms: nat,
    terms: Seq<Seq<char>>,
    hits: nat,
    words_only: bool,
) -> Seq<char> {
    decimal(latency_ms) + " ms · 抽词 "@ + joined(bare_terms(terms), " / "@) + " · 命中 "@ + decimal(
        hits,
    ) + (if words_only {
        " · 仅关键词"@
    } else {
        Seq::<char>::empty()
    })
}

/// Writes the message after a search. `words_only` says that vectors could have been compared but
/// were not.
pub fn search_status(latency_ms: u64, terms: &Vec<String>, hits: usize, words_only: bool) -> (s: String)
    ensures
        s@ == search_message(latency_ms as nat, texts(terms@), hits as nat, words_only),
{
    let n: usize = if terms.len() <= 8 {
        terms.len()
    } else {
        8
    };
    let mut all: Vec<Vec<char>> = Vec::new();
    let mut i: usize = 0;
    while i < n
        invariant
            i <= n,
            n <= terms@.len(),
            n <= 8,
            all@.len() == i,
            forall|j: int|
                0 <= j < i ==> (#[trigger] all@[j])@ == stripped_end(
                    stripped_start(terms@[j]@, "\""@),
                    "\""@,
                ),
        decreases n - i,
    {
        let v = to_chars(terms[i].as_str());
        all.push(copy(strip_end(strip_start(v.as_slice(), "\""), "\"")));
        i += 1;
    }
    assert(rows(all@) =~= bare_terms(texts(terms@)));
    let mut m = write_decimal(latency_ms);
    extend_str(&mut m, " ms · 抽词 ");
    let t = join(&all, " / ");
    extend(&mut m, t.as_slice());
    extend_str(&mut m, " · 命中 ");
    number(&mut m, hits as u64);
    if words_only {
        extend_str(&mut m, " · 仅关键词");
    }
    assert(m@ =~= search_message(latency_ms as nat, texts(terms@), hits as nat, words_only));
    to_text(m.as_slice())
}

/// What a kind of copy is called.
pub open spec fn copy_label(key: Seq<char>) -> Seq<char> {
    if key == "player"@ {
        "公开"@
    } else if key == "full"@ {
        "全文"@
    } else if key == "source"@ {
        "来源"@
    } else {
        key
    }
}

/// Writes the message after something was copied.
pub fn copy_toast(key: &str, text: &str) -> (s: String)
    ensures
        s@ == "已复制"@ + copy_label(key@) + " "@ + decimal(text@.len()) + " 字，可粘到聊天/笔记"@,
{
    let k = to_chars(key);
    let v = to_chars(text);
    let mut m = to_chars("已复制");
    if same_str(k.as_slice(), "player") {
        extend_str(&mut m, "公开");
    } else if same_str(k.as_slice(), "full") {
        extend_str(&mut m, "全文");
    } else if same_str(k.as_slice(), "source") {
        extend_str(&mut m, "来源");
    } else {
        extend(&mut m, k.as_slice());
    }
    extend_str(&mut m, " ");
    number(&mut m, v.len() as u64);
    extend_str(&mut m, " 字，可粘到聊天/笔记");
    to_text(m.as_slice())
}

/// Writes the message when a store is open.
pub fn store_status(name: &str, chunks: i64) -> (s: String)
    ensures
        s@ == "「"@ + name@ + "」· "@ + signed_decimal(chunks as int)
            + " 条 · 回车检索 · Enter 复制公开"@,
{
    let mut m = to_chars("「");
    extend_str(&mut m, name);
    extend_str(&mut m, "」· ");
    let d = write_signed(chunks);
    extend(&mut m, d.as_slice());
    extend_str(&mut m, " 条 · 回车检索 · Enter 复制公开");
    to_text(m.as_slice())
}

/// Writes the message when the sample is ready.
pub fn sample_status(chunks: i64, ok: usize, skip: usize) -> (s: String)
    ensures
        s@ == "样例就绪 · "@ + signed_decimal(chunks as int) + " 条 · 成功 "@ + decimal(ok as nat)
            + " / 跳过 "@ + decimal(skip as nat) + " · 回车可再搜"@,
{
    let mut m = to_chars("样例就绪 · ");
    let d = write_signed(chunks);
    extend(&mut m, d.as_slice());
    extend_str(&mut m, " 条 · 成功 ");
    number(&mut m, ok as u64);
    extend_str(&mut m, " / 跳过 ");
    number(&mut m, skip as u64);
    extend_str(&mut m, " · 回车可再搜");
    to_text(m.as_slice())
}

/// Why nothing can be done just now, if that is so.
pub fn busy_hint(importing: bool, backfilling: bool) -> (r: Option<String>)
    ensures
        match r {
            Some(s) => if importing {
                s@ == "正在后台导入，请等拆条完成后再操作。"@
            } else {
                backfilling && s@ == "正在补算语义向量，请稍候。"@
            },
            None => !importing && !backfilling,
        },
{
    if importing {
        Some("正在后台导入，请等拆条完成后再操作。".to_string())
    } else if backfilling {
        Some("正在补算语义向量，请稍候。".to_string())
    } else {
        None
    }
}

// ---------------------------------------------------------------------------------------------
// Settings
// ---------------------------------------------------------------------------------------------

/// The settings for the language model, apart from the temperature.
#[derive(Debug)]
pub struct LlmSection {
    pub enabled: bool,
    pub base_url: String,
    pub api_key: String,
    pub model: String,
    pub timeout_secs: u64,
    pub concurrency: u32,
    pub max_tokens: u32,
    pub retries: u32,
    pub json_mode: bool,
}

impl LlmSection {
    /// Whether anything is set, so that the file is not one with a section of its own.
    pub fn is_set(&self) -> (r: bool)
        ensures
            r == (self.enabled || !is_blank(self.base_url@) || !is_blank(self.api_key@) || !is_blank(
                self.model@,
            )),
    {
        let a = to_chars(self.base_url.as_str());
        let b = to_chars(self.api_key.as_str());
        let c = to_chars(self.model.as_str());
        self.enabled || !crate::text::blank(a.as_slice()) || !crate::text::blank(b.as_slice())
            || !crate::text::blank(c.as_slice())
    }

    /// The settings that a new file is written with.
    pub fn fresh() -> (r: Self)
        ensures
            !r.enabled,
            r.base_url@ == "http://127.0.0.1:8317/v1"@,
            r.api_key@.len() == 0,
            r.model@ == "gpt-4o-mini"@,
            r.timeout_secs == 60 && r.concurrency == 3,
            r.max_tokens == 0 && r.retries == 0 && !r.json_mode,
    {
        LlmSection {
            enabled: false,
            base_url: "http://127.0.0.1:8317/v1".to_string(),
            api_key: String::new(),
            model: "gpt-4o-mini".to_string(),
            timeout_secs: 60,
            concurrency: 3,
            max_tokens: 0,
            retries: 0,
            json_mode: false,
        }
    }

    /// Makes a configuration out of the settings. What is zero keeps its default.
    pub fn config(&self) -> (r: Option<LlmConfig>)
        ensures
            r is Some <==> crate::llm::clean_url(self.base_url@).len() > 0 && trimmed(
                self.api_key@,
            ).len() > 0 && trimmed(self.model@).len() > 0,
            r matches Some(c) ==> {
                &&& c.base_url@ == crate::llm::clean_url(self.base_url@)
                &&& c.api_key@ == trimmed(self.api_key@)
                &&& c.model@ == trimmed(self.model@)
                &&& c.timeout_secs == (if self.timeout_secs > 0 {
                    self.timeout_secs
                } else {
                    60
                })
                &&& c.concurrency == (if self.concurrency > 0 {
                    self.concurrency
                } else {
                    3
                })
                &&& c.max_tokens == (if self.max_tokens > 0 {
                    self.max_tokens
                } else {
                    2048
                })
                &&& c.retries == self.retries
                &&& c.json_mode == self.json_mode
                &&& c.piece_chars == 3200
            },
    {
        match LlmConfig::from_parts(
            self.base_url.as_str(),
            self.api_key.as_str(),
            self.model.as_str(),
        ) {
            Some(c) => {
                let mut out = c;
                if self.timeout_secs > 0 {
                    out.timeout_secs = self.timeout_secs;
                }
                if self.concurrency > 0 {
                    out.concurrency = self.concurrency;
                }
                if self.max_tokens > 0 {
                    out.max_tokens = self.max_tokens;
                }
                out.retries = self.retries;
                out.json_mode = self.json_mode;
                Some(out)
            },
            None => None,
        }
    }
}

/// A text as it stands between quotes in the settings file.
pub open spec fn quoted(s: Seq<char>) -> Seq<char> {
    replaced(replaced(s, "\\"@, "\\\\"@), "\""@, "\\\""@)
}

fn write_quoted(s: &str) -> (r: Vec<char>)
    ensures
        r@ == quoted(s@),
{
    proof {
        reveal_strlit("\\");
        reveal_strlit("\"");
    }
    let v = to_chars(s);
    let a = to_chars("\\\\");
    let b = to_chars("\\\"");
    let x = replace(v.as_slice(), "\\", a.as_slice());
    replace(x.as_slice(), "\"", b.as_slice())
}

/// A truth value as it stands in the settings file.
pub open spec fn flag(b: bool) -> Seq<char> {
    if b {
        "true"@
    } else {
        "false"@
    }
}

/// A number, or another one if it is zero.
pub open spec fn or_else(n: nat, other: nat) -> nat {
    if n == 0 {
        other
    } else {
        n
    }
}

/// The text of the settings file.
pub open spec fn settings_of(s: LlmSection, temperature: Seq<char>) -> Seq<char> {
    "# 席间索 AI 配置（仅导入拆条；查询走本地）\n# 拆条请用小模型（如 gpt-4o-mini），不要用 grok-4.6 这类推理模型。\nenabled = "@
        + flag(s.enabled) + "\nbase_url = \""@ + quoted(s.base_url@) + "\"\napi_key = \""@ + quoted(
        s.api_key@,
    ) + "\"\nmodel = \""@ + quoted(s.model@) + "\"\ntimeout_secs = "@ + decimal(
        or_else(s.timeout_secs as nat, 60),
    ) + "\nconcurrency = "@ + decimal(or_else(s.concurrency as nat, 3)) + "\nmax_tokens = "@
        + decimal(or_else(s.max_tokens as nat, 2048)) + "\ntemperature = "@ + temperature
        + "\nretries = "@ + decimal(s.retries as nat) + "\njson_mode = "@ + flag(s.json_mode) + "\n"@
}

fn write_flag(out: &mut Vec<char>, b: bool)
    ensures
        final(out)@ == old(out)@ + flag(b),
{
    if b {
        extend_str(out, "true");
    } else {
        extend_str(out, "false");
    }
}

fn write_or(out: &mut Vec<char>, n: u64, other: u64)
    ensures
        final(out)@ == old(out)@ + decimal(or_else(n as nat, other as nat)),
{
    if n == 0 {
        number(out, other);
    } else {
        number(out, n);
    }
}

/// Writes the settings file. `temperature` is the temperature in decimal notation.
pub fn settings_text(s: &LlmSection, temperature: &str) -> (r: String)
    ensures
        r@ == settings_of(*s, temperature@),
{
    let mut m = to_chars(
        "# 席间索 AI 配置（仅导入拆条；查询走本地）\n# 拆条请用小模型（如 gpt-4o-mini），不要用 grok-4.6 这类推理模型。\nenabled = ",
    );
    write_flag(&mut m, s.enabled);
    extend_str(&mut m, "\nbase_url = \"");
    let url = write_quoted(s.base_url.as_str());
    extend(&mut m, url.as_slice());
    extend_str(&mut m, "\"\napi_key = \"");
    let key = write_quoted(s.api_key.as_str());
    extend(&mut m, key.as_slice());
    extend_str(&mut m, "\"\nmodel = \"");
    let model = write_quoted(s.model.as_str());
    extend(&mut m, model.as_slice());
    extend_str(&mut m, "\"\ntimeout_secs = ");
    write_or(&mut m, s.timeout_secs, 60);
    extend_str(&mut m, "\nconcurrency = ");
    write_or(&mut m, s.concurrency as u64, 3);
    extend_str(&mut m, "\nmax_tokens = ");
    write_or(&mut m, s.max_tokens as u64, 2048);
    extend_str(&mut m, "\ntemperature = ");
    extend_str(&mut m, temperature);
    extend_str(&mut m, "\nretries = ");
    number(&mut m, s.retries as u64);
    extend_str(&mut m, "\njson_mode = ");
    write_flag(&mut m, s.json_mode);
    extend_str(&mut m, "\n");
    to_text(m.as_slice())
}

// ---------------------------------------------------------------------------------------------
// What previews and the selection keep
// ---------------------------------------------------------------------------------------------

/// The preview of a long body shows a stretch of `max` characters of it, or all up to its end, with
/// an ellipsis on each side where something was left out. Where the query stands in the body, the
/// preview shows it, if there is room for it and the characters before it.
pub proof fn previews_show_the_query(body: Seq<char>, query: Seq<char>, max: int, i: int)
    requires
        0 < max < body.len(),
        crate::scan::occurs_at(body, trimmed(query), i),
        trimmed(query).len() > 0,
        80 + trimmed(query).len() <= max,
    ensures
        exists|j: int| #[trigger]
            crate::scan::occurs_at(preview(body, query, max), trimmed(query), j),
        preview(body, query, max).len() <= max + 2,
{
    reveal_strlit("…");
    let q = trimmed(query);
    lemma_index_from(body, q, 0);
    crate::scan::texts_are_found_where_they_stand(body, q);
    assert(has_text(body, q));
    let f = index_from(body, q, 0).unwrap();
    let a = preview_start(body, query);
    let p = preview(body, query, max);
    let lead = if a > 0 {
        1int
    } else {
        0int
    };
    assert(crate::scan::occurs_at(body, q, f));
    let j = lead + f - a;
    assert forall|k: int| 0 <= k < q.len() implies #[trigger] p[j + k] == q[k] by {
        assert(body.subrange(f, f + q.len())[k] == body[f + k]);
    }
    assert(p.subrange(j, j + q.len()) =~= q);
    assert(crate::scan::occurs_at(p, q, j));
}

proof fn lemma_place(ids: Seq<i64>, id: i64, i: int, k: int)
    requires
        0 <= i <= k < ids.len(),
        ids[k] == id,
        forall|j: int| i <= j < k ==> #[trigger] ids[j] != id,
    ensures
        place_in(ids, id, i) == Some(k),
    decreases k - i,
{
    if i < k {
        lemma_place(ids, id, i + 1, k);
    }
}

/// From the entry at place `k` the selection goes to the one `delta` places further, and no further
/// than the two ends. The entry being read counts before the selected one.
pub proof fn the_selection_moves_by_places(
    ids: Seq<i64>,
    reading: Option<i64>,
    selected: Option<i64>,
    k: int,
    delta: int,
)
    requires
        0 <= k < ids.len(),
        forall|j: int| 0 <= j < k ==> #[trigger] ids[j] != ids[k],
        reading == Some(ids[k]) || (reading is None && selected == Some(ids[k])),
    ensures
        ({
            let at = clamped(current_place(ids, reading, selected) + delta, ids.len() - 1);
            &&& 0 <= at < ids.len()
            &&& 0 <= k + delta < ids.len() ==> at == k + delta
            &&& k + delta < 0 ==> at == 0
            &&& k + delta >= ids.len() ==> at == ids.len() - 1
        }),
{
    lemma_place(ids, ids[k], 0, k);
}

/// A text between quotes stands for itself: a backslash and a quote get a backslash before them,
/// every other character stays, one character after the other.
pub proof fn quoted_texts_stand_for_themselves(a: Seq<char>, c: char)
    ensures
        quoted(a + seq![c]) == quoted(a) + (if c == '"' || c == '\\' {
            seq!['\\', c]
        } else {
            seq![c]
        }),
        quoted(Seq::empty()) == Seq::<char>::empty(),
{
    reveal_strlit("\\");
    reveal_strlit("\\\\");
    reveal_strlit("\"");
    reveal_strlit("\\\"");
    assert("\\"@ =~= seq!['\\']);
    assert("\""@ =~= seq!['"']);
    let b1 = "\\\\"@;
    let b2 = "\\\""@;
    assert(b1 =~= seq!['\\', '\\']);
    assert(b2 =~= seq!['\\', '"']);
    let x = seq![c];
    let back = seq!['\\'];
    let one = replaced(x, back, b1);
    crate::scan::single_characters_are_replaced(a, x, '\\', b1);
    crate::scan::single_characters_are_replaced(x, Seq::empty(), '\\', b1);
    crate::scan::single_characters_are_replaced(replaced(a, back, b1), one, '"', b2);
    crate::scan::single_characters_are_replaced(back, back, '"', b2);
    crate::scan::single_characters_are_replaced(x, Seq::empty(), '"', b2);
    assert(back + back =~= b1);
    if c == '\\' {
        assert(replaced(one, seq!['"'], b2) =~= b1);
    }
}

/// The message after an import names every file that failed.
pub proof fn failed_files_are_named(r: crate::db::ReportView, k: int)
    requires
        0 <= k < r.errors.len(),
    ensures
        exists|i: int| #[trigger] crate::scan::occurs_at(import_message(r), r.errors[k], i),
{
    crate::scan::joined_texts_stand_in_the_join(r.errors, "；"@, k);
    let m = import_message(r);
    let names = listed(r.errors);
    let head = "导入完成：成功 "@ + decimal(r.ok as nat) + " / 跳过 "@ + decimal(r.skip as nat)
        + " / 失败 "@ + decimal(r.fail as nat) + " / 条目 "@ + decimal(r.chunks as nat)
        + " / 未挂修正 "@ + decimal(r.unmatched as nat);
    let at = (head.len() + " · "@.len()) as int;
    assert(m.subrange(at, at + names.len()) =~= names);
    assert(crate::scan::occurs_at(m, names, at));
    crate::scan::lemma_stands_through(m, names, r.errors[k]);
}

} // verus!
