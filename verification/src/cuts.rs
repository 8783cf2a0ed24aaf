//! Putting proposed entries back onto the text they were proposed for.
//!
//! A proposal only says where an entry begins. Its body is always cut out of the source text,
//! from where it begins to where the next entry begins.
use crate::likeness::{dice, exceeds, is_close, share, Share};
use crate::offsets::{
    byte_len, byte_pos, ceil_pos, floor_pos, lemma_byte_pos_end, lemma_byte_pos_order,
    lemma_ceil_far, lemma_ceil_pos, lemma_floor_pos, Source,
};
use crate::order::{keys_of, slot, sorted_by_key, with_item};
use crate::scan::{
    find_from, index_from, joined, lemma_index_from, lemma_joined_concat, occurs_at,
};
use crate::segment::{find_spans, segment_spans, segments_cover_the_text, span_views, spans_cover};
use crate::text::{
    blank, extend, is_blank, prefix, same_str, take_prefix, texts, to_chars, to_text, trim,
    trimmed,
};
use crate::types::{entry_views, EntryView, ExtractedEntry};
use vstd::prelude::*;
use vstd::slice::slice_subrange;

verus! {

/// The title of the text before the first entry.
pub open spec fn preface_title() -> Seq<char> {
    "本章前言"@
}

/// The title of a block without a heading.
pub open spec fn unnamed_title() -> Seq<char> {
    "未命名块"@
}

// ---------------------------------------------------------------------------------------------
// Where an entry begins
// ---------------------------------------------------------------------------------------------

/// The first place in `[from, upto)` where `needle` stands whole.
pub open spec fn find_between(s: Seq<char>, needle: Seq<char>, from: int, upto: int) -> Option<int> {
    if from >= upto {
        None
    } else {
        index_from(s.take(upto), needle, from)
    }
}

/// The first place at or after byte `from` where `needle`, of two characters at least, stands.
pub open spec fn find_hint(s: Seq<char>, needle: Seq<char>, from: int) -> Option<int> {
    if needle.len() < 2 {
        None
    } else {
        find_between(s, needle, floor_pos(s, from), s.len() as int)
    }
}

/// The segment most like `needle` among those that end after byte `from` and are seven tenths
/// alike or more, with its likeness; the first one of several that are equally alike.
pub open spec fn most_alike(s: Seq<char>, spans: Seq<(int, int)>, needle: Seq<char>, from: int) -> Option<
    ((nat, nat), int),
>
    decreases spans.len(),
{
    if spans.len() == 0 {
        None
    } else {
        let best = most_alike(s, spans.drop_last(), needle, from);
        let span = spans.last();
        let likeness = dice(needle, s.subrange(span.0, span.1));
        if byte_pos(s, span.1) > from && is_close(likeness) && (best is None || exceeds(
            likeness,
            (best->0).0,
        )) {
            Some((likeness, span.0))
        } else {
            best
        }
    }
}

/// What is looked for by likeness: the anchor if it has six characters at least, else the title.
pub open spec fn fuzzy_needle(p: EntryView) -> Seq<char> {
    if trimmed(p.anchor).len() >= 6 {
        trimmed(p.anchor)
    } else {
        trimmed(p.title)
    }
}

/// Where an entry begins by likeness, if something is alike enough.
pub open spec fn fuzzy_place(s: Seq<char>, spans: Seq<(int, int)>, p: EntryView, from: int) -> Option<
    int,
> {
    let needle = fuzzy_needle(p);
    if needle.len() < 4 {
        None
    } else {
        match most_alike(s, spans, needle, from) {
            Some(best) => Some(best.1),
            None => None,
        }
    }
}

/// Where an entry begins that names its first segment: at the anchor if that stands within the
/// 200 bytes from the start of the segment, else at the start of the segment.
pub open spec fn place_in_segment(s: Seq<char>, start: int, anchor: Seq<char>) -> int {
    if anchor.len() < 2 {
        start
    } else {
        match find_between(s, anchor, start, ceil_pos(s, byte_pos(s, start) as int + 200)) {
            Some(i) => i,
            None => start,
        }
    }
}

/// Where a proposed entry begins, if that can be told: by the number of its first segment, else
/// where its anchor, its title or the beginning of its body stands at or after byte `from`, else
/// by likeness.
pub open spec fn place(s: Seq<char>, spans: Seq<(int, int)>, p: EntryView, from: int) -> Option<int> {
    if 0 <= p.start < spans.len() {
        Some(place_in_segment(s, spans[p.start].0, trimmed(p.anchor)))
    } else if find_hint(s, trimmed(p.anchor), from) is Some {
        find_hint(s, trimmed(p.anchor), from)
    } else if find_hint(s, trimmed(p.title), from) is Some {
        find_hint(s, trimmed(p.title), from)
    } else if find_hint(s, trimmed(prefix(p.body, 16)), from) is Some {
        find_hint(s, trimmed(prefix(p.body, 16)), from)
    } else {
        fuzzy_place(s, spans, p, from)
    }
}

/// The byte at which the search for the next entry starts.
pub open spec fn resume_at(s: Seq<char>, cuts: Seq<(int, EntryView)>) -> int {
    if cuts.len() == 0 {
        0
    } else {
        byte_pos(s, cuts.last().0) as int + 1
    }
}

/// The proposals whose beginning can be told, with where they begin, in the order given.
pub open spec fn placed(s: Seq<char>, proposals: Seq<EntryView>) -> Seq<(int, EntryView)>
    decreases proposals.len(),
{
    if proposals.len() == 0 {
        Seq::empty()
    } else {
        let before = placed(s, proposals.drop_last());
        match place(s, segment_spans(s), proposals.last(), resume_at(s, before)) {
            Some(i) => before.push((i, proposals.last())),
            None => before,
        }
    }
}

// ---------------------------------------------------------------------------------------------
// Merging proposals for the same entry
// ---------------------------------------------------------------------------------------------

/// The texts of `a` and, behind them, those of `b` that are not there yet.
pub open spec fn joined_names(a: Seq<Seq<char>>, b: Seq<Seq<char>>) -> Seq<Seq<char>>
    decreases b.len(),
{
    if b.len() == 0 {
        a
    } else {
        let before = joined_names(a, b.drop_last());
        if before.contains(b.last()) {
            before
        } else {
            before.push(b.last())
        }
    }
}

/// Joining two lists of names keeps the first as it is and adds those of the second that it lacks:
/// the outcome holds the names of both and no others, and none of the added ones comes twice.
pub proof fn joined_names_hold_both(a: Seq<Seq<char>>, b: Seq<Seq<char>>)
    ensures
        forall|x: Seq<char>| #[trigger]
            joined_names(a, b).contains(x) <==> a.contains(x) || b.contains(x),
        joined_names(a, b).len() >= a.len(),
        forall|k: int| 0 <= k < a.len() ==> #[trigger] joined_names(a, b)[k] == a[k],
        forall|j: int, k: int|
            #![trigger joined_names(a, b)[j], joined_names(a, b)[k]]
            0 <= j < k < joined_names(a, b).len() && a.len() <= k ==> joined_names(a, b)[j]
                != joined_names(a, b)[k],
    decreases b.len(),
{
    if b.len() > 0 {
        let head = b.drop_last();
        joined_names_hold_both(a, head);
        let before = joined_names(a, head);
        let now = joined_names(a, b);
        assert(b[b.len() - 1] == b.last());
        assert forall|x: Seq<char>| #[trigger] now.contains(x) <==> a.contains(x) || b.contains(x) by {
            if b.contains(x) {
                let k = choose|k: int| 0 <= k < b.len() && b[k] == x;
                if k < head.len() {
                    assert(head[k] == x);
                    assert(before.contains(x));
                }
            }
            if head.contains(x) {
                let k = choose|k: int| 0 <= k < head.len() && head[k] == x;
                assert(b[k] == x);
            }
            if before.contains(x) {
                let k = choose|k: int| 0 <= k < before.len() && before[k] == x;
                assert(now[k] == x);
            }
            if now.contains(x) {
                let k = choose|k: int| 0 <= k < now.len() && now[k] == x;
                if k < before.len() {
                    assert(before[k] == x);
                    assert(before.contains(x));
                }
            }
            if x == b.last() && !before.contains(x) {
                assert(now[before.len() as int] == x);
            }
        }
        if !before.contains(b.last()) {
            assert forall|j: int, k: int|
                #![trigger now[j], now[k]]
                0 <= j < k < now.len() && a.len() <= k implies now[j] != now[k] by {
                assert(now[j] == before[j]);
                if k < before.len() {
                    assert(now[k] == before[k]);
                }
            }
        }
    }
}

/// A proposal that takes over the aliases of a later one for the same entry, and its title where
/// it has none.
pub open spec fn absorbed(e: EntryView, later: EntryView) -> EntryView {
    EntryView {
        aliases: joined_names(e.aliases, later.aliases),
        title: if is_blank(e.title) {
            later.title
        } else {
            e.title
        },
        ..e
    }
}

/// The cuts with those that lie within 24 bytes of the cut before them merged into that one.
pub open spec fn merged(s: Seq<char>, cuts: Seq<(int, EntryView)>) -> Seq<(int, EntryView)>
    decreases cuts.len(),
{
    if cuts.len() == 0 {
        Seq::empty()
    } else {
        let before = merged(s, cuts.drop_last());
        let cut = cuts.last();
        if before.len() > 0 && byte_pos(s, cut.0) - byte_pos(s, before.last().0) < 24 {
            before.drop_last().push((before.last().0, absorbed(before.last().1, cut.1)))
        } else {
            before.push(cut)
        }
    }
}

// ---------------------------------------------------------------------------------------------
// Cutting
// ---------------------------------------------------------------------------------------------

/// An entry with a body out of the source text.
pub open spec fn entry_of(
    title: Seq<char>,
    aliases: Seq<Seq<char>>,
    entity_type: Seq<char>,
    body: Seq<char>,
) -> EntryView {
    EntryView {
        title,
        aliases,
        entity_type,
        body,
        anchor: Seq::empty(),
        start: -1,
        end: -1,
        heading_level: 2,
    }
}

/// The text before the first cut as an entry, if it has forty characters at least.
pub open spec fn preface(s: Seq<char>, cuts: Seq<(int, EntryView)>) -> Seq<EntryView> {
    if cuts.len() > 0 && trimmed(s.take(cuts[0].0)).len() >= 40 {
        seq![
            entry_of(
                preface_title(),
                Seq::empty(),
                Seq::empty(),
                trimmed(s.take(cuts[0].0)),
            ),
        ]
    } else {
        Seq::empty()
    }
}

/// The end of the text of cut `k`.
pub open spec fn cut_end(s: Seq<char>, cuts: Seq<(int, EntryView)>, k: int) -> int {
    if k + 1 < cuts.len() {
        cuts[k + 1].0
    } else {
        s.len() as int
    }
}

/// The first `n` cuts as entries; what has fewer than eight characters is left out.
pub open spec fn cut_out(s: Seq<char>, cuts: Seq<(int, EntryView)>, n: int) -> Seq<EntryView>
    decreases n,
{
    if n <= 0 {
        Seq::empty()
    } else {
        let before = cut_out(s, cuts, n - 1);
        let p = cuts[n - 1].1;
        let body = trimmed(s.subrange(cuts[n - 1].0, cut_end(s, cuts, n - 1)));
        if body.len() < 8 {
            before
        } else {
            before.push(entry_of(p.title, p.aliases, p.entity_type, body))
        }
    }
}

/// Whether an entry is a nameless scrap that belongs to the entry before it.
pub open spec fn is_scrap(e: EntryView) -> bool {
    (e.title == unnamed_title() || e.title == preface_title()) && e.body.len() < 24
}

/// The entries with nameless scraps added to the entry before them.
pub open spec fn without_scraps(entries: Seq<EntryView>) -> Seq<EntryView>
    decreases entries.len(),
{
    if entries.len() == 0 {
        Seq::empty()
    } else {
        let before = without_scraps(entries.drop_last());
        let e = entries.last();
        if is_scrap(e) && before.len() > 0 {
            let p = before.last();
            before.drop_last().push(EntryView { body: p.body + "\n"@ + e.body, ..p })
        } else {
            before.push(e)
        }
    }
}

/// The cuts that proposals make in a text.
pub open spec fn final_cuts(s: Seq<char>, proposals: Seq<EntryView>) -> Seq<(int, EntryView)> {
    merged(s, sorted_by_key(placed(s, proposals)))
}

/// The entries that proposals make of a text.
pub open spec fn materialized(s: Seq<char>, proposals: Seq<EntryView>) -> Seq<EntryView> {
    let cuts = final_cuts(s, proposals);
    without_scraps(preface(s, cuts) + cut_out(s, cuts, cuts.len() as int))
}

// ---------------------------------------------------------------------------------------------
// Finding the cuts
// ---------------------------------------------------------------------------------------------

/// The values of a sequence of cuts.
pub open spec fn cut_views(v: Seq<(usize, ExtractedEntry)>) -> Seq<(int, EntryView)> {
    Seq::new(v.len(), |i: int| (v[i].0 as int, v[i].1@))
}

fn seek(v: &[char], needle: &[char], from: usize, upto: usize) -> (r: Option<usize>)
    requires
        upto <= v@.len(),
    ensures
        match r {
            Some(i) => find_between(v@, needle@, from as int, upto as int) == Some(i as int) && i
                + needle@.len() <= upto,
            None => find_between(v@, needle@, from as int, upto as int) is None,
        },
{
    if from >= upto {
        return None;
    }
    let part = slice_subrange(v, 0, upto);
    assert(part@ =~= v@.take(upto as int));
    find_from(part, needle, from)
}

fn seek_hint(src: &Source, needle: &[char], from: usize) -> (r: Option<usize>)
    requires
        src.wf(),
    ensures
        match r {
            Some(i) => find_hint(src@, needle@, from as int) == Some(i as int) && i < src@.len(),
            None => find_hint(src@, needle@, from as int) is None,
        },
{
    if needle.len() < 2 {
        return None;
    }
    let a = src.floor(from);
    seek(src.chars.as_slice(), needle, a, src.chars.len())
}

fn seek_alike(src: &Source, spans: &Vec<(usize, usize)>, needle: &[char], from: usize) -> (r: Option<
    usize,
>)
    requires
        src.wf(),
        spans_cover(src@, span_views(spans@), 0, src@.len() as int, 500),
    ensures
        match r {
            Some(i) => most_alike(src@, span_views(spans@), needle@, from as int) is Some && (
            most_alike(src@, span_views(spans@), needle@, from as int)->0).1 == i && i < src@.len(),
            None => most_alike(src@, span_views(spans@), needle@, from as int) is None,
        },
{
    let ghost all = span_views(spans@);
    let mut best: Option<(Share, usize)> = None;
    let mut k: usize = 0;
    assert(all.take(0) =~= Seq::<(int, int)>::empty());
    while k < spans.len()
        invariant
            k <= spans@.len(),
            src.wf(),
            all == span_views(spans@),
            spans_cover(src@, all, 0, src@.len() as int, 500),
            match best {
                Some(b) => most_alike(src@, all.take(k as int), needle@, from as int) == Some(
                    (b.0.parts(), b.1 as int),
                ) && b.1 < src@.len() && b.0.num <= 1000 && is_close(b.0.parts()),
                None => most_alike(src@, all.take(k as int), needle@, from as int) is None,
            },
        decreases spans@.len() - k,
    {
        let (a, b) = spans[k];
        proof {
            assert(all.take(k + 1).drop_last() =~= all.take(k as int));
            assert(all[k as int] == (a as int, b as int));
        }
        if src.offs[b] > from {
            let part = slice_subrange(src.chars.as_slice(), a, b);
            let f = share(needle, part);
            if f.close() {
                let better = match &best {
                    Some(old) => f.greater(&old.0),
                    None => true,
                };
                if better {
                    best = Some((f, a));
                }
            }
        }
        k += 1;
    }
    assert(all.take(k as int) =~= all);
    match best {
        Some(b) => Some(b.1),
        None => None,
    }
}

fn find_place(src: &Source, spans: &Vec<(usize, usize)>, p: &ExtractedEntry, from: usize) -> (r: Option<
    usize,
>)
    requires
        src.wf(),
        spans_cover(src@, span_views(spans@), 0, src@.len() as int, 500),
    ensures
        match r {
            Some(i) => place(src@, span_views(spans@), p@, from as int) == Some(i as int) && i
                < src@.len(),
            None => place(src@, span_views(spans@), p@, from as int) is None,
        },
{
    let anchor_all = to_chars(p.anchor.as_str());
    let anchor = trim(anchor_all.as_slice());
    if p.start >= 0 && (p.start as u64) < (spans.len() as u64) {
        let (a, _) = spans[p.start as usize];
        assert(span_views(spans@)[p.start as int].0 == a);
        if anchor.len() >= 2 {
            let win: usize = src.ceil(src.offs[a].saturating_add(200));
            proof {
                let far = byte_pos(src@, a as int) as int + 200;
                lemma_byte_pos_end(src@);
                assert(src.offs@[src@.len() as int] == byte_len(src@));
                crate::offsets::lemma_byte_pos_step(src@, a as int, src@.len() as int);
                if src.offs@[a as int] > usize::MAX - 200 {
                    lemma_ceil_far(src@, usize::MAX as int);
                    lemma_ceil_far(src@, far);
                }
            }
            match seek(src.chars.as_slice(), anchor, a, win) {
                Some(i) => {
                    return Some(i);
                },
                None => {},
            }
        }
        return Some(a);
    }
    match seek_hint(src, anchor, from) {
        Some(i) => {
            return Some(i);
        },
        None => {},
    }
    let title_all = to_chars(p.title.as_str());
    let title = trim(title_all.as_slice());
    match seek_hint(src, title, from) {
        Some(i) => {
            return Some(i);
        },
        None => {},
    }
    let body_all = to_chars(p.body.as_str());
    let hint = trim(take_prefix(body_all.as_slice(), 16));
    match seek_hint(src, hint, from) {
        Some(i) => {
            return Some(i);
        },
        None => {},
    }
    let needle = if anchor.len() >= 6 {
        anchor
    } else {
        title
    };
    if needle.len() < 4 {
        return None;
    }
    seek_alike(src, spans, needle, from)
}

fn find_slot(v: &Vec<(usize, ExtractedEntry)>, key: usize) -> (r: usize)
    ensures
        r == slot(keys_of(cut_views(v@)), key as int),
        r <= v@.len(),
{
    let ghost keys = keys_of(cut_views(v@));
    let mut k: usize = v.len();
    assert(keys.take(k as int) =~= keys);
    while k > 0 && v[k - 1].0 > key
        invariant
            k <= v@.len(),
            keys == keys_of(cut_views(v@)),
            slot(keys, key as int) == slot(keys.take(k as int), key as int),
        decreases k,
    {
        proof {
            let t = keys.take(k as int);
            assert(t.last() == keys[k - 1]);
            assert(keys[k - 1] == v@[k - 1].0);
            assert(t.drop_last() =~= keys.take(k - 1));
        }
        k -= 1;
    }
    proof {
        if k > 0 {
            assert(keys.take(k as int).last() == keys[k - 1]);
            assert(keys[k - 1] == v@[k - 1].0);
        }
    }
    k
}

fn find_cuts(src: &Source, proposals: &Vec<ExtractedEntry>) -> (r: Vec<(usize, ExtractedEntry)>)
    requires
        src.wf(),
    ensures
        cut_views(r@) == sorted_by_key(placed(src@, entry_views(proposals@))),
        forall|k: int| 0 <= k < r@.len() ==> (#[trigger] r@[k]).0 < src@.len(),
{
    let spans = find_spans(src.chars.as_slice());
    proof {
        segments_cover_the_text(src@);
    }
    let ghost all = entry_views(proposals@);
    let mut out: Vec<(usize, ExtractedEntry)> = Vec::new();
    let mut from: usize = 0;
    let mut k: usize = 0;
    assert(cut_views(out@) =~= Seq::<(int, EntryView)>::empty());
    while k < proposals.len()
        invariant
            k <= proposals@.len(),
            src.wf(),
            span_views(spans@) == segment_spans(src@),
            spans_cover(src@, segment_spans(src@), 0, src@.len() as int, 500),
            all == entry_views(proposals@),
            from == resume_at(src@, placed(src@, all.take(k as int))),
            cut_views(out@) == sorted_by_key(placed(src@, all.take(k as int))),
            forall|j: int| 0 <= j < out@.len() ==> (#[trigger] out@[j]).0 < src@.len(),
        decreases proposals@.len() - k,
    {
        let ghost before = placed(src@, all.take(k as int));
        proof {
            assert(all.take(k + 1).drop_last() =~= all.take(k as int));
            assert(all.take(k + 1).last() == proposals@[k as int]@);
        }
        match find_place(src, &spans, &proposals[k], from) {
            Some(i) => {
                let at = find_slot(&out, i);
                let ghost old_out = out@;
                let e = proposals[k].clone();
                out.insert(at, (i, e));
                proof {
                    let now = before.push((i as int, e@));
                    assert(now.drop_last() =~= before);
                    assert(now.last() == (i as int, e@));
                    assert(cut_views(out@) =~= with_item(cut_views(old_out), (i as int, e@)));
                    assert forall|j: int| 0 <= j < out@.len() implies (#[trigger] out@[j]).0
                        < src@.len() by {
                        if j < at {
                            assert(out@[j] == old_out[j]);
                        } else if j > at {
                            assert(out@[j] == old_out[j - 1]);
                        }
                    }
                    lemma_byte_pos_end(src@);
                    lemma_byte_pos_order(src@, i as int, src@.len() as int);
                    assert(src.offs@[src@.len() as int] == byte_len(src@));
                }
                from = src.offs[i] + 1;
            },
            None => {},
        }
        k += 1;
    }
    assert(all.take(k as int) =~= all);
    out
}

/// Whether a list of texts holds a text.
pub fn holds_name(v: &Vec<String>, x: &[char]) -> (r: bool)
    ensures
        r == texts(v@).contains(x@),
{
    let mut i: usize = 0;
    while i < v.len()
        invariant
            i <= v@.len(),
            forall|j: int| 0 <= j < i ==> (#[trigger] texts(v@)[j]) != x@,
        decreases v@.len() - i,
    {
        if same_str(x, v[i].as_str()) {
            assert(texts(v@)[i as int] == x@);
            return true;
        }
        i += 1;
    }
    false
}

/// Adds to a list the texts of another that are not there yet.
pub fn join_names(a: &mut Vec<String>, b: &Vec<String>)
    ensures
        texts(final(a)@) == joined_names(texts(old(a)@), texts(b@)),
{
    let ghost start = texts(a@);
    let ghost all = texts(b@);
    let mut i: usize = 0;
    while i < b.len()
        invariant
            i <= b@.len(),
            all == texts(b@),
            texts(a@) == joined_names(start, all.take(i as int)),
        decreases b@.len() - i,
    {
        proof {
            assert(all.take(i + 1).drop_last() =~= all.take(i as int));
            assert(all.take(i + 1).last() == b@[i as int]@);
        }
        let x = to_chars(b[i].as_str());
        if !holds_name(a, x.as_slice()) {
            let ghost before = texts(a@);
            a.push(b[i].clone());
            assert(texts(a@) =~= before.push(b@[i as int]@));
        }
        i += 1;
    }
    assert(all.take(i as int) =~= all);
}

fn absorb(e: ExtractedEntry, later: &ExtractedEntry) -> (r: ExtractedEntry)
    ensures
        r@ == absorbed(e@, later@),
{
    let mut out = e;
    join_names(&mut out.aliases, &later.aliases);
    let t = to_chars(out.title.as_str());
    if blank(t.as_slice()) {
        out.title = later.title.clone();
    }
    out
}

proof fn lemma_merged(s: Seq<char>, cuts: Seq<(int, EntryView)>)
    requires
        crate::order::keys_ascend(keys_of(cuts)),
    ensures
        crate::order::keys_ascend(keys_of(merged(s, cuts))),
        cuts.len() > 0 ==> merged(s, cuts).len() > 0 && merged(s, cuts).last().0 <= cuts.last().0,
        forall|k: int|
            0 <= k < merged(s, cuts).len() ==> exists|j: int|
                0 <= j < cuts.len() && (#[trigger] cuts[j]).0 == (#[trigger] merged(s, cuts)[k]).0,
    decreases cuts.len(),
{
    if cuts.len() > 0 {
        let head = cuts.drop_last();
        let keys = keys_of(cuts);
        assert forall|i: int, j: int|
            #![trigger keys_of(head)[i], keys_of(head)[j]]
            0 <= i < j < head.len() implies keys_of(head)[i] <= keys_of(head)[j] by {
            assert(keys[i] <= keys[j]);
        }
        lemma_merged(s, head);
        let before = merged(s, head);
        let now = merged(s, cuts);
        if head.len() > 0 {
            assert(keys[head.len() - 1] <= keys[head.len() as int]);
        }
        assert forall|i: int, j: int|
            #![trigger keys_of(now)[i], keys_of(now)[j]]
            0 <= i < j < now.len() implies keys_of(now)[i] <= keys_of(now)[j] by {
            if j < before.len() {
                assert(keys_of(before)[i] <= keys_of(before)[j]);
            } else if i < before.len() - 1 {
                assert(keys_of(before)[i] <= keys_of(before)[before.len() - 1]);
            }
        }
        assert forall|k: int| 0 <= k < now.len() implies exists|j: int|
            0 <= j < cuts.len() && (#[trigger] cuts[j]).0 == (#[trigger] now[k]).0 by {
            if k < before.len() {
                assert(before[k].0 == now[k].0);
                let j = choose|j: int| 0 <= j < head.len() && (#[trigger] head[j]).0 == before[k].0;
                assert(cuts[j] == head[j]);
            } else {
                assert(cuts[cuts.len() - 1].0 == now[k].0);
            }
        }
    }
}

fn merge_cuts(src: &Source, cuts: &Vec<(usize, ExtractedEntry)>) -> (r: Vec<(usize, ExtractedEntry)>)
    requires
        src.wf(),
        crate::order::keys_ascend(keys_of(cut_views(cuts@))),
        forall|k: int| 0 <= k < cuts@.len() ==> (#[trigger] cuts@[k]).0 < src@.len(),
    ensures
        cut_views(r@) == merged(src@, cut_views(cuts@)),
        forall|k: int| 0 <= k < r@.len() ==> (#[trigger] r@[k]).0 < src@.len(),
        forall|k: int, l: int|
            #![trigger r@[k], r@[l]]
            0 <= k < l < r@.len() ==> r@[k].0 <= r@[l].0,
{
    let ghost all = cut_views(cuts@);
    let mut out: Vec<(usize, ExtractedEntry)> = Vec::new();
    let mut k: usize = 0;
    assert(cut_views(out@) =~= Seq::<(int, EntryView)>::empty());
    while k < cuts.len()
        invariant
            k <= cuts@.len(),
            src.wf(),
            all == cut_views(cuts@),
            forall|j: int| 0 <= j < cuts@.len() ==> (#[trigger] cuts@[j]).0 < src@.len(),
            forall|j: int| 0 <= j < out@.len() ==> (#[trigger] out@[j]).0 < src@.len(),
            cut_views(out@) == merged(src@, all.take(k as int)),
        decreases cuts@.len() - k,
    {
        let ghost before = cut_views(out@);
        let ghost old_out = out@;
        proof {
            assert(all.take(k + 1).drop_last() =~= all.take(k as int));
            assert(all.take(k + 1).last() == all[k as int]);
            if before.len() > 0 {
                assert(before.last().0 == old_out[old_out.len() - 1].0);
            }
        }
        let c = cuts[k].0;
        let near = if out.len() > 0 {
            let last = out[out.len() - 1].0;
            src.offs[c] < src.offs[last] || src.offs[c] - src.offs[last] < 24
        } else {
            false
        };
        if near {
            match out.pop() {
                Some(last) => {
                    let at = last.0;
                    let e = absorb(last.1, &cuts[k].1);
                    out.push((at, e));
                    assert(cut_views(out@) =~= before.drop_last().push((at as int, e@)));
                    assert(before.last() == (last.0 as int, last.1@));
                },
                None => {},
            }
        } else {
            let e = cuts[k].1.clone();
            out.push((c, e));
            assert(cut_views(out@) =~= before.push((c as int, e@)));
        }
        k += 1;
    }
    assert(all.take(k as int) =~= all);
    proof {
        lemma_merged(src@, all);
        let m = cut_views(out@);
        assert forall|k: int, l: int| #![trigger out@[k], out@[l]] 0 <= k < l < out@.len() implies out@[k].0
            <= out@[l].0 by {
            assert(keys_of(m)[k] == out@[k].0 && keys_of(m)[l] == out@[l].0);
        }
    }
    out
}

/// An entry with a body out of the source text.
pub fn make_entry(title: String, aliases: Vec<String>, entity_type: String, body: String) -> (r:
    ExtractedEntry)
    ensures
        r@ == entry_of(title@, texts(aliases@), entity_type@, body@),
{
    let anchor = String::new();
    assert(anchor@ =~= Seq::<char>::empty());
    ExtractedEntry {
        title,
        aliases,
        entity_type,
        body,
        anchor,
        start: -1,
        end: -1,
        heading_level: 2,
    }
}

/// A copy of a list of texts.
pub fn clone_names(v: &Vec<String>) -> (r: Vec<String>)
    ensures
        texts(r@) == texts(v@),
{
    let r = v.clone();
    assert(texts(r@) =~= texts(v@));
    r
}

fn cut_entries(src: &Source, cuts: &Vec<(usize, ExtractedEntry)>) -> (r: Vec<ExtractedEntry>)
    requires
        src.wf(),
        forall|k: int| 0 <= k < cuts@.len() ==> (#[trigger] cuts@[k]).0 < src@.len(),
        forall|k: int, l: int|
            #![trigger cuts@[k], cuts@[l]]
            0 <= k < l < cuts@.len() ==> cuts@[k].0 <= cuts@[l].0,
    ensures
        entry_views(r@) == preface(src@, cut_views(cuts@)) + cut_out(
            src@,
            cut_views(cuts@),
            cuts@.len() as int,
        ),
{
    let ghost all = cut_views(cuts@);
    let v = src.chars.as_slice();
    let mut out: Vec<ExtractedEntry> = Vec::new();
    if cuts.len() > 0 {
        let head_all = slice_subrange(v, 0, cuts[0].0);
        assert(all[0].0 == cuts@[0].0);
        assert(head_all@ =~= src@.take(all[0].0));
        let head = trim(head_all);
        if head.len() >= 40 {
            let none: Vec<String> = Vec::new();
            let no_type = String::new();
            assert(texts(none@) =~= Seq::<Seq<char>>::empty());
            assert(no_type@ =~= Seq::<char>::empty());
            let e = make_entry("本章前言".to_string(), none, no_type, to_text(head));
            out.push(e);
        }
    }
    let ghost first = preface(src@, all);
    assert(entry_views(out@) =~= first);
    assert(first + cut_out(src@, all, 0) =~= first);
    let mut k: usize = 0;
    while k < cuts.len()
        invariant
            k <= cuts@.len(),
            src.wf(),
            v@ == src@,
            all == cut_views(cuts@),
            forall|j: int| 0 <= j < cuts@.len() ==> (#[trigger] cuts@[j]).0 < src@.len(),
            forall|j: int, l: int|
                #![trigger cuts@[j], cuts@[l]]
                0 <= j < l < cuts@.len() ==> cuts@[j].0 <= cuts@[l].0,
            entry_views(out@) == first + cut_out(src@, all, k as int),
        decreases cuts@.len() - k,
    {
        let ghost before = cut_out(src@, all, k as int);
        let a = cuts[k].0;
        let b: usize = if k + 1 < cuts.len() {
            cuts[k + 1].0
        } else {
            v.len()
        };
        proof {
            assert(all[k as int] == (a as int, cuts@[k as int].1@));
            if k + 1 < cuts@.len() {
                assert(all[k + 1].0 == b);
            }
            assert(b == cut_end(src@, all, k as int));
        }
        let body = trim(slice_subrange(v, a, b));
        if body.len() >= 8 {
            let p = &cuts[k].1;
            let e = make_entry(
                p.title.clone(),
                clone_names(&p.aliases),
                p.entity_type.clone(),
                to_text(body),
            );
            let ghost old_out = entry_views(out@);
            out.push(e);
            assert(entry_views(out@) =~= old_out.push(e@));
            assert(old_out.push(e@) =~= first + before.push(e@));
        }
        k += 1;
    }
    out
}

fn merge_tiny(entries: &Vec<ExtractedEntry>) -> (r: Vec<ExtractedEntry>)
    ensures
        entry_views(r@) == without_scraps(entry_views(entries@)),
{
    let ghost all = entry_views(entries@);
    let mut out: Vec<ExtractedEntry> = Vec::new();
    let mut k: usize = 0;
    assert(entry_views(out@) =~= Seq::<EntryView>::empty());
    while k < entries.len()
        invariant
            k <= entries@.len(),
            all == entry_views(entries@),
            entry_views(out@) == without_scraps(all.take(k as int)),
        decreases entries@.len() - k,
    {
        let ghost before = entry_views(out@);
        proof {
            assert(all.take(k + 1).drop_last() =~= all.take(k as int));
            assert(all.take(k + 1).last() == entries@[k as int]@);
        }
        let e = &entries[k];
        let title = to_chars(e.title.as_str());
        let body = to_chars(e.body.as_str());
        let nameless = same_str(title.as_slice(), "未命名块") || same_str(
            title.as_slice(),
            "本章前言",
        );
        if nameless && body.len() < 24 && out.len() > 0 {
            match out.pop() {
                Some(last) => {
                    let mut prev = last;
                    let ghost was = prev@;
                    let mut text = to_chars(prev.body.as_str());
                    crate::text::extend_str(&mut text, "\n");
                    extend(&mut text, body.as_slice());
                    prev.body = to_text(text.as_slice());
                    proof {
                        assert(prev@ =~= EntryView { body: was.body + "\n"@ + e@.body, ..was });
                        assert(before.last() == was);
                    }
                    out.push(prev);
                    assert(entry_views(out@) =~= before.drop_last().push(prev@));
                },
                None => {},
            }
        } else {
            let c = e.clone();
            out.push(c);
            assert(entry_views(out@) =~= before.push(c@));
        }
        k += 1;
    }
    assert(all.take(k as int) =~= all);
    out
}

/// Cuts a text into the entries that are proposed for it. Every body is taken from the source;
/// what a proposal says the body is serves only to find its place. Proposals whose place cannot be
/// found are dropped, those for the same place are merged.
pub fn materialize_entries(source: &str, proposals: Vec<ExtractedEntry>) -> (r: Vec<ExtractedEntry>)
    ensures
        entry_views(r@) == materialized(source@, entry_views(proposals@)),
{
    let src = Source::new(source);
    let found = find_cuts(&src, &proposals);
    proof {
        crate::order::sorted_by_key_ascends(placed(source@, entry_views(proposals@)));
    }
    let cuts = merge_cuts(&src, &found);
    let entries = cut_entries(&src, &cuts);
    merge_tiny(&entries)
}

// ---------------------------------------------------------------------------------------------
// Bodies come from the source
// ---------------------------------------------------------------------------------------------

/// The stretches of `s` that `ranges` name, each without surrounding white space.
pub open spec fn slices(s: Seq<char>, ranges: Seq<(int, int)>) -> Seq<Seq<char>> {
    Seq::new(ranges.len(), |k: int| trimmed(s.subrange(ranges[k].0, ranges[k].1)))
}

/// Whether a text is made of stretches of `s`, one per line.
pub open spec fn taken_from(s: Seq<char>, body: Seq<char>) -> bool {
    exists|ranges: Seq<(int, int)>|
        {
            &&& ranges.len() > 0
            &&& forall|k: int|
                0 <= k < ranges.len() ==> 0 <= (#[trigger] ranges[k]).0 <= ranges[k].1 <= s.len()
            &&& body == joined(#[trigger] slices(s, ranges), "\n"@)
        }
}

proof fn lemma_one_slice(s: Seq<char>, a: int, b: int)
    requires
        0 <= a <= b <= s.len(),
    ensures
        taken_from(s, trimmed(s.subrange(a, b))),
{
    let ranges = seq![(a, b)];
    assert(slices(s, ranges) =~= seq![trimmed(s.subrange(a, b))]);
    assert(joined(slices(s, ranges), "\n"@) == trimmed(s.subrange(a, b)));
}

proof fn lemma_more_slices(s: Seq<char>, x: Seq<char>, y: Seq<char>)
    requires
        taken_from(s, x),
        taken_from(s, y),
    ensures
        taken_from(s, x + "\n"@ + y),
{
    let p = choose|p: Seq<(int, int)>|
        {
            &&& p.len() > 0
            &&& forall|k: int| 0 <= k < p.len() ==> 0 <= (#[trigger] p[k]).0 <= p[k].1 <= s.len()
            &&& x == joined(#[trigger] slices(s, p), "\n"@)
        };
    let q = choose|q: Seq<(int, int)>|
        {
            &&& q.len() > 0
            &&& forall|k: int| 0 <= k < q.len() ==> 0 <= (#[trigger] q[k]).0 <= q[k].1 <= s.len()
            &&& y == joined(#[trigger] slices(s, q), "\n"@)
        };
    let r = p + q;
    assert(slices(s, r) =~= slices(s, p) + slices(s, q));
    lemma_joined_concat(slices(s, p), slices(s, q), "\n"@);
    assert forall|k: int| 0 <= k < r.len() implies 0 <= (#[trigger] r[k]).0 <= r[k].1 <= s.len() by {
        if k < p.len() {
            assert(r[k] == p[k]);
        } else {
            assert(r[k] == q[k - p.len()]);
        }
    }
}

proof fn lemma_place(s: Seq<char>, p: EntryView, from: int)
    requires
        0 <= from,
    ensures
        match place(s, segment_spans(s), p, from) {
            Some(i) => 0 <= i < s.len(),
            None => true,
        },
{
    let spans = segment_spans(s);
    segments_cover_the_text(s);
    if 0 <= p.start < spans.len() {
        let start = spans[p.start].0;
        let far = ceil_pos(s, byte_pos(s, start) as int + 200);
        lemma_ceil_pos(s, byte_pos(s, start) as int + 200);
        lemma_index_from(s.take(far), trimmed(p.anchor), start);
    } else {
        lemma_floor_pos(s, from);
        let a = floor_pos(s, from);
        let whole = s.take(s.len() as int);
        lemma_index_from(whole, trimmed(p.anchor), a);
        lemma_index_from(whole, trimmed(p.title), a);
        lemma_index_from(whole, trimmed(prefix(p.body, 16)), a);
        lemma_most_alike(s, spans, fuzzy_needle(p), from);
    }
}

proof fn lemma_most_alike(s: Seq<char>, spans: Seq<(int, int)>, needle: Seq<char>, from: int)
    requires
        forall|k: int| 0 <= k < spans.len() ==> 0 <= (#[trigger] spans[k]).0 < s.len(),
    ensures
        match most_alike(s, spans, needle, from) {
            Some(b) => 0 <= b.1 < s.len(),
            None => true,
        },
    decreases spans.len(),
{
    if spans.len() > 0 {
        assert(spans.last() == spans[spans.len() - 1]);
        lemma_most_alike(s, spans.drop_last(), needle, from);
    }
}

proof fn lemma_placed(s: Seq<char>, proposals: Seq<EntryView>)
    ensures
        forall|k: int|
            0 <= k < placed(s, proposals).len() ==> 0 <= (#[trigger] placed(s, proposals)[k]).0
                < s.len(),
    decreases proposals.len(),
{
    if proposals.len() > 0 {
        let before = placed(s, proposals.drop_last());
        lemma_placed(s, proposals.drop_last());
        lemma_place(s, proposals.last(), resume_at(s, before));
    }
}

/// The cuts lie within the text and come in its order.
pub proof fn cuts_lie_in_order(s: Seq<char>, proposals: Seq<EntryView>)
    ensures
        forall|k: int|
            0 <= k < final_cuts(s, proposals).len() ==> 0 <= (#[trigger] final_cuts(
                s,
                proposals,
            )[k]).0 < s.len(),
        crate::order::keys_ascend(keys_of(final_cuts(s, proposals))),
{
    let a = placed(s, proposals);
    let b = sorted_by_key(a);
    lemma_placed(s, proposals);
    crate::order::sorted_by_key_ascends(a);
    lemma_merged(s, b);
    assert forall|k: int| 0 <= k < final_cuts(s, proposals).len() implies 0 <= (
    #[trigger] final_cuts(s, proposals)[k]).0 < s.len() by {
        let j = choose|j: int|
            0 <= j < b.len() && (#[trigger] b[j]).0 == final_cuts(s, proposals)[k].0;
        lemma_same_items(a, b, j);
        let i = choose|i: int| 0 <= i < a.len() && a[i] == b[j];
        assert(0 <= a[i].0 < s.len());
    }
}

/// The texts that cuts divide a text into, from the first cut on.
pub open spec fn cut_texts(s: Seq<char>, cuts: Seq<(int, EntryView)>) -> Seq<Seq<char>> {
    Seq::new(cuts.len(), |k: int| s.subrange(cuts[k].0, cut_end(s, cuts, k)))
}

proof fn lemma_cut_texts(s: Seq<char>, cuts: Seq<(int, EntryView)>, n: int)
    requires
        0 < n <= cuts.len(),
        forall|k: int| 0 <= k < cuts.len() ==> 0 <= (#[trigger] cuts[k]).0 < s.len(),
        crate::order::keys_ascend(keys_of(cuts)),
    ensures
        cuts[0].0 <= cuts[n - 1].0 <= cut_end(s, cuts, n - 1) <= s.len(),
        joined(cut_texts(s, cuts).take(n), Seq::empty()) == s.subrange(
            cuts[0].0,
            cut_end(s, cuts, n - 1),
        ),
    decreases n,
{
    let all = cut_texts(s, cuts);
    let keys = keys_of(cuts);
    assert(keys[0] == cuts[0].0 && keys[n - 1] == cuts[n - 1].0);
    if n < cuts.len() {
        assert(keys[n - 1] <= keys[n]);
        assert(cuts[n].0 < s.len());
    }
    assert(all.take(n).last() == all[n - 1]);
    assert(all.take(n).drop_last() =~= all.take(n - 1));
    if n > 1 {
        lemma_cut_texts(s, cuts, n - 1);
        let a = s.subrange(cuts[0].0, cuts[n - 1].0);
        let b = s.subrange(cuts[n - 1].0, cut_end(s, cuts, n - 1));
        assert(a + Seq::<char>::empty() + b =~= s.subrange(
            cuts[0].0,
            cut_end(s, cuts, n - 1),
        ));
    }
}

/// Nothing falls between the entries: the texts that the cuts divide the source into are, put
/// together, the source from the first cut on.
pub proof fn cuts_leave_no_gap(s: Seq<char>, proposals: Seq<EntryView>)
    requires
        final_cuts(s, proposals).len() > 0,
    ensures
        joined(cut_texts(s, final_cuts(s, proposals)), Seq::empty()) == s.skip(
            final_cuts(s, proposals)[0].0,
        ),
{
    let cuts = final_cuts(s, proposals);
    let n = cuts.len() as int;
    cuts_lie_in_order(s, proposals);
    lemma_cut_texts(s, cuts, n);
    assert(cut_texts(s, cuts).take(n) =~= cut_texts(s, cuts));
    assert(s.subrange(cuts[0].0, s.len() as int) =~= s.skip(cuts[0].0));
}

proof fn lemma_same_items<T>(a: Seq<T>, b: Seq<T>, j: int)
    requires
        a.to_multiset() == b.to_multiset(),
        0 <= j < b.len(),
    ensures
        exists|i: int| 0 <= i < a.len() && a[i] == b[j],
{
    broadcast use vstd::seq_lib::group_to_multiset_ensures;

    assert(b.contains(b[j]));
    assert(b.to_multiset().count(b[j]) > 0);
    assert(a.to_multiset().count(b[j]) > 0);
    assert(a.contains(b[j]));
}

proof fn lemma_cut_out(s: Seq<char>, cuts: Seq<(int, EntryView)>, n: int)
    requires
        0 <= n <= cuts.len(),
        forall|k: int| 0 <= k < cuts.len() ==> 0 <= (#[trigger] cuts[k]).0 < s.len(),
        crate::order::keys_ascend(keys_of(cuts)),
    ensures
        forall|k: int|
            0 <= k < cut_out(s, cuts, n).len() ==> taken_from(
                s,
                (#[trigger] cut_out(s, cuts, n)[k]).body,
            ),
    decreases n,
{
    if n > 0 {
        lemma_cut_out(s, cuts, n - 1);
        let a = cuts[n - 1].0;
        let b = cut_end(s, cuts, n - 1);
        if n < cuts.len() {
            assert(keys_of(cuts)[n - 1] <= keys_of(cuts)[n]);
            assert(cuts[n].0 < s.len());
        }
        lemma_one_slice(s, a, b);
        let before = cut_out(s, cuts, n - 1);
        let now = cut_out(s, cuts, n);
        assert forall|k: int| 0 <= k < now.len() implies taken_from(s, (#[trigger] now[k]).body) by {
            if k < before.len() {
                assert(now[k] == before[k]);
            }
        }
    }
}

proof fn lemma_without_scraps(s: Seq<char>, entries: Seq<EntryView>)
    requires
        forall|k: int| 0 <= k < entries.len() ==> taken_from(s, (#[trigger] entries[k]).body),
    ensures
        forall|k: int|
            0 <= k < without_scraps(entries).len() ==> taken_from(
                s,
                (#[trigger] without_scraps(entries)[k]).body,
            ),
    decreases entries.len(),
{
    if entries.len() > 0 {
        let head = entries.drop_last();
        let before = without_scraps(head);
        let e = entries.last();
        assert(e == entries[entries.len() - 1]);
        lemma_without_scraps(s, head);
        if is_scrap(e) && before.len() > 0 {
            assert(before.last() == before[before.len() - 1]);
            lemma_more_slices(s, before.last().body, e.body);
        }
    }
}

/// Whatever is proposed, every body is made of stretches of the source text: nothing that a
/// proposal says gets into a body.
pub proof fn bodies_are_source_text(s: Seq<char>, proposals: Seq<EntryView>)
    ensures
        forall|k: int|
            0 <= k < materialized(s, proposals).len() ==> taken_from(
                s,
                (#[trigger] materialized(s, proposals)[k]).body,
            ),
{
    let cuts = final_cuts(s, proposals);
    cuts_lie_in_order(s, proposals);
    lemma_cut_out(s, cuts, cuts.len() as int);
    let first = preface(s, cuts);
    let rest = cut_out(s, cuts, cuts.len() as int);
    let all = first + rest;
    if first.len() > 0 {
        assert(s.take(cuts[0].0) =~= s.subrange(0, cuts[0].0));
        lemma_one_slice(s, 0, cuts[0].0);
    }
    assert forall|k: int| 0 <= k < all.len() implies taken_from(s, (#[trigger] all[k]).body) by {
        if k >= first.len() {
            assert(all[k] == rest[k - first.len()]);
        }
    }
    lemma_without_scraps(s, all);
}

// ---------------------------------------------------------------------------------------------
// Nothing of the source is lost
// ---------------------------------------------------------------------------------------------

/// The bodies of entries.
pub open spec fn entry_bodies(entries: Seq<EntryView>) -> Seq<Seq<char>> {
    Seq::new(entries.len(), |k: int| entries[k].body)
}

/// The texts without surrounding white space, those of fewer than `least` characters left out.
pub open spec fn solid_texts(all: Seq<Seq<char>>, least: int) -> Seq<Seq<char>>
    decreases all.len(),
{
    if all.len() == 0 {
        Seq::empty()
    } else if trimmed(all.last()).len() < least {
        solid_texts(all.drop_last(), least)
    } else {
        solid_texts(all.drop_last(), least).push(trimmed(all.last()))
    }
}

proof fn lemma_cut_bodies(s: Seq<char>, cuts: Seq<(int, EntryView)>, n: int)
    requires
        0 <= n <= cuts.len(),
    ensures
        entry_bodies(cut_out(s, cuts, n)) == solid_texts(cut_texts(s, cuts).take(n), 8),
    decreases n,
{
    let t = cut_texts(s, cuts).take(n);
    if n == 0 {
        assert(entry_bodies(cut_out(s, cuts, n)) =~= Seq::<Seq<char>>::empty());
    } else {
        lemma_cut_bodies(s, cuts, n - 1);
        assert(t.drop_last() =~= cut_texts(s, cuts).take(n - 1));
        assert(t.last() == s.subrange(cuts[n - 1].0, cut_end(s, cuts, n - 1)));
        let before = cut_out(s, cuts, n - 1);
        if trimmed(t.last()).len() >= 8 {
            assert(entry_bodies(cut_out(s, cuts, n)) =~= entry_bodies(before).push(
                trimmed(t.last()),
            ));
        }
    }
}

proof fn lemma_scraps_text(entries: Seq<EntryView>)
    ensures
        joined(entry_bodies(without_scraps(entries)), "\n"@) == joined(
            entry_bodies(entries),
            "\n"@,
        ),
        without_scraps(entries).len() == 0 <==> entries.len() == 0,
    decreases entries.len(),
{
    let sep = "\n"@;
    if entries.len() == 0 {
        assert(entry_bodies(without_scraps(entries)) =~= entry_bodies(entries));
    } else {
        lemma_scraps_text(entries.drop_last());
        let before = without_scraps(entries.drop_last());
        let e = entries.last();
        let now = without_scraps(entries);
        assert(entry_bodies(entries).drop_last() =~= entry_bodies(entries.drop_last()));
        assert(entry_bodies(entries).last() == e.body);
        assert(entry_bodies(now).last() == now.last().body);
        if is_scrap(e) && before.len() > 0 {
            let front = before.drop_last();
            let p = before.last();
            assert(entry_bodies(now).drop_last() =~= entry_bodies(front));
            assert(entry_bodies(before).drop_last() =~= entry_bodies(front));
            assert(entry_bodies(before).last() == p.body);
            assert(joined(entry_bodies(front), sep) + sep + (p.body + sep + e.body) =~= joined(
                entry_bodies(front),
                sep,
            ) + sep + p.body + sep + e.body);
        } else {
            assert(entry_bodies(now).drop_last() =~= entry_bodies(before));
        }
    }
}

/// The entries hold all of the source. The texts that the cuts divide the source into, each whole
/// but for surrounding white space, are the bodies, one after the other, with a line feed where a
/// scrap was put to the entry before it; before them stands the text before the first cut. Only
/// texts of fewer than eight characters are left out, and fewer than forty before the first cut.
pub proof fn entries_hold_the_source(s: Seq<char>, proposals: Seq<EntryView>)
    requires
        final_cuts(s, proposals).len() > 0,
    ensures
        ({
            let cuts = final_cuts(s, proposals);
            joined(entry_bodies(materialized(s, proposals)), "\n"@) == joined(
                solid_texts(seq![s.take(cuts[0].0)], 40) + solid_texts(cut_texts(s, cuts), 8),
                "\n"@,
            )
        }),
{
    let cuts = final_cuts(s, proposals);
    let n = cuts.len() as int;
    let head = s.take(cuts[0].0);
    let all = preface(s, cuts) + cut_out(s, cuts, n);
    lemma_cut_bodies(s, cuts, n);
    assert(cut_texts(s, cuts).take(n) =~= cut_texts(s, cuts));
    assert(seq![head].drop_last() =~= Seq::<Seq<char>>::empty());
    assert(solid_texts(Seq::<Seq<char>>::empty(), 40) =~= Seq::<Seq<char>>::empty());
    assert(entry_bodies(preface(s, cuts)) =~= solid_texts(seq![head], 40));
    assert(entry_bodies(all) =~= entry_bodies(preface(s, cuts)) + entry_bodies(
        cut_out(s, cuts, n),
    ));
    lemma_scraps_text(all);
}

/// Whether an entry has the names and the kind that a proposal gave it.
pub open spec fn named_by(e: EntryView, p: EntryView) -> bool {
    e.title == p.title && e.aliases == p.aliases && e.entity_type == p.entity_type
}

proof fn lemma_cut_entry(s: Seq<char>, cuts: Seq<(int, EntryView)>, n: int, k: int)
    requires
        0 <= k < n <= cuts.len(),
        trimmed(cut_texts(s, cuts)[k]).len() >= 8,
    ensures
        exists|j: int|
            0 <= j < cut_out(s, cuts, n).len() && named_by(
                #[trigger] cut_out(s, cuts, n)[j],
                cuts[k].1,
            ) && cut_out(s, cuts, n)[j].body == trimmed(cut_texts(s, cuts)[k]),
    decreases n,
{
    let before = cut_out(s, cuts, n - 1);
    let now = cut_out(s, cuts, n);
    assert(cut_texts(s, cuts)[k] == s.subrange(cuts[k].0, cut_end(s, cuts, k)));
    if k == n - 1 {
        assert(named_by(now[before.len() as int], cuts[k].1));
    } else {
        lemma_cut_entry(s, cuts, n - 1, k);
        let j = choose|j: int|
            0 <= j < before.len() && named_by(#[trigger] before[j], cuts[k].1) && before[j].body
                == trimmed(cut_texts(s, cuts)[k]);
        assert(now[j] == before[j]);
    }
}

proof fn lemma_scrap_entry(entries: Seq<EntryView>, k: int)
    requires
        0 <= k < entries.len(),
        !((entries[k].title == "未命名块"@ || entries[k].title == "本章前言"@) && entries[k].body.len()
            < 24),
    ensures
        exists|j: int|
            0 <= j < without_scraps(entries).len() && named_by(
                #[trigger] without_scraps(entries)[j],
                entries[k],
            ) && entries[k].body.is_prefix_of(without_scraps(entries)[j].body),
    decreases entries.len(),
{
    let before = without_scraps(entries.drop_last());
    let now = without_scraps(entries);
    let e = entries.last();
    if k == entries.len() - 1 {
        assert(now.last() == e);
        assert(named_by(now[now.len() - 1], e));
    } else {
        lemma_scrap_entry(entries.drop_last(), k);
        assert(entries.drop_last()[k] == entries[k]);
        let j = choose|j: int|
            0 <= j < before.len() && named_by(#[trigger] before[j], entries[k])
                && entries[k].body.is_prefix_of(before[j].body);
        if is_scrap(e) && j == before.len() - 1 {
            assert(now[j].body == before[j].body + "\n"@ + e.body);
            assert(named_by(now[j], entries[k]));
            assert(now[j].body.take(entries[k].body.len() as int) =~= before[j].body.take(
                entries[k].body.len() as int,
            ));
        } else {
            assert(now[j] == before[j]);
        }
    }
}

/// Every cut becomes an entry with the names and the kind of its proposal, whose body begins with
/// the whole text from the cut to the next one, unless that has fewer than eight characters, or
/// fewer than twenty-four and no name of its own.
pub proof fn every_cut_becomes_an_entry(s: Seq<char>, proposals: Seq<EntryView>, k: int)
    requires
        0 <= k < final_cuts(s, proposals).len(),
        trimmed(cut_texts(s, final_cuts(s, proposals))[k]).len() >= 8,
        ({
            let title = final_cuts(s, proposals)[k].1.title;
            (title != "未命名块"@ && title != "本章前言"@) || trimmed(
                cut_texts(s, final_cuts(s, proposals))[k],
            ).len() >= 24
        }),
    ensures
        exists|j: int|
            0 <= j < materialized(s, proposals).len() && named_by(
                #[trigger] materialized(s, proposals)[j],
                final_cuts(s, proposals)[k].1,
            ) && trimmed(cut_texts(s, final_cuts(s, proposals))[k]).is_prefix_of(
                materialized(s, proposals)[j].body,
            ),
{
    let cuts = final_cuts(s, proposals);
    let n = cuts.len() as int;
    let body = trimmed(cut_texts(s, cuts)[k]);
    let first = preface(s, cuts);
    let rest = cut_out(s, cuts, n);
    let all = first + rest;
    lemma_cut_entry(s, cuts, n, k);
    let j = choose|j: int|
        0 <= j < rest.len() && named_by(#[trigger] rest[j], cuts[k].1) && rest[j].body == body;
    assert(all[first.len() + j] == rest[j]);
    lemma_scrap_entry(all, first.len() + j);
    let i = choose|i: int|
        0 <= i < without_scraps(all).len() && named_by(
            #[trigger] without_scraps(all)[i],
            all[first.len() + j],
        ) && all[first.len() + j].body.is_prefix_of(without_scraps(all)[i].body);
    assert(named_by(materialized(s, proposals)[i], cuts[k].1));
}

/// Whether a cut stands for a proposal that begins at `at`: it lies there or fewer than 24 bytes
/// before, and has all the other names of the proposal.
pub open spec fn cut_stands_for(s: Seq<char>, cut: (int, EntryView), at: int, p: EntryView) -> bool {
    &&& 0 <= cut.0 <= at
    &&& byte_len(s.subrange(cut.0, at)) < 24
    &&& forall|x: Seq<char>| #[trigger] p.aliases.contains(x) ==> cut.1.aliases.contains(x)
}

proof fn lemma_merged_stands(s: Seq<char>, cuts: Seq<(int, EntryView)>, j: int)
    requires
        0 <= j < cuts.len(),
        crate::order::keys_ascend(keys_of(cuts)),
        forall|k: int| 0 <= k < cuts.len() ==> 0 <= (#[trigger] cuts[k]).0 < s.len(),
    ensures
        exists|k: int|
            0 <= k < merged(s, cuts).len() && cut_stands_for(
                s,
                #[trigger] merged(s, cuts)[k],
                cuts[j].0,
                cuts[j].1,
            ),
    decreases cuts.len(),
{
    let head = cuts.drop_last();
    let keys = keys_of(cuts);
    assert forall|i: int, l: int|
        #![trigger keys_of(head)[i], keys_of(head)[l]]
        0 <= i < l < head.len() implies keys_of(head)[i] <= keys_of(head)[l] by {
        assert(keys[i] <= keys[l]);
    }
    assert forall|k: int| 0 <= k < head.len() implies 0 <= (#[trigger] head[k]).0 < s.len() by {
        assert(cuts[k] == head[k]);
    }
    lemma_merged(s, head);
    let before = merged(s, head);
    let now = merged(s, cuts);
    let cut = cuts.last();
    assert(cuts[cuts.len() - 1] == cut);
    let near = before.len() > 0 && byte_pos(s, cut.0) - byte_pos(s, before.last().0) < 24;
    if head.len() > 0 {
        assert(keys[head.len() - 1] <= keys[head.len() as int]);
        let i = choose|i: int|
            0 <= i < head.len() && (#[trigger] head[i]).0 == before[before.len() - 1].0;
        assert(0 <= before.last().0 <= cut.0);
        crate::offsets::lemma_byte_pos_step(s, before.last().0, cut.0);
    }
    if near {
        joined_names_hold_both(before.last().1.aliases, cut.1.aliases);
    }
    if j == cuts.len() - 1 {
        assert(s.subrange(cut.0, cut.0).len() == 0);
        assert(cut_stands_for(s, now[now.len() - 1], cut.0, cut.1));
    } else {
        lemma_merged_stands(s, head, j);
        assert(head[j] == cuts[j]);
        let k = choose|k: int|
            0 <= k < before.len() && cut_stands_for(s, #[trigger] before[k], head[j].0, head[j].1);
        if near && k == before.len() - 1 {
            assert(now[k].0 == before[k].0);
            assert(cut_stands_for(s, now[k], cuts[j].0, cuts[j].1));
        } else {
            assert(now[k] == before[k]);
        }
    }
}

/// No proposal whose place is known is dropped: a cut at its place, or fewer than 24 bytes before,
/// stands for it, with all its other names.
pub proof fn every_placed_proposal_has_a_cut(s: Seq<char>, proposals: Seq<EntryView>, j: int)
    requires
        0 <= j < placed(s, proposals).len(),
    ensures
        exists|k: int|
            0 <= k < final_cuts(s, proposals).len() && cut_stands_for(
                s,
                #[trigger] final_cuts(s, proposals)[k],
                placed(s, proposals)[j].0,
                placed(s, proposals)[j].1,
            ),
{
    let a = placed(s, proposals);
    let b = sorted_by_key(a);
    lemma_placed(s, proposals);
    crate::order::sorted_by_key_ascends(a);
    lemma_same_items(b, a, j);
    let i = choose|i: int| 0 <= i < b.len() && b[i] == a[j];
    assert forall|k: int| 0 <= k < b.len() implies 0 <= (#[trigger] b[k]).0 < s.len() by {
        lemma_same_items(a, b, k);
        let m = choose|m: int| 0 <= m < a.len() && a[m] == b[k];
        assert(0 <= a[m].0 < s.len());
    }
    lemma_merged_stands(s, b, i);
    let k = choose|k: int|
        0 <= k < merged(s, b).len() && cut_stands_for(s, #[trigger] merged(s, b)[k], b[i].0, b[i].1);
    assert(cut_stands_for(s, final_cuts(s, proposals)[k], a[j].0, a[j].1));
}

proof fn lemma_merged_apart(s: Seq<char>, cuts: Seq<(int, EntryView)>)
    ensures
        forall|k: int, l: int|
            #![trigger merged(s, cuts)[k], merged(s, cuts)[l]]
            0 <= k && l == k + 1 && l < merged(s, cuts).len() ==> byte_pos(s, merged(s, cuts)[l].0)
                - byte_pos(s, merged(s, cuts)[k].0) >= 24,
        forall|k: int|
            0 <= k < merged(s, cuts).len() ==> exists|j: int|
                0 <= j < cuts.len() && (#[trigger] cuts[j]).0 == (#[trigger] merged(s, cuts)[k]).0
                    && cuts[j].1.entity_type == merged(s, cuts)[k].1.entity_type && (!is_blank(
                    cuts[j].1.title,
                ) ==> merged(s, cuts)[k].1.title == cuts[j].1.title),
    decreases cuts.len(),
{
    if cuts.len() > 0 {
        let head = cuts.drop_last();
        lemma_merged_apart(s, head);
        let before = merged(s, head);
        let now = merged(s, cuts);
        assert forall|k: int, l: int|
            #![trigger now[k], now[l]]
            0 <= k && l == k + 1 && l < now.len() implies byte_pos(s, now[l].0) - byte_pos(
            s,
            now[k].0,
        ) >= 24 by {
            if l < before.len() {
                assert(now[k].0 == before[k].0 && now[l].0 == before[l].0);
            }
        }
        assert forall|k: int| 0 <= k < now.len() implies exists|j: int|
            0 <= j < cuts.len() && (#[trigger] cuts[j]).0 == (#[trigger] now[k]).0
                && cuts[j].1.entity_type == now[k].1.entity_type && (!is_blank(cuts[j].1.title)
                ==> now[k].1.title == cuts[j].1.title) by {
            if k < before.len() {
                let j = choose|j: int|
                    0 <= j < head.len() && (#[trigger] head[j]).0 == (#[trigger] before[k]).0
                        && head[j].1.entity_type == before[k].1.entity_type && (!is_blank(
                        head[j].1.title,
                    ) ==> before[k].1.title == head[j].1.title);
                assert(cuts[j] == head[j]);
                assert(now[k].0 == before[k].0);
            } else {
                assert(cuts[cuts.len() - 1].0 == now[k].0);
            }
        }
    }
}

/// Every cut lies where a proposal begins, and has the kind of that proposal, and its title unless
/// that is blank. Two cuts are 24 bytes apart at least.
pub proof fn every_cut_comes_from_a_proposal(s: Seq<char>, proposals: Seq<EntryView>)
    ensures
        forall|k: int|
            0 <= k < final_cuts(s, proposals).len() ==> exists|j: int|
                0 <= j < placed(s, proposals).len() && (#[trigger] placed(s, proposals)[j]).0 == (
                #[trigger] final_cuts(s, proposals)[k]).0 && placed(s, proposals)[j].1.entity_type
                    == final_cuts(s, proposals)[k].1.entity_type && (!is_blank(
                    placed(s, proposals)[j].1.title,
                ) ==> final_cuts(s, proposals)[k].1.title == placed(s, proposals)[j].1.title),
        forall|k: int, l: int|
            #![trigger final_cuts(s, proposals)[k], final_cuts(s, proposals)[l]]
            0 <= k && l == k + 1 && l < final_cuts(s, proposals).len() ==> byte_pos(
                s,
                final_cuts(s, proposals)[l].0,
            ) - byte_pos(s, final_cuts(s, proposals)[k].0) >= 24,
{
    let a = placed(s, proposals);
    let b = sorted_by_key(a);
    let cuts = final_cuts(s, proposals);
    crate::order::sorted_by_key_ascends(a);
    lemma_merged_apart(s, b);
    assert forall|k: int| 0 <= k < cuts.len() implies exists|j: int|
        0 <= j < a.len() && (#[trigger] a[j]).0 == (#[trigger] cuts[k]).0 && a[j].1.entity_type
            == cuts[k].1.entity_type && (!is_blank(a[j].1.title) ==> cuts[k].1.title
            == a[j].1.title) by {
        let i = choose|i: int|
            0 <= i < b.len() && (#[trigger] b[i]).0 == (#[trigger] merged(s, b)[k]).0
                && b[i].1.entity_type == merged(s, b)[k].1.entity_type && (!is_blank(b[i].1.title)
                ==> merged(s, b)[k].1.title == b[i].1.title);
        lemma_same_items(a, b, i);
        let j = choose|j: int| 0 <= j < a.len() && a[j] == b[i];
        assert(a[j].0 == cuts[k].0);
    }
}

/// Whether `needle` first stands at `i`, of all places from `from` on.
pub open spec fn first_stands_at(s: Seq<char>, needle: Seq<char>, from: int, i: int) -> bool {
    &&& 0 <= from <= i
    &&& occurs_at(s, needle, i)
    &&& forall|j: int| from <= j < i ==> !#[trigger] occurs_at(s, needle, j)
}

proof fn lemma_find_first(s: Seq<char>, needle: Seq<char>, from: int, i: int)
    requires
        needle.len() >= 2,
        0 <= from,
        first_stands_at(s, needle, floor_pos(s, from), i),
    ensures
        find_hint(s, needle, from) == Some(i),
{
    let a = floor_pos(s, from);
    let whole = s.take(s.len() as int);
    assert(whole =~= s);
    lemma_index_from(s, needle, a);
    assert(occurs_at(s, needle, i));
}

proof fn lemma_not_found(s: Seq<char>, needle: Seq<char>, from: int)
    requires
        0 <= from,
        forall|i: int| !#[trigger] first_stands_at(s, needle, floor_pos(s, from), i),
    ensures
        find_hint(s, needle, from) is None,
{
    let a = floor_pos(s, from);
    let whole = s.take(s.len() as int);
    assert(whole =~= s);
    lemma_floor_pos(s, from);
    lemma_index_from(s, needle, a);
    if find_hint(s, needle, from) is Some {
        let i = index_from(s, needle, a)->0;
        assert(first_stands_at(s, needle, a, i));
    }
}

proof fn lemma_in_segment(s: Seq<char>, start: int, anchor: Seq<char>, i: int)
    ensures
        anchor.len() >= 2 && 0 <= start && first_stands_at(s, anchor, start, i) && byte_len(
            s.subrange(start, i + anchor.len()),
        ) <= 200 ==> place_in_segment(s, start, anchor) == i,
        0 <= start <= s.len() && (forall|j: int| start <= j ==> !#[trigger] occurs_at(s, anchor, j))
            ==> place_in_segment(s, start, anchor) == start,
{
    let bound = byte_pos(s, start) as int + 200;
    let far = ceil_pos(s, bound);
    let part = s.take(far);
    lemma_ceil_pos(s, bound);
    if 0 <= start {
        lemma_index_from(part, anchor, start);
    }
    assert forall|j: int| 0 <= j && #[trigger] occurs_at(part, anchor, j) implies occurs_at(
        s,
        anchor,
        j,
    ) by {
        assert(part.subrange(j, j + anchor.len()) =~= s.subrange(j, j + anchor.len()));
    }
    if anchor.len() >= 2 && 0 <= start && first_stands_at(s, anchor, start, i) && byte_len(
        s.subrange(start, i + anchor.len()),
    ) <= 200 {
        let e = i + anchor.len();
        crate::offsets::lemma_byte_pos_step(s, start, e);
        lemma_byte_pos_end(s);
        if far < e {
            lemma_byte_pos_order(s, far, e);
        }
        assert(part.subrange(i, e) =~= s.subrange(i, e));
        assert(occurs_at(part, anchor, i));
    }
}

/// Where an entry begins. With the number of a segment, at that segment, or within the next 200
/// bytes where its anchor first stands there. Else where its anchor first stands in the text not yet
/// used, or else its title, or else the beginning of its body.
pub proof fn entries_begin_where_their_words_stand(s: Seq<char>, p: EntryView, from: int, i: int)
    requires
        0 <= from,
    ensures
        0 <= p.start < segment_spans(s).len() && trimmed(p.anchor).len() < 2 ==> place(
            s,
            segment_spans(s),
            p,
            from,
        ) == Some(segment_spans(s)[p.start].0),
        0 <= p.start < segment_spans(s).len() && trimmed(p.anchor).len() >= 2 && first_stands_at(
            s,
            trimmed(p.anchor),
            segment_spans(s)[p.start].0,
            i,
        ) && byte_len(s.subrange(segment_spans(s)[p.start].0, i + trimmed(p.anchor).len())) <= 200
            ==> place(s, segment_spans(s), p, from) == Some(i),
        0 <= p.start < segment_spans(s).len() && (forall|j: int|
            segment_spans(s)[p.start].0 <= j ==> !#[trigger] occurs_at(s, trimmed(p.anchor), j))
            ==> place(s, segment_spans(s), p, from) == Some(segment_spans(s)[p.start].0),
        p.start < 0 && trimmed(p.anchor).len() >= 2 && first_stands_at(
            s,
            trimmed(p.anchor),
            floor_pos(s, from),
            i,
        ) ==> place(s, segment_spans(s), p, from) == Some(i),
        p.start < 0 && trimmed(p.title).len() >= 2 && first_stands_at(
            s,
            trimmed(p.title),
            floor_pos(s, from),
            i,
        ) && (trimmed(p.anchor).len() < 2 || forall|j: int|
            !#[trigger] first_stands_at(s, trimmed(p.anchor), floor_pos(s, from), j)) ==> place(
            s,
            segment_spans(s),
            p,
            from,
        ) == Some(i),
        p.start < 0 && trimmed(prefix(p.body, 16)).len() >= 2 && first_stands_at(
            s,
            trimmed(prefix(p.body, 16)),
            floor_pos(s, from),
            i,
        ) && (trimmed(p.anchor).len() < 2 || forall|j: int|
            !#[trigger] first_stands_at(s, trimmed(p.anchor), floor_pos(s, from), j)) && (trimmed(
            p.title,
        ).len() < 2 || forall|j: int|
            !#[trigger] first_stands_at(s, trimmed(p.title), floor_pos(s, from), j)) ==> place(
            s,
            segment_spans(s),
            p,
            from,
        ) == Some(i),
{
    let a = floor_pos(s, from);
    let anchor = trimmed(p.anchor);
    let title = trimmed(p.title);
    let body = trimmed(prefix(p.body, 16));
    if 0 <= p.start < segment_spans(s).len() {
        segments_cover_the_text(s);
        assert(0 <= segment_spans(s)[p.start].0 <= s.len());
        lemma_in_segment(s, segment_spans(s)[p.start].0, anchor, i);
    }
    if anchor.len() >= 2 && first_stands_at(s, anchor, a, i) {
        lemma_find_first(s, anchor, from, i);
    }
    if title.len() >= 2 && first_stands_at(s, title, a, i) {
        lemma_find_first(s, title, from, i);
    }
    if body.len() >= 2 && first_stands_at(s, body, a, i) {
        lemma_find_first(s, body, from, i);
    }
    if forall|j: int| !#[trigger] first_stands_at(s, anchor, a, j) {
        lemma_not_found(s, anchor, from);
    }
    if forall|j: int| !#[trigger] first_stands_at(s, title, a, j) {
        lemma_not_found(s, title, from);
    }
}

} // verus!
