//! Refining the blocks of a document into entries.
//!
//! A block is cut at its own short headings where that works; a long block without them goes to a
//! splitter, whose proposals are put back onto the text; what is left becomes one entry.
pub use crate::cuts::materialize_entries;
pub use crate::entries::{
    array_slice, finish_entries, local_structure_split, normalize_entry, parse_entries_json,
    read_index, strip_code_fence, ArraySlice, SplitError,
};
pub use crate::segment::{pack_pieces, segment_text, Piece, Segment, MAX_SEG_CHARS};

use crate::cuts::{
    entry_bodies, join_names, joined_names, joined_names_hold_both, materialized,
};
use crate::entries::{chapter_title, local_entries, looks_like_chapter_title};
use crate::ingest::{
    aliases_of, all_keyed, block_draft, extract_aliases, guess_entity_type, keyed, kind_of,
    kind_words, make_block_draft, make_draft, next_draft, ordinal_at,
};
use crate::normalize::{alt_anchor, anchor_key, body_digest, sha1_body_hex};
use crate::scan::{ends_char, ends_with_char, find_last, joined, last_at};
use crate::text::{
    copy, extend, extend_str, same, same_str, texts, to_chars, to_text, trim_end, trimmed_end,
};
use crate::types::{
    block_views, draft_views, entry_views, Block, BlockView, DraftChunk, DraftView, EntryView,
    ExtractedEntry,
};
use vstd::prelude::*;
use vstd::slice::slice_subrange;

verus! {

/// Something that proposes entries for a chapter.
pub trait EntrySplitter: Send + Sync {
    /// Proposes entries for a chapter. On failure the caller keeps the chapter as it is.
    fn split_chapter(&self, chapter_title: &str, body: &str) -> (r: Result<
        Vec<ExtractedEntry>,
        SplitError,
    >);

    /// Proposes entries for several chapters. Unless a splitter does better, each chapter is split by
    /// itself, and the answers come in the order of the chapters.
    fn split_many(&self, chapters: &[(String, String)]) -> (r: Vec<
        Result<Vec<ExtractedEntry>, SplitError>,
    >)
        default_ensures
            r@.len() == chapters@.len(),
            exists|asked: Seq<(&str, &str)>|
                {
                    &&& #[trigger] asked.len() == chapters@.len()
                    &&& forall|i: int|
                        #![trigger asked[i]]
                        #![trigger r@[i]]
                        0 <= i < asked.len() ==> {
                            &&& asked[i].0@ == chapters@[i].0@
                            &&& asked[i].1@ == chapters@[i].1@
                            &&& call_ensures(
                                Self::split_chapter,
                                (self, asked[i].0, asked[i].1),
                                r@[i],
                            )
                        }
                },
    {
        let mut out: Vec<Result<Vec<ExtractedEntry>, SplitError>> = Vec::new();
        let ghost mut asked: Seq<(&str, &str)> = Seq::empty();
        let mut i: usize = 0;
        while i < chapters.len()
            invariant
                i <= chapters@.len(),
                out@.len() == i,
                asked.len() == i,
                forall|k: int|
                    #![trigger asked[k]]
                    #![trigger out@[k]]
                    0 <= k < i ==> {
                        &&& asked[k].0@ == chapters@[k].0@
                        &&& asked[k].1@ == chapters@[k].1@
                        &&& call_ensures(
                            Self::split_chapter,
                            (self, asked[k].0, asked[k].1),
                            out@[k],
                        )
                    },
            decreases chapters@.len() - i,
        {
            let c = &chapters[i];
            let title = c.0.as_str();
            let body = c.1.as_str();
            out.push(self.split_chapter(title, body));
            proof {
                asked = asked.push((title, body));
            }
            i += 1;
        }
        out
    }
}

// ---------------------------------------------------------------------------------------------
// What happens to a block
// ---------------------------------------------------------------------------------------------

/// The blocks with neighbours of the same title put together.
pub open spec fn coalesced(blocks: Seq<BlockView>) -> Seq<BlockView>
    decreases blocks.len(),
{
    if blocks.len() == 0 {
        Seq::empty()
    } else {
        let before = coalesced(blocks.drop_last());
        let b = blocks.last();
        if before.len() > 0 && b.title.len() > 0 && before.last().title == b.title {
            let p = before.last();
            before.drop_last().push(BlockView { text: p.text + "\n"@ + b.text, ..p })
        } else {
            before.push(b)
        }
    }
}

/// The number of characters in the bodies of entries.
pub open spec fn covered(entries: Seq<EntryView>) -> int
    decreases entries.len(),
{
    if entries.len() == 0 {
        0
    } else {
        covered(entries.drop_last()) + entries.last().body.len()
    }
}

/// Whether the headings of a block cut it well: into two entries at least, which hold half of its
/// characters at least.
pub open spec fn cuts_itself(b: BlockView) -> bool {
    let entries = local_entries(b.text);
    entries.len() >= 2 && 2 * covered(entries) >= b.text.len()
}

/// Whether a block is long enough to be worth a splitter's work.
pub open spec fn wants_splitter(b: BlockView) -> bool {
    b.text.len() >= 2200 || (b.text.len() >= 800 && chapter_title(b.title))
}

/// Whether a block goes to the splitter.
pub open spec fn goes_out(b: BlockView, with_splitter: bool) -> bool {
    with_splitter && !cuts_itself(b) && wants_splitter(b)
}

/// The titles and texts of the blocks that go to the splitter.
pub open spec fn chapters_out(blocks: Seq<BlockView>, with_splitter: bool) -> Seq<
    (Seq<char>, Seq<char>),
>
    decreases blocks.len(),
{
    if blocks.len() == 0 {
        Seq::empty()
    } else {
        let before = chapters_out(blocks.drop_last(), with_splitter);
        let b = blocks.last();
        if goes_out(b, with_splitter) {
            before.push((b.title, b.text))
        } else {
            before
        }
    }
}

/// What a splitter answers for one chapter.
pub enum Answer {
    Proposals(Seq<EntryView>),
    Failure(Seq<char>),
}

/// The answer of a splitter as a mathematical value.
pub open spec fn answer_view(a: Result<Vec<ExtractedEntry>, SplitError>) -> Answer {
    match a {
        Ok(v) => Answer::Proposals(entry_views(v@)),
        Err(e) => Answer::Failure(e.message@),
    }
}

/// The answers of a splitter as mathematical values.
pub open spec fn answer_views(v: Seq<Result<Vec<ExtractedEntry>, SplitError>>) -> Seq<Answer> {
    Seq::new(v.len(), |i: int| answer_view(v[i]))
}

// ---------------------------------------------------------------------------------------------
// Drafts of blocks and entries
// ---------------------------------------------------------------------------------------------

/// The path of an entry in a chapter.
pub open spec fn entry_path(stem: Seq<char>, chapter: Seq<char>, title: Seq<char>) -> Seq<char> {
    if chapter.len() == 0 || chapter == title {
        stem + " / "@ + title
    } else {
        stem + " / "@ + chapter + " / "@ + title
    }
}

/// The drafts with one more for an entry of a chapter.
pub open spec fn with_entry(
    drafts: Seq<DraftView>,
    stem: Seq<char>,
    chapter: Seq<char>,
    e: EntryView,
) -> Seq<DraftView> {
    drafts.push(
        next_draft(
            drafts,
            entry_path(stem, chapter, e.title),
            e.title,
            e.body,
            if e.entity_type.len() == 0 {
                kind_of(kind_words(e.title, e.body))
            } else {
                e.entity_type
            },
            joined_names(aliases_of(e.title, e.body), e.aliases),
        ),
    )
}

/// The drafts with more for the entries of a chapter.
pub open spec fn with_entries(
    drafts: Seq<DraftView>,
    stem: Seq<char>,
    chapter: Seq<char>,
    entries: Seq<EntryView>,
) -> Seq<DraftView>
    decreases entries.len(),
{
    if entries.len() == 0 {
        drafts
    } else {
        with_entry(
            with_entries(drafts, stem, chapter, entries.drop_last()),
            stem,
            chapter,
            entries.last(),
        )
    }
}

/// The drafts with one more for a whole block.
pub open spec fn with_block(drafts: Seq<DraftView>, stem: Seq<char>, b: BlockView) -> Seq<DraftView> {
    drafts.push(block_draft(drafts, stem + " / "@ + b.title, b))
}

/// Drafts, notes for the user, and how many answers of the splitter have been used.
#[verifier::ext_equal]
pub struct Assembly {
    pub drafts: Seq<DraftView>,
    pub notes: Seq<Seq<char>>,
    pub used: int,
}

/// The note that no proposal for a chapter could be put back onto its text.
pub open spec fn note_unplaced(title: Seq<char>) -> Seq<char> {
    "「"@ + title + "」LLM 切点无法贴回原文，已用规则切开"@
}

/// The note that the splitter failed on a chapter.
pub open spec fn note_failed(title: Seq<char>, message: Seq<char>) -> Seq<char> {
    "「"@ + title + "」拆条失败，已用规则切开："@ + message
}

/// The assembly after a block for which the splitter gave an answer.
pub open spec fn after_answer(a: Assembly, stem: Seq<char>, b: BlockView, answer: Answer) -> Assembly {
    match answer {
        Answer::Proposals(ps) => {
            let entries = materialized(b.text, ps);
            if entries.len() > 0 {
                Assembly {
                    drafts: with_entries(a.drafts, stem, b.title, entries),
                    notes: a.notes,
                    used: a.used + 1,
                }
            } else {
                Assembly {
                    drafts: with_block(a.drafts, stem, b),
                    notes: a.notes.push(note_unplaced(b.title)),
                    used: a.used + 1,
                }
            }
        },
        Answer::Failure(message) => Assembly {
            drafts: with_block(a.drafts, stem, b),
            notes: a.notes.push(note_failed(b.title, message)),
            used: a.used + 1,
        },
    }
}

/// The assembly after one more block.
pub open spec fn after_block(
    a: Assembly,
    stem: Seq<char>,
    with_splitter: bool,
    answers: Seq<Answer>,
    b: BlockView,
) -> Assembly {
    if cuts_itself(b) {
        Assembly { drafts: with_entries(a.drafts, stem, b.title, local_entries(b.text)), ..a }
    } else if goes_out(b, with_splitter) && a.used < answers.len() {
        after_answer(a, stem, b, answers[a.used])
    } else {
        Assembly { drafts: with_block(a.drafts, stem, b), ..a }
    }
}

/// The assembly of blocks, when the splitter gave the answers.
pub open spec fn assembled(
    blocks: Seq<BlockView>,
    stem: Seq<char>,
    with_splitter: bool,
    answers: Seq<Answer>,
) -> Assembly
    decreases blocks.len(),
{
    if blocks.len() == 0 {
        Assembly { drafts: Seq::empty(), notes: Seq::empty(), used: 0 }
    } else {
        after_block(
            assembled(blocks.drop_last(), stem, with_splitter, answers),
            stem,
            with_splitter,
            answers,
            blocks.last(),
        )
    }
}

// ---------------------------------------------------------------------------------------------
// Lead-ins
// ---------------------------------------------------------------------------------------------

/// Whether a text ends with a colon.
pub open spec fn ends_open(s: Seq<char>) -> bool {
    ends_with_char(trimmed_end(s), ':') || ends_with_char(trimmed_end(s), '：')
}

/// Whether a draft only leads in to the one after it: a body of fewer than eighty characters that
/// ends with a colon, or whose title does.
pub open spec fn is_lead(d: DraftView) -> bool {
    d.body.len() < 80 && (ends_open(d.body) || ends_open(d.title))
}

/// A path without its last name.
pub open spec fn chapter_of(path: Seq<char>) -> Seq<char> {
    match last_at(path, " / "@, path.len() as int) {
        Some(i) => path.take(i),
        None => Seq::empty(),
    }
}

/// Whether a draft goes into the one after it.
pub open spec fn leads_into(d: DraftView, next: DraftView) -> bool {
    is_lead(d) && chapter_of(d.parent_path) == chapter_of(next.parent_path)
}

/// A draft with a lead-in put before its body. The title of the lead-in becomes another name.
pub open spec fn with_lead(lead: DraftView, next: DraftView) -> DraftView {
    let body = lead.body + "\n"@ + next.body;
    DraftView {
        body,
        aliases: if lead.title.len() > 0 && lead.title != next.title && !next.aliases.contains(
            lead.title,
        ) {
            seq![lead.title] + next.aliases
        } else {
            next.aliases
        },
        content_hash: body_digest(body),
        alt_anchor: anchor_key(next.parent_path, body),
        ..next
    }
}

/// The drafts with every lead-in put into the draft after it.
pub open spec fn leads_merged(drafts: Seq<DraftView>) -> Seq<DraftView>
    decreases drafts.len(),
{
    if drafts.len() == 0 {
        Seq::empty()
    } else {
        let before = leads_merged(drafts.drop_last());
        let d = drafts.last();
        if before.len() > 0 && leads_into(before.last(), d) {
            before.drop_last().push(with_lead(before.last(), d))
        } else {
            before.push(d)
        }
    }
}

/// The drafts numbered from zero.
pub open spec fn renumbered(drafts: Seq<DraftView>) -> Seq<DraftView> {
    Seq::new(drafts.len(), |k: int| DraftView { ordinal: ordinal_at(k), ..drafts[k] })
}

/// The drafts of a document, when the splitter gave the answers.
pub open spec fn refined(
    blocks: Seq<BlockView>,
    stem: Seq<char>,
    with_splitter: bool,
    answers: Seq<Answer>,
) -> (Seq<DraftView>, Seq<Seq<char>>) {
    let a = assembled(coalesced(blocks), stem, with_splitter, answers);
    (renumbered(leads_merged(a.drafts)), a.notes)
}

// ---------------------------------------------------------------------------------------------
// Executable side
// ---------------------------------------------------------------------------------------------

/// Puts neighbouring blocks of the same title together.
pub fn coalesce_same_title(blocks: &[Block]) -> (r: Vec<Block>)
    ensures
        block_views(r@) == coalesced(block_views(blocks@)),
{
    let ghost all = block_views(blocks@);
    let mut out: Vec<Block> = Vec::new();
    assert(block_views(out@) =~= Seq::<BlockView>::empty());
    let mut i: usize = 0;
    while i < blocks.len()
        invariant
            i <= blocks@.len(),
            all == block_views(blocks@),
            block_views(out@) == coalesced(all.take(i as int)),
        decreases blocks@.len() - i,
    {
        let ghost before = block_views(out@);
        proof {
            assert(all.take(i + 1).drop_last() =~= all.take(i as int));
            assert(all.take(i + 1).last() == blocks@[i as int]@);
            if before.len() > 0 {
                assert(before.last() == out@[out@.len() - 1]@);
            }
        }
        let b = &blocks[i];
        let title = to_chars(b.title.as_str());
        let again = out.len() > 0 && title.len() > 0 && same_str(
            title.as_slice(),
            out[out.len() - 1].title.as_str(),
        );
        if again {
            match out.pop() {
                Some(last) => {
                    let mut p = last;
                    let ghost was = p@;
                    let mut text = to_chars(p.text.as_str());
                    extend_str(&mut text, "\n");
                    extend_str(&mut text, b.text.as_str());
                    p.text = to_text(text.as_slice());
                    assert(p@ =~= BlockView { text: was.text + "\n"@ + b@.text, ..was });
                    out.push(p);
                    assert(block_views(out@) =~= before.drop_last().push(p@));
                },
                None => {},
            }
        } else {
            let c = b.clone();
            out.push(c);
            assert(block_views(out@) =~= before.push(c@));
        }
        i += 1;
    }
    assert(all.take(i as int) =~= all);
    out
}

fn covers_half(entries: &Vec<ExtractedEntry>, total: usize) -> (r: bool)
    ensures
        r == (2 * covered(entry_views(entries@)) >= total),
{
    let ghost all = entry_views(entries@);
    let mut i: usize = 0;
    let mut sum: u128 = 0;
    while i < entries.len()
        invariant
            i <= entries@.len(),
            all == entry_views(entries@),
            sum == covered(all.take(i as int)),
            sum <= i * 0x1_0000_0000_0000_0000,
        decreases entries@.len() - i,
    {
        proof {
            assert(all.take(i + 1).drop_last() =~= all.take(i as int));
            assert(all.take(i + 1).last() == entries@[i as int]@);
        }
        let b = to_chars(entries[i].body.as_str());
        let n: usize = b.len();
        sum = sum + n as u128;
        i += 1;
    }
    assert(all.take(i as int) =~= all);
    let want: u128 = total as u128;
    sum >= want || want - sum <= sum
}

fn split_itself(b: &Block) -> (r: Option<Vec<ExtractedEntry>>)
    ensures
        match r {
            Some(v) => cuts_itself(b@) && entry_views(v@) == local_entries(b.text@),
            None => !cuts_itself(b@),
        },
{
    let v = local_structure_split(b.text.as_str());
    assert(entry_views(v@).len() == v@.len());
    let text = to_chars(b.text.as_str());
    if v.len() >= 2 && covers_half(&v, text.len()) {
        Some(v)
    } else {
        None
    }
}

fn should_llm(b: &Block) -> (r: bool)
    ensures
        r == wants_splitter(b@),
{
    let text = to_chars(b.text.as_str());
    let title = to_chars(b.title.as_str());
    text.len() >= 2200 || (text.len() >= 800 && looks_like_chapter_title(title.as_slice()))
}

/// The values of titles and texts.
pub open spec fn chapter_views(v: Seq<(String, String)>) -> Seq<(Seq<char>, Seq<char>)> {
    Seq::new(v.len(), |i: int| (v[i].0@, v[i].1@))
}

/// Lists the blocks that go to the splitter.
pub fn chapters_to_split(blocks: &Vec<Block>, with_splitter: bool) -> (r: Vec<(String, String)>)
    ensures
        chapter_views(r@) == chapters_out(block_views(blocks@), with_splitter),
{
    let ghost all = block_views(blocks@);
    let mut out: Vec<(String, String)> = Vec::new();
    assert(chapter_views(out@) =~= Seq::<(Seq<char>, Seq<char>)>::empty());
    let mut i: usize = 0;
    while i < blocks.len()
        invariant
            i <= blocks@.len(),
            all == block_views(blocks@),
            chapter_views(out@) == chapters_out(all.take(i as int), with_splitter),
        decreases blocks@.len() - i,
    {
        proof {
            assert(all.take(i + 1).drop_last() =~= all.take(i as int));
            assert(all.take(i + 1).last() == blocks@[i as int]@);
        }
        let b = &blocks[i];
        if with_splitter && should_llm(b) && split_itself(b).is_none() {
            let ghost before = chapter_views(out@);
            out.push((b.title.clone(), b.text.clone()));
            assert(chapter_views(out@) =~= before.push((b.title@, b.text@)));
        }
        i += 1;
    }
    assert(all.take(i as int) =~= all);
    out
}

fn push_entry(drafts: &mut Vec<DraftChunk>, stem: &str, chapter: &str, e: &ExtractedEntry)
    ensures
        draft_views(final(drafts)@) == with_entry(draft_views(old(drafts)@), stem@, chapter@, e@),
{
    let ghost before = draft_views(drafts@);
    let ch = to_chars(chapter);
    let mut path = to_chars(stem);
    extend_str(&mut path, " / ");
    if ch.len() > 0 && !same_str(ch.as_slice(), e.title.as_str()) {
        extend(&mut path, ch.as_slice());
        extend_str(&mut path, " / ");
    }
    extend_str(&mut path, e.title.as_str());
    let mut aliases = extract_aliases(e.title.as_str(), e.body.as_str());
    join_names(&mut aliases, &e.aliases);
    let kind_chars = to_chars(e.entity_type.as_str());
    let kind = if kind_chars.len() == 0 {
        guess_entity_type(e.title.as_str(), e.body.as_str())
    } else {
        e.entity_type.clone()
    };
    let d = make_draft(
        drafts,
        to_text(path.as_slice()),
        e.title.clone(),
        e.body.clone(),
        kind,
        aliases,
    );
    drafts.push(d);
    assert(draft_views(drafts@) =~= before.push(d@));
}

fn push_entries(drafts: &mut Vec<DraftChunk>, stem: &str, chapter: &str, entries: &Vec<ExtractedEntry>)
    ensures
        draft_views(final(drafts)@) == with_entries(
            draft_views(old(drafts)@),
            stem@,
            chapter@,
            entry_views(entries@),
        ),
{
    let ghost before = draft_views(drafts@);
    let ghost all = entry_views(entries@);
    let mut i: usize = 0;
    while i < entries.len()
        invariant
            i <= entries@.len(),
            all == entry_views(entries@),
            draft_views(drafts@) == with_entries(before, stem@, chapter@, all.take(i as int)),
        decreases entries@.len() - i,
    {
        proof {
            assert(all.take(i + 1).drop_last() =~= all.take(i as int));
            assert(all.take(i + 1).last() == entries@[i as int]@);
        }
        push_entry(drafts, stem, chapter, &entries[i]);
        i += 1;
    }
    assert(all.take(i as int) =~= all);
}

fn push_heuristic(drafts: &mut Vec<DraftChunk>, stem: &str, b: &Block)
    ensures
        draft_views(final(drafts)@) == with_block(draft_views(old(drafts)@), stem@, b@),
{
    let ghost before = draft_views(drafts@);
    let mut path = to_chars(stem);
    extend_str(&mut path, " / ");
    extend_str(&mut path, b.title.as_str());
    let d = make_block_draft(drafts, to_text(path.as_slice()), b);
    drafts.push(d);
    assert(draft_views(drafts@) =~= before.push(d@));
}

fn push_note(notes: &mut Vec<String>, title: &str, rest: &str, tail: &str)
    ensures
        texts(final(notes)@) == texts(old(notes)@).push("「"@ + title@ + rest@ + tail@),
{
    let ghost before = texts(notes@);
    let mut m = to_chars("「");
    extend_str(&mut m, title);
    extend_str(&mut m, rest);
    extend_str(&mut m, tail);
    let t = to_text(m.as_slice());
    notes.push(t);
    assert(texts(notes@) =~= before.push(t@));
}

fn use_answer(
    drafts: &mut Vec<DraftChunk>,
    notes: &mut Vec<String>,
    stem: &str,
    b: &Block,
    answer: &Result<Vec<ExtractedEntry>, SplitError>,
    Ghost(used): Ghost<int>,
)
    ensures
        ({
            let a = Assembly { drafts: draft_views(old(drafts)@), notes: texts(old(notes)@), used };
            let z = Assembly {
                drafts: draft_views(final(drafts)@),
                notes: texts(final(notes)@),
                used: used + 1,
            };
            z == after_answer(a, stem@, b@, answer_view(*answer))
        }),
{
    match answer {
        Ok(proposals) => {
            let copy = clone_entries(proposals);
            let entries = materialize_entries(b.text.as_str(), copy);
            assert(entry_views(entries@).len() == entries@.len());
            if entries.len() > 0 {
                push_entries(drafts, stem, b.title.as_str(), &entries);
            } else {
                push_note(
                    notes,
                    b.title.as_str(),
                    "」LLM 切点无法贴回原文，已用规则切开",
                    "",
                );
                proof {
                    reveal_strlit("");
                    assert(note_unplaced(b.title@) + ""@ =~= note_unplaced(b.title@));
                }
                push_heuristic(drafts, stem, b);
            }
        },
        Err(e) => {
            push_note(
                notes,
                b.title.as_str(),
                "」拆条失败，已用规则切开：",
                e.message.as_str(),
            );
            push_heuristic(drafts, stem, b);
        },
    }
}

/// A copy of a list of entries.
pub fn clone_entries(v: &Vec<ExtractedEntry>) -> (r: Vec<ExtractedEntry>)
    ensures
        entry_views(r@) == entry_views(v@),
{
    let mut out: Vec<ExtractedEntry> = Vec::new();
    let mut i: usize = 0;
    while i < v.len()
        invariant
            i <= v@.len(),
            out@.len() == i,
            forall|j: int| 0 <= j < i ==> (#[trigger] out@[j])@ == v@[j]@,
        decreases v@.len() - i,
    {
        out.push(v[i].clone());
        i += 1;
    }
    assert(entry_views(out@) =~= entry_views(v@));
    out
}

fn chapter_prefix(path: &str) -> (r: Vec<char>)
    ensures
        r@ == chapter_of(path@),
{
    let v = to_chars(path);
    let bar = to_chars(" / ");
    match find_last(v.as_slice(), bar.as_slice()) {
        Some(i) => {
            let head = slice_subrange(v.as_slice(), 0, i);
            assert(head@ =~= path@.take(i as int));
            copy(head)
        },
        None => Vec::new(),
    }
}

fn is_open(s: &str) -> (r: bool)
    ensures
        r == ends_open(s@),
{
    let v = to_chars(s);
    let t = trim_end(v.as_slice());
    ends_char(t, ':') || ends_char(t, '：')
}

fn goes_into(d: &DraftChunk, next: &DraftChunk) -> (r: bool)
    ensures
        r == leads_into(d@, next@),
{
    let body = to_chars(d.body.as_str());
    if body.len() >= 80 || !(is_open(d.body.as_str()) || is_open(d.title.as_str())) {
        return false;
    }
    let a = chapter_prefix(d.parent_path.as_str());
    let b = chapter_prefix(next.parent_path.as_str());
    same(a.as_slice(), b.as_slice())
}

fn put_lead(lead: &DraftChunk, next: &DraftChunk) -> (r: DraftChunk)
    ensures
        r@ == with_lead(lead@, next@),
{
    let mut body = to_chars(lead.body.as_str());
    extend_str(&mut body, "\n");
    extend_str(&mut body, next.body.as_str());
    let title = to_chars(lead.title.as_str());
    let mut aliases = crate::cuts::clone_names(&next.aliases);
    if title.len() > 0 && !same_str(title.as_slice(), next.title.as_str())
        && !crate::cuts::holds_name(&next.aliases, title.as_slice()) {
        aliases.insert(0, lead.title.clone());
        assert(texts(aliases@) =~= seq![lead.title@] + texts(next.aliases@));
    }
    let mut r = next.clone();
    r.body = to_text(body.as_slice());
    r.aliases = aliases;
    r.content_hash = sha1_body_hex(r.body.as_str());
    r.alt_anchor = alt_anchor(next.parent_path.as_str(), r.body.as_str());
    r
}

fn merge_leadin_drafts(drafts: &Vec<DraftChunk>) -> (r: Vec<DraftChunk>)
    ensures
        draft_views(r@) == renumbered(leads_merged(draft_views(drafts@))),
{
    let ghost all = draft_views(drafts@);
    let mut out: Vec<DraftChunk> = Vec::new();
    assert(draft_views(out@) =~= Seq::<DraftView>::empty());
    let mut i: usize = 0;
    while i < drafts.len()
        invariant
            i <= drafts@.len(),
            all == draft_views(drafts@),
            draft_views(out@) == leads_merged(all.take(i as int)),
        decreases drafts@.len() - i,
    {
        let ghost before = draft_views(out@);
        proof {
            assert(all.take(i + 1).drop_last() =~= all.take(i as int));
            assert(all.take(i + 1).last() == drafts@[i as int]@);
            if before.len() > 0 {
                assert(before.last() == out@[out@.len() - 1]@);
            }
        }
        if out.len() > 0 && goes_into(&out[out.len() - 1], &drafts[i]) {
            match out.pop() {
                Some(last) => {
                    let d = put_lead(&last, &drafts[i]);
                    out.push(d);
                    assert(draft_views(out@) =~= before.drop_last().push(d@));
                },
                None => {},
            }
        } else {
            let d = drafts[i].clone();
            out.push(d);
            assert(draft_views(out@) =~= before.push(d@));
        }
        i += 1;
    }
    assert(all.take(i as int) =~= all);
    number(out)
}

fn number(drafts: Vec<DraftChunk>) -> (r: Vec<DraftChunk>)
    ensures
        draft_views(r@) == renumbered(draft_views(drafts@)),
{
    let mut out: Vec<DraftChunk> = Vec::new();
    let mut i: usize = 0;
    while i < drafts.len()
        invariant
            i <= drafts@.len(),
            out@.len() == i,
            forall|j: int|
                0 <= j < i ==> (#[trigger] out@[j])@ == renumbered(draft_views(drafts@))[j],
        decreases drafts@.len() - i,
    {
        let mut d = drafts[i].clone();
        d.ordinal = i as i64;
        assert(d@ =~= renumbered(draft_views(drafts@))[i as int]);
        out.push(d);
        i += 1;
    }
    assert(draft_views(out@) =~= renumbered(draft_views(drafts@)));
    out
}

/// Assembles the drafts of blocks, the splitter having given the answers: one for each block that
/// goes to it, in order. Where an answer is missing the block is kept whole.
pub fn assemble_drafts(
    blocks: &Vec<Block>,
    file_stem: &str,
    with_splitter: bool,
    answers: &Vec<Result<Vec<ExtractedEntry>, SplitError>>,
) -> (r: (Vec<DraftChunk>, Vec<String>))
    ensures
        ({
            let a = assembled(
                block_views(blocks@),
                file_stem@,
                with_splitter,
                answer_views(answers@),
            );
            &&& draft_views(r.0@) == renumbered(leads_merged(a.drafts))
            &&& texts(r.1@) == a.notes
        }),
{
    let ghost all = block_views(blocks@);
    let ghost given = answer_views(answers@);
    let mut drafts: Vec<DraftChunk> = Vec::new();
    let mut notes: Vec<String> = Vec::new();
    let mut used: usize = 0;
    assert(draft_views(drafts@) =~= Seq::<DraftView>::empty());
    assert(texts(notes@) =~= Seq::<Seq<char>>::empty());
    let mut i: usize = 0;
    while i < blocks.len()
        invariant
            i <= blocks@.len(),
            used <= answers@.len(),
            all == block_views(blocks@),
            given == answer_views(answers@),
            draft_views(drafts@) == assembled(
                all.take(i as int),
                file_stem@,
                with_splitter,
                given,
            ).drafts,
            texts(notes@) == assembled(all.take(i as int), file_stem@, with_splitter, given).notes,
            used == assembled(all.take(i as int), file_stem@, with_splitter, given).used,
        decreases blocks@.len() - i,
    {
        let ghost a = assembled(all.take(i as int), file_stem@, with_splitter, given);
        proof {
            assert(all.take(i + 1).drop_last() =~= all.take(i as int));
            assert(all.take(i + 1).last() == blocks@[i as int]@);
        }
        let b = &blocks[i];
        match split_itself(b) {
            Some(entries) => {
                push_entries(&mut drafts, file_stem, b.title.as_str(), &entries);
            },
            None => {
                if with_splitter && should_llm(b) && used < answers.len() {
                    assert(given[used as int] == answer_view(answers@[used as int]));
                    assert(a =~= Assembly {
                        drafts: draft_views(drafts@),
                        notes: texts(notes@),
                        used: used as int,
                    });
                    use_answer(
                        &mut drafts,
                        &mut notes,
                        file_stem,
                        b,
                        &answers[used],
                        Ghost(used as int),
                    );
                    used += 1;
                } else {
                    push_heuristic(&mut drafts, file_stem, b);
                }
            },
        }
        i += 1;
    }
    assert(all.take(i as int) =~= all);
    (merge_leadin_drafts(&drafts), notes)
}

/// Whether `answers` is what a splitter may return when it is asked about several chapters.
pub open spec fn answered<S: EntrySplitter + ?Sized>(
    splitter: &S,
    chapters: &[(String, String)],
    answers: Vec<Result<Vec<ExtractedEntry>, SplitError>>,
) -> bool {
    call_ensures(S::split_many, (splitter, chapters), answers)
}

fn ask<S: EntrySplitter + ?Sized>(splitter: &S, chapters: &[(String, String)]) -> (r: Vec<
    Result<Vec<ExtractedEntry>, SplitError>,
>)
    ensures
        answered::<S>(splitter, chapters, r),
{
    splitter.split_many(chapters)
}

/// Refines the blocks of a document into drafts of entries, and tells what went wrong on the way.
/// The splitter is asked about exactly the long blocks that their own headings do not cut, and the
/// outcome is that of `refined` for what it answers. Without a splitter, or when no block goes to
/// it, the outcome is that for no answers.
pub fn refine_drafts(blocks: &[Block], file_stem: &str, splitter: Option<&dyn EntrySplitter>) -> (r: (
    Vec<DraftChunk>,
    Vec<String>,
))
    ensures
        chapters_out(coalesced(block_views(blocks@)), splitter is Some).len() == 0 ==> (
            draft_views(r.0@),
            texts(r.1@),
        ) == refined(block_views(blocks@), file_stem@, splitter is Some, Seq::empty()),
        chapters_out(coalesced(block_views(blocks@)), splitter is Some).len() > 0 ==> splitter is Some
            && exists|
            chapters: &[(String, String)],
            answers: Vec<Result<Vec<ExtractedEntry>, SplitError>>,
        |
            {
                &&& #[trigger] answered::<dyn EntrySplitter>(splitter->0, chapters, answers)
                &&& chapter_views(chapters@) == chapters_out(coalesced(block_views(blocks@)), true)
                &&& (draft_views(r.0@), texts(r.1@)) == refined(
                    block_views(blocks@),
                    file_stem@,
                    true,
                    answer_views(answers@),
                )
            },
{
    let together = coalesce_same_title(blocks);
    let chapters = chapters_to_split(&together, splitter.is_some());
    assert(chapter_views(chapters@).len() == chapters@.len());
    if chapters.len() > 0 {
        match splitter {
            Some(s) => {
                let answers = ask::<dyn EntrySplitter>(s, chapters.as_slice());
                return assemble_drafts(&together, file_stem, true, &answers);
            },
            None => {
                proof {
                    lemma_none_out(coalesced(block_views(blocks@)));
                }
            },
        }
    }
    let none: Vec<Result<Vec<ExtractedEntry>, SplitError>> = Vec::new();
    assert(answer_views(none@) =~= Seq::<Answer>::empty());
    assemble_drafts(&together, file_stem, splitter.is_some(), &none)
}

proof fn lemma_none_out(blocks: Seq<BlockView>)
    ensures
        chapters_out(blocks, false).len() == 0,
    decreases blocks.len(),
{
    if blocks.len() > 0 {
        lemma_none_out(blocks.drop_last());
    }
}

// ---------------------------------------------------------------------------------------------
// What holds of every document
// ---------------------------------------------------------------------------------------------

/// Drafts are numbered from zero without gaps, whatever the splitter answers, so that the
/// neighbours of an entry are those with the numbers next to its own.
pub proof fn drafts_are_numbered(
    blocks: Seq<BlockView>,
    stem: Seq<char>,
    with_splitter: bool,
    answers: Seq<Answer>,
    k: int,
)
    requires
        0 <= k < refined(blocks, stem, with_splitter, answers).0.len(),
        k <= i64::MAX,
    ensures
        refined(blocks, stem, with_splitter, answers).0[k].ordinal == k,
{
}

proof fn lemma_no_splitter(blocks: Seq<BlockView>, stem: Seq<char>, answers: Seq<Answer>)
    ensures
        assembled(blocks, stem, false, answers).drafts == assembled(
            blocks,
            stem,
            false,
            Seq::empty(),
        ).drafts,
        assembled(blocks, stem, false, answers).notes.len() == 0,
    decreases blocks.len(),
{
    if blocks.len() > 0 {
        lemma_no_splitter(blocks.drop_last(), stem, answers);
    }
}

/// Without a splitter there is nothing to note.
pub proof fn no_notes_without_splitter(blocks: Seq<BlockView>, stem: Seq<char>, answers: Seq<Answer>)
    ensures
        refined(blocks, stem, false, answers).1.len() == 0,
{
    lemma_no_splitter(coalesced(blocks), stem, answers);
}

proof fn lemma_failures(blocks: Seq<BlockView>, stem: Seq<char>, answers: Seq<Answer>)
    requires
        forall|k: int| 0 <= k < answers.len() ==> #[trigger] answers[k] is Failure,
    ensures
        assembled(blocks, stem, true, answers).drafts == assembled(
            blocks,
            stem,
            false,
            Seq::empty(),
        ).drafts,
        assembled(blocks, stem, true, answers).notes.len() == assembled(
            blocks,
            stem,
            true,
            answers,
        ).used,
        assembled(blocks, stem, true, answers).used == (if chapters_out(blocks, true).len()
            <= answers.len() {
            chapters_out(blocks, true).len()
        } else {
            answers.len()
        }),
        forall|k: int|
            0 <= k < assembled(blocks, stem, true, answers).notes.len() ==> #[trigger] assembled(
                blocks,
                stem,
                true,
                answers,
            ).notes[k] == note_failed(chapters_out(blocks, true)[k].0, answers[k]->Failure_0),
    decreases blocks.len(),
{
    if blocks.len() > 0 {
        lemma_failures(blocks.drop_last(), stem, answers);
        let a = assembled(blocks.drop_last(), stem, true, answers);
        if a.used < answers.len() {
            assert(answers[a.used] is Failure);
        }
        let now = assembled(blocks, stem, true, answers).notes;
        assert forall|k: int| 0 <= k < now.len() implies #[trigger] now[k] == note_failed(
            chapters_out(blocks, true)[k].0,
            answers[k]->Failure_0,
        ) by {
            if k < a.notes.len() {
                assert(now[k] == a.notes[k]);
            }
        }
    }
}

/// A splitter that fails on every chapter costs nothing but notes: the drafts are those made
/// without a splitter, and there is one note for each chapter that went out, in order, which gives
/// the title of the chapter and the reason of the failure.
pub proof fn failures_keep_the_blocks(blocks: Seq<BlockView>, stem: Seq<char>, answers: Seq<Answer>)
    requires
        forall|k: int| 0 <= k < answers.len() ==> #[trigger] answers[k] is Failure,
        answers.len() == chapters_out(coalesced(blocks), true).len(),
    ensures
        refined(blocks, stem, true, answers).0 == refined(blocks, stem, false, Seq::empty()).0,
        refined(blocks, stem, true, answers).1.len() == answers.len(),
        forall|k: int|
            0 <= k < answers.len() ==> #[trigger] refined(blocks, stem, true, answers).1[k]
                == note_failed(chapters_out(coalesced(blocks), true)[k].0, answers[k]->Failure_0),
{
    lemma_failures(coalesced(blocks), stem, answers);
}

/// After neighbours of the same title are put together, no two neighbours share a title that is
/// not empty.
pub proof fn coalesced_titles_differ(blocks: Seq<BlockView>)
    ensures
        forall|k: int, l: int|
            #![trigger coalesced(blocks)[k], coalesced(blocks)[l]]
            0 <= k && l == k + 1 && l < coalesced(blocks).len() ==> coalesced(
                blocks,
            )[l].title.len() == 0 || coalesced(blocks)[k].title != coalesced(blocks)[l].title,
    decreases blocks.len(),
{
    if blocks.len() > 0 {
        coalesced_titles_differ(blocks.drop_last());
        let before = coalesced(blocks.drop_last());
        let now = coalesced(blocks);
        assert forall|k: int, l: int|
            #![trigger now[k], now[l]]
            0 <= k && l == k + 1 && l < now.len() implies now[l].title.len() == 0 || now[k].title
            != now[l].title by {
            if l < before.len() {
                assert(now[k].title == before[k].title);
                assert(now[l].title == before[l].title);
            }
        }
    }
}

/// No lead-in is left before an entry of its own chapter.
pub proof fn no_lead_is_left(drafts: Seq<DraftView>)
    ensures
        forall|k: int, l: int|
            #![trigger leads_merged(drafts)[k], leads_merged(drafts)[l]]
            0 <= k && l == k + 1 && l < leads_merged(drafts).len() ==> !leads_into(
                leads_merged(drafts)[k],
                leads_merged(drafts)[l],
            ),
    decreases drafts.len(),
{
    if drafts.len() > 0 {
        no_lead_is_left(drafts.drop_last());
        let before = leads_merged(drafts.drop_last());
        let now = leads_merged(drafts);
        assert forall|k: int, l: int|
            #![trigger now[k], now[l]]
            0 <= k && l == k + 1 && l < now.len() implies !leads_into(now[k], now[l]) by {
            if l < before.len() {
                assert(now[k] == before[k]);
                assert(leads_into(before[k], before[l]) == false);
                if l == before.len() - 1 && now.len() == before.len() {
                    assert(now[l].parent_path == drafts.last().parent_path);
                }
            }
        }
    }
}

/// Only blocks that are long enough and are not cut by their own headings go to the splitter.
pub proof fn only_long_blocks_go_out(blocks: Seq<BlockView>, with_splitter: bool, k: int)
    requires
        0 <= k < chapters_out(blocks, with_splitter).len(),
    ensures
        with_splitter,
        exists|n: int|
            0 <= n < blocks.len() && chapters_out(blocks, with_splitter)[k] == (
                (#[trigger] blocks[n]).title,
                blocks[n].text,
            ) && wants_splitter(blocks[n]) && !cuts_itself(blocks[n]),
        chapters_out(blocks, with_splitter)[k].1.len() >= 800,
    decreases blocks.len(),
{
    let before = blocks.drop_last();
    if k < chapters_out(before, with_splitter).len() {
        only_long_blocks_go_out(before, with_splitter, k);
        let n = choose|n: int|
            0 <= n < before.len() && chapters_out(before, with_splitter)[k] == (
                (#[trigger] before[n]).title,
                before[n].text,
            ) && wants_splitter(before[n]) && !cuts_itself(before[n]);
        assert(blocks[n] == before[n]);
    } else {
        assert(blocks[blocks.len() - 1] == blocks.last());
    }
}

/// The bodies of drafts.
pub open spec fn bodies(drafts: Seq<DraftView>) -> Seq<Seq<char>> {
    Seq::new(drafts.len(), |k: int| drafts[k].body)
}

proof fn lemma_merged_text(drafts: Seq<DraftView>)
    ensures
        joined(bodies(leads_merged(drafts)), "\n"@) == joined(bodies(drafts), "\n"@),
        leads_merged(drafts).len() == 0 <==> drafts.len() == 0,
        drafts.len() > 0 ==> leads_merged(drafts).last().title == drafts.last().title,
    decreases drafts.len(),
{
    let sep = "\n"@;
    if drafts.len() == 0 {
        assert(bodies(leads_merged(drafts)) =~= bodies(drafts));
    } else {
        lemma_merged_text(drafts.drop_last());
        let before = leads_merged(drafts.drop_last());
        let d = drafts.last();
        let now = leads_merged(drafts);
        assert(bodies(drafts).drop_last() =~= bodies(drafts.drop_last()));
        assert(bodies(drafts).last() == d.body);
        assert(bodies(now).last() == now.last().body);
        if before.len() > 0 && leads_into(before.last(), d) {
            let front = before.drop_last();
            let lead = before.last();
            assert(bodies(now).drop_last() =~= bodies(front));
            assert(bodies(before).drop_last() =~= bodies(front));
            assert(bodies(before).last() == lead.body);
            assert(joined(bodies(front), sep) + sep + (lead.body + sep + d.body) =~= joined(
                bodies(front),
                sep,
            ) + sep + lead.body + sep + d.body);
        } else {
            assert(bodies(now).drop_last() =~= bodies(before));
        }
    }
}

/// Merging lead-ins loses no text: the bodies joined by line feeds stay the same. The last draft
/// keeps its title, and the drafts are numbered from zero without gaps.
pub proof fn merging_leads_keeps_the_text(drafts: Seq<DraftView>)
    ensures
        joined(bodies(renumbered(leads_merged(drafts))), "\n"@) == joined(bodies(drafts), "\n"@),
        drafts.len() > 0 ==> renumbered(leads_merged(drafts)).len() > 0 && renumbered(
            leads_merged(drafts),
        ).last().title == drafts.last().title,
        forall|k: int|
            0 <= k < renumbered(leads_merged(drafts)).len() && k <= i64::MAX ==> (
            #[trigger] renumbered(leads_merged(drafts))[k]).ordinal == k,
{
    lemma_merged_text(drafts);
    assert(bodies(renumbered(leads_merged(drafts))) =~= bodies(leads_merged(drafts)));
}

proof fn lemma_nothing_to_merge(drafts: Seq<DraftView>)
    requires
        forall|k: int, l: int|
            #![trigger drafts[k], drafts[l]]
            0 <= k && l == k + 1 && l < drafts.len() ==> !leads_into(drafts[k], drafts[l]),
    ensures
        leads_merged(drafts) == drafts,
    decreases drafts.len(),
{
    if drafts.len() > 0 {
        let front = drafts.drop_last();
        assert forall|k: int, l: int|
            #![trigger front[k], front[l]]
            0 <= k && l == k + 1 && l < front.len() implies !leads_into(front[k], front[l]) by {
            assert(drafts[k] == front[k] && drafts[l] == front[l]);
        }
        lemma_nothing_to_merge(front);
        if front.len() > 0 {
            assert(!leads_into(drafts[front.len() - 1], drafts[front.len() as int]));
        }
        assert(front.push(drafts.last()) =~= drafts);
    }
}

/// After lead-ins have been merged there is nothing left to merge: a second time changes nothing.
pub proof fn merging_leads_settles(drafts: Seq<DraftView>)
    ensures
        ({
            let once = renumbered(leads_merged(drafts));
            renumbered(leads_merged(once)) == once
        }),
{
    let merged = leads_merged(drafts);
    let once = renumbered(merged);
    no_lead_is_left(drafts);
    assert forall|k: int, l: int|
        #![trigger once[k], once[l]]
        0 <= k && l == k + 1 && l < once.len() implies !leads_into(once[k], once[l]) by {
        assert(!leads_into(merged[k], merged[l]));
    }
    lemma_nothing_to_merge(once);
    assert(renumbered(once) =~= once);
}

proof fn lemma_entries_keyed(
    drafts: Seq<DraftView>,
    stem: Seq<char>,
    chapter: Seq<char>,
    entries: Seq<EntryView>,
)
    requires
        all_keyed(drafts),
    ensures
        all_keyed(with_entries(drafts, stem, chapter, entries)),
    decreases entries.len(),
{
    if entries.len() > 0 {
        lemma_entries_keyed(drafts, stem, chapter, entries.drop_last());
    }
}

proof fn lemma_assembled_keyed(
    blocks: Seq<BlockView>,
    stem: Seq<char>,
    with_splitter: bool,
    answers: Seq<Answer>,
)
    ensures
        all_keyed(assembled(blocks, stem, with_splitter, answers).drafts),
    decreases blocks.len(),
{
    if blocks.len() > 0 {
        lemma_assembled_keyed(blocks.drop_last(), stem, with_splitter, answers);
        let a = assembled(blocks.drop_last(), stem, with_splitter, answers);
        let b = blocks.last();
        if cuts_itself(b) {
            lemma_entries_keyed(a.drafts, stem, b.title, local_entries(b.text));
        } else if goes_out(b, with_splitter) && a.used < answers.len() {
            match answers[a.used] {
                Answer::Proposals(ps) => {
                    lemma_entries_keyed(a.drafts, stem, b.title, materialized(b.text, ps));
                },
                Answer::Failure(_) => {},
            }
        }
    }
}

proof fn lemma_merged_keyed(drafts: Seq<DraftView>)
    requires
        all_keyed(drafts),
    ensures
        all_keyed(leads_merged(drafts)),
    decreases drafts.len(),
{
    if drafts.len() > 0 {
        let front = drafts.drop_last();
        assert(all_keyed(front)) by {
            assert forall|k: int| 0 <= k < front.len() implies keyed(#[trigger] front[k]) by {
                assert(keyed(drafts[k]));
            }
        }
        lemma_merged_keyed(front);
        assert(keyed(drafts[drafts.len() - 1]));
    }
}

/// The digest of every draft is that of its own body, and its anchor that of its own path and body,
/// also where a lead-in was put before the body.
pub proof fn refined_drafts_are_keyed(
    blocks: Seq<BlockView>,
    stem: Seq<char>,
    with_splitter: bool,
    answers: Seq<Answer>,
)
    ensures
        all_keyed(refined(blocks, stem, with_splitter, answers).0),
{
    let a = assembled(coalesced(blocks), stem, with_splitter, answers);
    lemma_assembled_keyed(coalesced(blocks), stem, with_splitter, answers);
    lemma_merged_keyed(a.drafts);
    let merged = leads_merged(a.drafts);
    let out = renumbered(merged);
    assert forall|k: int| 0 <= k < out.len() implies keyed(#[trigger] out[k]) by {
        assert(keyed(merged[k]));
    }
}

// ---------------------------------------------------------------------------------------------
// What becomes of the blocks
// ---------------------------------------------------------------------------------------------

/// The texts of blocks.
pub open spec fn block_texts(blocks: Seq<BlockView>) -> Seq<Seq<char>> {
    Seq::new(blocks.len(), |k: int| blocks[k].text)
}

/// Putting blocks of one title together loses no text: the texts joined by line feeds stay the
/// same, and so do the title and the level of the first block.
pub proof fn coalescing_keeps_the_text(blocks: Seq<BlockView>)
    ensures
        joined(block_texts(coalesced(blocks)), "\n"@) == joined(block_texts(blocks), "\n"@),
        coalesced(blocks).len() == 0 <==> blocks.len() == 0,
        blocks.len() > 0 ==> coalesced(blocks)[0].title == blocks[0].title && coalesced(
            blocks,
        )[0].heading_level == blocks[0].heading_level,
        blocks.len() > 0 ==> coalesced(blocks).last().title == blocks.last().title,
    decreases blocks.len(),
{
    let sep = "\n"@;
    if blocks.len() == 0 {
        assert(block_texts(coalesced(blocks)) =~= block_texts(blocks));
    } else {
        let head = blocks.drop_last();
        coalescing_keeps_the_text(head);
        let before = coalesced(head);
        let b = blocks.last();
        let now = coalesced(blocks);
        assert(block_texts(blocks).drop_last() =~= block_texts(head));
        assert(block_texts(blocks).last() == b.text);
        assert(block_texts(now).last() == now.last().text);
        if head.len() > 0 {
            assert(head[0] == blocks[0]);
        }
        if before.len() > 0 && b.title.len() > 0 && before.last().title == b.title {
            let front = before.drop_last();
            let p = before.last();
            assert(block_texts(now).drop_last() =~= block_texts(front));
            assert(block_texts(before).drop_last() =~= block_texts(front));
            assert(block_texts(before).last() == p.text);
            assert(joined(block_texts(front), sep) + sep + (p.text + sep + b.text) =~= joined(
                block_texts(front),
                sep,
            ) + sep + p.text + sep + b.text);
            if front.len() > 0 {
                assert(now[0] == before[0]);
            }
        } else {
            assert(block_texts(now).drop_last() =~= block_texts(before));
            if before.len() > 0 {
                assert(now[0] == before[0]);
            }
        }
    }
}

/// The bodies that a block gives its drafts: those of its own entries where its headings cut it,
/// else those of the entries that the splitter proposed, else its whole text.
pub open spec fn bodies_of_block(b: BlockView, answer: Option<Answer>) -> Seq<Seq<char>> {
    if cuts_itself(b) {
        entry_bodies(local_entries(b.text))
    } else if answer matches Some(Answer::Proposals(ps)) && materialized(b.text, ps).len() > 0 {
        entry_bodies(materialized(b.text, answer->0->Proposals_0))
    } else {
        seq![b.text]
    }
}

proof fn lemma_entry_drafts(
    drafts: Seq<DraftView>,
    stem: Seq<char>,
    chapter: Seq<char>,
    entries: Seq<EntryView>,
)
    ensures
        bodies(with_entries(drafts, stem, chapter, entries)) == bodies(drafts) + entry_bodies(
            entries,
        ),
    decreases entries.len(),
{
    if entries.len() == 0 {
        assert(bodies(drafts) + entry_bodies(entries) =~= bodies(drafts));
    } else {
        let head = entries.drop_last();
        lemma_entry_drafts(drafts, stem, chapter, head);
        assert(bodies(with_entries(drafts, stem, chapter, entries)) =~= bodies(
            with_entries(drafts, stem, chapter, head),
        ).push(entries.last().body));
        assert(entry_bodies(entries) =~= entry_bodies(head).push(entries.last().body));
    }
}

/// Every block becomes drafts: the bodies of the drafts of a document are those of its blocks, one
/// block after the other. A block without an answer, or whose answer is a failure or cannot be
/// placed, is kept whole.
pub proof fn every_block_becomes_drafts(
    blocks: Seq<BlockView>,
    b: BlockView,
    stem: Seq<char>,
    with_splitter: bool,
    answers: Seq<Answer>,
)
    ensures
        ({
            let before = assembled(blocks, stem, with_splitter, answers);
            let now = assembled(blocks.push(b), stem, with_splitter, answers);
            let answer = if with_splitter && wants_splitter(b) && !cuts_itself(b) && before.used
                < answers.len() {
                Some(answers[before.used])
            } else {
                None::<Answer>
            };
            &&& bodies(now.drafts) == bodies(before.drafts) + bodies_of_block(b, answer)
            &&& now.used == before.used + (if answer is Some {
                1int
            } else {
                0int
            })
        }),
{
    let before = assembled(blocks, stem, with_splitter, answers);
    let all = blocks.push(b);
    assert(all.drop_last() =~= blocks);
    assert(all.last() == b);
    let whole = with_block(before.drafts, stem, b);
    assert(bodies(whole) =~= bodies(before.drafts) + seq![b.text]);
    if cuts_itself(b) {
        lemma_entry_drafts(before.drafts, stem, b.title, local_entries(b.text));
    } else if goes_out(b, with_splitter) && before.used < answers.len() {
        match answers[before.used] {
            Answer::Proposals(ps) => {
                lemma_entry_drafts(before.drafts, stem, b.title, materialized(b.text, ps));
            },
            Answer::Failure(_) => {},
        }
    }
}

/// The draft of an entry has its title and its body, the kind that it names, all its other names,
/// and a path that begins with the document and ends with the title.
pub proof fn entries_become_drafts(
    drafts: Seq<DraftView>,
    stem: Seq<char>,
    chapter: Seq<char>,
    e: EntryView,
)
    ensures
        ({
            let d = with_entry(drafts, stem, chapter, e).last();
            &&& with_entry(drafts, stem, chapter, e).len() == drafts.len() + 1
            &&& d.title == e.title
            &&& d.body == e.body
            &&& e.entity_type.len() > 0 ==> d.entity_type == e.entity_type
            &&& forall|x: Seq<char>| #[trigger]
                d.aliases.contains(x) <==> e.aliases.contains(x) || aliases_of(
                    e.title,
                    e.body,
                ).contains(x)
            &&& stem.is_prefix_of(d.parent_path)
            &&& e.title.is_suffix_of(d.parent_path)
            &&& exists|i: int| #[trigger] crate::scan::occurs_at(d.parent_path, chapter, i)
        }),
{
    let d = with_entry(drafts, stem, chapter, e).last();
    let path = d.parent_path;
    joined_names_hold_both(aliases_of(e.title, e.body), e.aliases);
    assert(path.take(stem.len() as int) =~= stem);
    assert(path.skip(path.len() - e.title.len()) =~= e.title);
    let bar = " / "@;
    let at = (stem.len() + bar.len()) as int;
    if chapter.len() == 0 {
        assert(path.subrange(0, 0) =~= chapter);
        assert(crate::scan::occurs_at(path, chapter, 0));
    } else {
        assert(path.subrange(at, at + chapter.len()) =~= chapter);
        assert(crate::scan::occurs_at(path, chapter, at));
    }
}

/// A block whose answer is a failure, or cannot be placed, leaves one note that names its title and
/// says what failed. No other block leaves a note, and no note is lost.
pub proof fn every_failure_is_noted(
    blocks: Seq<BlockView>,
    b: BlockView,
    stem: Seq<char>,
    with_splitter: bool,
    answers: Seq<Answer>,
)
    ensures
        ({
            let before = assembled(blocks, stem, with_splitter, answers);
            let now = assembled(blocks.push(b), stem, with_splitter, answers);
            if now.used == before.used {
                now.notes == before.notes
            } else {
                match answers[before.used] {
                    Answer::Proposals(ps) if materialized(b.text, ps).len() > 0 => now.notes
                        == before.notes,
                    Answer::Proposals(_) => {
                        &&& now.notes.len() == before.notes.len() + 1
                        &&& now.notes.drop_last() == before.notes
                        &&& exists|i: int| #[trigger]
                            crate::scan::occurs_at(now.notes.last(), b.title, i)
                    },
                    Answer::Failure(message) => {
                        &&& now.notes.len() == before.notes.len() + 1
                        &&& now.notes.drop_last() == before.notes
                        &&& exists|i: int| #[trigger]
                            crate::scan::occurs_at(now.notes.last(), b.title, i)
                        &&& message.is_suffix_of(now.notes.last())
                    },
                }
            }
        }),
{
    let before = assembled(blocks, stem, with_splitter, answers);
    let all = blocks.push(b);
    assert(all.drop_last() =~= blocks);
    assert(all.last() == b);
    let now = assembled(all, stem, with_splitter, answers);
    if now.notes.len() > before.notes.len() {
        let note = now.notes.last();
        assert(now.notes.drop_last() =~= before.notes);
        let at = "「"@.len() as int;
        assert(note.subrange(at, at + b.title.len()) =~= b.title);
        assert(crate::scan::occurs_at(note, b.title, at));
        if let Answer::Failure(message) = answers[before.used] {
            assert(note.skip(note.len() - message.len()) =~= message);
        }
    }
}

} // verus!
