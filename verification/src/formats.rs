//! From the text of a file to its blocks: Markdown, plain text, HTML and Word documents.
use crate::ingest::{find_all, found, group_chars, group_text};
use crate::normalize::{hanzi_chars, hanzi_of, normal, normalize_chars};
use crate::number::{decimal, write_decimal};
use crate::offsets::{
    byte_pos, floor_pos, is_boundary, lemma_byte_pos_order, lemma_floor_of_pos, Source,
};
use crate::outside::{match_views, matches_in_order, MatchView, RegexMatch};
use crate::scan::{
    lemma_nothing_replaced, lemma_other_text_stays, lines, lines_of, one_text_is_replaced,
    parts, replace, replaced, split_char, starts_char, starts_with_char, strip_end,
    stripped_end,
};
use crate::text::{
    blank, copy, extend, extend_str, is_blank, is_space, lemma_trimmed_shape, pieces, prefix, rows,
    same_str, take_prefix, texts, to_chars, to_text, trim, trim_end, trimmed, trimmed_end,
};
use crate::types::{block_views, Block, BlockView};
use vstd::prelude::*;
use vstd::slice::slice_subrange;

verus! {

// ---------------------------------------------------------------------------------------------
// Long blocks
// ---------------------------------------------------------------------------------------------

/// The greatest number of characters of a block, short of one long paragraph.
pub const MAX_BLOCK_CHARS: usize = 2000;

/// The last `n` characters of a text.
pub open spec fn tail(s: Seq<char>, n: int) -> Seq<char> {
    if s.len() <= n {
        s
    } else {
        s.skip(s.len() - n)
    }
}

/// Finished blocks and the text at hand while a long block is cut at its paragraphs.
#[verifier::ext_equal]
pub struct Cutting {
    pub done: Seq<BlockView>,
    pub acc: Seq<char>,
}

/// Another block with the level and the title of `b`.
pub open spec fn part_of(b: BlockView, text: Seq<char>) -> BlockView {
    BlockView { text, ..b }
}

/// One more paragraph: if the text at hand would grow over the limit it is finished first, and its
/// last eighty characters are repeated at the beginning of the next.
pub open spec fn next_paragraph(b: BlockView, c: Cutting, para: Seq<char>) -> Cutting {
    if c.acc.len() + para.len() > MAX_BLOCK_CHARS && c.acc.len() > 0 {
        Cutting {
            done: c.done.push(part_of(b, trimmed(c.acc))),
            acc: tail(c.acc, 80) + para + "\n"@,
        }
    } else {
        Cutting { done: c.done, acc: c.acc + para + "\n"@ }
    }
}

/// The state after the given paragraphs of a block.
pub open spec fn cutting(b: BlockView, done: Seq<BlockView>, paras: Seq<Seq<char>>) -> Cutting
    decreases paras.len(),
{
    if paras.len() == 0 {
        Cutting { done, acc: Seq::empty() }
    } else {
        next_paragraph(b, cutting(b, done, paras.drop_last()), paras.last())
    }
}

/// Finished blocks and, behind them, the parts of one more block.
pub open spec fn with_parts(done: Seq<BlockView>, b: BlockView) -> Seq<BlockView> {
    if b.text.len() <= MAX_BLOCK_CHARS {
        done.push(b)
    } else {
        let c = cutting(b, done, parts(b.text, '\n'));
        if is_blank(c.acc) {
            c.done
        } else {
            c.done.push(part_of(b, trimmed(c.acc)))
        }
    }
}

/// The blocks, with those that are too long cut at their paragraphs.
pub open spec fn shortened(blocks: Seq<BlockView>) -> Seq<BlockView>
    decreases blocks.len(),
{
    if blocks.len() == 0 {
        Seq::empty()
    } else {
        with_parts(shortened(blocks.drop_last()), blocks.last())
    }
}

fn push_block(out: &mut Vec<Block>, level: u8, title: &[char], text: &[char])
    ensures
        block_views(final(out)@) == block_views(old(out)@).push(
            (BlockView { heading_level: level as int, title: title@, text: text@ }),
        ),
        final(out)@.len() == old(out)@.len() + 1,
{
    let ghost before = block_views(out@);
    let b = Block { heading_level: level, title: to_text(title), text: to_text(text) };
    out.push(b);
    assert(block_views(out@) =~= before.push(b@));
}

fn last_chars(v: &[char], n: usize) -> (r: Vec<char>)
    ensures
        r@ == tail(v@, n as int),
{
    if v.len() <= n {
        copy(v)
    } else {
        let s = slice_subrange(v, v.len() - n, v.len());
        assert(s@ =~= v@.skip(v@.len() - n));
        copy(s)
    }
}

fn push_parts(out: &mut Vec<Block>, b: &Block)
    ensures
        block_views(final(out)@) == with_parts(block_views(old(out)@), b@),
{
    let ghost done = block_views(out@);
    let text = to_chars(b.text.as_str());
    let title = to_chars(b.title.as_str());
    if text.len() <= MAX_BLOCK_CHARS {
        push_block(out, b.heading_level, title.as_slice(), text.as_slice());
        return;
    }
    let paras = split_char(text.as_slice(), '\n');
    let ghost all = parts(b.text@, '\n');
    let mut acc: Vec<char> = Vec::new();
    assert(acc@ =~= Seq::<char>::empty());
    let mut i: usize = 0;
    while i < paras.len()
        invariant
            i <= paras@.len(),
            title@ == b.title@,
            all == parts(b.text@, '\n'),
            pieces(paras@) == all,
            cutting(b@, done, all.take(i as int)) == (Cutting {
                done: block_views(out@),
                acc: acc@,
            }),
        decreases paras@.len() - i,
    {
        proof {
            assert(all.take(i + 1).drop_last() =~= all.take(i as int));
            assert(all.take(i + 1).last() == pieces(paras@)[i as int]);
        }
        let para = paras[i];
        if acc.len() > 0 && (acc.len() > MAX_BLOCK_CHARS || para.len() > MAX_BLOCK_CHARS
            - acc.len()) {
            push_block(out, b.heading_level, title.as_slice(), trim(acc.as_slice()));
            acc = last_chars(acc.as_slice(), 80);
        }
        extend(&mut acc, para);
        extend_str(&mut acc, "\n");
        i += 1;
    }
    assert(all.take(i as int) =~= all);
    if !blank(acc.as_slice()) {
        push_block(out, b.heading_level, title.as_slice(), trim(acc.as_slice()));
    }
}

/// Cuts blocks that are too long at their paragraphs.
pub fn split_long_blocks(blocks: &Vec<Block>) -> (r: Vec<Block>)
    ensures
        block_views(r@) == shortened(block_views(blocks@)),
{
    let ghost all = block_views(blocks@);
    let mut out: Vec<Block> = Vec::new();
    assert(block_views(out@) =~= Seq::<BlockView>::empty());
    let mut i: usize = 0;
    while i < blocks.len()
        invariant
            i <= blocks@.len(),
            all == block_views(blocks@),
            block_views(out@) == shortened(all.take(i as int)),
        decreases blocks@.len() - i,
    {
        proof {
            assert(all.take(i + 1).drop_last() =~= all.take(i as int));
            assert(all.take(i + 1).last() == blocks@[i as int]@);
        }
        push_parts(&mut out, &blocks[i]);
        i += 1;
    }
    assert(all.take(i as int) =~= all);
    out
}

// ---------------------------------------------------------------------------------------------
// Plain text
// ---------------------------------------------------------------------------------------------

/// Finished chunks and the text at hand while plain text is read paragraph by paragraph.
#[verifier::ext_equal]
pub struct Chunks {
    pub done: Seq<Seq<char>>,
    pub buf: Seq<char>,
}

/// A text with a line feed behind it, unless it is empty.
pub open spec fn on_new_line(s: Seq<char>) -> Seq<char> {
    if s.len() == 0 {
        s
    } else {
        s + "\n"@
    }
}

/// One more paragraph. A blank one finishes a chunk of more than 80 Chinese characters or more
/// than 200 characters; any chunk is finished at 2000 characters.
pub open spec fn next_chunk(c: Chunks, line: Seq<char>) -> Chunks {
    let p = trimmed_end(line);
    if is_blank(p) {
        if hanzi_of(c.buf).len() > 80 || c.buf.len() > 200 {
            Chunks { done: c.done.push(c.buf), buf: Seq::empty() }
        } else {
            Chunks { done: c.done, buf: c.buf + "\n"@ }
        }
    } else {
        let buf = on_new_line(c.buf) + p;
        if buf.len() >= 2000 {
            Chunks { done: c.done.push(buf), buf: Seq::empty() }
        } else {
            Chunks { done: c.done, buf }
        }
    }
}

/// The state after the given paragraphs.
pub open spec fn chunks_in(ls: Seq<Seq<char>>) -> Chunks
    decreases ls.len(),
{
    if ls.len() == 0 {
        Chunks { done: Seq::empty(), buf: Seq::empty() }
    } else {
        next_chunk(chunks_in(ls.drop_last()), ls.last())
    }
}

/// The chunks of a plain text.
pub open spec fn chunks_of(text: Seq<char>) -> Seq<Seq<char>> {
    let c = chunks_in(parts(text, '\n'));
    let all = if is_blank(c.buf) {
        c.done
    } else {
        c.done.push(c.buf)
    };
    if all.len() == 0 && !is_blank(text) {
        seq![text]
    } else {
        all
    }
}

/// The title of a chunk: its beginning, or its number.
pub open spec fn chunk_title(text: Seq<char>, number: nat) -> Seq<char> {
    let t = prefix(normal(text), 40);
    if t.len() == 0 {
        "段落"@ + decimal(number)
    } else {
        t
    }
}

/// The chunks that are not blank, as blocks.
pub open spec fn chunk_blocks(chunks: Seq<Seq<char>>) -> Seq<BlockView>
    decreases chunks.len(),
{
    if chunks.len() == 0 {
        Seq::empty()
    } else {
        let before = chunk_blocks(chunks.drop_last());
        let text = chunks.last();
        if is_blank(text) {
            before
        } else {
            before.push(
                BlockView { heading_level: 1, title: chunk_title(text, before.len() + 1), text },
            )
        }
    }
}

/// The blocks of a plain text.
pub open spec fn plain_blocks(text: Seq<char>) -> Seq<BlockView> {
    chunk_blocks(chunks_of(text))
}

fn push_chunk(done: &mut Vec<Vec<char>>, buf: &mut Vec<char>)
    ensures
        rows(final(done)@) == rows(old(done)@).push(old(buf)@),
        final(buf)@ == Seq::<char>::empty(),
{
    let ghost before = rows(done@);
    done.push(copy(buf.as_slice()));
    assert(rows(done@) =~= before.push(buf@));
    *buf = Vec::new();
    assert(buf@ =~= Seq::<char>::empty());
}

/// Cuts a plain text into blocks, at blank lines where enough has come together.
pub fn blocks_from_plain(text: &str) -> (r: Vec<Block>)
    ensures
        block_views(r@) == plain_blocks(text@),
{
    let v = to_chars(text);
    let paras = split_char(v.as_slice(), '\n');
    let ghost all = parts(text@, '\n');
    let mut done: Vec<Vec<char>> = Vec::new();
    let mut buf: Vec<char> = Vec::new();
    assert(rows(done@) =~= Seq::<Seq<char>>::empty());
    assert(buf@ =~= Seq::<char>::empty());
    let mut i: usize = 0;
    while i < paras.len()
        invariant
            i <= paras@.len(),
            all == parts(text@, '\n'),
            pieces(paras@) == all,
            chunks_in(all.take(i as int)) == (Chunks { done: rows(done@), buf: buf@ }),
        decreases paras@.len() - i,
    {
        proof {
            assert(all.take(i + 1).drop_last() =~= all.take(i as int));
            assert(all.take(i + 1).last() == pieces(paras@)[i as int]);
        }
        let p = trim_end(paras[i]);
        if blank(p) {
            if hanzi_chars(buf.as_slice()).len() > 80 || buf.len() > 200 {
                push_chunk(&mut done, &mut buf);
            } else {
                extend_str(&mut buf, "\n");
            }
        } else {
            if buf.len() > 0 {
                extend_str(&mut buf, "\n");
            }
            extend(&mut buf, p);
            if buf.len() >= 2000 {
                push_chunk(&mut done, &mut buf);
            }
        }
        i += 1;
    }
    assert(all.take(i as int) =~= all);
    if !blank(buf.as_slice()) {
        push_chunk(&mut done, &mut buf);
    }
    if done.len() == 0 && !blank(v.as_slice()) {
        done.push(v);
        assert(rows(done@) =~= seq![text@]);
    }
    to_blocks(&done)
}

fn to_blocks(chunks: &Vec<Vec<char>>) -> (r: Vec<Block>)
    ensures
        block_views(r@) == chunk_blocks(rows(chunks@)),
{
    let ghost all = rows(chunks@);
    let mut out: Vec<Block> = Vec::new();
    assert(block_views(out@) =~= Seq::<BlockView>::empty());
    let mut i: usize = 0;
    while i < chunks.len()
        invariant
            i <= chunks@.len(),
            out@.len() <= i,
            all == rows(chunks@),
            block_views(out@) == chunk_blocks(all.take(i as int)),
        decreases chunks@.len() - i,
    {
        proof {
            assert(all.take(i + 1).drop_last() =~= all.take(i as int));
            assert(all.take(i + 1).last() == chunks@[i as int]@);
        }
        let text = chunks[i].as_slice();
        if !blank(text) {
            let n = normalize_chars(text);
            let head = take_prefix(n.as_slice(), 40);
            let title = if head.len() == 0 {
                let mut t = to_chars("段落");
                let d = write_decimal(out.len() as u64 + 1);
                extend(&mut t, d.as_slice());
                t
            } else {
                copy(head)
            };
            push_block(&mut out, 1, title.as_slice(), text);
        }
        i += 1;
    }
    assert(all.take(i as int) =~= all);
    out
}

// ---------------------------------------------------------------------------------------------
// Markdown
// ---------------------------------------------------------------------------------------------

/// How many number signs a text begins with, four at most.
pub open spec fn hashes(t: Seq<char>, n: int) -> int
    decreases 4 - n,
{
    if n >= 4 || n >= t.len() || n < 0 || t[n] != '#' {
        n
    } else {
        hashes(t, n + 1)
    }
}

/// The level and the title of a heading line that begins with number signs.
pub open spec fn atx(t: Seq<char>) -> Option<(int, Seq<char>)> {
    let n = hashes(t, 0);
    let rest = t.skip(n);
    if n == 0 || !(starts_with_char(rest, ' ') || starts_with_char(rest, '\t')) {
        None
    } else {
        let title = trimmed(stripped_end(trimmed(rest), "#"@));
        Some(
            (
                n,
                if title.len() == 0 {
                    "未命名"@
                } else {
                    title
                },
            ),
        )
    }
}

/// Whether a line underlines a heading with the character `c`.
pub open spec fn underline(line: Seq<char>, c: char) -> bool {
    let t = trimmed(line);
    t.len() >= 3 && forall|i: int| 0 <= i < t.len() ==> #[trigger] t[i] == c
}

/// Whether a line is a rule between sections.
pub open spec fn section_rule(t: Seq<char>) -> bool {
    t == "***"@ || t == "---"@ || t == "___"@
}

/// Finished blocks, and the level, title and text at hand while a document is read.
#[verifier::ext_equal]
pub struct Reading {
    pub blocks: Seq<BlockView>,
    pub level: int,
    pub title: Seq<char>,
    pub buf: Seq<char>,
}

/// The reading with the text at hand finished.
pub open spec fn closed_block(r: Reading) -> Reading {
    let body = trimmed(r.buf);
    Reading {
        blocks: if body.len() == 0 {
            r.blocks
        } else {
            r.blocks.push(BlockView { heading_level: r.level, title: r.title, text: body })
        },
        buf: Seq::empty(),
        ..r
    }
}

/// The reading under a new heading.
pub open spec fn under_heading(r: Reading, level: int, title: Seq<char>) -> Reading {
    Reading { level, title, ..closed_block(r) }
}

/// Whether line `i` is a heading underlined by line `i + 1` with the character `c`.
pub open spec fn underlined(ls: Seq<Seq<char>>, i: int, c: char) -> bool {
    &&& i + 1 < ls.len()
    &&& 0 < trimmed(ls[i]).len() <= 80
    &&& underline(ls[i + 1], c)
}

/// The reading of the lines from `i` on.
pub open spec fn read_markdown(ls: Seq<Seq<char>>, i: int, r: Reading) -> Reading
    decreases ls.len() - i,
{
    if i < 0 || i >= ls.len() {
        r
    } else {
        let t = trimmed_end(ls[i]);
        match atx(t) {
            Some(h) => read_markdown(ls, i + 1, under_heading(r, h.0, h.1)),
            None => if underlined(ls, i, '=') {
                read_markdown(ls, i + 2, under_heading(r, 1, trimmed(ls[i])))
            } else if underlined(ls, i, '-') {
                read_markdown(ls, i + 2, under_heading(r, 2, trimmed(ls[i])))
            } else if section_rule(t) {
                read_markdown(ls, i + 1, closed_block(r))
            } else {
                read_markdown(ls, i + 1, Reading { buf: r.buf + ls[i] + "\n"@, ..r })
            },
        }
    }
}

/// A reading at the beginning of a document.
pub open spec fn fresh_reading() -> Reading {
    Reading { blocks: Seq::empty(), level: 1, title: "文档"@, buf: Seq::empty() }
}

/// The blocks of a Markdown text.
pub open spec fn markdown_blocks(text: Seq<char>) -> Seq<BlockView> {
    let blocks = closed_block(read_markdown(lines_of(text), 0, fresh_reading())).blocks;
    if blocks.len() == 0 {
        plain_blocks(text)
    } else {
        shortened(blocks)
    }
}

/// A reading in executable form.
struct ReadingBuf {
    blocks: Vec<Block>,
    level: u8,
    title: Vec<char>,
    buf: Vec<char>,
}

impl ReadingBuf {
    spec fn value(&self) -> Reading {
        Reading {
            blocks: block_views(self.blocks@),
            level: self.level as int,
            title: self.title@,
            buf: self.buf@,
        }
    }

    fn start() -> (r: Self)
        ensures
            r.value() == fresh_reading(),
    {
        let r = ReadingBuf {
            blocks: Vec::new(),
            level: 1,
            title: to_chars("文档"),
            buf: Vec::new(),
        };
        assert(block_views(r.blocks@) =~= Seq::<BlockView>::empty());
        assert(r.buf@ =~= Seq::<char>::empty());
        r
    }

    fn close(&mut self)
        ensures
            final(self).value() == closed_block(old(self).value()),
    {
        let body = copy(trim(self.buf.as_slice()));
        if body.len() > 0 {
            push_block(&mut self.blocks, self.level, self.title.as_slice(), body.as_slice());
        }
        self.buf = Vec::new();
        assert(self.buf@ =~= Seq::<char>::empty());
    }

    fn head(&mut self, level: u8, title: Vec<char>)
        ensures
            final(self).value() == under_heading(old(self).value(), level as int, title@),
    {
        self.close();
        self.level = level;
        self.title = title;
    }
}

fn atx_heading(t: &[char]) -> (r: Option<(u8, Vec<char>)>)
    ensures
        match r {
            Some(h) => atx(t@) == Some((h.0 as int, h.1@)),
            None => atx(t@) is None,
        },
{
    let mut n: usize = 0;
    while n < 4 && n < t.len() && t[n] == '#'
        invariant
            n <= 4,
            n <= t@.len(),
            hashes(t@, 0) == hashes(t@, n as int),
        decreases 4 - n,
    {
        n += 1;
    }
    let rest = slice_subrange(t, n, t.len());
    assert(rest@ =~= t@.skip(n as int));
    if n == 0 || !(starts_char(rest, ' ') || starts_char(rest, '\t')) {
        return None;
    }
    let title = trim(strip_end(trim(rest), "#"));
    if title.len() == 0 {
        Some((n as u8, to_chars("未命名")))
    } else {
        Some((n as u8, copy(title)))
    }
}

fn is_setext_underline(line: &[char], c: char) -> (r: bool)
    ensures
        r == underline(line@, c),
{
    let t = trim(line);
    if t.len() < 3 {
        return false;
    }
    let mut i: usize = 0;
    while i < t.len()
        invariant
            i <= t@.len(),
            t@ == trimmed(line@),
            forall|j: int| 0 <= j < i ==> #[trigger] t@[j] == c,
        decreases t@.len() - i,
    {
        if t[i] != c {
            assert(trimmed(line@)[i as int] != c);
            return false;
        }
        i += 1;
    }
    true
}

/// Reads a Markdown text: headings with number signs or underlined, and rules, begin new blocks.
pub fn blocks_from_markdown(text: &str) -> (r: Vec<Block>)
    ensures
        block_views(r@) == markdown_blocks(text@),
{
    let v = to_chars(text);
    let ls = lines(v.as_slice());
    let ghost all = lines_of(text@);
    let mut doc = ReadingBuf::start();
    let n = ls.len();
    let mut i: usize = 0;
    while i < n
        invariant
            i <= n,
            n == ls@.len(),
            all == lines_of(text@),
            pieces(ls@) == all,
            read_markdown(all, 0, fresh_reading()) == read_markdown(all, i as int, doc.value()),
        decreases n - i,
    {
        assert(all[i as int] == ls@[i as int]@) by {
            assert(pieces(ls@)[i as int] == ls@[i as int]@);
        }
        let line = ls[i];
        let t = trim_end(line);
        let heading = trim(line);
        match atx_heading(t) {
            Some(h) => {
                doc.head(h.0, h.1);
                i += 1;
            },
            None => {
                let framed = i + 1 < n && heading.len() > 0 && heading.len() <= 80;
                if i + 1 < n {
                    assert(all[i + 1] == ls@[i + 1]@) by {
                        assert(pieces(ls@)[i + 1] == ls@[i + 1]@);
                    }
                }
                if framed && is_setext_underline(ls[i + 1], '=') {
                    doc.head(1, copy(heading));
                    i += 2;
                } else if framed && is_setext_underline(ls[i + 1], '-') {
                    doc.head(2, copy(heading));
                    i += 2;
                } else if same_str(t, "***") || same_str(t, "---") || same_str(t, "___") {
                    doc.close();
                    i += 1;
                } else {
                    extend(&mut doc.buf, line);
                    extend_str(&mut doc.buf, "\n");
                    i += 1;
                }
            },
        }
    }
    doc.close();
    if doc.blocks.len() == 0 {
        assert(block_views(doc.blocks@).len() == 0);
        blocks_from_plain(text)
    } else {
        assert(block_views(doc.blocks@).len() > 0);
        split_long_blocks(&doc.blocks)
    }
}

/// Whether line `i` only underlines the heading before it.
pub open spec fn is_underline(ls: Seq<Seq<char>>, i: int) -> bool
    decreases i,
{
    0 < i < ls.len() && !is_underline(ls, i - 1) && atx(trimmed_end(ls[i - 1])) is None && (
    underlined(ls, i - 1, '=') || underlined(ls, i - 1, '-'))
}

/// The level and the title of the heading that line `i` is, if it is one.
pub open spec fn heading_of(ls: Seq<Seq<char>>, i: int) -> Option<(int, Seq<char>)> {
    if !(0 <= i < ls.len()) || is_underline(ls, i) {
        None
    } else if atx(trimmed_end(ls[i])) is Some {
        atx(trimmed_end(ls[i]))
    } else if underlined(ls, i, '=') {
        Some((1int, trimmed(ls[i])))
    } else if underlined(ls, i, '-') {
        Some((2int, trimmed(ls[i])))
    } else {
        None
    }
}

/// Whether line `i` is text: no heading, no underline of one and no rule between sections.
pub open spec fn is_text_line(ls: Seq<Seq<char>>, i: int) -> bool {
    &&& 0 <= i < ls.len()
    &&& !is_underline(ls, i)
    &&& heading_of(ls, i) is None
    &&& trimmed_end(ls[i]) != "***"@
    &&& trimmed_end(ls[i]) != "---"@
    &&& trimmed_end(ls[i]) != "___"@
}

/// The level and the title of the last heading before line `i`; those of the document where there
/// is none.
pub open spec fn last_heading(ls: Seq<Seq<char>>, i: int) -> (int, Seq<char>)
    decreases i,
{
    if i <= 0 {
        (1, "文档"@)
    } else {
        match heading_of(ls, i - 1) {
            Some(h) => h,
            None => last_heading(ls, i - 1),
        }
    }
}

/// Whether the lines from `a` to `b` are a section: text lines, all that stand between two lines
/// that are none.
pub open spec fn is_section(ls: Seq<Seq<char>>, a: int, b: int) -> bool {
    &&& 0 <= a < b <= ls.len()
    &&& forall|i: int| a <= i < b ==> #[trigger] is_text_line(ls, i)
    &&& !is_text_line(ls, a - 1)
    &&& !is_text_line(ls, b)
}

/// The lines from `a` to `b`, each with a line feed behind it.
pub open spec fn section_text(ls: Seq<Seq<char>>, a: int, b: int) -> Seq<char>
    decreases b - a,
{
    if b <= a {
        Seq::empty()
    } else {
        section_text(ls, a, b - 1) + ls[b - 1] + "\n"@
    }
}

/// The block that the lines from `a` to `b` make under a heading.
pub open spec fn section_block(ls: Seq<Seq<char>>, a: int, b: int) -> BlockView {
    BlockView {
        heading_level: last_heading(ls, a).0,
        title: last_heading(ls, a).1,
        text: trimmed(section_text(ls, a, b)),
    }
}

/// Where the section that holds line `i - 1` begins; `i` where that line is no text.
pub open spec fn section_start(ls: Seq<Seq<char>>, i: int) -> int
    decreases i,
{
    if i <= 0 || !is_text_line(ls, i - 1) {
        i
    } else {
        section_start(ls, i - 1)
    }
}

/// The sections that end at or before line `i` and are not blank, as pairs of their bounds.
pub open spec fn sections_before(ls: Seq<Seq<char>>, i: int) -> Seq<(int, int)>
    decreases i,
{
    if i <= 0 {
        Seq::empty()
    } else {
        let a = section_start(ls, i - 1);
        if !is_text_line(ls, i - 1) && trimmed(section_text(ls, a, i - 1)).len() > 0 {
            sections_before(ls, i - 1).push((a, i - 1))
        } else {
            sections_before(ls, i - 1)
        }
    }
}

/// The blocks of several sections.
pub open spec fn section_blocks(ls: Seq<Seq<char>>, sections: Seq<(int, int)>) -> Seq<BlockView> {
    Seq::new(sections.len(), |k: int| section_block(ls, sections[k].0, sections[k].1))
}

/// The reading when line `i` is reached.
spec fn reading_at(ls: Seq<Seq<char>>, i: int) -> Reading {
    Reading {
        blocks: section_blocks(ls, sections_before(ls, i)),
        level: last_heading(ls, i).0,
        title: last_heading(ls, i).1,
        buf: section_text(ls, section_start(ls, i), i),
    }
}

proof fn lemma_same_heading(ls: Seq<Seq<char>>, i: int)
    requires
        0 <= i,
    ensures
        last_heading(ls, section_start(ls, i)) == last_heading(ls, i),
        0 <= section_start(ls, i) <= i,
        forall|k: int| section_start(ls, i) <= k < i ==> #[trigger] is_text_line(ls, k),
        !is_text_line(ls, section_start(ls, i) - 1),
    decreases i,
{
    if i > 0 && is_text_line(ls, i - 1) {
        lemma_same_heading(ls, i - 1);
    }
}

proof fn lemma_reading(ls: Seq<Seq<char>>, i: int)
    requires
        0 <= i <= ls.len(),
        !is_underline(ls, i),
    ensures
        read_markdown(ls, i, reading_at(ls, i)) == reading_at(ls, ls.len() as int),
    decreases ls.len() - i,
{
    let r = reading_at(ls, i);
    if i < ls.len() {
        let a = section_start(ls, i);
        let done = closed_block(r);
        lemma_same_heading(ls, i);
        let secs = sections_before(ls, i);
        assert(trimmed(r.buf).len() > 0 ==> section_blocks(ls, secs.push((a, i)))
            =~= section_blocks(ls, secs).push(section_block(ls, a, i)));
        if !is_text_line(ls, i) {
            assert(section_start(ls, i + 1) == i + 1);
            assert(section_text(ls, i + 1, i + 1) =~= Seq::<char>::empty());
            assert(done.blocks == section_blocks(ls, sections_before(ls, i + 1)));
        }
        match atx(trimmed_end(ls[i])) {
            Some(h) => {
                assert(heading_of(ls, i) == Some(h));
                assert(under_heading(r, h.0, h.1) =~= reading_at(ls, i + 1));
                lemma_reading(ls, i + 1);
            },
            None => {
                if underlined(ls, i, '=') || underlined(ls, i, '-') {
                    let h = heading_of(ls, i)->0;
                    assert(is_underline(ls, i + 1));
                    assert(heading_of(ls, i + 1) is None);
                    assert(!is_text_line(ls, i + 1));
                    assert(section_start(ls, i + 2) == i + 2);
                    assert(section_text(ls, i + 2, i + 2) =~= Seq::<char>::empty());
                    assert(trimmed(Seq::<char>::empty()).len() == 0);
                    assert(sections_before(ls, i + 2) == sections_before(ls, i + 1));
                    assert(last_heading(ls, i + 1) == h);
                    assert(last_heading(ls, i + 2) == h);
                    assert(!is_underline(ls, i + 2));
                    assert(under_heading(r, h.0, h.1) =~= reading_at(ls, i + 2));
                    lemma_reading(ls, i + 2);
                } else if section_rule(trimmed_end(ls[i])) {
                    assert(done =~= reading_at(ls, i + 1));
                    lemma_reading(ls, i + 1);
                } else {
                    assert(is_text_line(ls, i));
                    assert(section_start(ls, i + 1) == a);
                    assert(sections_before(ls, i + 1) == secs);
                    assert((Reading { buf: r.buf + ls[i] + "\n"@, ..r }) =~= reading_at(ls, i + 1));
                    lemma_reading(ls, i + 1);
                }
            },
        }
    }
}

/// The blocks of a Markdown text before long ones are shortened.
pub open spec fn markdown_sections(text: Seq<char>) -> Seq<BlockView> {
    closed_block(read_markdown(lines_of(text), 0, fresh_reading())).blocks
}

proof fn lemma_markdown_sections(text: Seq<char>)
    ensures
        markdown_sections(text) == section_blocks(
            lines_of(text),
            sections_before(lines_of(text), lines_of(text).len() as int + 1),
        ),
{
    let ls = lines_of(text);
    let n = ls.len() as int;
    assert(section_blocks(ls, sections_before(ls, 0)) =~= Seq::<BlockView>::empty());
    assert(fresh_reading() =~= reading_at(ls, 0));
    lemma_reading(ls, 0);
    let r = reading_at(ls, n);
    lemma_same_heading(ls, n);
    let secs = sections_before(ls, n);
    let a = section_start(ls, n);
    assert(trimmed(r.buf).len() > 0 ==> section_blocks(ls, secs.push((a, n))) =~= section_blocks(
        ls,
        secs,
    ).push(section_block(ls, a, n)));
    assert(!is_text_line(ls, n));
}

proof fn lemma_sections(ls: Seq<Seq<char>>, i: int)
    requires
        0 <= i <= ls.len() + 1,
    ensures
        forall|k: int|
            0 <= k < sections_before(ls, i).len() ==> {
                let x = #[trigger] sections_before(ls, i)[k];
                is_section(ls, x.0, x.1) && x.1 < i && trimmed(section_text(ls, x.0, x.1)).len() > 0
            },
        forall|j: int, k: int|
            #![trigger sections_before(ls, i)[j], sections_before(ls, i)[k]]
            0 <= j < k < sections_before(ls, i).len() ==> sections_before(ls, i)[j].1
                < sections_before(ls, i)[k].0,
        forall|a: int, b: int| #[trigger]
            is_section(ls, a, b) && b < i && trimmed(section_text(ls, a, b)).len() > 0
                ==> sections_before(ls, i).contains((a, b)),
    decreases i,
{
    if i > 0 {
        lemma_sections(ls, i - 1);
        lemma_same_heading(ls, i - 1);
        let before = sections_before(ls, i - 1);
        let now = sections_before(ls, i);
        let s = section_start(ls, i - 1);
        assert(section_text(ls, i - 1, i - 1) =~= Seq::<char>::empty());
        assert(trimmed(Seq::<char>::empty()).len() == 0);
        assert forall|k: int| 0 <= k < now.len() implies {
            let x = #[trigger] now[k];
            is_section(ls, x.0, x.1) && x.1 < i && trimmed(section_text(ls, x.0, x.1)).len() > 0
        } by {
            if k < before.len() {
                assert(now[k] == before[k]);
            }
        }
        assert forall|j: int, k: int|
            #![trigger now[j], now[k]]
            0 <= j < k < now.len() implies now[j].1 < now[k].0 by {
            assert(now[j] == before[j]);
            if k < before.len() {
                assert(now[k] == before[k]);
            } else {
                let x = before[j];
                assert(is_section(ls, x.0, x.1));
                assert(!is_text_line(ls, x.1));
                if x.1 >= s && x.1 < i - 1 {
                    assert(is_text_line(ls, x.1));
                }
            }
        }
        assert forall|a: int, b: int| #[trigger]
            is_section(ls, a, b) && b < i && trimmed(section_text(ls, a, b)).len()
                > 0 implies now.contains((a, b)) by {
            if b < i - 1 {
                let k = choose|k: int| 0 <= k < before.len() && before[k] == (a, b);
                assert(now[k] == (a, b));
            } else {
                assert(is_text_line(ls, b - 1));
                if s < a {
                    assert(is_text_line(ls, a - 1));
                }
                if a < s {
                    assert(is_text_line(ls, s - 1));
                }
                assert(now[before.len() as int] == (a, b));
            }
        }
    }
}

/// The sections of a Markdown text, that is the text lines between headings, their underlines and
/// rules, become its blocks, before long ones are shortened: each section that is not blank becomes
/// a block that holds all its lines in their order, under the last heading before it; there are no
/// other blocks, and the blocks come in the order of the sections.
pub proof fn sections_become_blocks(text: Seq<char>)
    ensures
        forall|a: int, b: int| #[trigger]
            is_section(lines_of(text), a, b) && trimmed(section_text(lines_of(text), a, b)).len() > 0
                ==> markdown_sections(text).contains(section_block(lines_of(text), a, b)),
        exists|bounds: Seq<(int, int)>|
            {
                &&& markdown_sections(text) == #[trigger] section_blocks(lines_of(text), bounds)
                &&& forall|k: int|
                    0 <= k < bounds.len() ==> is_section(
                        lines_of(text),
                        (#[trigger] bounds[k]).0,
                        bounds[k].1,
                    )
                &&& forall|j: int, k: int|
                    #![trigger bounds[j], bounds[k]]
                    0 <= j < k < bounds.len() ==> bounds[j].1 < bounds[k].0
            },
{
    let ls = lines_of(text);
    let n = ls.len() as int;
    lemma_markdown_sections(text);
    lemma_sections(ls, n + 1);
    let bounds = sections_before(ls, n + 1);
    let all = markdown_sections(text);
    assert forall|a: int, b: int| #[trigger]
        is_section(ls, a, b) && trimmed(section_text(ls, a, b)).len() > 0 implies all.contains(
        section_block(ls, a, b),
    ) by {
        assert(bounds.contains((a, b)));
        let k = choose|k: int| 0 <= k < bounds.len() && bounds[k] == (a, b);
        assert(all[k] == section_block(ls, a, b));
    }
    assert(all == section_blocks(ls, bounds));
}

// ---------------------------------------------------------------------------------------------
// Lines reach the blocks
// ---------------------------------------------------------------------------------------------

/// Whether the characters from `i` to `j` are a whole line of a text.
pub open spec fn is_line_at(text: Seq<char>, i: int, j: int) -> bool {
    &&& 0 <= i <= j <= text.len()
    &&& i == 0 || text[i - 1] == '\n'
    &&& j == text.len() || text[j] == '\n'
    &&& forall|k: int| i <= k < j ==> #[trigger] text[k] != '\n'
}

/// Whether `t` is a line of a text, white space around the line left out.
pub open spec fn stands_as_line(text: Seq<char>, t: Seq<char>) -> bool {
    exists|i: int, j: int| #[trigger] is_line_at(text, i, j) && trimmed(text.subrange(i, j)) == t
}

/// Whether a text has no line feed.
pub open spec fn one_line(s: Seq<char>) -> bool {
    forall|k: int| 0 <= k < s.len() ==> #[trigger] s[k] != '\n'
}

pub proof fn lemma_trim_of(s: Seq<char>, a: int, b: int)
    requires
        0 <= a <= b <= s.len(),
        forall|k: int| 0 <= k < a ==> is_space(#[trigger] s[k]),
        forall|k: int| b <= k < s.len() ==> is_space(#[trigger] s[k]),
    ensures
        trimmed(s.subrange(a, b)) == trimmed(s),
{
    let m = s.subrange(a, b);
    let (x, y) = lemma_trimmed_shape(m);
    let (p, q) = lemma_trimmed_shape(s);
    if x < y {
        assert(m[x] == s[a + x] && m[y - 1] == s[a + y - 1]);
        if p > a + x {
            assert(is_space(s[a + x]));
        }
        if q < a + y {
            assert(is_space(s[a + y - 1]));
        }
        if p < a + x {
            if p >= a {
                assert(is_space(m[p - a]));
            }
            assert(is_space(s[p]));
        }
        if q > a + y {
            if q - 1 < b {
                assert(is_space(m[q - 1 - a]));
            }
            assert(is_space(s[q - 1]));
        }
        assert(m.subrange(x, y) =~= s.subrange(p, q));
    } else {
        if p < q {
            assert(!is_space(s[p]));
            if p >= a && p < b {
                assert(m[p - a] == s[p]);
                if p - a < x {
                    assert(is_space(m[p - a]));
                } else {
                    assert(is_space(m[p - a]));
                }
            }
        }
        assert(m.subrange(x, y) =~= s.subrange(p, q));
    }
}

pub proof fn lemma_trimmed_line(text: Seq<char>, t: Seq<char>)
    requires
        stands_as_line(text, t),
        t.len() > 0,
    ensures
        stands_as_line(trimmed(text), t),
        trimmed(text).len() > 0,
{
    let (i, j) = choose|i: int, j: int| #[trigger]
        is_line_at(text, i, j) && trimmed(text.subrange(i, j)) == t;
    let line = text.subrange(i, j);
    let (a, b) = lemma_trimmed_shape(text);
    let (x, y) = lemma_trimmed_shape(line);
    assert(line[x] == text[i + x] && line[y - 1] == text[i + y - 1]);
    if i + x < a {
        assert(is_space(text[i + x]));
    }
    if i + y > b {
        assert(is_space(text[i + y - 1]));
    }
    let lo = if i < a {
        a
    } else {
        i
    };
    let hi = if j > b {
        b
    } else {
        j
    };
    let cut = trimmed(text);
    assert(cut == text.subrange(a, b));
    assert forall|k: int| lo - a <= k < hi - a implies #[trigger] cut[k] != '\n' by {
        assert(cut[k] == text[a + k]);
    }
    assert(is_line_at(cut, lo - a, hi - a));
    assert(cut.subrange(lo - a, hi - a) =~= line.subrange(lo - i, hi - i));
    assert forall|k: int| 0 <= k < lo - i implies is_space(#[trigger] line[k]) by {
        assert(line[k] == text[i + k]);
    }
    assert forall|k: int| hi - i <= k < line.len() implies is_space(#[trigger] line[k]) by {
        assert(line[k] == text[i + k]);
    }
    lemma_trim_of(line, lo - i, hi - i);
}

pub proof fn lemma_more_lines(x: Seq<char>, y: Seq<char>, t: Seq<char>)
    requires
        stands_as_line(x, t),
    ensures
        stands_as_line(x + "\n"@ + y, t),
{
    reveal_strlit("\n");
    let (i, j) = choose|i: int, j: int| #[trigger]
        is_line_at(x, i, j) && trimmed(x.subrange(i, j)) == t;
    let z = x + "\n"@ + y;
    assert("\n"@[0] == '\n');
    assert(z[x.len() as int] == '\n');
    assert forall|k: int| i <= k < j implies #[trigger] z[k] != '\n' by {
        assert(z[k] == x[k]);
    }
    assert(is_line_at(z, i, j));
    assert(z.subrange(i, j) =~= x.subrange(i, j));
}

pub proof fn lemma_new_line(x: Seq<char>, y: Seq<char>, z: Seq<char>)
    requires
        one_line(y),
        x.len() > 0 ==> x.last() == '\n',
        z.len() > 0 ==> z[0] == '\n',
    ensures
        stands_as_line(x + y + z, trimmed(y)),
{
    let w = x + y + z;
    let i = x.len() as int;
    let j = i + y.len();
    if i > 0 {
        assert(w[i - 1] == x[i - 1]);
    }
    if z.len() > 0 {
        assert(w[j] == z[0]);
    }
    assert forall|k: int| i <= k < j implies #[trigger] w[k] != '\n' by {
        assert(w[k] == y[k - i]);
    }
    assert(is_line_at(w, i, j));
    assert(w.subrange(i, j) =~= y);
}

proof fn lemma_behind_line(acc: Seq<char>, y: Seq<char>, t: Seq<char>)
    requires
        acc.len() > 0,
        acc.last() == '\n',
        stands_as_line(acc, t),
        t.len() > 0,
    ensures
        stands_as_line(acc + y, t),
{
    reveal_strlit("\n");
    let x = acc.drop_last();
    let (i, j) = choose|i: int, j: int| #[trigger]
        is_line_at(acc, i, j) && trimmed(acc.subrange(i, j)) == t;
    let (a, b) = lemma_trimmed_shape(acc.subrange(i, j));
    if j == acc.len() {
        assert(acc[j - 1] == '\n');
    }
    assert forall|k: int| i <= k < j implies #[trigger] x[k] != '\n' by {
        assert(x[k] == acc[k]);
    }
    assert(is_line_at(x, i, j));
    assert(x.subrange(i, j) =~= acc.subrange(i, j));
    lemma_more_lines(x, y, t);
    assert(x + "\n"@ + y =~= acc + y);
}

proof fn lemma_line_is_part(text: Seq<char>, i: int, j: int) -> (m: int)
    requires
        is_line_at(text, i, j),
    ensures
        0 <= m < parts(text, '\n').len(),
        parts(text, '\n')[m] == text.subrange(i, j),
        m == parts(text, '\n').len() - 1 <==> j == text.len(),
    decreases text.len(),
{
    let p = parts(text, '\n');
    crate::scan::lemma_parts_nonempty(text, '\n');
    if text.len() == 0 {
        assert(p[0] =~= text.subrange(i, j));
        0
    } else {
        let head = text.drop_last();
        crate::scan::lemma_parts_nonempty(head, '\n');
        if j == text.len() {
            if text.last() == '\n' {
                if i < j {
                    assert(text[j - 1] != '\n');
                }
                assert(text.subrange(i, j) =~= Seq::<char>::empty());
            } else {
                if i == j {
                    assert(text[i - 1] == '\n');
                }
                assert forall|k: int| i <= k < j - 1 implies #[trigger] head[k] != '\n' by {
                    assert(head[k] == text[k]);
                }
                assert(is_line_at(head, i, j - 1));
                let m = lemma_line_is_part(head, i, j - 1);
                assert(text.subrange(i, j) =~= head.subrange(i, j - 1).push(text.last()));
            }
            p.len() - 1
        } else {
            assert forall|k: int| i <= k < j implies #[trigger] head[k] != '\n' by {
                assert(head[k] == text[k]);
            }
            assert(is_line_at(head, i, j));
            let m = lemma_line_is_part(head, i, j);
            assert(head.subrange(i, j) =~= text.subrange(i, j));
            m
        }
    }
}

proof fn lemma_parts_are_lines(s: Seq<char>)
    ensures
        forall|k: int| 0 <= k < parts(s, '\n').len() ==> one_line(#[trigger] parts(s, '\n')[k]),
    decreases s.len(),
{
    if s.len() > 0 {
        lemma_parts_are_lines(s.drop_last());
        crate::scan::lemma_parts_nonempty(s.drop_last(), '\n');
        let p = parts(s.drop_last(), '\n');
        assert(one_line(p[p.len() - 1]));
    }
}

pub proof fn lemma_lines_are_lines(s: Seq<char>)
    ensures
        forall|k: int| 0 <= k < lines_of(s).len() ==> one_line(#[trigger] lines_of(s)[k]),
{
    lemma_parts_are_lines(s);
    crate::scan::lemma_parts_nonempty(s, '\n');
    let p = parts(s, '\n');
    assert forall|k: int| 0 <= k < lines_of(s).len() implies one_line(#[trigger] lines_of(s)[k]) by {
        assert(one_line(p[k]));
        let l = lines_of(s)[k];
        assert forall|i: int| 0 <= i < l.len() implies #[trigger] l[i] != '\n' by {
            assert(l[i] == p[k][i]);
        }
    }
}

proof fn lemma_section_line(ls: Seq<Seq<char>>, a: int, b: int, k: int)
    requires
        0 <= a <= k < b <= ls.len(),
        forall|i: int| 0 <= i < ls.len() ==> one_line(#[trigger] ls[i]),
        trimmed(ls[k]).len() > 0,
    ensures
        stands_as_line(section_text(ls, a, b), trimmed(ls[k])),
    decreases b,
{
    reveal_strlit("\n");
    let before = section_text(ls, a, b - 1);
    lemma_section_end(ls, a, b - 1);
    assert(before + ls[b - 1] + "\n"@ =~= before + (ls[b - 1] + "\n"@));
    if k == b - 1 {
        assert(one_line(ls[k]));
        lemma_new_line(before, ls[k], "\n"@);
    } else {
        lemma_section_line(ls, a, b - 1, k);
        lemma_behind_line(before, ls[b - 1] + "\n"@, trimmed(ls[k]));
    }
}

proof fn lemma_section_end(ls: Seq<Seq<char>>, a: int, b: int)
    ensures
        b <= a ==> section_text(ls, a, b).len() == 0,
        b > a ==> section_text(ls, a, b).len() > 0 && section_text(ls, a, b).last() == '\n',
{
    reveal_strlit("\n");
}

/// Whether one of the blocks from `from` on has the level and the title of `b` and a line `t`.
pub open spec fn line_in_blocks(
    blocks: Seq<BlockView>,
    from: int,
    level: int,
    title: Seq<char>,
    t: Seq<char>,
) -> bool {
    exists|k: int|
        from <= k < blocks.len() && (#[trigger] blocks[k]).heading_level == level && blocks[k].title
            == title && stands_as_line(blocks[k].text, t)
}

proof fn lemma_cutting_line(b: BlockView, done: Seq<BlockView>, paras: Seq<Seq<char>>, m: int)
    requires
        0 <= m < paras.len(),
        forall|k: int| 0 <= k < paras.len() ==> one_line(#[trigger] paras[k]),
        trimmed(paras[m]).len() > 0,
    ensures
        ({
            let c = cutting(b, done, paras);
            line_in_blocks(c.done, 0, b.heading_level, b.title, trimmed(paras[m]))
                || stands_as_line(c.acc, trimmed(paras[m]))
        }),
    decreases paras.len(),
{
    reveal_strlit("\n");
    let head = paras.drop_last();
    let last = paras.last();
    let t = trimmed(paras[m]);
    assert(last == paras[paras.len() - 1]);
    lemma_cutting_end(b, done, head);
    let c = cutting(b, done, head);
    let z = cutting(b, done, paras);
    assert(one_line(last));
    let flushed = c.acc.len() + last.len() > MAX_BLOCK_CHARS && c.acc.len() > 0;
    let base = if flushed {
        tail(c.acc, 80)
    } else {
        c.acc
    };
    assert(base.len() > 0 ==> base.last() == '\n');
    if m == paras.len() - 1 {
        lemma_new_line(base, last, "\n"@);
    } else {
        assert forall|k: int| 0 <= k < head.len() implies one_line(#[trigger] head[k]) by {
            assert(head[k] == paras[k]);
        }
        assert(head[m] == paras[m]);
        lemma_cutting_line(b, done, head, m);
        if line_in_blocks(c.done, 0, b.heading_level, b.title, t) {
            let k = choose|k: int|
                0 <= k < c.done.len() && (#[trigger] c.done[k]).heading_level == b.heading_level
                    && c.done[k].title == b.title && stands_as_line(c.done[k].text, t);
            assert(z.done[k] == c.done[k]);
        } else if flushed {
            lemma_trimmed_line(c.acc, t);
            assert(z.done[c.done.len() as int] == part_of(b, trimmed(c.acc)));
        } else {
            assert(c.acc.len() > 0) by {
                let (i, j) = choose|i: int, j: int| #[trigger]
                    is_line_at(c.acc, i, j) && trimmed(c.acc.subrange(i, j)) == t;
                let (x, y) = lemma_trimmed_shape(c.acc.subrange(i, j));
            }
            assert(c.acc + last + "\n"@ =~= c.acc + (last + "\n"@));
            lemma_behind_line(c.acc, last + "\n"@, t);
        }
    }
}

proof fn lemma_cutting_end(b: BlockView, done: Seq<BlockView>, paras: Seq<Seq<char>>)
    ensures
        ({
            let c = cutting(b, done, paras);
            &&& c.acc.len() > 0 ==> c.acc.last() == '\n'
            &&& done.len() <= c.done.len()
            &&& forall|k: int| 0 <= k < done.len() ==> #[trigger] c.done[k] == done[k]
        }),
    decreases paras.len(),
{
    reveal_strlit("\n");
    if paras.len() > 0 {
        lemma_cutting_end(b, done, paras.drop_last());
    }
}

proof fn lemma_parts_line(done: Seq<BlockView>, b: BlockView, t: Seq<char>)
    requires
        stands_as_line(b.text, t),
        t.len() > 0,
    ensures
        line_in_blocks(with_parts(done, b), 0, b.heading_level, b.title, t),
{
    let r = with_parts(done, b);
    if b.text.len() <= MAX_BLOCK_CHARS {
        assert(r[done.len() as int] == b);
    } else {
        let (i, j) = choose|i: int, j: int| #[trigger]
            is_line_at(b.text, i, j) && trimmed(b.text.subrange(i, j)) == t;
        let m = lemma_line_is_part(b.text, i, j);
        let p = parts(b.text, '\n');
        lemma_parts_are_lines(b.text);
        lemma_cutting_line(b, done, p, m);
        let c = cutting(b, done, p);
        if line_in_blocks(c.done, 0, b.heading_level, b.title, t) {
            let k = choose|k: int|
                0 <= k < c.done.len() && (#[trigger] c.done[k]).heading_level == b.heading_level
                    && c.done[k].title == b.title && stands_as_line(c.done[k].text, t);
            assert(r[k] == c.done[k]);
        } else {
            lemma_trimmed_line(c.acc, t);
            assert(r[c.done.len() as int] == part_of(b, trimmed(c.acc)));
        }
    }
}

proof fn lemma_parts_keep(done: Seq<BlockView>, b: BlockView)
    ensures
        done.len() <= with_parts(done, b).len(),
        forall|k: int| 0 <= k < done.len() ==> #[trigger] with_parts(done, b)[k] == done[k],
{
    if b.text.len() > MAX_BLOCK_CHARS {
        lemma_cutting_end(b, done, parts(b.text, '\n'));
    }
}

/// Shortening long blocks loses no line: every line of a block that is not blank stands in a block
/// of the same level and title afterwards.
pub proof fn shortening_keeps_the_lines(blocks: Seq<BlockView>, n: int, t: Seq<char>)
    requires
        0 <= n < blocks.len(),
        stands_as_line(blocks[n].text, t),
        t.len() > 0,
    ensures
        line_in_blocks(shortened(blocks), 0, blocks[n].heading_level, blocks[n].title, t),
    decreases blocks.len(),
{
    let head = blocks.drop_last();
    let before = shortened(head);
    let last = blocks.last();
    if n == blocks.len() - 1 {
        lemma_parts_line(before, last, t);
    } else {
        shortening_keeps_the_lines(head, n, t);
        lemma_parts_keep(before, last);
        let k = choose|k: int|
            0 <= k < before.len() && (#[trigger] before[k]).heading_level == head[n].heading_level
                && before[k].title == head[n].title && stands_as_line(before[k].text, t);
        assert(shortened(blocks)[k] == before[k]);
    }
}

proof fn lemma_section_to(ls: Seq<Seq<char>>, i: int) -> (b: int)
    requires
        0 <= i <= ls.len(),
    ensures
        i <= b <= ls.len(),
        forall|k: int| i <= k < b ==> #[trigger] is_text_line(ls, k),
        !is_text_line(ls, b),
    decreases ls.len() - i,
{
    if i < ls.len() && is_text_line(ls, i) {
        lemma_section_to(ls, i + 1)
    } else {
        i
    }
}

/// No text of a Markdown document is lost: every line that is not blank and is neither a heading,
/// nor the underline of one, nor a rule between sections stands as a line in a block under the last
/// heading before it.
pub proof fn markdown_lines_reach_the_blocks(text: Seq<char>, i: int)
    requires
        is_text_line(lines_of(text), i),
        trimmed(lines_of(text)[i]).len() > 0,
    ensures
        line_in_blocks(
            markdown_blocks(text),
            0,
            last_heading(lines_of(text), i).0,
            last_heading(lines_of(text), i).1,
            trimmed(lines_of(text)[i]),
        ),
{
    let ls = lines_of(text);
    let t = trimmed(ls[i]);
    let b = lemma_section_to(ls, i);
    lemma_same_heading(ls, i);
    let a = section_start(ls, i);
    assert(is_section(ls, a, b));
    lemma_lines_are_lines(text);
    lemma_section_line(ls, a, b, i);
    lemma_trimmed_line(section_text(ls, a, b), t);
    sections_become_blocks(text);
    let blocks = markdown_sections(text);
    let block = section_block(ls, a, b);
    assert(blocks.contains(block));
    let n = choose|n: int| 0 <= n < blocks.len() && blocks[n] == block;
    shortening_keeps_the_lines(blocks, n, t);
}

proof fn lemma_hashes(t: Seq<char>, n: int, from: int)
    requires
        0 <= from <= n <= 4,
        n <= t.len(),
        forall|k: int| 0 <= k < n ==> #[trigger] t[k] == '#',
        n == 4 || n == t.len() || t[n] != '#',
    ensures
        hashes(t, from) == n,
    decreases n - from,
{
    if from < n {
        lemma_hashes(t, n, from + 1);
    }
}

/// One to four number signs and a blank make a heading of that level, and what follows is its
/// title; without the blank, with more signs or with none there is no heading.
pub proof fn number_signs_make_headings(line: Seq<char>, n: int, title: Seq<char>)
    requires
        0 <= n <= line.len(),
        forall|k: int| 0 <= k < n ==> #[trigger] line[k] == '#',
        n < line.len() ==> line[n] != '#',
    ensures
        1 <= n <= 4 && n < line.len() && (line[n] == ' ' || line[n] == '\t') && title == trimmed(
            line.skip(n + 1),
        ) && title.len() > 0 && title.last() != '#' ==> atx(line) == Some((n, title)),
        n == 0 || n > 4 || n == line.len() || (line[n] != ' ' && line[n] != '\t') ==> atx(line)
            is None,
{
    let m = if n > 4 {
        4
    } else {
        n
    };
    lemma_hashes(line, m, 0);
    let rest = line.skip(m);
    if n > 4 {
        assert(rest[0] == line[4]);
    } else if n < line.len() {
        assert(rest[0] == line[n]);
        if line[n] == ' ' || line[n] == '\t' {
            assert(is_space(' ') && is_space('\t'));
            assert(rest.subrange(1, rest.len() as int) =~= line.skip(n + 1));
            lemma_trim_of(rest, 1, rest.len() as int);
            reveal_strlit("#");
            if title == trimmed(line.skip(n + 1)) && title.len() > 0 && title.last() != '#' {
                assert(!crate::scan::has_char("#"@, title.last()));
                assert(stripped_end(title, "#"@) == title);
                let (x, y) = lemma_trimmed_shape(line.skip(n + 1));
                let (p, q) = lemma_trimmed_shape(title);
                assert(title[0] == line.skip(n + 1)[x]);
                assert(title[title.len() - 1] == line.skip(n + 1)[y - 1]);
                if p > 0 {
                    assert(is_space(title[0]));
                }
                if q < title.len() {
                    assert(is_space(title[title.len() - 1]));
                }
                assert(trimmed(title) =~= title);
            }
        }
    }
}

proof fn lemma_chunk_line(ls: Seq<Seq<char>>, m: int)
    requires
        0 <= m < ls.len(),
        forall|k: int| 0 <= k < ls.len() ==> one_line(#[trigger] ls[k]),
        trimmed(ls[m]).len() > 0,
    ensures
        ({
            let c = chunks_in(ls);
            (exists|k: int|
                0 <= k < c.done.len() && stands_as_line(#[trigger] c.done[k], trimmed(ls[m])))
                || stands_as_line(c.buf, trimmed(ls[m]))
        }),
    decreases ls.len(),
{
    reveal_strlit("\n");
    let head = ls.drop_last();
    let line = ls.last();
    let t = trimmed(ls[m]);
    let c = chunks_in(head);
    let z = chunks_in(ls);
    let p = trimmed_end(line);
    assert(line == ls[ls.len() - 1]);
    assert(one_line(line));
    let e = crate::text::lemma_trimmed_end_shape(line);
    assert(p == line.take(e));
    assert(line.subrange(0, e) =~= p);
    lemma_trim_of(line, 0, e);
    assert forall|k: int| 0 <= k < p.len() implies #[trigger] p[k] != '\n' by {
        assert(p[k] == line[k]);
    }
    let buf = on_new_line(c.buf) + p;
    if m == ls.len() - 1 {
        assert(buf + Seq::<char>::empty() =~= buf);
        lemma_new_line(on_new_line(c.buf), p, Seq::empty());
        if buf.len() >= 2000 {
            assert(z.done[c.done.len() as int] == buf);
        }
    } else {
        assert forall|k: int| 0 <= k < head.len() implies one_line(#[trigger] head[k]) by {
            assert(head[k] == ls[k]);
        }
        assert(head[m] == ls[m]);
        lemma_chunk_line(head, m);
        if exists|k: int| 0 <= k < c.done.len() && stands_as_line(#[trigger] c.done[k], t) {
            let k = choose|k: int| 0 <= k < c.done.len() && stands_as_line(#[trigger] c.done[k], t);
            assert(z.done[k] == c.done[k]);
        } else {
            if is_blank(p) {
                assert(c.buf + "\n"@ + Seq::<char>::empty() =~= c.buf + "\n"@);
                lemma_more_lines(c.buf, Seq::empty(), t);
                if hanzi_of(c.buf).len() > 80 || c.buf.len() > 200 {
                    assert(z.done[c.done.len() as int] == c.buf);
                }
            } else {
                if c.buf.len() == 0 {
                    let (i, j) = choose|i: int, j: int| #[trigger]
                        is_line_at(c.buf, i, j) && trimmed(c.buf.subrange(i, j)) == t;
                    let (x, y) = lemma_trimmed_shape(c.buf.subrange(i, j));
                }
                lemma_more_lines(c.buf, p, t);
                if buf.len() >= 2000 {
                    assert(z.done[c.done.len() as int] == buf);
                }
            }
        }
    }
}

proof fn lemma_chunk_block(chunks: Seq<Seq<char>>, n: int)
    requires
        0 <= n < chunks.len(),
        !is_blank(chunks[n]),
    ensures
        exists|k: int|
            0 <= k < chunk_blocks(chunks).len() && (#[trigger] chunk_blocks(chunks)[k]).text
                == chunks[n] && chunk_blocks(chunks)[k].heading_level == 1,
    decreases chunks.len(),
{
    let head = chunks.drop_last();
    let before = chunk_blocks(head);
    let now = chunk_blocks(chunks);
    if n == chunks.len() - 1 {
        assert(now[before.len() as int].text == chunks[n]);
    } else {
        assert(head[n] == chunks[n]);
        lemma_chunk_block(head, n);
        let k = choose|k: int|
            0 <= k < before.len() && (#[trigger] before[k]).text == head[n]
                && before[k].heading_level == 1;
        assert(now[k] == before[k]);
    }
}

/// No line of a plain text is lost: every one that is not blank stands as a line in one of the
/// blocks.
pub proof fn plain_lines_reach_the_blocks(text: Seq<char>, m: int)
    requires
        0 <= m < parts(text, '\n').len(),
        trimmed(parts(text, '\n')[m]).len() > 0,
    ensures
        exists|k: int|
            0 <= k < plain_blocks(text).len() && stands_as_line(
                (#[trigger] plain_blocks(text)[k]).text,
                trimmed(parts(text, '\n')[m]),
            ),
{
    let ls = parts(text, '\n');
    let t = trimmed(ls[m]);
    lemma_parts_are_lines(text);
    lemma_chunk_line(ls, m);
    let c = chunks_in(ls);
    let all = chunks_of(text);
    let k = if exists|k: int| 0 <= k < c.done.len() && stands_as_line(#[trigger] c.done[k], t) {
        choose|k: int| 0 <= k < c.done.len() && stands_as_line(#[trigger] c.done[k], t)
    } else {
        lemma_trimmed_line(c.buf, t);
        c.done.len() as int
    };
    assert(stands_as_line(all[k], t));
    lemma_trimmed_line(all[k], t);
    lemma_chunk_block(all, k);
    let n = choose|n: int|
        0 <= n < chunk_blocks(all).len() && (#[trigger] chunk_blocks(all)[n]).text == all[k]
            && chunk_blocks(all)[n].heading_level == 1;
    assert(stands_as_line(plain_blocks(text)[n].text, t));
}

// ---------------------------------------------------------------------------------------------
// Replacing matches
// ---------------------------------------------------------------------------------------------

/// Where the `n`-th match ends, as a character position; the beginning of the text for `n == 0`.
pub open spec fn match_end(s: Seq<char>, ms: Seq<MatchView>, n: int) -> int {
    if n <= 0 {
        0
    } else {
        floor_pos(s, ms[n - 1].end)
    }
}

/// The text up to the end of the `n`-th match, with the first `n` matches replaced.
pub open spec fn spliced_upto(s: Seq<char>, ms: Seq<MatchView>, reps: Seq<Seq<char>>, n: int) -> Seq<
    char,
>
    decreases n,
{
    if n <= 0 {
        Seq::empty()
    } else {
        spliced_upto(s, ms, reps, n - 1) + s.subrange(
            match_end(s, ms, n - 1),
            floor_pos(s, ms[n - 1].start),
        ) + reps[n - 1]
    }
}

/// The text with every match replaced by its replacement.
pub open spec fn spliced(s: Seq<char>, ms: Seq<MatchView>, reps: Seq<Seq<char>>) -> Seq<char> {
    spliced_upto(s, ms, reps, ms.len() as int) + s.skip(match_end(s, ms, ms.len() as int))
}

proof fn lemma_boundary_order(s: Seq<char>, a: int, b: int)
    requires
        is_boundary(s, a),
        is_boundary(s, b),
        a <= b,
    ensures
        0 <= floor_pos(s, a) <= floor_pos(s, b) <= s.len(),
{
    let i = choose|i: int| 0 <= i <= s.len() && #[trigger] byte_pos(s, i) == a;
    let j = choose|j: int| 0 <= j <= s.len() && #[trigger] byte_pos(s, j) == b;
    lemma_floor_of_pos(s, i);
    lemma_floor_of_pos(s, j);
    lemma_byte_pos_order(s, j, i);
}

/// Replaces matches: the `k`-th one by the `k`-th replacement.
pub fn splice(text: &str, ms: &Vec<RegexMatch>, reps: &Vec<Vec<char>>) -> (r: Vec<char>)
    requires
        matches_in_order(match_views(ms@), text@),
        reps@.len() == ms@.len(),
    ensures
        r@ == spliced(text@, match_views(ms@), rows(reps@)),
{
    let src = Source::new(text);
    let ghost all = match_views(ms@);
    let ghost with = rows(reps@);
    let v = src.chars.as_slice();
    let mut out: Vec<char> = Vec::new();
    let mut at: usize = 0;
    let mut k: usize = 0;
    while k < ms.len()
        invariant
            k <= ms@.len(),
            src.wf(),
            src@ == text@,
            v@ == text@,
            all == match_views(ms@),
            with == rows(reps@),
            matches_in_order(all, text@),
            reps@.len() == ms@.len(),
            at == match_end(text@, all, k as int),
            at <= text@.len(),
            out@ == spliced_upto(text@, all, with, k as int),
        decreases ms@.len() - k,
    {
        proof {
            assert(all[k as int] == ms@[k as int]@);
            lemma_boundary_order(text@, all[k as int].start, all[k as int].end);
            if k > 0 {
                assert(all[k - 1].end <= all[k as int].start);
                lemma_boundary_order(text@, all[k - 1].end, all[k as int].start);
            }
        }
        let a = src.floor(ms[k].start);
        let b = src.floor(ms[k].end);
        extend(&mut out, slice_subrange(v, at, a));
        extend(&mut out, reps[k].as_slice());
        assert(with[k as int] == reps@[k as int]@);
        at = b;
        k += 1;
    }
    let rest = slice_subrange(v, at, v.len());
    assert(rest@ =~= text@.skip(at as int));
    extend(&mut out, rest);
    out
}

// ---------------------------------------------------------------------------------------------
// HTML
// ---------------------------------------------------------------------------------------------

/// The pattern of a heading in HTML: its level and what stands in it.
pub open spec fn html_heading_pattern() -> Seq<char> {
    "(?is)<h([1-4])[^>]*>(.*?)</h[1-4]>"@
}

/// The pattern of what HTML holds besides text: scripts, styles and tags.
pub open spec fn html_tag_pattern() -> Seq<char> {
    "(?is)<script[^>]*>.*?</script>|<style[^>]*>.*?</style>|<[^>]+>"@
}

/// As many blanks as there are matches.
pub open spec fn blanks(n: nat) -> Seq<Seq<char>> {
    Seq::new(n, |i: int| " "@)
}

/// The text of a piece of HTML: a blank for each script, style or tag.
pub open spec fn untagged(s: Seq<char>) -> Seq<char> {
    let ms = found(html_tag_pattern(), s);
    spliced(s, ms, blanks(ms.len()))
}

/// The level that the last character of a text names, from one to four; one if it is no digit.
pub open spec fn named_level(t: Seq<char>) -> int {
    if t.len() == 0 || !('0' <= t.last() <= '9') || t.last() <= '1' {
        1
    } else if t.last() >= '4' {
        4
    } else {
        (t.last() as u32 - 0x30) as int
    }
}

/// A heading line as in Markdown.
pub open spec fn heading_line(level: int, title: Seq<char>) -> Seq<char> {
    "\n"@ + Seq::new(level as nat, |i: int| '#') + " "@ + trimmed(title) + "\n"@
}

/// The heading lines of HTML headings, `titles` being what stands in them without tags.
pub open spec fn heading_lines(ms: Seq<MatchView>, titles: Seq<Seq<char>>) -> Seq<Seq<char>> {
    Seq::new(ms.len(), |i: int| heading_line(named_level(group_text(ms[i], 1)), titles[i]))
}

/// What stands in HTML headings, without tags.
pub open spec fn heading_titles(ms: Seq<MatchView>) -> Seq<Seq<char>> {
    Seq::new(ms.len(), |i: int| untagged(group_text(ms[i], 2)))
}

/// HTML with its headings turned into heading lines as in Markdown.
pub open spec fn headings_marked(html: Seq<char>) -> Seq<char> {
    let ms = found(html_heading_pattern(), html);
    spliced(html, ms, heading_lines(ms, heading_titles(ms)))
}

/// The blocks of an HTML text.
pub open spec fn html_blocks(html: Seq<char>) -> Seq<BlockView> {
    markdown_blocks(untagged(headings_marked(html)))
}

fn strip_html(text: &str) -> (r: Vec<char>)
    ensures
        r@ == untagged(text@),
{
    let ms = find_all(
        "(?is)<script[^>]*>.*?</script>|<style[^>]*>.*?</style>|<[^>]+>",
        text,
    );
    assert(match_views(ms@).len() == ms@.len());
    let mut reps: Vec<Vec<char>> = Vec::new();
    let mut i: usize = 0;
    while i < ms.len()
        invariant
            i <= ms@.len(),
            reps@.len() == i,
            forall|j: int| 0 <= j < i ==> (#[trigger] reps@[j])@ == " "@,
        decreases ms@.len() - i,
    {
        reps.push(to_chars(" "));
        i += 1;
    }
    assert(rows(reps@) =~= blanks(ms@.len()));
    splice(text, &ms, &reps)
}

fn level_of(t: &[char]) -> (r: u8)
    ensures
        r == named_level(t@),
        1 <= r <= 4,
{
    if t.len() == 0 {
        return 1;
    }
    let c = t[t.len() - 1];
    if c == '2' {
        2
    } else if c == '3' {
        3
    } else if '4' <= c && c <= '9' {
        4
    } else {
        1
    }
}

fn write_heading(level: u8, title: &[char]) -> (r: Vec<char>)
    ensures
        r@ == heading_line(level as int, title@),
{
    let mut marks: Vec<char> = Vec::new();
    let mut i: u8 = 0;
    while i < level
        invariant
            i <= level,
            marks@.len() == i,
            forall|j: int| 0 <= j < i ==> #[trigger] marks@[j] == '#',
        decreases level - i,
    {
        marks.push('#');
        i += 1;
    }
    assert(marks@ =~= Seq::new(level as nat, |i: int| '#'));
    let mut out = to_chars("\n");
    extend(&mut out, marks.as_slice());
    extend_str(&mut out, " ");
    extend(&mut out, trim(title));
    extend_str(&mut out, "\n");
    out
}

/// Turns the headings of HTML into heading lines as in Markdown. `ms` are the matches of the
/// headings, `titles` what stands in them without tags.
pub fn mark_headings(html: &str, ms: &Vec<RegexMatch>, titles: &Vec<Vec<char>>) -> (r: Vec<char>)
    requires
        matches_in_order(match_views(ms@), html@),
        titles@.len() == ms@.len(),
    ensures
        r@ == spliced(
            html@,
            match_views(ms@),
            heading_lines(match_views(ms@), rows(titles@)),
        ),
{
    let ghost all = match_views(ms@);
    let mut reps: Vec<Vec<char>> = Vec::new();
    let mut i: usize = 0;
    while i < ms.len()
        invariant
            i <= ms@.len(),
            all == match_views(ms@),
            titles@.len() == ms@.len(),
            reps@.len() == i,
            forall|j: int|
                0 <= j < i ==> (#[trigger] reps@[j])@ == heading_lines(all, rows(titles@))[j],
        decreases ms@.len() - i,
    {
        assert(all[i as int] == ms@[i as int]@);
        assert(rows(titles@)[i as int] == titles@[i as int]@);
        let g = group_chars(&ms[i], 1);
        let level = level_of(g.as_slice());
        reps.push(write_heading(level, titles[i].as_slice()));
        i += 1;
    }
    assert(rows(reps@) =~= heading_lines(all, rows(titles@)));
    splice(html, ms, &reps)
}

/// Reads an HTML text: headings begin new blocks, tags are dropped.
pub fn blocks_from_html(html: &str) -> (r: Vec<Block>)
    ensures
        block_views(r@) == html_blocks(html@),
{
    let ms = find_all("(?is)<h([1-4])[^>]*>(.*?)</h[1-4]>", html);
    let ghost all = match_views(ms@);
    let mut titles: Vec<Vec<char>> = Vec::new();
    let mut i: usize = 0;
    while i < ms.len()
        invariant
            i <= ms@.len(),
            all == match_views(ms@),
            titles@.len() == i,
            forall|j: int| 0 <= j < i ==> (#[trigger] titles@[j])@ == heading_titles(all)[j],
        decreases ms@.len() - i,
    {
        assert(all[i as int] == ms@[i as int]@);
        let g = group_chars(&ms[i], 2);
        let inner = to_text(g.as_slice());
        titles.push(strip_html(inner.as_str()));
        i += 1;
    }
    assert(rows(titles@) =~= heading_titles(all));
    let marked = mark_headings(html, &ms, &titles);
    let marked_text = to_text(marked.as_slice());
    let plain = strip_html(marked_text.as_str());
    let plain_text = to_text(plain.as_slice());
    blocks_from_markdown(plain_text.as_str())
}

// ---------------------------------------------------------------------------------------------
// Word documents
// ---------------------------------------------------------------------------------------------

/// The pattern of a paragraph in the XML of a Word document.
pub open spec fn word_paragraph_pattern() -> Seq<char> {
    "(?s)<w:p[ >](.*?)</w:p>"@
}

/// The pattern of a run of text in a paragraph.
pub open spec fn word_text_pattern() -> Seq<char> {
    "(?s)<w:t[^>]*>(.*?)</w:t>"@
}

/// The pattern of the style of a heading.
pub open spec fn word_style_pattern() -> Seq<char> {
    "w:val=\"(Heading[1-4]|heading[1-4])\""@
}

/// A paragraph of a Word document: its runs of text as they stand in the XML, and the style of a
/// heading, if it is one.
#[derive(Debug)]
pub struct Paragraph {
    pub runs: Vec<String>,
    pub style: Option<String>,
}

/// A paragraph as a mathematical value.
#[verifier::ext_equal]
pub struct ParagraphView {
    pub runs: Seq<Seq<char>>,
    pub style: Option<Seq<char>>,
}

impl View for Paragraph {
    type V = ParagraphView;

    open spec fn view(&self) -> ParagraphView {
        ParagraphView {
            runs: texts(self.runs@),
            style: match self.style {
                Some(s) => Some(s@),
                None => None,
            },
        }
    }
}

/// The values of paragraphs.
pub open spec fn paragraph_views(v: Seq<Paragraph>) -> Seq<ParagraphView> {
    Seq::new(v.len(), |i: int| v[i]@)
}

/// A text with the named characters of XML written out.
pub open spec fn xml_decoded(s: Seq<char>) -> Seq<char> {
    replaced(
        replaced(
            replaced(replaced(replaced(s, "&amp;"@, "&"@), "&lt;"@, "<"@), "&gt;"@, ">"@),
            "&quot;"@,
            "\""@,
        ),
        "&apos;"@,
        "'"@,
    )
}

/// The runs of a paragraph one after the other, with the named characters written out.
pub open spec fn runs_text(runs: Seq<Seq<char>>) -> Seq<char>
    decreases runs.len(),
{
    if runs.len() == 0 {
        Seq::empty()
    } else {
        runs_text(runs.drop_last()) + xml_decoded(runs.last())
    }
}

/// The reading after one more paragraph.
pub open spec fn next_reading(r: Reading, p: ParagraphView) -> Reading {
    let text = trimmed(runs_text(p.runs));
    match p.style {
        Some(style) => Reading {
            level: named_level(style),
            title: if text.len() == 0 {
                "未命名"@
            } else {
                text
            },
            ..if is_blank(r.buf) {
                r
            } else {
                closed_block(r)
            }
        },
        None => if text.len() == 0 {
            Reading { buf: r.buf + "\n"@, ..r }
        } else {
            Reading { buf: on_new_line(r.buf) + text, ..r }
        },
    }
}

/// The reading of paragraphs.
pub open spec fn read_word(ps: Seq<ParagraphView>) -> Reading
    decreases ps.len(),
{
    if ps.len() == 0 {
        fresh_reading()
    } else {
        next_reading(read_word(ps.drop_last()), ps.last())
    }
}

/// The blocks of paragraphs, before long ones are cut.
pub open spec fn word_blocks(ps: Seq<ParagraphView>) -> Seq<BlockView> {
    closed_block(read_word(ps)).blocks
}

/// A paragraph out of its XML.
pub open spec fn paragraph_of(xml: Seq<char>) -> ParagraphView {
    let ts = found(word_text_pattern(), xml);
    let ss = found(word_style_pattern(), xml);
    ParagraphView {
        runs: Seq::new(ts.len(), |i: int| group_text(ts[i], 1)),
        style: if ss.len() > 0 {
            Some(group_text(ss[0], 1))
        } else {
            None
        },
    }
}

/// The paragraphs of the XML of a Word document.
pub open spec fn paragraphs_of(xml: Seq<char>) -> Seq<ParagraphView> {
    let ms = found(word_paragraph_pattern(), xml);
    Seq::new(ms.len(), |i: int| paragraph_of(group_text(ms[i], 1)))
}

/// Why a file could not be read.
#[derive(Debug)]
pub struct IngestError {
    pub message: String,
}

fn decode_xml_entities(s: &[char]) -> (r: Vec<char>)
    ensures
        r@ == xml_decoded(s@),
{
    proof {
        reveal_strlit("&amp;");
        reveal_strlit("&lt;");
        reveal_strlit("&gt;");
        reveal_strlit("&quot;");
        reveal_strlit("&apos;");
    }
    let amp = to_chars("&");
    let lt = to_chars("<");
    let gt = to_chars(">");
    let quot = to_chars("\"");
    let apos = to_chars("'");
    let a = replace(s, "&amp;", amp.as_slice());
    let b = replace(a.as_slice(), "&lt;", lt.as_slice());
    let c = replace(b.as_slice(), "&gt;", gt.as_slice());
    let d = replace(c.as_slice(), "&quot;", quot.as_slice());
    replace(d.as_slice(), "&apos;", apos.as_slice())
}

fn write_runs(runs: &Vec<String>) -> (r: Vec<char>)
    ensures
        r@ == runs_text(texts(runs@)),
{
    let ghost all = texts(runs@);
    let mut out: Vec<char> = Vec::new();
    assert(out@ =~= Seq::<char>::empty());
    let mut i: usize = 0;
    while i < runs.len()
        invariant
            i <= runs@.len(),
            all == texts(runs@),
            out@ == runs_text(all.take(i as int)),
        decreases runs@.len() - i,
    {
        proof {
            assert(all.take(i + 1).drop_last() =~= all.take(i as int));
            assert(all.take(i + 1).last() == runs@[i as int]@);
        }
        let v = to_chars(runs[i].as_str());
        let d = decode_xml_entities(v.as_slice());
        extend(&mut out, d.as_slice());
        i += 1;
    }
    assert(all.take(i as int) =~= all);
    out
}

fn read_paragraph(doc: &mut ReadingBuf, p: &Paragraph)
    ensures
        final(doc).value() == next_reading(old(doc).value(), p@),
{
    let all = write_runs(&p.runs);
    let text = trim(all.as_slice());
    match &p.style {
        Some(style) => {
            if !blank(doc.buf.as_slice()) {
                doc.close();
            }
            let st = to_chars(style.as_str());
            doc.level = level_of(st.as_slice());
            doc.title = if text.len() == 0 {
                to_chars("未命名")
            } else {
                copy(text)
            };
        },
        None => {
            if text.len() == 0 {
                extend_str(&mut doc.buf, "\n");
            } else {
                if doc.buf.len() > 0 {
                    extend_str(&mut doc.buf, "\n");
                }
                extend(&mut doc.buf, text);
            }
        },
    }
}

/// Turns the paragraphs of a Word document into blocks. It is an error if there is no text.
pub fn blocks_from_paragraphs(ps: &Vec<Paragraph>) -> (r: Result<Vec<Block>, IngestError>)
    ensures
        match r {
            Ok(v) => word_blocks(paragraph_views(ps@)).len() > 0 && block_views(v@) == shortened(
                word_blocks(paragraph_views(ps@)),
            ),
            Err(e) => word_blocks(paragraph_views(ps@)).len() == 0 && e.message@
                == "docx 未抽出文本"@,
        },
{
    let ghost all = paragraph_views(ps@);
    let mut doc = ReadingBuf::start();
    let mut i: usize = 0;
    while i < ps.len()
        invariant
            i <= ps@.len(),
            all == paragraph_views(ps@),
            doc.value() == read_word(all.take(i as int)),
        decreases ps@.len() - i,
    {
        proof {
            assert(all.take(i + 1).drop_last() =~= all.take(i as int));
            assert(all.take(i + 1).last() == ps@[i as int]@);
        }
        read_paragraph(&mut doc, &ps[i]);
        i += 1;
    }
    assert(all.take(i as int) =~= all);
    doc.close();
    assert(block_views(doc.blocks@).len() == doc.blocks@.len());
    if doc.blocks.len() == 0 {
        Err(IngestError { message: "docx 未抽出文本".to_string() })
    } else {
        Ok(split_long_blocks(&doc.blocks))
    }
}

fn find_paragraph(xml: &str) -> (r: Paragraph)
    ensures
        r@ == paragraph_of(xml@),
{
    let ts = find_all("(?s)<w:t[^>]*>(.*?)</w:t>", xml);
    let ss = find_all("w:val=\"(Heading[1-4]|heading[1-4])\"", xml);
    let ghost all = match_views(ts@);
    let mut runs: Vec<String> = Vec::new();
    let mut i: usize = 0;
    while i < ts.len()
        invariant
            i <= ts@.len(),
            all == match_views(ts@),
            runs@.len() == i,
            forall|j: int| 0 <= j < i ==> (#[trigger] runs@[j])@ == group_text(all[j], 1),
        decreases ts@.len() - i,
    {
        assert(all[i as int] == ts@[i as int]@);
        let g = group_chars(&ts[i], 1);
        runs.push(to_text(g.as_slice()));
        i += 1;
    }
    assert(texts(runs@) =~= paragraph_of(xml@).runs);
    assert(match_views(ss@).len() == ss@.len());
    let style = if ss.len() > 0 {
        assert(match_views(ss@)[0] == ss@[0]@);
        let g = group_chars(&ss[0], 1);
        Some(to_text(g.as_slice()))
    } else {
        None
    };
    Paragraph { runs, style }
}

/// Reads the XML of a Word document.
pub fn blocks_from_docx(xml: &str) -> (r: Result<Vec<Block>, IngestError>)
    ensures
        match r {
            Ok(v) => word_blocks(paragraphs_of(xml@)).len() > 0 && block_views(v@) == shortened(
                word_blocks(paragraphs_of(xml@)),
            ),
            Err(e) => word_blocks(paragraphs_of(xml@)).len() == 0 && e.message@
                == "docx 未抽出文本"@,
        },
{
    let ms = find_all("(?s)<w:p[ >](.*?)</w:p>", xml);
    let ghost all = match_views(ms@);
    let mut ps: Vec<Paragraph> = Vec::new();
    let mut i: usize = 0;
    while i < ms.len()
        invariant
            i <= ms@.len(),
            all == match_views(ms@),
            ps@.len() == i,
            forall|j: int| 0 <= j < i ==> (#[trigger] ps@[j])@ == paragraph_of(group_text(all[j], 1)),
        decreases ms@.len() - i,
    {
        assert(all[i as int] == ms@[i as int]@);
        let g = group_chars(&ms[i], 1);
        let part = to_text(g.as_slice());
        ps.push(find_paragraph(part.as_str()));
        i += 1;
    }
    assert(paragraph_views(ps@) =~= paragraphs_of(xml@));
    blocks_from_paragraphs(&ps)
}

// ---------------------------------------------------------------------------------------------
// What holds of HTML and Word documents
// ---------------------------------------------------------------------------------------------

proof fn lemma_spliced_back(s: Seq<char>, ms: Seq<MatchView>, reps: Seq<Seq<char>>, n: int)
    requires
        matches_in_order(ms, s),
        0 <= n <= ms.len(),
        reps.len() == ms.len(),
        forall|k: int|
            0 <= k < ms.len() ==> #[trigger] reps[k] == s.subrange(
                floor_pos(s, ms[k].start),
                floor_pos(s, ms[k].end),
            ),
    ensures
        0 <= match_end(s, ms, n) <= s.len(),
        spliced_upto(s, ms, reps, n) == s.take(match_end(s, ms, n)),
    decreases n,
{
    if n > 0 {
        lemma_spliced_back(s, ms, reps, n - 1);
        let m = ms[n - 1];
        lemma_boundary_order(s, m.start, m.end);
        if n > 1 {
            assert(ms[n - 2].end <= m.start);
            lemma_boundary_order(s, ms[n - 2].end, m.start);
        }
        let a = match_end(s, ms, n - 1);
        let b = floor_pos(s, m.start);
        let c = floor_pos(s, m.end);
        assert(reps[n - 1] == s.subrange(b, c));
        assert(s.take(a) + s.subrange(a, b) + s.subrange(b, c) =~= s.take(c));
    } else {
        assert(s.take(0) =~= Seq::<char>::empty());
    }
}

/// What lies outside the matches is kept: with each match replaced by what it matched, the text
/// comes out as it was.
pub proof fn splicing_keeps_the_rest(s: Seq<char>, ms: Seq<MatchView>, reps: Seq<Seq<char>>)
    requires
        matches_in_order(ms, s),
        reps.len() == ms.len(),
        forall|k: int|
            0 <= k < ms.len() ==> #[trigger] reps[k] == s.subrange(
                floor_pos(s, ms[k].start),
                floor_pos(s, ms[k].end),
            ),
    ensures
        spliced(s, ms, reps) == s,
{
    let n = ms.len() as int;
    lemma_spliced_back(s, ms, reps, n);
    assert(s.take(match_end(s, ms, n)) + s.skip(match_end(s, ms, n)) =~= s);
}

/// A replacement stands in the place of its match, and the text before and behind it stays.
pub proof fn replacements_stand_for_their_matches(s: Seq<char>, m: MatchView, rep: Seq<char>)
    requires
        matches_in_order(seq![m], s),
    ensures
        spliced(s, seq![m], seq![rep]) == s.take(floor_pos(s, m.start)) + rep + s.skip(
            floor_pos(s, m.end),
        ),
{
    let ms = seq![m];
    let reps = seq![rep];
    assert(ms[0] == m);
    assert(spliced_upto(s, ms, reps, 0) =~= Seq::<char>::empty());
    let a = floor_pos(s, m.start);
    assert(s.subrange(0, a) =~= s.take(a)) by {
        lemma_boundary_order(s, m.start, m.end);
    }
    assert(spliced_upto(s, ms, reps, 1) =~= s.take(a) + rep);
}

/// A heading in HTML becomes a heading line: the level is the digit of the tag, and the title what
/// stands in it, on a line of its own.
pub proof fn html_headings_become_heading_lines(digit: char, title: Seq<char>)
    requires
        '1' <= digit <= '4',
        one_line(trimmed(title)),
        trimmed(title).len() > 0,
        trimmed(title).last() != '#',
    ensures
        exists|i: int, j: int|
            {
                &&& #[trigger] is_line_at(heading_line(named_level(seq![digit]), title), i, j)
                &&& atx(heading_line(named_level(seq![digit]), title).subrange(i, j)) == Some(
                    ((digit as u32 - 0x30) as int, trimmed(title)),
                )
            },
{
    reveal_strlit("\n");
    reveal_strlit(" ");
    let level = named_level(seq![digit]);
    assert(seq![digit].last() == digit);
    assert(level == (digit as u32 - 0x30) as int);
    let t = trimmed(title);
    let line = heading_line(level, title);
    let marks = Seq::new(level as nat, |i: int| '#');
    let inner = marks + " "@ + t;
    let j = 1 + inner.len();
    assert(line =~= "\n"@ + inner + "\n"@);
    assert(line.subrange(1, j as int) =~= inner);
    assert forall|k: int| 1 <= k < j implies #[trigger] line[k] != '\n' by {
        assert(line[k] == inner[k - 1]);
        if k - 1 > level {
            assert(inner[k - 1] == t[k - 2 - level]);
        }
    }
    assert(line[0] == "\n"@[0]);
    assert(line[j as int] == "\n"@[0]);
    assert(is_line_at(line, 1, j as int));
    assert forall|k: int| 0 <= k < level implies #[trigger] inner[k] == '#' by {
        assert(inner[k] == marks[k]);
    }
    assert(inner[level] == ' ');
    assert(inner.skip(level + 1) =~= t);
    let (a, b) = lemma_trimmed_shape(title);
    assert(t == title.subrange(a, b));
    let (p, q) = lemma_trimmed_shape(t);
    assert(t[0] == title[a] && t[t.len() - 1] == title[b - 1]);
    if p > 0 {
        assert(is_space(t[0]));
    }
    if q < t.len() {
        assert(is_space(t[t.len() - 1]));
    }
    assert(trimmed(t) =~= t);
    number_signs_make_headings(inner, level, t);
}

/// The level and the title of the last heading before paragraph `i`; those of the document where
/// there is none.
pub open spec fn word_heading(ps: Seq<ParagraphView>, i: int) -> (int, Seq<char>)
    decreases i,
{
    if i <= 0 {
        (1, "文档"@)
    } else if ps[i - 1].style is Some {
        (
            named_level(ps[i - 1].style->0),
            if trimmed(runs_text(ps[i - 1].runs)).len() == 0 {
                "未命名"@
            } else {
                trimmed(runs_text(ps[i - 1].runs))
            },
        )
    } else {
        word_heading(ps, i - 1)
    }
}

pub proof fn lemma_line_behind(x: Seq<char>, y: Seq<char>, t: Seq<char>)
    requires
        x.len() > 0 ==> x.last() == '\n',
        stands_as_line(y, t),
    ensures
        stands_as_line(x + y, t),
{
    let (i, j) = choose|i: int, j: int| #[trigger]
        is_line_at(y, i, j) && trimmed(y.subrange(i, j)) == t;
    let z = x + y;
    let n = x.len() as int;
    assert forall|k: int| n + i <= k < n + j implies #[trigger] z[k] != '\n' by {
        assert(z[k] == y[k - n]);
    }
    if n + i > 0 {
        if i > 0 {
            assert(z[n + i - 1] == y[i - 1]);
        } else {
            assert(z[n - 1] == x[n - 1]);
        }
    }
    if j < y.len() {
        assert(z[n + j] == y[j]);
    }
    assert(is_line_at(z, n + i, n + j));
    assert(z.subrange(n + i, n + j) =~= y.subrange(i, j));
}

proof fn lemma_word_line(ps: Seq<ParagraphView>, n: int, m: int, t: Seq<char>)
    requires
        0 <= m < n <= ps.len(),
        ps[m].style is None,
        stands_as_line(trimmed(runs_text(ps[m].runs)), t),
        t.len() > 0,
    ensures
        ({
            let r = read_word(ps.take(n));
            let h = word_heading(ps, m);
            ||| line_in_blocks(r.blocks, 0, h.0, h.1, t)
            ||| (r.level, r.title) == h && stands_as_line(r.buf, t)
        }),
    decreases n,
{
    reveal_strlit("\n");
    let p = ps[n - 1];
    let c = read_word(ps.take(n - 1));
    let z = read_word(ps.take(n));
    let h = word_heading(ps, m);
    assert(ps.take(n).drop_last() =~= ps.take(n - 1));
    assert(ps.take(n).last() == p);
    lemma_word_heading(ps, n - 1);
    let text = trimmed(runs_text(p.runs));
    if m == n - 1 {
        let (i, j) = choose|i: int, j: int| #[trigger]
            is_line_at(text, i, j) && trimmed(text.subrange(i, j)) == t;
        let (x, y) = lemma_trimmed_shape(text.subrange(i, j));
        assert(text.len() > 0);
        lemma_line_behind(on_new_line(c.buf), text, t);
    } else {
        lemma_word_line(ps, n - 1, m, t);
        if line_in_blocks(c.blocks, 0, h.0, h.1, t) {
            let k = choose|k: int|
                0 <= k < c.blocks.len() && (#[trigger] c.blocks[k]).heading_level == h.0
                    && c.blocks[k].title == h.1 && stands_as_line(c.blocks[k].text, t);
            assert(z.blocks[k] == c.blocks[k]);
        } else if p.style is Some {
            lemma_trimmed_line(c.buf, t);
            assert(z.blocks[c.blocks.len() as int].text == trimmed(c.buf));
        } else if text.len() == 0 {
            assert(c.buf + "\n"@ + Seq::<char>::empty() =~= c.buf + "\n"@);
            lemma_more_lines(c.buf, Seq::empty(), t);
        } else {
            lemma_trimmed_line(c.buf, t);
            let (x, y) = lemma_trimmed_shape(c.buf);
            assert(c.buf.len() > 0);
            lemma_more_lines(c.buf, text, t);
        }
    }
}

proof fn lemma_word_heading(ps: Seq<ParagraphView>, n: int)
    requires
        0 <= n <= ps.len(),
    ensures
        (read_word(ps.take(n)).level, read_word(ps.take(n)).title) == word_heading(ps, n),
    decreases n,
{
    if n > 0 {
        assert(ps.take(n).drop_last() =~= ps.take(n - 1));
        assert(ps.take(n).last() == ps[n - 1]);
        lemma_word_heading(ps, n - 1);
    }
}

/// No text of a Word document is lost: every line of a paragraph that is no heading stands as a line
/// in a block under the last heading before it.
pub proof fn word_lines_reach_the_blocks(ps: Seq<ParagraphView>, m: int, t: Seq<char>)
    requires
        0 <= m < ps.len(),
        ps[m].style is None,
        stands_as_line(trimmed(runs_text(ps[m].runs)), t),
        t.len() > 0,
    ensures
        line_in_blocks(
            shortened(word_blocks(ps)),
            0,
            word_heading(ps, m).0,
            word_heading(ps, m).1,
            t,
        ),
{
    let n = ps.len() as int;
    let h = word_heading(ps, m);
    lemma_word_line(ps, n, m, t);
    assert(ps.take(n) =~= ps);
    let r = read_word(ps);
    let blocks = word_blocks(ps);
    let k = if line_in_blocks(r.blocks, 0, h.0, h.1, t) {
        choose|k: int|
            0 <= k < r.blocks.len() && (#[trigger] r.blocks[k]).heading_level == h.0
                && r.blocks[k].title == h.1 && stands_as_line(r.blocks[k].text, t)
    } else {
        lemma_trimmed_line(r.buf, t);
        r.blocks.len() as int
    };
    shortening_keeps_the_lines(blocks, k, t);
}

/// The runs of a paragraph are put together in their order; text without an ampersand stays as it
/// is.
pub proof fn plain_runs_are_kept(runs: Seq<Seq<char>>)
    requires
        forall|i: int, k: int|
            #![trigger runs[i][k]]
            0 <= i < runs.len() && 0 <= k < runs[i].len() ==> runs[i][k] != '&',
    ensures
        runs_text(runs) == crate::scan::joined(runs, Seq::empty()),
    decreases runs.len(),
{
    if runs.len() > 0 {
        let head = runs.drop_last();
        let last = runs.last();
        assert forall|i: int, k: int|
            #![trigger head[i][k]]
            0 <= i < head.len() && 0 <= k < head[i].len() implies head[i][k] != '&' by {
            assert(head[i][k] == runs[i][k]);
        }
        plain_runs_are_kept(head);
        reveal_strlit("&amp;");
        reveal_strlit("&lt;");
        reveal_strlit("&gt;");
        reveal_strlit("&quot;");
        reveal_strlit("&apos;");
        assert forall|k: int| 0 <= k < last.len() implies #[trigger] last[k] != '&' by {
            assert(runs[runs.len() - 1][k] != '&');
        }
        lemma_nothing_replaced(last, "&amp;"@, "&"@);
        lemma_nothing_replaced(last, "&lt;"@, "<"@);
        lemma_nothing_replaced(last, "&gt;"@, ">"@);
        lemma_nothing_replaced(last, "&quot;"@, "\""@);
        lemma_nothing_replaced(last, "&apos;"@, "'"@);
        assert(xml_decoded(last) == last);
        if runs.len() == 1 {
            assert(runs_text(runs) =~= runs[0]);
        } else {
            assert(crate::scan::joined(head, Seq::empty()) + Seq::<char>::empty() + last
                =~= crate::scan::joined(head, Seq::empty()) + last);
        }
    }
}

/// The five named characters of XML are written out where they stand, and the text around them
/// stays. After an ampersand that was written out here comes a blank: what follows it is not read
/// as a name again.
pub proof fn named_characters_are_written_out(a: Seq<char>, b: Seq<char>)
    requires
        forall|k: int| 0 <= k < a.len() ==> #[trigger] a[k] != '&',
        forall|k: int| 0 <= k < b.len() ==> #[trigger] b[k] != '&',
    ensures
        xml_decoded(a + "&lt;"@ + b) == a + "<"@ + b,
        xml_decoded(a + "&gt;"@ + b) == a + ">"@ + b,
        xml_decoded(a + "&quot;"@ + b) == a + "\""@ + b,
        xml_decoded(a + "&apos;"@ + b) == a + "'"@ + b,
        b.len() > 0 && b[0] == ' ' ==> xml_decoded(a + "&amp;"@ + b) == a + "&"@ + b,
{
    reveal_strlit("&");
    reveal_strlit("<");
    reveal_strlit(">");
    reveal_strlit("\"");
    reveal_strlit("'");
    reveal_strlit("&amp;");
    reveal_strlit("&lt;");
    reveal_strlit("&gt;");
    reveal_strlit("&quot;");
    reveal_strlit("&apos;");
    let amp = "&amp;"@;
    let lt = "&lt;"@;
    let gt = "&gt;"@;
    let quot = "&quot;"@;
    let apos = "&apos;"@;
    assert(a + lt + b =~= a + (lt + b));
    assert(a + gt + b =~= a + (gt + b));
    assert(a + quot + b =~= a + (quot + b));
    assert(a + apos + b =~= a + (apos + b));
    assert(a + "&"@ + b =~= a + ("&"@ + b));
    // The others stay while one is written out.
    lemma_other_text_stays(a, lt + b, amp, "&"@, 1);
    one_text_is_replaced(a, lt, b, "<"@);
    lemma_nothing_replaced(a + "<"@ + b, gt, ">"@);
    lemma_nothing_replaced(a + "<"@ + b, quot, "\""@);
    lemma_nothing_replaced(a + "<"@ + b, apos, "'"@);
    lemma_other_text_stays(a, gt + b, amp, "&"@, 1);
    lemma_other_text_stays(a, gt + b, lt, "<"@, 1);
    one_text_is_replaced(a, gt, b, ">"@);
    lemma_nothing_replaced(a + ">"@ + b, quot, "\""@);
    lemma_nothing_replaced(a + ">"@ + b, apos, "'"@);
    lemma_other_text_stays(a, quot + b, amp, "&"@, 1);
    lemma_other_text_stays(a, quot + b, lt, "<"@, 1);
    lemma_other_text_stays(a, quot + b, gt, ">"@, 1);
    one_text_is_replaced(a, quot, b, "\""@);
    lemma_nothing_replaced(a + "\""@ + b, apos, "'"@);
    lemma_other_text_stays(a, apos + b, amp, "&"@, 2);
    lemma_other_text_stays(a, apos + b, lt, "<"@, 1);
    lemma_other_text_stays(a, apos + b, gt, ">"@, 1);
    lemma_other_text_stays(a, apos + b, quot, "\""@, 1);
    one_text_is_replaced(a, apos, b, "'"@);
    if b.len() > 0 && b[0] == ' ' {
        one_text_is_replaced(a, amp, b, "&"@);
        lemma_other_text_stays(a, "&"@ + b, lt, "<"@, 1);
        lemma_other_text_stays(a, "&"@ + b, gt, ">"@, 1);
        lemma_other_text_stays(a, "&"@ + b, quot, "\""@, 1);
        lemma_other_text_stays(a, "&"@ + b, apos, "'"@, 1);
    }
}

} // verus!
