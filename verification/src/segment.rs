//! Numbered segments of a text, and pieces made of consecutive segments.
//!
//! A segment is a line, or a part of a line that is too long. Segments are numbered from zero
//! through the whole text; the number is what a splitter refers to, so both sides cut alike.
use crate::number::{padded_decimal, write_padded};
use crate::offsets::{
    byte_len, byte_pos, floor_pos, is_boundary, lemma_byte_pos_end, lemma_byte_pos_order,
    lemma_byte_pos_step, lemma_floor_of_pos, Source,
};
use crate::scan::{char_in, has_char};
use crate::text::{extend, extend_str, is_space, space, to_text, trim, trimmed};
use vstd::prelude::*;
use vstd::slice::slice_subrange;

verus! {

/// The greatest number of characters of a segment.
pub const MAX_SEG_CHARS: usize = 500;

/// A segment of a text: its number and its byte range `[offset, offset + len)`.
#[derive(Debug, Clone)]
pub struct Segment {
    pub idx: usize,
    pub offset: usize,
    pub len: usize,
}

// ---------------------------------------------------------------------------------------------
// Where the segments lie
// ---------------------------------------------------------------------------------------------

/// The stretch `[a, b)` without the white space at its two ends.
pub open spec fn trim_span(s: Seq<char>, a: int, b: int) -> (int, int)
    decreases b - a,
{
    if a < b && is_space(s[a]) {
        trim_span(s, a + 1, b)
    } else if a < b && is_space(s[b - 1]) {
        trim_span(s, a, b - 1)
    } else {
        (a, b)
    }
}

/// The end of the line that goes through position `i`.
pub open spec fn line_end(s: Seq<char>, i: int) -> int
    decreases s.len() - i,
{
    if i < 0 || i >= s.len() {
        s.len() as int
    } else if s[i] == '\n' {
        i
    } else {
        line_end(s, i + 1)
    }
}

/// A mark that ends a sentence.
pub open spec fn ends_sentence(c: char) -> bool {
    has_char("。！？；"@, c)
}

/// The last position in `[low, high)` that holds a mark that ends a sentence.
pub open spec fn last_mark(s: Seq<char>, low: int, high: int) -> Option<int>
    decreases high - low,
{
    if low >= high {
        None
    } else if ends_sentence(s[high - 1]) {
        Some(high - 1)
    } else {
        last_mark(s, low, high - 1)
    }
}

/// Where a block that starts at `a` in the stretch `[a, b)` ends: at `b` if that is within reach,
/// else after the last sentence that ends in its second half, else after `max` characters.
pub open spec fn block_end(s: Seq<char>, a: int, b: int, max: int) -> int {
    if b - a <= max {
        b
    } else {
        let half = if max / 2 >= 1 {
            max / 2
        } else {
            1
        };
        match last_mark(s, a + half, a + max) {
            Some(k) => k + 1,
            None => a + max,
        }
    }
}

/// The spans of at most `max` characters that the stretch `[a, b)` is cut into, each without the
/// white space at its ends.
pub open spec fn sentence_spans(s: Seq<char>, a: int, b: int, max: int) -> Seq<(int, int)>
    decreases b - a,
{
    if a >= b {
        Seq::empty()
    } else {
        let e = block_end(s, a, b, max);
        if e <= a || e > b {
            Seq::empty()
        } else {
            kept_span(trim_span(s, a, e)) + sentence_spans(s, e, b, max)
        }
    }
}

/// A span alone, or nothing if the span is empty.
pub open spec fn kept_span(t: (int, int)) -> Seq<(int, int)> {
    if t.0 < t.1 {
        seq![t]
    } else {
        Seq::empty()
    }
}

/// The segments of one line `[a, b)`.
pub open spec fn line_spans(s: Seq<char>, a: int, b: int) -> Seq<(int, int)> {
    let t = trim_span(s, a, b);
    if t.1 - t.0 <= MAX_SEG_CHARS {
        kept_span(t)
    } else {
        sentence_spans(s, t.0, t.1, MAX_SEG_CHARS as int)
    }
}

/// The segments of the lines from position `i` on.
pub open spec fn spans_from(s: Seq<char>, i: int) -> Seq<(int, int)>
    decreases s.len() + 1 - i,
{
    if i < 0 || i > s.len() {
        Seq::empty()
    } else {
        let e = line_end(s, i);
        if e < i || e >= s.len() {
            line_spans(s, i, e)
        } else {
            line_spans(s, i, e) + spans_from(s, e + 1)
        }
    }
}

/// The segments of a text, as stretches of characters.
pub open spec fn segment_spans(s: Seq<char>) -> Seq<(int, int)> {
    spans_from(s, 0)
}

/// Whether `segs` are the stretches `spans` of `body`, numbered from zero, in bytes.
pub open spec fn numbered(segs: Seq<Segment>, body: Seq<char>, spans: Seq<(int, int)>) -> bool {
    &&& segs.len() == spans.len()
    &&& forall|k: int|
        #![trigger segs[k]]
        0 <= k < segs.len() ==> segs[k].idx == k && is_stretch(segs[k], body, spans[k])
}

/// Whether a segment is the stretch `span` of `body`, in bytes.
pub open spec fn is_stretch(seg: Segment, body: Seq<char>, span: (int, int)) -> bool {
    &&& seg.offset == byte_pos(body, span.0)
    &&& seg.offset + seg.len == byte_pos(body, span.1)
}

// ---------------------------------------------------------------------------------------------
// What the segments have in common
// ---------------------------------------------------------------------------------------------

/// Whether `spans` are non-empty stretches within `[a, b)`, one after the other, each of at most
/// `max` characters and without white space at its ends, that leave out nothing but white space.
pub open spec fn spans_cover(s: Seq<char>, spans: Seq<(int, int)>, a: int, b: int, max: int) -> bool {
    &&& forall|k: int|
        #![trigger spans[k]]
        0 <= k < spans.len() ==> {
            &&& a <= spans[k].0 < spans[k].1 <= b
            &&& spans[k].1 - spans[k].0 <= max
            &&& !is_space(s[spans[k].0])
            &&& !is_space(s[spans[k].1 - 1])
        }
    &&& forall|k: int, l: int|
        #![trigger spans[k], spans[l]]
        0 <= k < l < spans.len() ==> spans[k].1 <= spans[l].0
    &&& forall|i: int| a <= i < b && !is_space(s[i]) ==> #[trigger] in_spans(spans, i)
}

/// Whether position `i` lies in one of the spans.
pub open spec fn in_spans(spans: Seq<(int, int)>, i: int) -> bool {
    exists|k: int| 0 <= k < spans.len() && (#[trigger] spans[k]).0 <= i < spans[k].1
}

proof fn lemma_trim_span(s: Seq<char>, a: int, b: int)
    requires
        0 <= a <= b <= s.len(),
    ensures
        ({
            let t = trim_span(s, a, b);
            &&& a <= t.0 <= t.1 <= b
            &&& t.0 < t.1 ==> !is_space(s[t.0]) && !is_space(s[t.1 - 1])
            &&& forall|i: int| a <= i < b && !is_space(#[trigger] s[i]) ==> t.0 <= i < t.1
            &&& s.subrange(t.0, t.1) == trimmed(s.subrange(a, b))
        }),
    decreases b - a,
{
    let w = s.subrange(a, b);
    if a < b && is_space(s[a]) {
        lemma_trim_span(s, a + 1, b);
        assert(w.drop_first() =~= s.subrange(a + 1, b));
        assert(w[0] == s[a]);
    } else if a < b && is_space(s[b - 1]) {
        lemma_trim_span(s, a, b - 1);
        assert(w[0] == s[a]);
        assert(w.last() == s[b - 1]);
        assert(w.drop_last() =~= s.subrange(a, b - 1));
        assert(s.subrange(a, b - 1).len() > 0 ==> s.subrange(a, b - 1)[0] == s[a]);
        assert(crate::text::trimmed_start(w) == w);
        assert(crate::text::trimmed_start(w.drop_last()) == w.drop_last());
    } else if a < b {
        assert(w[0] == s[a]);
        assert(w.last() == s[b - 1]);
    } else {
        assert(w =~= Seq::<char>::empty());
    }
}

proof fn lemma_last_mark(s: Seq<char>, low: int, high: int)
    ensures
        match last_mark(s, low, high) {
            Some(k) => low <= k < high && ends_sentence(s[k]),
            None => forall|k: int| low <= k < high ==> !ends_sentence(#[trigger] s[k]),
        },
    decreases high - low,
{
    if low < high && !ends_sentence(s[high - 1]) {
        lemma_last_mark(s, low, high - 1);
    }
}

proof fn lemma_cover_join(
    s: Seq<char>,
    x: Seq<(int, int)>,
    y: Seq<(int, int)>,
    a: int,
    m: int,
    n: int,
    b: int,
    max: int,
)
    requires
        a <= m <= n <= b,
        spans_cover(s, x, a, m, max),
        spans_cover(s, y, n, b, max),
        forall|i: int| m <= i < n ==> is_space(#[trigger] s[i]),
    ensures
        spans_cover(s, x + y, a, b, max),
{
    let z = x + y;
    assert forall|i: int| a <= i < b && !is_space(s[i]) implies #[trigger] in_spans(z, i) by {
        if i < m {
            assert(in_spans(x, i));
            let k = choose|k: int| 0 <= k < x.len() && (#[trigger] x[k]).0 <= i < x[k].1;
            assert(z[k] == x[k]);
        } else {
            assert(in_spans(y, i));
            let k = choose|k: int| 0 <= k < y.len() && (#[trigger] y[k]).0 <= i < y[k].1;
            assert(z[x.len() + k] == y[k]);
        }
    }
}

proof fn lemma_cover_one(s: Seq<char>, a: int, b: int, max: int)
    requires
        0 <= a <= b <= s.len(),
        b - a <= max,
    ensures
        spans_cover(s, kept_span(trim_span(s, a, b)), a, b, max),
{
    lemma_trim_span(s, a, b);
    let t = trim_span(s, a, b);
    let z = kept_span(t);
    assert forall|i: int| a <= i < b && !is_space(s[i]) implies #[trigger] in_spans(z, i) by {
        assert(z[0] == t);
    }
}

proof fn lemma_sentence_spans(s: Seq<char>, a: int, b: int, max: int)
    requires
        0 <= a <= b <= s.len(),
        max >= 1,
    ensures
        spans_cover(s, sentence_spans(s, a, b, max), a, b, max),
    decreases b - a,
{
    if a < b {
        let e = block_end(s, a, b, max);
        let half = if max / 2 >= 1 {
            max / 2
        } else {
            1
        };
        lemma_last_mark(s, a + half, a + max);
        assert(a < e <= b && e - a <= max);
        lemma_cover_one(s, a, e, max);
        lemma_sentence_spans(s, e, b, max);
        lemma_cover_join(
            s,
            kept_span(trim_span(s, a, e)),
            sentence_spans(s, e, b, max),
            a,
            e,
            e,
            b,
            max,
        );
    }
}

proof fn lemma_line_spans(s: Seq<char>, a: int, b: int)
    requires
        0 <= a <= b <= s.len(),
    ensures
        spans_cover(s, line_spans(s, a, b), a, b, MAX_SEG_CHARS as int),
{
    lemma_trim_span(s, a, b);
    let t = trim_span(s, a, b);
    if t.1 - t.0 <= MAX_SEG_CHARS {
        let z = kept_span(t);
        assert forall|i: int| a <= i < b && !is_space(s[i]) implies #[trigger] in_spans(z, i) by {
            assert(z[0] == t);
        }
    } else {
        lemma_sentence_spans(s, t.0, t.1, MAX_SEG_CHARS as int);
    }
}

proof fn lemma_line_end(s: Seq<char>, i: int)
    requires
        0 <= i <= s.len(),
    ensures
        i <= line_end(s, i) <= s.len(),
        line_end(s, i) < s.len() ==> s[line_end(s, i)] == '\n',
        forall|j: int| i <= j < line_end(s, i) ==> #[trigger] s[j] != '\n',
    decreases s.len() - i,
{
    if i < s.len() && s[i] != '\n' {
        lemma_line_end(s, i + 1);
    }
}

proof fn lemma_spans_from(s: Seq<char>, i: int)
    requires
        0 <= i <= s.len(),
    ensures
        spans_cover(s, spans_from(s, i), i, s.len() as int, MAX_SEG_CHARS as int),
        forall|k: int, j: int|
            #![trigger spans_from(s, i)[k], s[j]]
            0 <= k < spans_from(s, i).len() && spans_from(s, i)[k].0 <= j < spans_from(s, i)[k].1
                ==> s[j] != '\n',
    decreases s.len() + 1 - i,
{
    let e = line_end(s, i);
    lemma_line_end(s, i);
    lemma_line_spans(s, i, e);
    let here = line_spans(s, i, e);
    if e < s.len() {
        lemma_spans_from(s, e + 1);
        let rest = spans_from(s, e + 1);
        assert(is_space('\n'));
        lemma_cover_join(s, here, rest, i, e, e + 1, s.len() as int, MAX_SEG_CHARS as int);
        assert forall|k: int, j: int|
            #![trigger spans_from(s, i)[k], s[j]]
            0 <= k < spans_from(s, i).len() && spans_from(s, i)[k].0 <= j < spans_from(
                s,
                i,
            )[k].1 implies s[j] != '\n' by {
            if k < here.len() {
                assert(spans_from(s, i)[k] == here[k]);
            } else {
                assert(spans_from(s, i)[k] == rest[k - here.len()]);
            }
        }
    }
}

/// The segments of a text are non-empty, come one after the other without overlap, have at most
/// 500 characters each, begin and end with something other than white space, lie within one
/// line, and leave out nothing but white space.
pub proof fn segments_cover_the_text(s: Seq<char>)
    ensures
        spans_cover(s, segment_spans(s), 0, s.len() as int, 500),
        forall|k: int, j: int|
            #![trigger segment_spans(s)[k], s[j]]
            0 <= k < segment_spans(s).len() && segment_spans(s)[k].0 <= j < segment_spans(s)[k].1
                ==> s[j] != '\n',
{
    lemma_spans_from(s, 0);
}

// ---------------------------------------------------------------------------------------------
// Finding the segments
// ---------------------------------------------------------------------------------------------

/// The positions of spans as mathematical integers.
pub open spec fn span_views(v: Seq<(usize, usize)>) -> Seq<(int, int)> {
    Seq::new(v.len(), |i: int| (v[i].0 as int, v[i].1 as int))
}

fn narrow(v: &[char], from: usize, to: usize) -> (r: (usize, usize))
    requires
        from <= to <= v@.len(),
    ensures
        (r.0 as int, r.1 as int) == trim_span(v@, from as int, to as int),
        from <= r.0 <= r.1 <= to,
{
    let mut a: usize = from;
    while a < to && space(v[a])
        invariant
            from <= a <= to <= v@.len(),
            trim_span(v@, from as int, to as int) == trim_span(v@, a as int, to as int),
        decreases to - a,
    {
        a += 1;
    }
    let mut b: usize = to;
    while b > a && space(v[b - 1])
        invariant
            from <= a <= b <= to <= v@.len(),
            a < b ==> !is_space(v@[a as int]),
            trim_span(v@, from as int, to as int) == trim_span(v@, a as int, b as int),
        decreases b,
    {
        b -= 1;
    }
    (a, b)
}

fn find_block_end(v: &[char], a: usize, b: usize, max: usize) -> (e: usize)
    requires
        a < b <= v@.len(),
        max >= 1,
    ensures
        e == block_end(v@, a as int, b as int, max as int),
        a < e <= b,
{
    if b - a <= max {
        return b;
    }
    let half: usize = if max / 2 >= 1 {
        max / 2
    } else {
        1
    };
    let mut k: usize = a + max;
    while k > a + half
        invariant
            a + max <= b <= v@.len(),
            max >= 1,
            b - a > max,
            half == (if max / 2 >= 1 {
                max / 2
            } else {
                1
            }),
            a + half <= k <= a + max,
            last_mark(v@, a + half, a + max) == last_mark(v@, a + half, k as int),
        decreases k,
    {
        if char_in("。！？；", v[k - 1]) {
            return k;
        }
        k -= 1;
    }
    a + max
}

fn push_kept(out: &mut Vec<(usize, usize)>, t: (usize, usize))
    ensures
        span_views(final(out)@) == span_views(old(out)@) + kept_span((t.0 as int, t.1 as int)),
{
    if t.0 < t.1 {
        out.push(t);
    }
    assert(span_views(out@) =~= span_views(old(out)@) + kept_span((t.0 as int, t.1 as int)));
}

fn push_sentences(v: &[char], from: usize, to: usize, max: usize, out: &mut Vec<(usize, usize)>)
    requires
        from <= to <= v@.len(),
        max >= 1,
    ensures
        span_views(final(out)@) == span_views(old(out)@) + sentence_spans(
            v@,
            from as int,
            to as int,
            max as int,
        ),
{
    let ghost start = span_views(out@);
    let ghost all = start + sentence_spans(v@, from as int, to as int, max as int);
    let mut a: usize = from;
    while a < to
        invariant
            from <= a <= to <= v@.len(),
            max >= 1,
            span_views(out@) + sentence_spans(v@, a as int, to as int, max as int) == all,
        decreases to - a,
    {
        let e = find_block_end(v, a, to, max);
        let t = narrow(v, a, e);
        let ghost before = span_views(out@);
        let ghost tail = sentence_spans(v@, e as int, to as int, max as int);
        push_kept(out, t);
        assert(before + (kept_span(trim_span(v@, a as int, e as int)) + tail) =~= before
            + kept_span(trim_span(v@, a as int, e as int)) + tail);
        a = e;
    }
    assert(span_views(out@) + Seq::<(int, int)>::empty() =~= span_views(out@));
}

fn push_line(v: &[char], a: usize, b: usize, out: &mut Vec<(usize, usize)>)
    requires
        a <= b <= v@.len(),
    ensures
        span_views(final(out)@) == span_views(old(out)@) + line_spans(v@, a as int, b as int),
{
    let t = narrow(v, a, b);
    if t.1 - t.0 <= MAX_SEG_CHARS {
        push_kept(out, t);
    } else {
        push_sentences(v, t.0, t.1, MAX_SEG_CHARS, out);
    }
}

/// Finds the stretches of the segments of a text.
pub fn find_spans(v: &[char]) -> (r: Vec<(usize, usize)>)
    ensures
        span_views(r@) == segment_spans(v@),
{
    let mut out: Vec<(usize, usize)> = Vec::new();
    let mut i: usize = 0;
    let n = v.len();
    assert(span_views(out@) + segment_spans(v@) =~= segment_spans(v@));
    loop
        invariant_except_break
            n == v@.len(),
            i <= n,
            span_views(out@) + spans_from(v@, i as int) == segment_spans(v@),
        ensures
            span_views(out@) == segment_spans(v@),
        decreases n - i,
    {
        let mut e: usize = i;
        while e < n && v[e] != '\n'
            invariant
                i <= e <= n,
                n == v@.len(),
                line_end(v@, i as int) == line_end(v@, e as int),
            decreases n - e,
        {
            e += 1;
        }
        let ghost before = span_views(out@);
        push_line(v, i, e, &mut out);
        if e >= n {
            break;
        }
        assert(before + (line_spans(v@, i as int, e as int) + spans_from(v@, e + 1)) =~= before
            + line_spans(v@, i as int, e as int) + spans_from(v@, e + 1));
        i = e + 1;
    }
    out
}

/// Cuts a text into numbered segments: one per line that is not blank, and several for a line of
/// more than 500 characters, which is cut after sentences where that is possible.
pub fn segment_text(body: &str) -> (r: Vec<Segment>)
    ensures
        numbered(r@, body@, segment_spans(body@)),
{
    let src = Source::new(body);
    let spans = find_spans(src.chars.as_slice());
    proof {
        segments_cover_the_text(body@);
    }
    let ghost all = segment_spans(body@);
    let mut out: Vec<Segment> = Vec::new();
    let mut k: usize = 0;
    while k < spans.len()
        invariant
            k <= spans@.len(),
            out@.len() == k,
            src.wf(),
            src@ == body@,
            all == segment_spans(body@),
            span_views(spans@) == all,
            spans_cover(body@, all, 0, body@.len() as int, 500),
            forall|j: int|
                #![trigger out@[j]]
                0 <= j < k ==> out@[j].idx == j && is_stretch(out@[j], body@, all[j]),
        decreases spans@.len() - k,
    {
        let (a, b) = spans[k];
        assert(span_views(spans@)[k as int] == (a as int, b as int));
        assert(all[k as int].1 <= body@.len());
        let seg = to_segment(&src, k, a, b);
        out.push(seg);
        k += 1;
    }
    out
}

fn to_segment(src: &Source, idx: usize, a: usize, b: usize) -> (r: Segment)
    requires
        src.wf(),
        a <= b <= src@.len(),
    ensures
        r.idx == idx,
        is_stretch(r, src@, (a as int, b as int)),
{
    proof {
        lemma_byte_pos_step(src@, a as int, b as int);
    }
    Segment { idx, offset: src.offs[a], len: src.offs[b] - src.offs[a] }
}

impl Segment {
    /// Whether the segment starts and ends between characters of `body`.
    pub open spec fn fits(&self, body: Seq<char>) -> bool {
        is_boundary(body, self.offset as int) && is_boundary(body, self.offset + self.len)
    }

    /// The characters of the segment in `body`.
    pub open spec fn text_in(&self, body: Seq<char>) -> Seq<char> {
        body.subrange(
            floor_pos(body, self.offset as int),
            floor_pos(body, self.offset + self.len),
        )
    }

    /// The text of the segment.
    pub fn text<'a>(&self, body: &'a str) -> (r: &'a str)
        requires
            self.fits(body@),
        ensures
            r@ == self.text_in(body@),
    {
        let src = Source::new(body);
        let (a, b) = self.span(&src);
        body.substring_char(a, b)
    }

    fn span(&self, src: &Source) -> (r: (usize, usize))
        requires
            src.wf(),
            self.fits(src@),
            byte_len(src@) <= usize::MAX,
        ensures
            r.0 == floor_pos(src@, self.offset as int),
            r.1 == floor_pos(src@, self.offset + self.len),
            r.0 <= r.1 <= src@.len(),
    {
        proof {
            let i = choose|i: int|
                0 <= i <= src@.len() && #[trigger] byte_pos(src@, i) == self.offset;
            let j = choose|j: int|
                0 <= j <= src@.len() && #[trigger] byte_pos(src@, j) == self.offset + self.len;
            lemma_floor_of_pos(src@, i);
            lemma_floor_of_pos(src@, j);
            lemma_byte_pos_order(src@, j, i);
            lemma_byte_pos_step(src@, j, src@.len() as int);
            lemma_byte_pos_end(src@);
        }
        (src.floor(self.offset), src.floor(self.offset + self.len))
    }
}

/// Every segment of a text starts and ends between its characters, and its text is the stretch
/// that it was made of.
pub proof fn segments_fit(segs: Seq<Segment>, body: Seq<char>, k: int)
    requires
        numbered(segs, body, segment_spans(body)),
        0 <= k < segs.len(),
    ensures
        segs[k].fits(body),
        segs[k].text_in(body) == body.subrange(segment_spans(body)[k].0, segment_spans(body)[k].1),
{
    segments_cover_the_text(body);
    let span = segment_spans(body)[k];
    lemma_floor_of_pos(body, span.0);
    lemma_floor_of_pos(body, span.1);
    assert(byte_pos(body, span.0) == segs[k].offset);
    assert(byte_pos(body, span.1) == segs[k].offset + segs[k].len);
}

// ---------------------------------------------------------------------------------------------
// Pieces
// ---------------------------------------------------------------------------------------------

/// Consecutive segments, written one per line with the number in front.
#[derive(Debug, Clone)]
pub struct Piece {
    pub first_seg: usize,
    pub last_seg: usize,
    pub text: String,
}

/// What a segment of `chars` characters counts in a piece.
pub open spec fn cost(chars: int) -> int {
    chars + 8
}

/// Where a piece that starts at segment `start` ends, when it holds the segments up to `end`
/// already and they count `used`.
pub open spec fn fill(lens: Seq<int>, start: int, end: int, used: int, max: int) -> int
    decreases lens.len() - end,
{
    if end < 0 || end >= lens.len() {
        end
    } else if end > start && used + cost(lens[end]) > max {
        end
    } else {
        fill(lens, start, end + 1, used + cost(lens[end]), max)
    }
}

/// The segment at which the piece after `[start, end)` begins.
pub open spec fn next_start(start: int, end: int, overlap: nat) -> int {
    if end - overlap > start {
        end - overlap
    } else {
        start + 1
    }
}

/// The pieces from segment `start` on, each as the range of its segments.
pub open spec fn piece_ranges(lens: Seq<int>, start: int, max: int, overlap: nat) -> Seq<(int, int)>
    decreases lens.len() - start,
{
    if start < 0 || start >= lens.len() {
        Seq::empty()
    } else {
        let end = fill(lens, start, start, 0, max);
        if end >= lens.len() {
            seq![(start, end)]
        } else {
            seq![(start, end)] + piece_ranges(
                lens,
                next_start(start, end, overlap),
                max,
                overlap,
            )
        }
    }
}

/// A segment as a numbered line.
pub open spec fn segment_line(seg: Segment, body: Seq<char>) -> Seq<char> {
    "["@ + padded_decimal(seg.idx as nat, 3) + "] "@ + trimmed(seg.text_in(body)) + "\n"@
}

/// The segments `[a, b)` as numbered lines.
pub open spec fn segment_lines(segs: Seq<Segment>, body: Seq<char>, a: int, b: int) -> Seq<char>
    decreases b - a,
{
    if a >= b {
        Seq::empty()
    } else {
        segment_lines(segs, body, a, b - 1) + segment_line(segs[b - 1], body)
    }
}

/// How many characters each segment has.
pub open spec fn segment_lens(segs: Seq<Segment>, body: Seq<char>) -> Seq<int> {
    Seq::new(segs.len(), |k: int| segs[k].text_in(body).len() as int)
}

/// The overlap that is possible among `n` segments.
pub open spec fn possible_overlap(overlap: nat, n: nat) -> nat {
    if n > 0 && overlap < n - 1 {
        overlap
    } else if n > 0 {
        (n - 1) as nat
    } else {
        0
    }
}

/// Whether a piece holds the segments of a range.
pub open spec fn is_piece(p: Piece, segs: Seq<Segment>, body: Seq<char>, range: (int, int)) -> bool {
    &&& p.first_seg == range.0
    &&& p.last_seg == range.1 - 1
    &&& p.text@ == segment_lines(segs, body, range.0, range.1)
}

proof fn lemma_fill(lens: Seq<int>, start: int, end: int, used: int, max: int)
    requires
        0 <= start <= end <= lens.len(),
    ensures
        end <= fill(lens, start, end, used, max) <= lens.len(),
        start == end && end < lens.len() ==> fill(lens, start, end, used, max) > start,
    decreases lens.len() - end,
{
    if end < lens.len() && !(end > start && used + cost(lens[end]) > max) {
        lemma_fill(lens, start, end + 1, used + cost(lens[end]), max);
    }
}

/// The pieces hold every segment: the first piece begins with the first segment, the last one
/// ends with the last segment, and each piece begins after the one before it has begun and no
/// later than where that one ended. Where the piece before it holds more segments than the
/// overlap, the two share exactly `overlap` segments.
pub proof fn pieces_hold_every_segment(lens: Seq<int>, start: int, max: int, overlap: nat)
    requires
        0 <= start < lens.len(),
    ensures
        ({
            let r = piece_ranges(lens, start, max, overlap);
            &&& r.len() > 0
            &&& r[0].0 == start
            &&& r[r.len() - 1].1 == lens.len()
            &&& forall|k: int|
                #![trigger r[k]]
                0 <= k < r.len() ==> start <= r[k].0 < r[k].1 <= lens.len()
            &&& forall|k: int, l: int|
                #![trigger r[k], r[l]]
                0 <= k && l == k + 1 && l < r.len() ==> r[k].0 < r[l].0 <= r[k].1 && (r[k].1
                    - r[k].0 > overlap ==> r[l].0 == r[k].1 - overlap)
        }),
    decreases lens.len() - start,
{
    let end = fill(lens, start, start, 0, max);
    lemma_fill(lens, start, start, 0, max);
    let r = piece_ranges(lens, start, max, overlap);
    if end < lens.len() {
        let n = next_start(start, end, overlap);
        pieces_hold_every_segment(lens, n, max, overlap);
        let rest = piece_ranges(lens, n, max, overlap);
        assert(r =~= seq![(start, end)] + rest);
        assert forall|k: int| #![trigger r[k]] 0 <= k < r.len() implies start <= r[k].0 < r[k].1
            <= lens.len() by {
            if k > 0 {
                assert(r[k] == rest[k - 1]);
            }
        }
        assert forall|k: int, l: int|
            #![trigger r[k], r[l]]
            0 <= k && l == k + 1 && l < r.len() implies r[k].0 < r[l].0 <= r[k].1 && (r[k].1
            - r[k].0 > overlap ==> r[l].0 == r[k].1 - overlap) by {
            assert(r[l] == rest[l - 1]);
            if k > 0 {
                assert(r[k] == rest[k - 1]);
            }
        }
    }
}

fn push_segment_line(out: &mut Vec<char>, seg: &Segment, text: &[char], Ghost(body): Ghost<Seq<char>>)
    requires
        text@ == seg.text_in(body),
    ensures
        final(out)@ == old(out)@ + segment_line(*seg, body),
{
    extend_str(out, "[");
    let num = write_padded(seg.idx as u64, 3);
    extend(out, num.as_slice());
    extend_str(out, "] ");
    extend(out, trim(text));
    extend_str(out, "\n");
    assert(out@ =~= old(out)@ + segment_line(*seg, body));
}

/// Packs segments into pieces of at most `max_chars` characters, a piece always holding at least
/// one segment. Neighbouring pieces share `overlap` segments, so that what lies across the border
/// of two pieces is seen whole in one of them.
pub fn pack_pieces(body: &str, segs: &[Segment], max_chars: usize, overlap: usize) -> (r: Vec<Piece>)
    requires
        forall|k: int| 0 <= k < segs@.len() ==> (#[trigger] segs@[k]).fits(body@),
    ensures
        ({
            let ranges = piece_ranges(
                segment_lens(segs@, body@),
                0,
                max_chars as int,
                possible_overlap(overlap as nat, segs@.len()),
            );
            &&& r@.len() == ranges.len()
            &&& forall|k: int|
                0 <= k < r@.len() ==> is_piece(#[trigger] r@[k], segs@, body@, ranges[k])
        }),
{
    let mut out: Vec<Piece> = Vec::new();
    if segs.len() == 0 {
        return out;
    }
    let src = Source::new(body);
    let share: usize = if overlap < segs.len() - 1 {
        overlap
    } else {
        segs.len() - 1
    };
    let ghost lens = segment_lens(segs@, body@);
    let ghost all = piece_ranges(lens, 0, max_chars as int, share as nat);
    let mut start: usize = 0;
    assert(all.skip(0) =~= all);
    loop
        invariant_except_break
            start < segs@.len(),
            src.wf(),
            src@ == body@,
            byte_len(body@) <= usize::MAX,
            forall|k: int| 0 <= k < segs@.len() ==> (#[trigger] segs@[k]).fits(body@),
            lens == segment_lens(segs@, body@),
            out@.len() <= all.len(),
            all.skip(out@.len() as int) == piece_ranges(
                lens,
                start as int,
                max_chars as int,
                share as nat,
            ),
            forall|k: int|
                0 <= k < out@.len() ==> is_piece(#[trigger] out@[k], segs@, body@, all[k]),
        ensures
            out@.len() == all.len(),
            forall|k: int|
                0 <= k < out@.len() ==> is_piece(#[trigger] out@[k], segs@, body@, all[k]),
        decreases segs@.len() - start,
    {
        let mut used: u128 = 0;
        let mut end: usize = start;
        let mut text: Vec<char> = Vec::new();
        let mut full = false;
        while end < segs.len() && !full
            invariant
                start <= end <= segs@.len(),
                src.wf(),
                src@ == body@,
                byte_len(body@) <= usize::MAX,
                forall|k: int| 0 <= k < segs@.len() ==> (#[trigger] segs@[k]).fits(body@),
                lens == segment_lens(segs@, body@),
                used <= usize::MAX + 8 || used <= max_chars,
                end == start ==> used == 0,
                text@ == segment_lines(segs@, body@, start as int, end as int),
                full ==> fill(lens, start as int, start as int, 0, max_chars as int) == end,
                !full ==> fill(lens, start as int, start as int, 0, max_chars as int) == fill(
                    lens,
                    start as int,
                    end as int,
                    used as int,
                    max_chars as int,
                ),
            decreases segs@.len() - end + (if full { 0int } else { 1int }),
        {
            let (a, b) = segs[end].span(&src);
            let part = slice_subrange(src.chars.as_slice(), a, b);
            assert(lens[end as int] == part@.len());
            let need: u128 = part.len() as u128 + 8;
            if end > start && used + need > max_chars as u128 {
                full = true;
            } else {
                used = used + need;
                push_segment_line(&mut text, &segs[end], part, Ghost(body@));
                end += 1;
            }
        }
        proof {
            lemma_fill(lens, start as int, start as int, 0, max_chars as int);
        }
        let ghost rest = all.skip(out@.len() as int);
        assert(rest.len() == all.len() - out@.len());
        assert(rest.len() > 0 && rest[0] == (start as int, end as int));
        assert(rest[0] == all[out@.len() as int]);
        out.push(Piece { first_seg: start, last_seg: end - 1, text: to_text(text.as_slice()) });
        if end >= segs.len() {
            assert(rest.len() == 1);
            break;
        }
        proof {
            let tail = piece_ranges(
                lens,
                next_start(start as int, end as int, share as nat),
                max_chars as int,
                share as nat,
            );
            assert(rest =~= seq![(start as int, end as int)] + tail);
            assert(all.skip(out@.len() as int) =~= rest.skip(1));
            assert(rest.skip(1) =~= tail);
        }
        start = if end > share && end - share > start {
            end - share
        } else {
            start + 1
        };
    }
    out
}

} // verus!
