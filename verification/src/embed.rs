//! What an encoder of texts is given, and what is made of its answers.
use crate::ingest::kept_names;
use crate::scan::{char_in, has_char};
use crate::text::{extend, texts, to_chars, to_text, trim, trimmed};
use vstd::prelude::*;
use vstd::slice::slice_subrange;

verus! {

/// The name of the model.
pub const MODEL_ID: &'static str = "bge-small-zh-v1.5";

/// The length of a vector.
pub const EMBED_DIM: usize = 512;

/// The greatest number of tokens that are encoded.
pub const MAX_TOKENS: usize = 512;

/// How the model is quantised.
pub const META_QUANT: &'static str = "int8";

/// What stands before a query.
pub const QUERY_PREFIX: &'static str = "为这个句子生成表示以用于检索相关文章：";

/// The greatest number of characters of a sub-block.
pub const SUBBLOCK_CHARS: usize = 400;

/// How many characters neighbouring sub-blocks share.
pub const SUBBLOCK_OVERLAP: usize = 50;

// ---------------------------------------------------------------------------------------------
// Sub-blocks
// ---------------------------------------------------------------------------------------------

/// A character after which a sub-block may end.
pub open spec fn is_break(c: char) -> bool {
    has_char("。！？；\n"@, c)
}

/// The last position in `[low, high)` after which a sub-block may end.
pub open spec fn last_break(s: Seq<char>, low: int, high: int) -> Option<int>
    decreases high - low,
{
    if low >= high {
        None
    } else if is_break(s[high - 1]) {
        Some(high - 1)
    } else {
        last_break(s, low, high - 1)
    }
}

/// Where the window that starts at `start` ends: at the end of the text if that is within 400
/// characters, else after the last break in its second half, else after 400 characters.
pub open spec fn window_end(s: Seq<char>, start: int) -> int {
    if s.len() - start <= SUBBLOCK_CHARS {
        s.len() as int
    } else {
        match last_break(s, start + 200, start + SUBBLOCK_CHARS) {
            Some(k) => k + 1,
            None => start + SUBBLOCK_CHARS,
        }
    }
}

/// The windows from `start` on. Each begins 50 characters before the end of the one before it.
pub open spec fn windows(s: Seq<char>, start: int) -> Seq<(int, int)>
    decreases s.len() - start,
{
    let end = window_end(s, start);
    if start >= s.len() {
        Seq::empty()
    } else if end >= s.len() || end - SUBBLOCK_OVERLAP <= start {
        seq![(start, end)]
    } else {
        seq![(start, end)] + windows(s, end - SUBBLOCK_OVERLAP)
    }
}

/// The texts of windows.
pub open spec fn window_texts(s: Seq<char>, ws: Seq<(int, int)>) -> Seq<Seq<char>> {
    Seq::new(ws.len(), |k: int| s.subrange(ws[k].0, ws[k].1))
}

/// The sub-blocks of a text: its windows without surrounding white space, blank ones left out.
pub open spec fn subblocks(s: Seq<char>) -> Seq<Seq<char>> {
    kept_names(window_texts(s, windows(s, 0)))
}

proof fn lemma_last_break(s: Seq<char>, low: int, high: int)
    ensures
        match last_break(s, low, high) {
            Some(k) => low <= k < high,
            None => true,
        },
    decreases high - low,
{
    if low < high && !is_break(s[high - 1]) {
        lemma_last_break(s, low, high - 1);
    }
}

proof fn lemma_window_end(s: Seq<char>, start: int)
    requires
        0 <= start < s.len(),
    ensures
        start < window_end(s, start) <= s.len(),
        window_end(s, start) - start <= SUBBLOCK_CHARS,
        window_end(s, start) < s.len() ==> window_end(s, start) > start + 200,
{
    lemma_last_break(s, start + 200, start + SUBBLOCK_CHARS);
}

/// The windows cover the text from `start` to its end, have at most 400 characters, and each
/// shares exactly 50 characters with the one before it.
pub proof fn windows_cover_the_text(s: Seq<char>, start: int)
    requires
        0 <= start < s.len(),
    ensures
        ({
            let ws = windows(s, start);
            &&& ws.len() > 0
            &&& ws[0].0 == start
            &&& ws[ws.len() - 1].1 == s.len()
            &&& forall|k: int|
                #![trigger ws[k]]
                0 <= k < ws.len() ==> start <= ws[k].0 < ws[k].1 <= s.len() && ws[k].1 - ws[k].0
                    <= 400
            &&& forall|k: int, l: int|
                #![trigger ws[k], ws[l]]
                0 <= k && l == k + 1 && l < ws.len() ==> ws[l].0 == ws[k].1 - 50
        }),
    decreases s.len() - start,
{
    let end = window_end(s, start);
    lemma_window_end(s, start);
    let ws = windows(s, start);
    if end < s.len() {
        let next = end - SUBBLOCK_OVERLAP;
        windows_cover_the_text(s, next);
        let rest = windows(s, next);
        assert(ws =~= seq![(start, end)] + rest);
        assert forall|k: int| #![trigger ws[k]] 0 <= k < ws.len() implies start <= ws[k].0
            < ws[k].1 <= s.len() && ws[k].1 - ws[k].0 <= 400 by {
            if k > 0 {
                assert(ws[k] == rest[k - 1]);
            }
        }
        assert forall|k: int, l: int|
            #![trigger ws[k], ws[l]]
            0 <= k && l == k + 1 && l < ws.len() implies ws[l].0 == ws[k].1 - 50 by {
            assert(ws[l] == rest[l - 1]);
            if k > 0 {
                assert(ws[k] == rest[k - 1]);
            }
        }
    }
}

proof fn lemma_kept_short(v: Seq<Seq<char>>, max: int)
    requires
        forall|k: int| 0 <= k < v.len() ==> (#[trigger] v[k]).len() <= max,
    ensures
        forall|k: int|
            0 <= k < kept_names(v).len() ==> 0 < (#[trigger] kept_names(v)[k]).len() <= max,
    decreases v.len(),
{
    if v.len() > 0 {
        assert(v.last() == v[v.len() - 1]);
        lemma_kept_short(v.drop_last(), max);
        let r = crate::text::lemma_trimmed_shape(v.last());
        let before = kept_names(v.drop_last());
        let now = kept_names(v);
        assert forall|k: int| 0 <= k < now.len() implies 0 < (#[trigger] now[k]).len() <= max by {
            if k < before.len() {
                assert(now[k] == before[k]);
            }
        }
    }
}

/// Sub-blocks are never empty and have at most 400 characters.
pub proof fn subblocks_are_short(s: Seq<char>, k: int)
    requires
        0 <= k < subblocks(s).len(),
    ensures
        0 < subblocks(s)[k].len() <= 400,
{
    let ws = windows(s, 0);
    let v = window_texts(s, ws);
    if s.len() > 0 {
        windows_cover_the_text(s, 0);
        assert forall|j: int| 0 <= j < v.len() implies (#[trigger] v[j]).len() <= 400 by {
            assert(ws[j].1 - ws[j].0 <= 400);
        }
        lemma_kept_short(v, 400);
    } else {
        lemma_kept_short(v, 400);
    }
}

fn find_window_end(v: &[char], start: usize) -> (end: usize)
    requires
        start < v@.len(),
    ensures
        end == window_end(v@, start as int),
{
    if v.len() - start <= SUBBLOCK_CHARS {
        return v.len();
    }
    let mut k: usize = start + SUBBLOCK_CHARS;
    while k > start + 200
        invariant
            start + 200 <= k <= start + SUBBLOCK_CHARS < v@.len(),
            last_break(v@, start + 200, start + SUBBLOCK_CHARS) == last_break(
                v@,
                start + 200,
                k as int,
            ),
        decreases k,
    {
        if char_in("。！？；\n", v[k - 1]) {
            return k;
        }
        k -= 1;
    }
    start + SUBBLOCK_CHARS
}

/// Cuts a body into sub-blocks for encoding.
pub fn split_subblocks(body: &str) -> (r: Vec<String>)
    ensures
        texts(r@) == subblocks(body@),
{
    let chars = to_chars(body);
    let v = chars.as_slice();
    let ghost all = windows(body@, 0);
    let ghost parts = window_texts(body@, all);
    let mut out: Vec<String> = Vec::new();
    assert(texts(out@) =~= Seq::<Seq<char>>::empty());
    if v.len() == 0 {
        assert(parts =~= Seq::<Seq<char>>::empty());
        return out;
    }
    let mut start: usize = 0;
    let ghost mut n: int = 0;
    proof {
        windows_cover_the_text(body@, 0);
        assert(all.skip(0) =~= all);
    }
    loop
        invariant_except_break
            v@ == body@,
            start < v@.len(),
            0 <= n < all.len(),
            all == windows(body@, 0),
            parts == window_texts(body@, all),
            all.skip(n) == windows(body@, start as int),
            texts(out@) == kept_names(parts.take(n)),
        ensures
            texts(out@) == kept_names(parts),
        decreases v@.len() - start,
    {
        let end = find_window_end(v, start);
        proof {
            lemma_window_end(body@, start as int);
            let rest = all.skip(n);
            assert(rest.len() == all.len() - n);
            assert(rest[0] == (start as int, end as int));
            assert(all[n] == rest[0]);
            assert(parts.take(n + 1).drop_last() =~= parts.take(n));
            assert(parts.take(n + 1).last() == parts[n]);
        }
        let seg = trim(slice_subrange(v, start, end));
        if seg.len() > 0 {
            let ghost before = texts(out@);
            out.push(to_text(seg));
            assert(texts(out@) =~= before.push(seg@));
        }
        if end >= v.len() {
            proof {
                assert(all.skip(n).len() == 1);
                assert(parts.take(n + 1) =~= parts);
            }
            break;
        }
        proof {
            let rest = all.skip(n);
            let tail = windows(body@, end - SUBBLOCK_OVERLAP);
            assert(rest =~= seq![(start as int, end as int)] + tail);
            assert(all.skip(n + 1) =~= rest.skip(1));
            assert(rest.skip(1) =~= tail);
            windows_cover_the_text(body@, end - SUBBLOCK_OVERLAP);
            assert(all.skip(n + 1).len() > 0);
            n = n + 1;
        }
        start = end - SUBBLOCK_OVERLAP;
    }
    out
}

// ---------------------------------------------------------------------------------------------
// Input and output of the encoder
// ---------------------------------------------------------------------------------------------

/// Why nothing was encoded.
#[derive(Debug)]
pub struct EmbedError {
    pub message: String,
}

/// The text that is encoded for a document. A blank text is not encoded.
pub fn doc_input(text: &str) -> (r: Result<String, EmbedError>)
    ensures
        match r {
            Ok(s) => trimmed(text@).len() > 0 && s@ == trimmed(text@),
            Err(e) => trimmed(text@).len() == 0 && e.message@ == "空文本不编码"@,
        },
{
    let v = to_chars(text);
    let t = trim(v.as_slice());
    if t.len() == 0 {
        Err(EmbedError { message: "空文本不编码".to_string() })
    } else {
        Ok(to_text(t))
    }
}

/// The text that is encoded for a query: the query behind the prefix. A blank query is not
/// encoded.
pub fn query_input(text: &str) -> (r: Result<String, EmbedError>)
    ensures
        match r {
            Ok(s) => trimmed(text@).len() > 0 && s@ == QUERY_PREFIX@ + trimmed(text@),
            Err(e) => trimmed(text@).len() == 0 && e.message@ == "空查询不编码"@,
        },
{
    let v = to_chars(text);
    let t = trim(v.as_slice());
    if t.len() == 0 {
        Err(EmbedError { message: "空查询不编码".to_string() })
    } else {
        let mut all = to_chars(QUERY_PREFIX);
        extend(&mut all, t);
        Ok(to_text(all.as_slice()))
    }
}

/// What the length of the encoder's output says.
#[derive(Debug, Clone, Copy, PartialEq, Eq, Structural)]
pub enum OutputShape {
    /// A vector of the right length for each token.
    Good,
    /// There are no tokens.
    NoTokens,
    /// The output is not made of one vector for each token.
    Uneven,
    /// The vectors have another length.
    WrongDim(usize),
}

/// Checks the number of tokens and the number of values in the encoder's output.
pub fn output_shape(tokens: usize, values: usize) -> (r: OutputShape)
    ensures
        tokens == 0 <==> r == OutputShape::NoTokens,
        tokens > 0 && values % tokens != 0 <==> r == OutputShape::Uneven,
        tokens > 0 && values % tokens == 0 ==> if values / tokens == EMBED_DIM {
            r == OutputShape::Good
        } else {
            r == OutputShape::WrongDim((values / tokens) as usize)
        },
{
    if tokens == 0 {
        OutputShape::NoTokens
    } else if values % tokens != 0 {
        OutputShape::Uneven
    } else if values / tokens != EMBED_DIM {
        OutputShape::WrongDim(values / tokens)
    } else {
        OutputShape::Good
    }
}

// ---------------------------------------------------------------------------------------------
// Where the model is looked for
// ---------------------------------------------------------------------------------------------

/// How many of the directories above the program are looked at, itself first: the one it lies in;
/// and the three above that if one of them is named `target`, which is where a development build
/// lies.
pub open spec fn roots_above(is_target: Seq<bool>) -> int {
    if is_target.len() == 0 {
        0
    } else if is_target.contains(true) {
        if is_target.len() <= 4 {
            is_target.len() as int
        } else {
            4
        }
    } else {
        1
    }
}

/// Tells how many of the directories above the program are looked at. `is_target` says of each of
/// them, the nearest first, whether it is named `target`.
pub fn root_count(is_target: &Vec<bool>) -> (r: usize)
    ensures
        r == roots_above(is_target@),
        r <= is_target@.len(),
{
    let mut any = false;
    let mut i: usize = 0;
    while i < is_target.len()
        invariant
            i <= is_target@.len(),
            any <==> exists|j: int| 0 <= j < i && #[trigger] is_target@[j],
        decreases is_target@.len() - i,
    {
        if is_target[i] {
            any = true;
        }
        i += 1;
    }
    proof {
        if any {
            let j = choose|j: int| 0 <= j < i && #[trigger] is_target@[j];
            assert(is_target@[j] == true);
            assert(is_target@.contains(true));
        }
    }
    if is_target.len() == 0 {
        0
    } else if any {
        if is_target.len() <= 4 {
            is_target.len()
        } else {
            4
        }
    } else {
        1
    }
}

/// The first place where something was found.
pub fn first_found(present: &Vec<bool>) -> (r: Option<usize>)
    ensures
        match r {
            Some(i) => i < present@.len() && present@[i as int] && forall|j: int|
                0 <= j < i ==> !#[trigger] present@[j],
            None => forall|j: int| 0 <= j < present@.len() ==> !#[trigger] present@[j],
        },
{
    let mut i: usize = 0;
    while i < present.len()
        invariant
            i <= present@.len(),
            forall|j: int| 0 <= j < i ==> !#[trigger] present@[j],
        decreases present@.len() - i,
    {
        if present[i] {
            return Some(i);
        }
        i += 1;
    }
    None
}

// ---------------------------------------------------------------------------------------------
// What sub-blocks hold
// ---------------------------------------------------------------------------------------------

proof fn lemma_window_of(s: Seq<char>, start: int, i: int) -> (k: int)
    requires
        0 <= start <= i < s.len(),
    ensures
        0 <= k < windows(s, start).len(),
        windows(s, start)[k].0 <= i < windows(s, start)[k].1,
        0 <= windows(s, start)[k].0,
        windows(s, start)[k].1 <= s.len(),
    decreases s.len() - start,
{
    let end = window_end(s, start);
    lemma_window_end(s, start);
    let ws = windows(s, start);
    if i < end {
        0
    } else {
        let next = end - SUBBLOCK_OVERLAP;
        let rest = windows(s, next);
        assert(ws =~= seq![(start, end)] + rest);
        let k = lemma_window_of(s, next, i);
        assert(ws[k + 1] == rest[k]);
        k + 1
    }
}

proof fn lemma_kept(v: Seq<Seq<char>>, k: int) -> (j: int)
    requires
        0 <= k < v.len(),
        trimmed(v[k]).len() > 0,
    ensures
        0 <= j < kept_names(v).len(),
        kept_names(v)[j] == trimmed(v[k]),
    decreases v.len(),
{
    let head = v.drop_last();
    if k < head.len() {
        let j = lemma_kept(head, k);
        assert(kept_names(v)[j] == kept_names(head)[j]);
        j
    } else {
        kept_names(head).len() as int
    }
}

/// Every character of a text that is no white space is encoded with one of its sub-blocks.
pub proof fn every_character_is_in_a_sub_block(s: Seq<char>, i: int)
    requires
        0 <= i < s.len(),
        !crate::text::is_space(s[i]),
    ensures
        exists|j: int| 0 <= j < subblocks(s).len() && (#[trigger] subblocks(s)[j]).contains(s[i]),
{
    let ws = windows(s, 0);
    let v = window_texts(s, ws);
    let k = lemma_window_of(s, 0, i);
    let w = v[k];
    let at = i - ws[k].0;
    assert(w[at] == s[i]);
    let r = crate::text::lemma_trimmed_shape(w);
    assert(r.0 <= at < r.1) by {
        if at < r.0 || at >= r.1 {
            assert(crate::text::is_space(w[at]));
        }
    }
    assert(trimmed(w)[at - r.0] == s[i]);
    let j = lemma_kept(v, k);
    assert(subblocks(s)[j].contains(s[i]));
}

/// A text of at most 400 characters that is not blank is one sub-block.
pub proof fn short_texts_stay_whole(s: Seq<char>)
    requires
        s.len() <= 400,
        trimmed(s).len() > 0,
    ensures
        subblocks(s) == seq![trimmed(s)],
{
    let r = crate::text::lemma_trimmed_shape(s);
    let ws = windows(s, 0);
    assert(ws =~= seq![(0int, s.len() as int)]);
    let v = window_texts(s, ws);
    assert(s.subrange(0, s.len() as int) =~= s);
    assert(v =~= seq![s]);
    assert(v.drop_last() =~= Seq::<Seq<char>>::empty());
    assert(kept_names(v.drop_last()) =~= Seq::<Seq<char>>::empty());
    assert(kept_names(v) =~= seq![trimmed(s)]);
}

proof fn lemma_breaks(s: Seq<char>, low: int, high: int)
    ensures
        match last_break(s, low, high) {
            Some(k) => low <= k < high && is_break(s[k]) && forall|j: int|
                k < j < high ==> !is_break(#[trigger] s[j]),
            None => forall|j: int| low <= j < high ==> !is_break(#[trigger] s[j]),
        },
    decreases high - low,
{
    if low < high && !is_break(s[high - 1]) {
        lemma_breaks(s, low, high - 1);
    }
}

/// A window ends with the text, or behind the end of a sentence with no later one within reach, or
/// after 400 characters where its second half has no end of a sentence.
pub proof fn windows_end_with_sentences(s: Seq<char>, start: int)
    requires
        0 <= start < s.len(),
        s.len() - start > 400,
    ensures
        ({
            let end = window_end(s, start);
            &&& start + 200 < end <= start + 400
            &&& is_break(s[end - 1]) || end == start + 400
            &&& forall|j: int| end <= j < start + 400 ==> !is_break(#[trigger] s[j])
            &&& !is_break(s[end - 1]) ==> forall|j: int|
                start + 200 <= j < start + 400 ==> !is_break(#[trigger] s[j])
        }),
{
    lemma_breaks(s, start + 200, start + 400);
    lemma_window_end(s, start);
}

} // verus!
