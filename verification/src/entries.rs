//! Entries as a splitter or the headings of a text propose them.
use crate::cuts::{entry_of, make_entry, unnamed_title};
use crate::scan::{
    begins_with, char_in, contains_char, drop_tails, ends_char, ends_with, ends_with_char,
    find_from, find_last, has_char, index_from, joined, last_at, lines, lines_of, starts_char,
    starts_with, starts_with_char, strip_end, strip_start, stripped_end, stripped_start,
    without_tails,
};
use crate::text::{
    copy, extend, extend_str, is_blank, pieces, same_str, texts, to_chars, to_text, trim, trimmed,
};
use crate::types::{entry_views, EntryView, ExtractedEntry};
use vstd::prelude::*;
use vstd::slice::slice_subrange;

verus! {

// ---------------------------------------------------------------------------------------------
// The text of an answer
// ---------------------------------------------------------------------------------------------

/// What stands between code fences, or the whole text where there is none.
pub open spec fn unfenced(raw: Seq<char>) -> Seq<char> {
    let t = trimmed(raw);
    if starts_with(t, "```json"@) {
        trimmed(without_tails(trimmed(t.skip("```json"@.len() as int)), "```"@))
    } else if starts_with(t, "```"@) {
        trimmed(without_tails(trimmed(t.skip("```"@.len() as int)), "```"@))
    } else {
        t
    }
}

fn after_fence(t: &[char], fence: &str) -> (r: Vec<char>)
    requires
        starts_with(t@, fence@),
    ensures
        r@ == trimmed(without_tails(trimmed(t@.skip(fence@.len() as int)), "```"@)),
{
    let f = to_chars(fence);
    let rest = slice_subrange(t, f.len(), t.len());
    assert(rest@ =~= t@.skip(fence@.len() as int));
    copy(trim(drop_tails(trim(rest), "```")))
}

/// Takes the code fence off an answer.
pub fn strip_code_fence(raw: &str) -> (r: String)
    ensures
        r@ == unfenced(raw@),
{
    let v = to_chars(raw);
    let t = trim(v.as_slice());
    if begins_with(t, "```json") {
        let inner = after_fence(t, "```json");
        to_text(inner.as_slice())
    } else if begins_with(t, "```") {
        let inner = after_fence(t, "```");
        to_text(inner.as_slice())
    } else {
        to_text(t)
    }
}

/// Where a text holds a JSON array, if it does.
#[derive(Debug)]
pub enum ArraySlice {
    /// From the first opening to the last closing bracket.
    Slice(String),
    /// There is no opening bracket.
    NoOpen,
    /// There is no closing bracket.
    NoClose,
    /// The last closing bracket stands before the first opening one, and not next to it.
    Inverted,
}

/// Cuts out of a text what stands from its first opening to its last closing bracket.
pub fn array_slice(text: &str) -> (r: ArraySlice)
    ensures
        match (index_from(text@, seq!['['], 0), last_at(text@, seq![']'], text@.len() as int)) {
            (None, _) => r is NoOpen,
            (Some(_), None) => r is NoClose,
            (Some(a), Some(b)) => if a > b + 1 {
                r is Inverted
            } else {
                r matches ArraySlice::Slice(s) && s@ == text@.subrange(a, b + 1)
            },
        },
{
    let v = to_chars(text);
    let open = vec!['['];
    let close = vec![']'];
    assert(open@ =~= seq!['[']);
    assert(close@ =~= seq![']']);
    match find_from(v.as_slice(), open.as_slice(), 0) {
        None => ArraySlice::NoOpen,
        Some(a) => match find_last(v.as_slice(), close.as_slice()) {
            None => ArraySlice::NoClose,
            Some(b) => {
                assert(b < v.len());
                if a > b + 1 {
                    ArraySlice::Inverted
                } else {
                    ArraySlice::Slice(to_text(slice_subrange(v.as_slice(), a, b + 1)))
                }
            },
        },
    }
}

// ---------------------------------------------------------------------------------------------
// Cleaning
// ---------------------------------------------------------------------------------------------

/// The kinds that an entry may name.
pub open spec fn is_kind(t: Seq<char>) -> bool {
    t == "npc"@ || t == "location"@ || t == "item"@ || t == "faction"@ || t == "rule"@ || t
        == "plot"@
}

/// Other names without surrounding white space, neither empty nor equal to the title.
pub open spec fn clean_names(names: Seq<Seq<char>>, title: Seq<char>) -> Seq<Seq<char>>
    decreases names.len(),
{
    if names.len() == 0 {
        Seq::empty()
    } else {
        let before = clean_names(names.drop_last(), title);
        let t = trimmed(names.last());
        if t.len() == 0 || t == title {
            before
        } else {
            before.push(t)
        }
    }
}

/// An entry in clean form.
pub open spec fn clean_entry(e: EntryView) -> EntryView {
    EntryView {
        title: trimmed(e.title),
        aliases: clean_names(e.aliases, trimmed(e.title)),
        entity_type: if is_kind(trimmed(e.entity_type)) {
            trimmed(e.entity_type)
        } else {
            Seq::empty()
        },
        body: trimmed(e.body),
        anchor: trimmed(e.anchor),
        start: e.start,
        end: e.end,
        heading_level: if 1 <= e.heading_level <= 3 {
            e.heading_level
        } else {
            2
        },
    }
}

/// The entries that have a title, in clean form.
pub open spec fn clean_entries(entries: Seq<EntryView>) -> Seq<EntryView>
    decreases entries.len(),
{
    if entries.len() == 0 {
        Seq::empty()
    } else if is_blank(entries.last().title) {
        clean_entries(entries.drop_last())
    } else {
        clean_entries(entries.drop_last()).push(clean_entry(entries.last()))
    }
}

fn trimmed_text(s: &String) -> (r: String)
    ensures
        r@ == trimmed(s@),
{
    let v = to_chars(s.as_str());
    to_text(trim(v.as_slice()))
}

fn clean_aliases(names: &Vec<String>, title: &String) -> (r: Vec<String>)
    ensures
        texts(r@) == clean_names(texts(names@), title@),
{
    let ghost all = texts(names@);
    let mut out: Vec<String> = Vec::new();
    assert(texts(out@) =~= Seq::<Seq<char>>::empty());
    let mut i: usize = 0;
    while i < names.len()
        invariant
            i <= names@.len(),
            all == texts(names@),
            texts(out@) == clean_names(all.take(i as int), title@),
        decreases names@.len() - i,
    {
        proof {
            assert(all.take(i + 1).drop_last() =~= all.take(i as int));
            assert(all.take(i + 1).last() == names@[i as int]@);
        }
        let v = to_chars(names[i].as_str());
        let t = trim(v.as_slice());
        if t.len() > 0 && !same_str(t, title.as_str()) {
            let ghost before = texts(out@);
            out.push(to_text(t));
            assert(texts(out@) =~= before.push(t@));
        }
        i += 1;
    }
    assert(all.take(i as int) =~= all);
    out
}

/// Brings an entry to its clean form.
pub fn normalize_entry(e: &ExtractedEntry) -> (r: ExtractedEntry)
    ensures
        r@ == clean_entry(e@),
{
    let title = trimmed_text(&e.title);
    let aliases = clean_aliases(&e.aliases, &title);
    let kind_all = to_chars(e.entity_type.as_str());
    let kind = trim(kind_all.as_slice());
    let entity_type = if same_str(kind, "npc") || same_str(kind, "location") || same_str(
        kind,
        "item",
    ) || same_str(kind, "faction") || same_str(kind, "rule") || same_str(kind, "plot") {
        to_text(kind)
    } else {
        let none = String::new();
        assert(none@ =~= Seq::<char>::empty());
        none
    };
    let level: u8 = if e.heading_level == 0 || e.heading_level > 3 {
        2
    } else {
        e.heading_level
    };
    ExtractedEntry {
        title,
        aliases,
        entity_type,
        body: trimmed_text(&e.body),
        anchor: trimmed_text(&e.anchor),
        start: e.start,
        end: e.end,
        heading_level: level,
    }
}

/// Why a splitter has no entries to give.
#[derive(Debug)]
pub struct SplitError {
    pub message: String,
}

/// Cleans the entries of an answer and drops those without a title. It is an error if none is
/// left.
pub fn finish_entries(entries: &Vec<ExtractedEntry>) -> (r: Result<Vec<ExtractedEntry>, SplitError>)
    ensures
        match r {
            Ok(v) => entry_views(v@) == clean_entries(entry_views(entries@)) && v@.len() > 0,
            Err(e) => clean_entries(entry_views(entries@)).len() == 0 && e.message@
                == "拆条结果为空"@,
        },
{
    let ghost all = entry_views(entries@);
    let mut out: Vec<ExtractedEntry> = Vec::new();
    assert(entry_views(out@) =~= Seq::<EntryView>::empty());
    let mut i: usize = 0;
    while i < entries.len()
        invariant
            i <= entries@.len(),
            all == entry_views(entries@),
            entry_views(out@) == clean_entries(all.take(i as int)),
        decreases entries@.len() - i,
    {
        proof {
            assert(all.take(i + 1).drop_last() =~= all.take(i as int));
            assert(all.take(i + 1).last() == entries@[i as int]@);
        }
        let t = to_chars(entries[i].title.as_str());
        if trim(t.as_slice()).len() > 0 {
            let e = normalize_entry(&entries[i]);
            let ghost before = entry_views(out@);
            out.push(e);
            assert(entry_views(out@) =~= before.push(e@));
        }
        i += 1;
    }
    assert(all.take(i as int) =~= all);
    if out.len() == 0 {
        Err(SplitError { message: "拆条结果为空".to_string() })
    } else {
        Ok(out)
    }
}

/// Whether a text is made of decimal digits.
pub open spec fn all_digits(s: Seq<char>) -> bool {
    forall|i: int| 0 <= i < s.len() ==> '0' <= (#[trigger] s[i]) <= '9'
}

/// The number that decimal digits stand for.
pub open spec fn digits_value(s: Seq<char>) -> nat
    decreases s.len(),
{
    if s.len() == 0 {
        0
    } else {
        10 * digits_value(s.drop_last()) + ((s.last() as nat - '0' as nat) as nat)
    }
}

/// The segment number that a text names; minus one if it names none.
pub open spec fn index_named(text: Seq<char>) -> int {
    let t = trimmed(text);
    if t.len() > 0 && all_digits(t) && digits_value(t) <= i64::MAX {
        digits_value(t) as int
    } else {
        -1
    }
}

proof fn lemma_digits_grow(s: Seq<char>, k: int)
    requires
        0 <= k <= s.len(),
    ensures
        digits_value(s.take(k)) <= digits_value(s),
    decreases s.len(),
{
    if k == s.len() {
        assert(s.take(k) =~= s);
    } else {
        lemma_digits_grow(s.drop_last(), k);
        assert(s.drop_last().take(k) =~= s.take(k));
    }
}

/// Reads a segment number that is written as text, such as `007`.
pub fn read_index(text: &str) -> (r: i64)
    ensures
        r == index_named(text@),
{
    let all = to_chars(text);
    let t = trim(all.as_slice());
    if t.len() == 0 {
        return -1;
    }
    let mut n: u128 = 0;
    let mut i: usize = 0;
    while i < t.len()
        invariant
            i <= t@.len(),
            t@ == trimmed(text@),
            n == digits_value(t@.take(i as int)),
            n <= i64::MAX,
            forall|j: int| 0 <= j < i ==> '0' <= (#[trigger] t@[j]) <= '9',
        decreases t@.len() - i,
    {
        let c = t[i];
        if !('0' <= c && c <= '9') {
            return -1;
        }
        proof {
            assert(t@.take(i + 1).drop_last() =~= t@.take(i as int));
            assert(t@.take(i + 1).last() == c);
            lemma_digits_grow(t@, i + 1);
        }
        n = 10 * n + (c as u32 - '0' as u32) as u128;
        if n > i64::MAX as u128 {
            return -1;
        }
        i += 1;
    }
    assert(t@.take(i as int) =~= t@);
    n as i64
}

/// Whether no opening bracket of a text stands behind its last closing one, unless next to it.
pub open spec fn brackets_in_order(text: Seq<char>) -> bool {
    match (index_from(text, seq!['['], 0), last_at(text, seq![']'], text.len() as int)) {
        (Some(a), Some(b)) => a <= b + 1,
        _ => true,
    }
}

/// The views of entries that may be there.
pub open spec fn maybe_entries(entries: Option<Vec<ExtractedEntry>>) -> Option<Seq<EntryView>> {
    match entries {
        Some(v) => Some(entry_views(v@)),
        None => None,
    }
}

/// The entries of an answer: those of the bare array, else those of the object around an array,
/// else those of what stands from the first opening to the last closing bracket. What was asked
/// for and could not be read is an error.
pub open spec fn read_entries(
    raw: Seq<char>,
    array: Option<Seq<EntryView>>,
    object: Option<Seq<EntryView>>,
    slice: Option<Seq<EntryView>>,
) -> Result<Seq<EntryView>, Seq<char>> {
    let text = unfenced(raw);
    let found = if array is Some {
        Ok(array->0)
    } else if object is Some {
        Ok(object->0)
    } else if index_from(text, seq!['['], 0) is None {
        Err("LLM 输出里没有 JSON 数组"@)
    } else if last_at(text, seq![']'], text.len() as int) is None {
        Err("LLM 输出里 JSON 数组未闭合"@)
    } else if slice is None {
        Err("无法解析拆条 JSON"@)
    } else {
        Ok(slice->0)
    };
    match found {
        Err(m) => Err(m),
        Ok(entries) => if clean_entries(entries).len() == 0 {
            Err("拆条结果为空"@)
        } else {
            Ok(clean_entries(entries))
        },
    }
}

/// Reads the entries of an answer. `array` and `object` are what a JSON reader makes of the
/// answer without its code fence, as an array of entries and as an object that holds one;
/// `slice` is what it makes of the part between the brackets.
pub fn parse_entries_json(
    raw: &str,
    array: Option<Vec<ExtractedEntry>>,
    object: Option<Vec<ExtractedEntry>>,
    slice: Option<Vec<ExtractedEntry>>,
) -> (r: Result<Vec<ExtractedEntry>, SplitError>)
    requires
        array is None && object is None ==> brackets_in_order(unfenced(raw@)),
    ensures
        match r {
            Ok(v) => Ok::<Seq<EntryView>, Seq<char>>(entry_views(v@)) == read_entries(
                raw@,
                maybe_entries(array),
                maybe_entries(object),
                maybe_entries(slice),
            ),
            Err(e) => Err::<Seq<EntryView>, Seq<char>>(e.message@) == read_entries(
                raw@,
                maybe_entries(array),
                maybe_entries(object),
                maybe_entries(slice),
            ),
        },
{
    if let Some(entries) = array {
        return finish_entries(&entries);
    }
    if let Some(entries) = object {
        return finish_entries(&entries);
    }
    let text = strip_code_fence(raw);
    match array_slice(text.as_str()) {
        ArraySlice::NoOpen => Err(SplitError { message: "LLM 输出里没有 JSON 数组".to_string() }),
        ArraySlice::NoClose => Err(
            SplitError { message: "LLM 输出里 JSON 数组未闭合".to_string() },
        ),
        ArraySlice::Inverted => {
            assert(false);
            Err(SplitError { message: "无法解析拆条 JSON".to_string() })
        },
        ArraySlice::Slice(_) => match slice {
            Some(entries) => finish_entries(&entries),
            None => Err(SplitError { message: "无法解析拆条 JSON".to_string() }),
        },
    }
}

// ---------------------------------------------------------------------------------------------
// Headings in plain text
// ---------------------------------------------------------------------------------------------

/// Whether a title speaks of a chapter.
pub open spec fn chapter_title(t: Seq<char>) -> bool {
    let u = trimmed(t);
    starts_with_char(u, '第') || has_char(u, '章') || has_char(u, '节') || has_char(u, '回')
}

/// Whether a line without surrounding white space is the heading of an entry.
pub open spec fn entry_heading(t: Seq<char>) -> bool {
    if !(2 <= t.len() <= 16) || chapter_title(t) {
        false
    } else if starts_with_char(t, '【') && ends_with_char(t, '】') {
        true
    } else {
        !(has_char("。！？；;"@, t.last()) || has_char(t, '。') || has_char(t, '！') || has_char(
            t,
            '？',
        ) || has_char(t, '：') || has_char(t, ':'))
    }
}

/// A heading without the brackets around it.
pub open spec fn bare_heading(t: Seq<char>) -> Seq<char> {
    trimmed(stripped_end(stripped_start(trimmed(t), "【】「」[]"@), "【】「」[]"@))
}

/// Whether a title speaks of a chapter.
pub fn looks_like_chapter_title(t: &[char]) -> (r: bool)
    ensures
        r == chapter_title(t@),
{
    let u = trim(t);
    starts_char(u, '第') || contains_char(u, '章') || contains_char(u, '节') || contains_char(u, '回')
}

fn is_entry_heading(t: &[char]) -> (r: bool)
    ensures
        r == entry_heading(t@),
{
    let n = t.len();
    if n < 2 || n > 16 || looks_like_chapter_title(t) {
        return false;
    }
    if starts_char(t, '【') && ends_char(t, '】') {
        return true;
    }
    !(char_in("。！？；;", t[n - 1]) || contains_char(t, '。') || contains_char(t, '！')
        || contains_char(t, '？') || contains_char(t, '：') || contains_char(t, ':'))
}

fn strip_heading_marks(t: &[char]) -> (r: Vec<char>)
    ensures
        r@ == bare_heading(t@),
{
    copy(trim(strip_end(strip_start(trim(t), "【】「」[]"), "【】「」[]")))
}

/// What is known while a text is read line by line: the finished titles and bodies, and the
/// title and body at hand.
#[verifier::ext_equal]
pub struct Outline {
    pub entries: Seq<(Seq<char>, Seq<char>)>,
    pub title: Seq<char>,
    pub body: Seq<char>,
}

/// The outline with what is at hand finished: an entry of twelve characters at least under its
/// title, or one of forty characters at least without a title. Anything shorter is dropped.
pub open spec fn closed_entry(o: Outline) -> Outline {
    let t = trimmed(o.title);
    let b = trimmed(o.body);
    Outline {
        entries: if t.len() > 0 && b.len() >= 12 {
            o.entries.push((t, b))
        } else if t.len() == 0 && b.len() >= 40 {
            o.entries.push((unnamed_title(), b))
        } else {
            o.entries
        },
        title: Seq::empty(),
        body: Seq::empty(),
    }
}

/// A text with a line feed behind it, unless it is empty.
pub open spec fn line_broken(s: Seq<char>) -> Seq<char> {
    if s.len() == 0 {
        s
    } else {
        s + "\n"@
    }
}

/// The outline after one more line.
pub open spec fn read_line(o: Outline, line: Seq<char>) -> Outline {
    let t = trimmed(line);
    if t.len() == 0 {
        Outline { body: line_broken(o.body), ..o }
    } else if entry_heading(t) {
        Outline { title: bare_heading(t), ..closed_entry(o) }
    } else {
        Outline { body: line_broken(o.body) + t, ..o }
    }
}

/// The outline after the given lines.
pub open spec fn outline(ls: Seq<Seq<char>>) -> Outline
    decreases ls.len(),
{
    if ls.len() == 0 {
        Outline { entries: Seq::empty(), title: Seq::empty(), body: Seq::empty() }
    } else {
        read_line(outline(ls.drop_last()), ls.last())
    }
}

/// Titles and bodies as entries.
pub open spec fn plain_entries(v: Seq<(Seq<char>, Seq<char>)>) -> Seq<EntryView> {
    Seq::new(v.len(), |i: int| entry_of(v[i].0, Seq::empty(), Seq::empty(), v[i].1))
}

/// The entries that the short heading lines of a text make.
pub open spec fn local_entries(text: Seq<char>) -> Seq<EntryView> {
    plain_entries(closed_entry(outline(lines_of(text))).entries)
}

/// The outline at hand, in executable form.
struct OutlineBuf {
    entries: Vec<ExtractedEntry>,
    title: Vec<char>,
    body: Vec<char>,
}

impl OutlineBuf {
    spec fn models(&self, o: Outline) -> bool {
        &&& entry_views(self.entries@) == plain_entries(o.entries)
        &&& self.title@ == o.title
        &&& self.body@ == o.body
    }

    fn close(&mut self, Ghost(o): Ghost<Outline>)
        requires
            old(self).models(o),
        ensures
            final(self).models(closed_entry(o)),
    {
        let ghost before = entry_views(self.entries@);
        let t = to_text(trim(self.title.as_slice()));
        let t_len = trim(self.title.as_slice()).len();
        let b = to_text(trim(self.body.as_slice()));
        let b_len = trim(self.body.as_slice()).len();
        let none: Vec<String> = Vec::new();
        let no_type = String::new();
        assert(texts(none@) =~= Seq::<Seq<char>>::empty());
        assert(no_type@ =~= Seq::<char>::empty());
        if t_len > 0 && b_len >= 12 {
            let e = make_entry(t, none, no_type, b);
            self.entries.push(e);
            proof {
                assert(entry_views(self.entries@) =~= before.push(e@));
                assert(plain_entries(closed_entry(o).entries) =~= before.push(e@));
            }
        } else if t_len == 0 && b_len >= 40 {
            let e = make_entry("未命名块".to_string(), none, no_type, b);
            self.entries.push(e);
            proof {
                assert(entry_views(self.entries@) =~= before.push(e@));
                assert(plain_entries(closed_entry(o).entries) =~= before.push(e@));
            }
        }
        self.title = Vec::new();
        self.body = Vec::new();
        assert(self.title@ =~= Seq::<char>::empty());
        assert(self.body@ =~= Seq::<char>::empty());
    }

    fn add(&mut self, line: &[char], Ghost(o): Ghost<Outline>)
        requires
            old(self).models(o),
        ensures
            final(self).models(read_line(o, line@)),
    {
        let t = trim(line);
        if t.len() > 0 && is_entry_heading(t) {
            self.close(Ghost(o));
            self.title = strip_heading_marks(t);
        } else {
            if self.body.len() > 0 {
                extend_str(&mut self.body, "\n");
            }
            let ghost broken = self.body@;
            extend(&mut self.body, t);
            assert(t@.len() == 0 ==> self.body@ =~= broken);
        }
    }
}

/// Cuts a text at its short heading lines. What is too short to be an entry is dropped.
pub fn local_structure_split(text: &str) -> (r: Vec<ExtractedEntry>)
    ensures
        entry_views(r@) == local_entries(text@),
{
    let v = to_chars(text);
    let ls = lines(v.as_slice());
    let ghost all = lines_of(text@);
    let mut buf = OutlineBuf { entries: Vec::new(), title: Vec::new(), body: Vec::new() };
    proof {
        let o = outline(all.take(0));
        assert(entry_views(buf.entries@) =~= plain_entries(o.entries));
        assert(buf.title@ =~= o.title);
        assert(buf.body@ =~= o.body);
    }
    let mut k: usize = 0;
    while k < ls.len()
        invariant
            k <= ls@.len(),
            all == lines_of(text@),
            pieces(ls@) == all,
            buf.models(outline(all.take(k as int))),
        decreases ls@.len() - k,
    {
        proof {
            assert(all.take(k + 1).drop_last() =~= all.take(k as int));
            assert(all.take(k + 1).last() == pieces(ls@)[k as int]);
        }
        buf.add(ls[k], Ghost(outline(all.take(k as int))));
        k += 1;
    }
    assert(all.take(k as int) =~= all);
    buf.close(Ghost(outline(all)));
    buf.entries
}

// ---------------------------------------------------------------------------------------------
// What cleaning and reading keep
// ---------------------------------------------------------------------------------------------

/// Every other name stays, without surrounding white space, unless it is blank or the title; and
/// nothing else is listed.
pub proof fn other_names_are_kept(names: Seq<Seq<char>>, title: Seq<char>)
    ensures
        forall|k: int|
            #![trigger names[k]]
            0 <= k < names.len() && trimmed(names[k]).len() > 0 && trimmed(names[k]) != title
                ==> clean_names(names, title).contains(trimmed(names[k])),
        forall|x: Seq<char>| #[trigger]
            clean_names(names, title).contains(x) ==> x.len() > 0 && x != title,
    decreases names.len(),
{
    let now = clean_names(names, title);
    if names.len() > 0 {
        let head = names.drop_last();
        other_names_are_kept(head, title);
        let before = clean_names(head, title);
        let t = trimmed(names.last());
        assert forall|k: int|
            #![trigger names[k]]
            0 <= k < names.len() && trimmed(names[k]).len() > 0 && trimmed(names[k])
                != title implies now.contains(trimmed(names[k])) by {
            if k < head.len() {
                assert(head[k] == names[k]);
                assert(before.contains(trimmed(head[k])));
                let i = choose|i: int| 0 <= i < before.len() && before[i] == trimmed(head[k]);
                assert(now[i] == trimmed(names[k]));
            } else {
                assert(now[before.len() as int] == t);
            }
        }
        assert forall|x: Seq<char>| #[trigger] now.contains(x) implies x.len() > 0 && x != title by {
            let i = choose|i: int| 0 <= i < now.len() && now[i] == x;
            if i < before.len() {
                assert(before[i] == x);
                assert(before.contains(x));
            }
        }
    }
}

/// Whether `c` says what `e` says, free of surrounding white space.
pub open spec fn says_the_same(c: EntryView, e: EntryView) -> bool {
    &&& c.title == trimmed(e.title)
    &&& c.body == trimmed(e.body)
    &&& c.anchor == trimmed(e.anchor)
    &&& c.start == e.start
    &&& c.end == e.end
    &&& is_kind(trimmed(e.entity_type)) ==> c.entity_type == trimmed(e.entity_type)
    &&& 1 <= e.heading_level <= 3 ==> c.heading_level == e.heading_level
    &&& 1 <= c.heading_level <= 3
}

/// Every entry with a title comes out of the cleaning and says the same, and every entry that comes
/// out has a title and says the same as one that went in. Answers may be cleaned one after the
/// other.
pub proof fn titled_entries_are_kept(a: Seq<EntryView>, b: Seq<EntryView>)
    ensures
        clean_entries(a + b) == clean_entries(a) + clean_entries(b),
        forall|k: int|
            #![trigger b[k]]
            0 <= k < b.len() && trimmed(b[k].title).len() > 0 ==> exists|j: int|
                0 <= j < clean_entries(b).len() && says_the_same(
                    #[trigger] clean_entries(b)[j],
                    b[k],
                ),
        forall|j: int|
            #![trigger clean_entries(b)[j]]
            0 <= j < clean_entries(b).len() ==> clean_entries(b)[j].title.len() > 0 && exists|
                k: int,
            |
                0 <= k < b.len() && says_the_same(clean_entries(b)[j], #[trigger] b[k]),
    decreases b.len(),
{
    let now = clean_entries(b);
    if b.len() == 0 {
        assert(a + b =~= a);
    } else {
        let head = b.drop_last();
        titled_entries_are_kept(a, head);
        let before = clean_entries(head);
        assert((a + b).drop_last() =~= a + head);
        assert((a + b).last() == b.last());
        assert forall|k: int|
            #![trigger b[k]]
            0 <= k < b.len() && trimmed(b[k].title).len() > 0 implies exists|j: int|
            0 <= j < now.len() && says_the_same(#[trigger] now[j], b[k]) by {
            if k < head.len() {
                assert(head[k] == b[k]);
                let j = choose|j: int|
                    0 <= j < before.len() && says_the_same(#[trigger] before[j], head[k]);
                assert(now[j] == before[j]);
            } else {
                assert(says_the_same(now[before.len() as int], b[k]));
            }
        }
        assert forall|j: int| #![trigger now[j]] 0 <= j < now.len() implies now[j].title.len() > 0
            && exists|k: int| 0 <= k < b.len() && says_the_same(now[j], #[trigger] b[k]) by {
            if j < before.len() {
                assert(now[j] == before[j]);
                let k = choose|k: int|
                    0 <= k < head.len() && says_the_same(before[j], #[trigger] head[k]);
                assert(b[k] == head[k]);
            } else {
                assert(says_the_same(now[j], b[b.len() - 1]));
            }
        }
    }
}

/// The lines without surrounding white space.
pub open spec fn trimmed_lines(ls: Seq<Seq<char>>) -> Seq<Seq<char>> {
    Seq::new(ls.len(), |k: int| trimmed(ls[k]))
}

/// What is left of a text after `n` characters, all of them white space.
pub open spec fn behind_white(s: Seq<char>, rest: Seq<char>, n: int) -> bool {
    &&& 0 <= n <= s.len()
    &&& rest == s.skip(n)
    &&& forall|i: int| 0 <= i < n ==> crate::text::is_space(#[trigger] s[i])
}

proof fn lemma_body_lines(o: Outline, ls: Seq<Seq<char>>, h: Seq<char>, more: Seq<Seq<char>>)
    requires
        o == outline(ls),
        trimmed(h).len() > 0,
        entry_heading(trimmed(h)),
        forall|k: int|
            0 <= k < more.len() ==> trimmed(#[trigger] more[k]).len() == 0 || !entry_heading(
                trimmed(more[k]),
            ),
    ensures
        ({
            let now = outline(ls.push(h) + more);
            &&& now.entries == closed_entry(o).entries
            &&& now.title == bare_heading(trimmed(h))
            &&& exists|n: int| #[trigger]
                behind_white(joined(trimmed_lines(more), "\n"@), now.body, n)
        }),
    decreases more.len(),
{
    reveal_strlit("\n");
    let all = ls.push(h) + more;
    let sep = "\n"@;
    if more.len() == 0 {
        assert(all =~= ls.push(h));
        assert(ls.push(h).drop_last() =~= ls);
        assert(joined(trimmed_lines(more), sep) =~= Seq::<char>::empty());
        assert(outline(all).body =~= Seq::<char>::empty());
        assert(outline(all).body =~= joined(trimmed_lines(more), sep).skip(0));
        assert(behind_white(joined(trimmed_lines(more), sep), outline(all).body, 0));
    } else {
        let head = more.drop_last();
        assert forall|k: int| 0 <= k < head.len() implies trimmed(#[trigger] head[k]).len() == 0
            || !entry_heading(trimmed(head[k])) by {
            assert(more[k] == head[k]);
        }
        lemma_body_lines(o, ls, h, head);
        let before = outline(ls.push(h) + head);
        assert(all.drop_last() =~= ls.push(h) + head);
        assert(all.last() == more[more.len() - 1]);
        let t = trimmed(more.last());
        let now = outline(all);
        let old_text = joined(trimmed_lines(head), sep);
        let text = joined(trimmed_lines(more), sep);
        let n = choose|n: int| #[trigger] behind_white(old_text, before.body, n);
        assert(now.body =~= line_broken(before.body) + t);
        assert(trimmed_lines(more).drop_last() =~= trimmed_lines(head));
        assert(trimmed_lines(more).last() == t);
        if more.len() == 1 {
            assert(before.body =~= Seq::<char>::empty());
            assert(text == t);
            assert(now.body =~= text.skip(0));
            assert(behind_white(text, now.body, 0));
        } else if before.body.len() == 0 {
            assert(n == old_text.len());
            assert(text == old_text + sep + t);
            assert(now.body =~= text.skip(n + 1));
            assert forall|i: int| 0 <= i < n + 1 implies crate::text::is_space(#[trigger] text[i]) by {
                if i < n {
                    assert(text[i] == old_text[i]);
                } else {
                    assert(text[i] == '\n');
                }
            }
            assert(behind_white(text, now.body, n + 1));
        } else {
            assert(text == old_text + sep + t);
            assert(now.body =~= text.skip(n));
            assert forall|i: int| 0 <= i < n implies crate::text::is_space(#[trigger] text[i]) by {
                assert(text[i] == old_text[i]);
            }
            assert(behind_white(text, now.body, n));
        }
    }
}

proof fn lemma_behind_white(s: Seq<char>, rest: Seq<char>, n: int)
    requires
        behind_white(s, rest, n),
    ensures
        trimmed(rest) == trimmed(s),
{
    let k = crate::text::lemma_trimmed_start_shape(rest);
    assert forall|i: int| 0 <= i < n + k implies crate::text::is_space(#[trigger] s[i]) by {
        if i >= n {
            assert(rest[i - n] == s[i]);
        }
    }
    if k < rest.len() {
        assert(rest[k] == s[n + k]);
    }
    crate::text::lemma_trimmed_start_at(s, n + k);
    crate::text::lemma_trimmed_start_at(rest, k);
    assert(s.skip(n + k) =~= rest.skip(k));
}

/// The lines below a heading line, up to the next, become one entry under that heading if they have
/// twelve characters at least: its body is these lines, joined by line feeds. Nothing that was read
/// before changes.
pub proof fn lines_below_a_heading_become_an_entry(
    ls: Seq<Seq<char>>,
    h: Seq<char>,
    more: Seq<Seq<char>>,
)
    requires
        trimmed(h).len() > 0,
        entry_heading(trimmed(h)),
        trimmed(bare_heading(trimmed(h))).len() > 0,
        forall|k: int|
            0 <= k < more.len() ==> trimmed(#[trigger] more[k]).len() == 0 || !entry_heading(
                trimmed(more[k]),
            ),
        trimmed(joined(trimmed_lines(more), "\n"@)).len() >= 12,
    ensures
        closed_entry(outline(ls.push(h) + more)).entries == closed_entry(outline(ls)).entries.push(
            (
                trimmed(bare_heading(trimmed(h))),
                trimmed(joined(trimmed_lines(more), "\n"@)),
            ),
        ),
{
    lemma_body_lines(outline(ls), ls, h, more);
    let o = outline(ls.push(h) + more);
    let all = joined(trimmed_lines(more), "\n"@);
    let n = choose|n: int| #[trigger] behind_white(all, o.body, n);
    lemma_behind_white(all, o.body, n);
}

proof fn lemma_digits_back(n: nat)
    ensures
        all_digits(crate::number::decimal(n)),
        crate::number::decimal(n).len() > 0,
        digits_value(crate::number::decimal(n)) == n,
    decreases n,
{
    let d = crate::number::decimal(n);
    if n < 10 {
        assert(d.drop_last() =~= Seq::<char>::empty());
        assert(digits_value(d.drop_last()) == 0);
        assert(d.last() as nat == 0x30 + n);
    } else {
        lemma_digits_back(n / 10);
        assert(d.drop_last() =~= crate::number::decimal(n / 10));
        assert(d.last() as nat == 0x30 + n % 10);
    }
}

/// A number in decimal notation is read as that number, whatever white space stands around it.
pub proof fn numbers_are_read_back(text: Seq<char>, n: nat)
    requires
        trimmed(text) == crate::number::decimal(n),
        n <= i64::MAX,
    ensures
        index_named(text) == n,
{
    lemma_digits_back(n);
}

/// What stands between code fences is taken out of them, and a text that begins with no fence stays
/// as it is.
pub proof fn fences_are_taken_off(t: Seq<char>)
    requires
        t.len() > 0,
        !crate::text::is_space(t[0]),
        !crate::text::is_space(t.last()),
        t[0] != '`',
        t.last() != '`',
    ensures
        unfenced(t) == t,
        unfenced("```"@ + "\n"@ + t + "\n"@ + "```"@) == t,
        unfenced("```json"@ + "\n"@ + t + "\n"@ + "```"@) == t,
{
    reveal_strlit("```");
    reveal_strlit("```json");
    reveal_strlit("\n");
    let f = "```"@;
    let j = "```json"@;
    let nl = "\n"@;
    lemma_solid_ends(t);
    assert(!starts_with(t, f)) by {
        if starts_with(t, f) {
            assert(t.take(3)[0] == f[0]);
        }
    }
    assert(!starts_with(t, j)) by {
        if starts_with(t, j) {
            assert(t.take(7)[0] == j[0]);
        }
    }
    let a = f + nl + t + nl + f;
    lemma_solid_ends(a);
    assert(a.take(3) =~= f);
    assert(starts_with(a, f));
    assert(!starts_with(a, j)) by {
        if starts_with(a, j) {
            assert(a.take(7)[3] == a[3]);
            assert(a[3] == '\n' && j[3] == 'j');
        }
    }
    assert(a.skip(3) =~= nl + t + nl + f);
    lemma_inside_fence(t);
    let b = j + nl + t + nl + f;
    lemma_solid_ends(b);
    assert(b.take(7) =~= j);
    assert(starts_with(b, j));
    assert(b.skip(7) =~= nl + t + nl + f);
}

proof fn lemma_solid_ends(s: Seq<char>)
    requires
        s.len() > 0,
        !crate::text::is_space(s[0]),
        !crate::text::is_space(s.last()),
    ensures
        trimmed(s) == s,
{
    crate::text::lemma_trimmed_start_at(s, 0);
    assert(s.skip(0) =~= s);
    crate::text::lemma_trimmed_end_at(s, s.len() as int);
    assert(s.take(s.len() as int) =~= s);
}

proof fn lemma_inside_fence(t: Seq<char>)
    requires
        t.len() > 0,
        !crate::text::is_space(t[0]),
        !crate::text::is_space(t.last()),
    ensures
        trimmed(without_tails(trimmed("\n"@ + t + "\n"@ + "```"@), "```"@)) == t,
{
    reveal_strlit("```");
    reveal_strlit("\n");
    let f = "```"@;
    let nl = "\n"@;
    let s = nl + t + nl + f;
    let u = t + nl + f;
    assert(s[0] == '\n');
    assert(s[1] == t[0]);
    crate::text::lemma_trimmed_start_at(s, 1);
    assert(s.skip(1) =~= u);
    lemma_solid_ends(u);
    assert(trimmed(s) == u);
    let w = t + nl;
    assert(u.subrange(u.len() - 3, u.len() as int) =~= f);
    assert(u.take(u.len() - 3) =~= w);
    assert(!ends_with(w, f)) by {
        if ends_with(w, f) {
            assert(w.subrange(w.len() - 3, w.len() as int)[2] == w[w.len() - 1]);
        }
    }
    assert(without_tails(w, f) == w);
    assert(without_tails(u, f) == w);
    crate::text::lemma_trimmed_start_at(w, 0);
    assert(w.skip(0) =~= w);
    assert(w[w.len() - 1] == '\n');
    assert(w[t.len() - 1] == t.last());
    crate::text::lemma_trimmed_end_at(w, t.len() as int);
    assert(w.take(t.len() as int) =~= t);
}

} // verus!
