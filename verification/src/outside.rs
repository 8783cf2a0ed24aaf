//! Calls into other crates, each with the contract that the rest of the library relies on.
use crate::offsets::{byte_len, is_boundary};
use crate::text::texts;
use pinyin::{ToPinyin, ToPinyinMulti};
use sha1::Digest;
use vstd::prelude::*;
use vstd::utf8::{decode_utf8, valid_utf8};

verus! {

// ---------------------------------------------------------------------------------------------
// Hashing
// ---------------------------------------------------------------------------------------------

/// The SHA-1 digest of a message.
pub uninterp spec fn sha1_of(message: Seq<u8>) -> Seq<u8>;

/// `sha1::Sha1::digest`: the digest depends on the message alone and has twenty bytes.
#[verifier::external_body]
pub(crate) fn sha1_digest(message: &[u8]) -> (r: Vec<u8>)
    ensures
        r@ == sha1_of(message@),
        r@.len() == 20,
{
    sha1::Sha1::digest(message).to_vec()
}

/// The lower-case hexadecimal digit of a number below sixteen.
pub open spec fn hex_digit(n: int) -> char {
    if n < 10 {
        (0x30 + n) as char
    } else {
        (0x57 + n) as char
    }
}

/// Two lower-case hexadecimal digits for each byte, the high one first.
pub open spec fn hex_text(bytes: Seq<u8>) -> Seq<char> {
    Seq::new(
        2 * bytes.len(),
        |i: int|
            if i % 2 == 0 {
                hex_digit(bytes[i / 2] as int / 16)
            } else {
                hex_digit(bytes[i / 2] as int % 16)
            },
    )
}

/// `hex::encode`: each byte becomes two lower-case hexadecimal digits.
#[verifier::external_body]
pub(crate) fn hex_encode(bytes: &Vec<u8>) -> (r: String)
    ensures
        r@ == hex_text(bytes@),
{
    hex::encode(bytes)
}

// ---------------------------------------------------------------------------------------------
// Pinyin
// ---------------------------------------------------------------------------------------------

/// All readings of a character without tone marks, in the order of the pinyin table; empty for
/// a character that is not in the table.
pub uninterp spec fn table_readings(c: char) -> Seq<Seq<char>>;

/// `ToPinyinMulti::to_pinyin_multi` on a character, each reading taken with `Pinyin::plain`:
/// the readings depend on the character alone.
#[verifier::external_body]
pub(crate) fn pinyin_all(c: char) -> (r: Vec<String>)
    ensures
        texts(r@) == table_readings(c),
{
    match c.to_pinyin_multi() {
        Some(multi) => multi.into_iter().map(|p| p.plain().to_string()).collect(),
        None => Vec::new(),
    }
}

/// The main reading of a character without tone mark, if it has one.
pub uninterp spec fn table_main_reading(c: char) -> Option<Seq<char>>;

/// `ToPinyin::to_pinyin` on a character, taken with `Pinyin::plain`: the reading depends on the
/// character alone.
#[verifier::external_body]
pub(crate) fn pinyin_main(c: char) -> (r: Option<String>)
    ensures
        match r {
            Some(s) => table_main_reading(c) == Some(s@),
            None => table_main_reading(c) == None::<Seq<char>>,
        },
{
    c.to_pinyin().map(|p| p.plain().to_string())
}

// ---------------------------------------------------------------------------------------------
// Regular expressions
// ---------------------------------------------------------------------------------------------

/// One match of a regular expression: its byte range and the text of each group.
pub struct RegexMatch {
    pub start: usize,
    pub end: usize,
    pub groups: Vec<Option<String>>,
}

/// A match as a mathematical value.
#[verifier::ext_equal]
pub struct MatchView {
    pub start: int,
    pub end: int,
    pub groups: Seq<Option<Seq<char>>>,
}

impl View for RegexMatch {
    type V = MatchView;

    open spec fn view(&self) -> MatchView {
        MatchView {
            start: self.start as int,
            end: self.end as int,
            groups: Seq::new(
                self.groups@.len(),
                |i: int|
                    match self.groups@[i] {
                        Some(s) => Some(s@),
                        None => None,
                    },
            ),
        }
    }
}

/// The matches of a sequence of regular expression matches.
pub open spec fn match_views(v: Seq<RegexMatch>) -> Seq<MatchView> {
    Seq::new(v.len(), |i: int| v[i]@)
}

/// The successive matches of a pattern in a text; `None` for a pattern that is not well formed.
pub uninterp spec fn regex_matches(pattern: Seq<char>, text: Seq<char>) -> Option<Seq<MatchView>>;

/// Whether matches lie in the text, at character boundaries, one after the other.
pub open spec fn matches_in_order(ms: Seq<MatchView>, text: Seq<char>) -> bool {
    &&& forall|i: int|
        #![trigger ms[i]]
        0 <= i < ms.len() ==> 0 <= ms[i].start <= ms[i].end <= byte_len(text) && is_boundary(
            text,
            ms[i].start,
        ) && is_boundary(text, ms[i].end)
    &&& forall|i: int, j: int|
        #![trigger ms[i], ms[j]]
        0 <= i < j < ms.len() ==> ms[i].end <= ms[j].start
}

/// `regex::Regex::new` followed by `Regex::captures_iter`: the matches depend on the pattern and
/// the text alone. They do not overlap, come in order, and start and end between characters.
#[verifier::external_body]
pub(crate) fn regex_captures(pattern: &str, text: &str) -> (r: Option<Vec<RegexMatch>>)
    ensures
        match r {
            Some(v) => regex_matches(pattern@, text@) == Some(match_views(v@)) && matches_in_order(
                match_views(v@),
                text@,
            ),
            None => regex_matches(pattern@, text@) == None::<Seq<MatchView>>,
        },
{
    let re = regex::Regex::new(pattern).ok()?;
    let found = re.captures_iter(text).map(|caps| {
        let (start, end) = caps.get(0).map_or((0, 0), |m| (m.start(), m.end()));
        let groups = caps.iter().map(|g| g.map(|m| m.as_str().to_string())).collect();
        RegexMatch { start, end, groups }
    });
    Some(found.collect())
}

// ---------------------------------------------------------------------------------------------
// Character encodings
// ---------------------------------------------------------------------------------------------

/// `std::str::from_utf8`: succeeds exactly on well-formed UTF-8, and then gives the text that
/// the bytes encode.
#[verifier::external_body]
pub(crate) fn utf8_text(bytes: &[u8]) -> (r: Option<String>)
    ensures
        r is Some <==> valid_utf8(bytes@),
        r matches Some(s) ==> s@ == decode_utf8(bytes@),
{
    std::str::from_utf8(bytes).ok().map(|s| s.to_string())
}

/// What the UTF-8 decoder with byte order mark detection makes of bytes: the text, and whether
/// something malformed was replaced.
pub uninterp spec fn sniffed_text(bytes: Seq<u8>) -> (Seq<char>, bool);

/// `encoding_rs::UTF_8.decode`: text and error flag depend on the bytes alone.
#[verifier::external_body]
pub(crate) fn decode_sniffed(bytes: &[u8]) -> (r: (String, bool))
    requires
        bytes@.len() <= usize::MAX / 16,
    ensures
        (r.0@, r.1) == sniffed_text(bytes@),
{
    let (text, _, had_errors) = encoding_rs::UTF_8.decode(bytes);
    (text.into_owned(), had_errors)
}

/// The text of bytes that are decoded as GB18030 unless they begin with the byte order mark of
/// another encoding, with replacement characters for what is malformed.
pub uninterp spec fn gb18030_text(bytes: Seq<u8>) -> Seq<char>;

/// `encoding_rs::GB18030.decode`, which looks for a byte order mark first: the text depends on the
/// bytes alone.
#[verifier::external_body]
pub(crate) fn decode_gb18030(bytes: &[u8]) -> (r: String)
    requires
        bytes@.len() <= usize::MAX / 16,
    ensures
        r@ == gb18030_text(bytes@),
{
    let (text, _, _) = encoding_rs::GB18030.decode(bytes);
    text.into_owned()
}

// ---------------------------------------------------------------------------------------------
// JSON
// ---------------------------------------------------------------------------------------------

/// The strings of a JSON array of strings; `None` for any other text.
pub uninterp spec fn json_strings(text: Seq<char>) -> Option<Seq<Seq<char>>>;

/// `serde_json::from_str` at the type `Vec<String>`: the result depends on the text alone.
#[verifier::external_body]
pub(crate) fn parse_json_strings(text: &str) -> (r: Option<Vec<String>>)
    ensures
        match r {
            Some(v) => json_strings(text@) == Some(texts(v@)),
            None => json_strings(text@) == None::<Seq<Seq<char>>>,
        },
{
    serde_json::from_str::<Vec<String>>(text).ok()
}

/// The JSON array that stands for a list of strings.
pub uninterp spec fn json_array(items: Seq<Seq<char>>) -> Seq<char>;

/// `serde_json::to_string` at the type `Vec<String>`: the text depends on the strings alone, and
/// `serde_json::from_str` reads the same strings out of it.
#[verifier::external_body]
pub(crate) fn write_json_strings(items: &Vec<String>) -> (r: String)
    ensures
        r@ == json_array(texts(items@)),
        json_strings(r@) == Some(texts(items@)),
{
    serde_json::to_string(items).unwrap_or_default()
}

} // verus!
