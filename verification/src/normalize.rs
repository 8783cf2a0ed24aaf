//! Text normalisation, character classes and content keys.
use crate::likeness::{solid, solid_keeps_all_but_white_space};
use crate::number::{signed_decimal, write_signed};
use crate::outside::{hex_encode, hex_text, sha1_digest, sha1_of};
use crate::text::{
    extend, is_space, lemma_trimmed_shape, prefix, space, take_prefix, to_chars, to_text, trim, trimmed,
};
use vstd::prelude::*;
use vstd::utf8::encode_utf8;

verus! {

// ---------------------------------------------------------------------------------------------
// Hashes
// ---------------------------------------------------------------------------------------------

/// The SHA-1 digest of the UTF-8 form of a text, in hexadecimal.
pub open spec fn sha1_text(s: Seq<char>) -> Seq<char> {
    hex_text(sha1_of(encode_utf8(s)))
}

/// The SHA-1 digest of a text, in hexadecimal.
pub fn sha1_hex(s: &str) -> (r: String)
    ensures
        r@ == sha1_text(s@),
        r@.len() == 40,
{
    let d = sha1_digest(s.as_bytes());
    hex_encode(&d)
}

/// The digest of a file's content: that of the bytes `file:` and the content after them.
pub open spec fn file_digest(content: Seq<u8>) -> Seq<char> {
    hex_text(sha1_of(seq![0x66u8, 0x69u8, 0x6Cu8, 0x65u8, 0x3Au8] + content))
}

/// The digest by which changed file contents are told apart.
pub fn sha256_file_hex(bytes: &[u8]) -> (r: String)
    ensures
        r@ == file_digest(bytes@),
{
    let mut m: Vec<u8> = Vec::new();
    m.push(0x66);
    m.push(0x69);
    m.push(0x6C);
    m.push(0x65);
    m.push(0x3A);
    let ghost head = m@;
    let mut i: usize = 0;
    while i < bytes.len()
        invariant
            i <= bytes@.len(),
            m@ == head + bytes@.take(i as int),
        decreases bytes@.len() - i,
    {
        m.push(bytes[i]);
        i += 1;
    }
    assert(bytes@.take(i as int) =~= bytes@);
    assert(head =~= seq![0x66u8, 0x69u8, 0x6Cu8, 0x65u8, 0x3Au8]);
    let d = sha1_digest(m.as_slice());
    hex_encode(&d)
}

/// The digest of an entry's body: that of `body:` and the text after it.
pub open spec fn body_digest(s: Seq<char>) -> Seq<char> {
    sha1_text("body:"@ + s)
}

/// The digest by which changed bodies are told apart.
pub fn sha1_body_hex(s: &str) -> (r: String)
    ensures
        r@ == body_digest(s@),
{
    let mut m = to_chars("body:");
    let v = to_chars(s);
    extend(&mut m, v.as_slice());
    let t = to_text(m.as_slice());
    sha1_hex(t.as_str())
}

// ---------------------------------------------------------------------------------------------
// Normal form
// ---------------------------------------------------------------------------------------------

/// The half-width form of a full-width character; other characters stay.
pub open spec fn half_width(c: char) -> char {
    let u = c as u32;
    if u == 0x3000 {
        ' '
    } else if 0xFF01 <= u <= 0xFF5E {
        (u - 0xFEE0) as char
    } else {
        c
    }
}

/// Half-width characters, with each run of white space shrunk to one blank and none in front.
pub open spec fn squeezed(s: Seq<char>) -> Seq<char>
    decreases s.len(),
{
    if s.len() == 0 {
        Seq::empty()
    } else {
        let before = squeezed(s.drop_last());
        let c = half_width(s.last());
        if !is_space(c) {
            before.push(c)
        } else if before.len() == 0 || before.last() == ' ' {
            before
        } else {
            before.push(' ')
        }
    }
}

/// The normal form of a text: half-width characters, words separated by single blanks.
pub open spec fn normal(s: Seq<char>) -> Seq<char> {
    trimmed(squeezed(s))
}

/// Whether a text is made of half-width words separated by single blanks, without white space in
/// front.
pub open spec fn tidy(s: Seq<char>) -> bool {
    &&& forall|i: int| 0 <= i < s.len() ==> half_width(#[trigger] s[i]) == s[i]
    &&& forall|i: int| 0 <= i < s.len() && is_space(#[trigger] s[i]) ==> s[i] == ' '
    &&& forall|i: int, j: int|
        #![trigger s[i], s[j]]
        0 <= i && j == i + 1 && j < s.len() ==> !(s[i] == ' ' && s[j] == ' ')
    &&& s.len() > 0 ==> !is_space(s[0])
}

proof fn lemma_squeezed_tidy(s: Seq<char>)
    ensures
        tidy(squeezed(s)),
    decreases s.len(),
{
    if s.len() > 0 {
        lemma_squeezed_tidy(s.drop_last());
        let before = squeezed(s.drop_last());
        let now = squeezed(s);
        if before.len() > 0 {
            assert(before.last() == before[before.len() - 1]);
        }
        assert forall|i: int| 0 <= i < now.len() implies half_width(#[trigger] now[i]) == now[i] by {
            if i < before.len() {
                assert(now[i] == before[i]);
            }
        }
        assert forall|i: int| 0 <= i < now.len() && is_space(#[trigger] now[i]) implies now[i]
            == ' ' by {
            if i < before.len() {
                assert(now[i] == before[i]);
            }
        }
        assert forall|i: int, j: int|
            #![trigger now[i], now[j]]
            0 <= i && j == i + 1 && j < now.len() implies !(now[i] == ' ' && now[j] == ' ') by {
            if j < before.len() {
                assert(now[i] == before[i] && now[j] == before[j]);
            }
        }
        if now.len() > 0 && before.len() > 0 {
            assert(now[0] == before[0]);
        }
    }
}

proof fn lemma_tidy_stays(s: Seq<char>)
    requires
        tidy(s),
    ensures
        squeezed(s) == s,
    decreases s.len(),
{
    if s.len() > 0 {
        let t = s.drop_last();
        assert(forall|i: int| 0 <= i < t.len() ==> t[i] == s[i]);
        lemma_tidy_stays(t);
        assert(s =~= t.push(s.last()));
        assert(s.last() == s[s.len() - 1]);
        if t.len() > 0 {
            assert(t.last() == s[s.len() - 2]);
        }
    } else {
        assert(squeezed(s) =~= s);
    }
}

/// The normal form is made of half-width words with single blanks between them, and neither begins
/// nor ends with white space.
pub proof fn normal_form_is_tidy(s: Seq<char>)
    ensures
        tidy(normal(s)),
        normal(s).len() > 0 ==> !is_space(normal(s).last()),
{
    let t = squeezed(s);
    lemma_squeezed_tidy(s);
    let r = lemma_trimmed_shape(t);
    let n = normal(s);
    assert forall|i: int| 0 <= i < n.len() implies half_width(#[trigger] n[i]) == n[i] by {
        assert(n[i] == t[r.0 + i]);
    }
    assert forall|i: int| 0 <= i < n.len() && is_space(#[trigger] n[i]) implies n[i] == ' ' by {
        assert(n[i] == t[r.0 + i]);
    }
    assert forall|i: int, j: int|
        #![trigger n[i], n[j]]
        0 <= i && j == i + 1 && j < n.len() implies !(n[i] == ' ' && n[j] == ' ') by {
        assert(n[i] == t[r.0 + i] && n[j] == t[r.0 + j]);
    }
}

/// Normalising twice is the same as normalising once.
pub proof fn normalize_is_idempotent(s: Seq<char>)
    ensures
        normal(normal(s)) == normal(s),
{
    normal_form_is_tidy(s);
    let n = normal(s);
    lemma_tidy_stays(n);
    if n.len() > 0 {
        assert(n.last() == n[n.len() - 1]);
    }
    assert(crate::text::trimmed_start(n) == n);
}

fn fullwidth_to_half(c: char) -> (r: char)
    ensures
        r == half_width(c),
{
    let u: u32 = c as u32;
    if u == 0x3000 {
        ' '
    } else if 0xFF01 <= u && u <= 0xFF5E {
        let b: u8 = (u - 0xFEE0) as u8;
        b as char
    } else {
        c
    }
}

/// Brings a text to its normal form.
pub fn normalize_chars(v: &[char]) -> (r: Vec<char>)
    ensures
        r@ == normal(v@),
{
    let mut out: Vec<char> = Vec::new();
    let mut i: usize = 0;
    while i < v.len()
        invariant
            i <= v@.len(),
            out@ == squeezed(v@.take(i as int)),
        decreases v@.len() - i,
    {
        proof {
            assert(v@.take(i + 1).drop_last() =~= v@.take(i as int));
        }
        let c = fullwidth_to_half(v[i]);
        if space(c) {
            if out.len() > 0 && out[out.len() - 1] != ' ' {
                out.push(' ');
            }
        } else {
            out.push(c);
        }
        i += 1;
    }
    assert(v@.take(i as int) =~= v@);
    let t = trim(out.as_slice());
    crate::text::copy(t)
}

/// Brings a text to its normal form.
pub fn normalize(s: &str) -> (r: String)
    ensures
        r@ == normal(s@),
{
    let v = to_chars(s);
    let n = normalize_chars(v.as_slice());
    to_text(n.as_slice())
}

// ---------------------------------------------------------------------------------------------
// Character classes
// ---------------------------------------------------------------------------------------------

/// The Chinese characters of the basic block and of extension A.
pub open spec fn hanzi(c: char) -> bool {
    let u = c as u32;
    0x4E00 <= u <= 0x9FFF || 0x3400 <= u <= 0x4DBF
}

/// Whether a character is a Chinese character.
pub fn is_hanzi(c: char) -> (r: bool)
    ensures
        r == hanzi(c),
{
    let u: u32 = c as u32;
    (0x4E00 <= u && u <= 0x9FFF) || (0x3400 <= u && u <= 0x4DBF)
}

/// The ASCII letters and digits.
pub open spec fn ascii_alnum(c: char) -> bool {
    let u = c as u32;
    0x30 <= u <= 0x39 || 0x41 <= u <= 0x5A || 0x61 <= u <= 0x7A
}

/// Whether a character is an ASCII letter or digit.
pub fn is_latin_or_digit(c: char) -> (r: bool)
    ensures
        r == ascii_alnum(c),
{
    let u: u32 = c as u32;
    (0x30 <= u && u <= 0x39) || (0x41 <= u && u <= 0x5A) || (0x61 <= u && u <= 0x7A)
}

/// The lower-case form of an ASCII letter; other characters stay.
pub open spec fn ascii_lower(c: char) -> char {
    let u = c as u32;
    if 0x41 <= u <= 0x5A {
        (u + 0x20) as char
    } else {
        c
    }
}

/// The text with its ASCII letters in lower case.
pub open spec fn lower_text(s: Seq<char>) -> Seq<char> {
    Seq::new(s.len(), |i: int| ascii_lower(s[i]))
}

/// Lower-cases an ASCII letter.
pub fn to_lower(c: char) -> (r: char)
    ensures
        r == ascii_lower(c),
{
    let u: u32 = c as u32;
    if 0x41 <= u && u <= 0x5A {
        let b: u8 = (u + 0x20) as u8;
        b as char
    } else {
        c
    }
}

/// Lower-cases the ASCII letters of a text.
pub fn lower_chars(v: &[char]) -> (r: Vec<char>)
    ensures
        r@ == lower_text(v@),
{
    let mut out: Vec<char> = Vec::new();
    let mut i: usize = 0;
    while i < v.len()
        invariant
            i <= v@.len(),
            out@ == lower_text(v@).take(i as int),
        decreases v@.len() - i,
    {
        out.push(to_lower(v[i]));
        i += 1;
    }
    assert(lower_text(v@).take(i as int) =~= lower_text(v@));
    out
}

/// The Chinese characters of a text, in order.
pub open spec fn hanzi_of(s: Seq<char>) -> Seq<char>
    decreases s.len(),
{
    if s.len() == 0 {
        Seq::empty()
    } else if hanzi(s.last()) {
        hanzi_of(s.drop_last()).push(s.last())
    } else {
        hanzi_of(s.drop_last())
    }
}

/// Picks the Chinese characters of a text.
pub fn hanzi_chars(v: &[char]) -> (r: Vec<char>)
    ensures
        r@ == hanzi_of(v@),
        r@.len() <= v@.len(),
{
    let mut out: Vec<char> = Vec::new();
    let mut i: usize = 0;
    while i < v.len()
        invariant
            i <= v@.len(),
            out@.len() <= i,
            out@ == hanzi_of(v@.take(i as int)),
        decreases v@.len() - i,
    {
        proof {
            assert(v@.take(i + 1).drop_last() =~= v@.take(i as int));
        }
        if is_hanzi(v[i]) {
            out.push(v[i]);
        }
        i += 1;
    }
    assert(v@.take(i as int) =~= v@);
    out
}

/// Counts the Chinese characters of a text.
pub fn hanzi_count(s: &str) -> (r: usize)
    ensures
        r == hanzi_of(s@).len(),
{
    let v = to_chars(s);
    hanzi_chars(v.as_slice()).len()
}

/// The first `n` characters of a text, or all of them when there are fewer.
pub fn first_n_chars(s: &str, n: usize) -> (r: String)
    ensures
        r@ == prefix(s@, n as int),
{
    let v = to_chars(s);
    to_text(take_prefix(v.as_slice(), n))
}

// ---------------------------------------------------------------------------------------------
// Keys
// ---------------------------------------------------------------------------------------------

/// The key of an entry that is told apart by its path, title and position.
pub open spec fn numbered_key(parent_path: Seq<char>, title: Seq<char>, ordinal: int) -> Seq<char> {
    sha1_text(normal(parent_path) + "|"@ + normal(title) + "|"@ + signed_decimal(ordinal))
}

/// The key of an entry made of its path, its title and its position in the document.
pub fn stable_key(parent_path: &str, title: &str, ordinal: i64) -> (r: String)
    ensures
        r@ == numbered_key(parent_path@, title@, ordinal as int),
{
    let bar = to_chars("|");
    let p = to_chars(parent_path);
    let t = to_chars(title);
    let mut m = normalize_chars(p.as_slice());
    extend(&mut m, bar.as_slice());
    let nt = normalize_chars(t.as_slice());
    extend(&mut m, nt.as_slice());
    extend(&mut m, bar.as_slice());
    let d = write_signed(ordinal);
    extend(&mut m, d.as_slice());
    let s = to_text(m.as_slice());
    sha1_hex(s.as_str())
}

/// The key of an entry that does not depend on its position.
pub open spec fn place_key(parent_path: Seq<char>, title: Seq<char>) -> Seq<char> {
    sha1_text(normal(parent_path) + "|"@ + normal(title))
}

/// The key of an entry made of its path and its title, which stays when entries before it come
/// or go.
pub fn path_key(parent_path: &str, title: &str) -> (r: String)
    ensures
        r@ == place_key(parent_path@, title@),
{
    let bar = to_chars("|");
    let p = to_chars(parent_path);
    let t = to_chars(title);
    let mut m = normalize_chars(p.as_slice());
    extend(&mut m, bar.as_slice());
    let nt = normalize_chars(t.as_slice());
    extend(&mut m, nt.as_slice());
    let s = to_text(m.as_slice());
    sha1_hex(s.as_str())
}

/// The key of an entry made of its path and the first eighty characters of its body.
pub open spec fn anchor_key(parent_path: Seq<char>, body: Seq<char>) -> Seq<char> {
    sha1_text(normal(parent_path) + "|"@ + prefix(normal(body), 80))
}

/// The key by which an entry is found again after its title changed.
pub fn alt_anchor(parent_path: &str, body: &str) -> (r: String)
    ensures
        r@ == anchor_key(parent_path@, body@),
{
    let bar = to_chars("|");
    let p = to_chars(parent_path);
    let b = to_chars(body);
    let mut m = normalize_chars(p.as_slice());
    extend(&mut m, bar.as_slice());
    let nb = normalize_chars(b.as_slice());
    extend(&mut m, take_prefix(nb.as_slice(), 80));
    let s = to_text(m.as_slice());
    sha1_hex(s.as_str())
}

// ---------------------------------------------------------------------------------------------
// What the normal form keeps
// ---------------------------------------------------------------------------------------------

/// The characters of a text in their half-width forms.
pub open spec fn halved(s: Seq<char>) -> Seq<char> {
    Seq::new(s.len(), |i: int| half_width(s[i]))
}

proof fn lemma_squeezed_solid(s: Seq<char>)
    ensures
        solid(squeezed(s)) == solid(halved(s)),
    decreases s.len(),
{
    if s.len() > 0 {
        let head = s.drop_last();
        lemma_squeezed_solid(head);
        assert(halved(s).drop_last() =~= halved(head));
        assert(halved(s).last() == half_width(s.last()));
        let before = squeezed(head);
        let now = squeezed(s);
        if now.len() > before.len() {
            assert(now.drop_last() =~= before);
        }
        assert(is_space(' '));
    } else {
        assert(halved(s) =~= squeezed(s));
    }
}

/// Normalising changes white space and the width of characters only: what is not white space stays,
/// in order.
pub proof fn normalizing_keeps_the_characters(s: Seq<char>)
    ensures
        solid(normal(s)) == solid(halved(s)),
{
    let t = squeezed(s);
    lemma_squeezed_solid(s);
    let r = lemma_trimmed_shape(t);
    let a = t.take(r.0);
    let b = t.subrange(r.0, r.1);
    let c = t.skip(r.1);
    assert(t =~= a + b + c);
    solid_keeps_all_but_white_space(a + b, c);
    solid_keeps_all_but_white_space(a, b);
    solid_keeps_all_but_white_space(Seq::empty(), a);
    assert(forall|i: int| 0 <= i < a.len() ==> is_space(#[trigger] a[i]));
    assert(forall|i: int| 0 <= i < c.len() ==> is_space(#[trigger] c[i]));
    assert(solid(a) =~= Seq::<char>::empty());
    assert(solid(c) =~= Seq::<char>::empty());
    assert(solid(t) =~= solid(b));
}

/// The Chinese characters of a text are those that pass the test, in order; texts may be taken
/// apart anywhere.
pub proof fn chinese_characters_are_picked(a: Seq<char>, b: Seq<char>)
    ensures
        hanzi_of(b) == b.filter(|c: char| hanzi(c)),
        hanzi_of(a + b) == hanzi_of(a) + hanzi_of(b),
    decreases b.len(),
{
    reveal(Seq::filter);
    if b.len() == 0 {
        assert(a + b =~= a);
    } else {
        let head = b.drop_last();
        chinese_characters_are_picked(a, head);
        assert((a + b).drop_last() =~= a + head);
        assert((a + b).last() == b.last());
        assert(hanzi_of(a + b) =~= hanzi_of(a) + hanzi_of(b));
    }
}

} // verus!
