//! Text as sequences of characters.
//!
//! Every rule of the library is stated over `Seq<char>`; the executable side works on `&[char]`
//! and converts to and from `String` at the edges.
use vstd::prelude::*;
use vstd::slice::slice_subrange;

verus! {

/// `String::push` of the standard library: appends one character to the end of the string.
pub assume_specification[ String::push ](s: &mut String, c: char)
    ensures
        final(s)@ == old(s)@.push(c),
;

/// The texts of a sequence of strings.
pub open spec fn texts(v: Seq<String>) -> Seq<Seq<char>> {
    Seq::new(v.len(), |i: int| v[i]@)
}

/// The texts of a sequence of character slices.
pub open spec fn pieces(v: Seq<&[char]>) -> Seq<Seq<char>> {
    Seq::new(v.len(), |i: int| v[i]@)
}

/// The texts of a sequence of character vectors.
pub open spec fn rows(v: Seq<Vec<char>>) -> Seq<Seq<char>> {
    Seq::new(v.len(), |i: int| v[i]@)
}

/// The characters of a string.
pub fn to_chars(s: &str) -> (r: Vec<char>)
    ensures
        r@ == s@,
{
    let mut out: Vec<char> = Vec::new();
    for c in it: s.chars()
        invariant
            out@ == it.seq().take(it.index() as int),
            it.seq() == s@,
    {
        out.push(c);
    }
    out
}

/// The string made of the given characters.
pub fn to_text(v: &[char]) -> (r: String)
    ensures
        r@ == v@,
{
    let mut out = String::new();
    push_all(&mut out, v);
    out
}

/// Appends characters to a string.
pub fn push_all(out: &mut String, v: &[char])
    ensures
        final(out)@ == old(out)@ + v@,
{
    let ghost start = out@;
    let mut i: usize = 0;
    while i < v.len()
        invariant
            i <= v@.len(),
            out@ == start + v@.take(i as int),
        decreases v@.len() - i,
    {
        out.push(v[i]);
        i += 1;
    }
    assert(v@.take(i as int) =~= v@);
}

/// Appends characters to a vector of characters.
pub fn extend(out: &mut Vec<char>, v: &[char])
    ensures
        final(out)@ == old(out)@ + v@,
{
    let ghost start = out@;
    let mut i: usize = 0;
    while i < v.len()
        invariant
            i <= v@.len(),
            out@ == start + v@.take(i as int),
        decreases v@.len() - i,
    {
        out.push(v[i]);
        i += 1;
    }
    assert(v@.take(i as int) =~= v@);
}

/// Appends the characters of a string to a vector of characters.
pub fn extend_str(out: &mut Vec<char>, s: &str)
    ensures
        final(out)@ == old(out)@ + s@,
{
    let v = to_chars(s);
    extend(out, v.as_slice());
}

/// The strings made of the given rows of characters.
pub fn to_texts(v: &Vec<Vec<char>>) -> (r: Vec<String>)
    ensures
        texts(r@) == rows(v@),
{
    let mut out: Vec<String> = Vec::new();
    let mut i: usize = 0;
    while i < v.len()
        invariant
            i <= v@.len(),
            out@.len() == i,
            forall|j: int| 0 <= j < i ==> (#[trigger] out@[j])@ == v@[j]@,
        decreases v@.len() - i,
    {
        out.push(to_text(v[i].as_slice()));
        i += 1;
    }
    assert(texts(out@) =~= rows(v@));
    out
}

/// A copy of a slice of characters.
pub fn copy(v: &[char]) -> (r: Vec<char>)
    ensures
        r@ == v@,
{
    let mut out: Vec<char> = Vec::new();
    extend(&mut out, v);
    out
}

/// The first `n` characters, or all of them when there are fewer.
pub open spec fn prefix(s: Seq<char>, n: int) -> Seq<char> {
    if n <= s.len() {
        s.take(n)
    } else {
        s
    }
}

/// The first `n` characters of a slice.
pub fn take_prefix(v: &[char], n: usize) -> (r: &[char])
    ensures
        r@ == prefix(v@, n as int),
{
    let m: usize = if n <= v.len() {
        n
    } else {
        v.len()
    };
    let r = slice_subrange(v, 0, m);
    assert(r@ =~= prefix(v@, n as int));
    r
}

/// Whether two slices hold the same text.
pub fn same(a: &[char], b: &[char]) -> (r: bool)
    ensures
        r == (a@ == b@),
{
    if a.len() != b.len() {
        return false;
    }
    let mut i: usize = 0;
    while i < a.len()
        invariant
            i <= a@.len(),
            a@.len() == b@.len(),
            forall|j: int| 0 <= j < i ==> a@[j] == b@[j],
        decreases a@.len() - i,
    {
        if a[i] != b[i] {
            return false;
        }
        i += 1;
    }
    assert(a@ =~= b@);
    true
}

/// Whether a slice holds the same text as a string.
pub fn same_str(a: &[char], b: &str) -> (r: bool)
    ensures
        r == (a@ == b@),
{
    let v = to_chars(b);
    same(a, v.as_slice())
}

// ---------------------------------------------------------------------------------------------
// White space
// ---------------------------------------------------------------------------------------------

/// The characters with the Unicode property `White_Space`.
pub open spec fn is_space(c: char) -> bool {
    let u = c as u32;
    ||| 0x09 <= u <= 0x0D
    ||| u == 0x20
    ||| u == 0x85
    ||| u == 0xA0
    ||| u == 0x1680
    ||| 0x2000 <= u <= 0x200A
    ||| u == 0x2028
    ||| u == 0x2029
    ||| u == 0x202F
    ||| u == 0x205F
    ||| u == 0x3000
}

/// Whether a character is white space.
pub fn space(c: char) -> (r: bool)
    ensures
        r == is_space(c),
{
    let u: u32 = c as u32;
    (0x09 <= u && u <= 0x0D) || u == 0x20 || u == 0x85 || u == 0xA0 || u == 0x1680 || (0x2000 <= u
        && u <= 0x200A) || u == 0x2028 || u == 0x2029 || u == 0x202F || u == 0x205F || u == 0x3000
}

/// The text without its leading white space.
pub open spec fn trimmed_start(s: Seq<char>) -> Seq<char>
    decreases s.len(),
{
    if s.len() > 0 && is_space(s[0]) {
        trimmed_start(s.drop_first())
    } else {
        s
    }
}

/// The text without its trailing white space.
pub open spec fn trimmed_end(s: Seq<char>) -> Seq<char>
    decreases s.len(),
{
    if s.len() > 0 && is_space(s.last()) {
        trimmed_end(s.drop_last())
    } else {
        s
    }
}

/// The text without leading and trailing white space.
pub open spec fn trimmed(s: Seq<char>) -> Seq<char> {
    trimmed_end(trimmed_start(s))
}

/// Whether a text is empty or made of white space only.
pub open spec fn is_blank(s: Seq<char>) -> bool {
    trimmed(s).len() == 0
}

pub proof fn lemma_trimmed_start_at(s: Seq<char>, k: int)
    requires
        0 <= k <= s.len(),
        forall|i: int| 0 <= i < k ==> is_space(#[trigger] s[i]),
        k == s.len() || !is_space(s[k]),
    ensures
        trimmed_start(s) == s.skip(k),
    decreases k,
{
    if k == 0 {
        assert(s.skip(0) =~= s);
    } else {
        let t = s.drop_first();
        assert forall|i: int| 0 <= i < k - 1 implies is_space(#[trigger] t[i]) by {
            assert(t[i] == s[i + 1]);
        }
        lemma_trimmed_start_at(t, k - 1);
        assert(is_space(s[0]));
        assert(t.skip(k - 1) =~= s.skip(k));
    }
}

pub proof fn lemma_trimmed_end_at(s: Seq<char>, e: int)
    requires
        0 <= e <= s.len(),
        forall|i: int| e <= i < s.len() ==> is_space(#[trigger] s[i]),
        e == 0 || !is_space(s[e - 1]),
    ensures
        trimmed_end(s) == s.take(e),
    decreases s.len() - e,
{
    if e == s.len() {
        assert(s.take(e) =~= s);
    } else {
        let t = s.drop_last();
        lemma_trimmed_end_at(t, e);
        assert(is_space(s[s.len() - 1]));
        assert(t.take(e) =~= s.take(e));
    }
}

/// Leading white space ends at `lead(s)`.
pub proof fn lemma_trimmed_start_shape(s: Seq<char>) -> (k: int)
    ensures
        0 <= k <= s.len(),
        trimmed_start(s) == s.skip(k),
        forall|i: int| 0 <= i < k ==> is_space(#[trigger] s[i]),
        k == s.len() || !is_space(s[k]),
    decreases s.len(),
{
    if s.len() > 0 && is_space(s[0]) {
        let t = s.drop_first();
        let k = lemma_trimmed_start_shape(t);
        assert(t.skip(k) =~= s.skip(k + 1));
        assert forall|i: int| 0 <= i < k + 1 implies is_space(#[trigger] s[i]) by {
            if i > 0 {
                assert(t[i - 1] == s[i]);
            }
        }
        if k < t.len() {
            assert(t[k] == s[k + 1]);
        }
        k + 1
    } else {
        assert(s.skip(0) =~= s);
        0
    }
}

/// Trailing white space starts at the returned position.
pub proof fn lemma_trimmed_end_shape(s: Seq<char>) -> (e: int)
    ensures
        0 <= e <= s.len(),
        trimmed_end(s) == s.take(e),
        forall|i: int| e <= i < s.len() ==> is_space(#[trigger] s[i]),
        e == 0 || !is_space(s[e - 1]),
    decreases s.len(),
{
    if s.len() > 0 && is_space(s.last()) {
        let t = s.drop_last();
        let e = lemma_trimmed_end_shape(t);
        assert(t.take(e) =~= s.take(e));
        assert forall|i: int| e <= i < s.len() implies is_space(#[trigger] s[i]) by {
            if i < s.len() - 1 {
                assert(t[i] == s[i]);
            }
        }
        if e > 0 {
            assert(t[e - 1] == s[e - 1]);
        }
        e
    } else {
        assert(s.take(s.len() as int) =~= s);
        s.len() as int
    }
}

/// The text without surrounding white space is one stretch of it; what lies outside is white
/// space, and its first and last characters are not.
pub proof fn lemma_trimmed_shape(s: Seq<char>) -> (r: (int, int))
    ensures
        0 <= r.0 <= r.1 <= s.len(),
        trimmed(s) == s.subrange(r.0, r.1),
        forall|i: int| 0 <= i < r.0 ==> is_space(#[trigger] s[i]),
        forall|i: int| r.1 <= i < s.len() ==> is_space(#[trigger] s[i]),
        r.0 < r.1 ==> !is_space(s[r.0]) && !is_space(s[r.1 - 1]),
{
    let k = lemma_trimmed_start_shape(s);
    let t = s.skip(k);
    let e = lemma_trimmed_end_shape(t);
    assert(t.take(e) =~= s.subrange(k, k + e));
    assert forall|i: int| k + e <= i < s.len() implies is_space(#[trigger] s[i]) by {
        assert(t[i - k] == s[i]);
    }
    if e > 0 {
        assert(t[0] == s[k]);
        assert(t[e - 1] == s[k + e - 1]);
    }
    (k, k + e)
}

/// The range of `v` left after trimming.
pub fn trim_range(v: &[char]) -> (r: (usize, usize))
    ensures
        r.0 <= r.1 <= v@.len(),
        v@.subrange(r.0 as int, r.1 as int) == trimmed(v@),
        forall|i: int| 0 <= i < r.0 ==> is_space(#[trigger] v@[i]),
        forall|i: int| r.1 <= i < v@.len() ==> is_space(#[trigger] v@[i]),
        r.0 < r.1 ==> !is_space(v@[r.0 as int]) && !is_space(v@[r.1 - 1]),
{
    let mut a: usize = 0;
    while a < v.len() && space(v[a])
        invariant
            a <= v@.len(),
            forall|i: int| 0 <= i < a ==> is_space(#[trigger] v@[i]),
        decreases v@.len() - a,
    {
        a += 1;
    }
    let mut b: usize = v.len();
    while b > a && space(v[b - 1])
        invariant
            a <= b <= v@.len(),
            forall|i: int| b <= i < v@.len() ==> is_space(#[trigger] v@[i]),
        decreases b,
    {
        b -= 1;
    }
    proof {
        lemma_trimmed_start_at(v@, a as int);
        let t = v@.skip(a as int);
        assert forall|i: int| b - a <= i < t.len() implies is_space(#[trigger] t[i]) by {
            assert(t[i] == v@[i + a]);
        }
        lemma_trimmed_end_at(t, b - a);
        assert(t.take(b - a) =~= v@.subrange(a as int, b as int));
    }
    (a, b)
}

/// Drops leading and trailing white space.
pub fn trim(v: &[char]) -> (r: &[char])
    ensures
        r@ == trimmed(v@),
{
    let (a, b) = trim_range(v);
    slice_subrange(v, a, b)
}

/// Drops trailing white space.
pub fn trim_end(v: &[char]) -> (r: &[char])
    ensures
        r@ == trimmed_end(v@),
{
    let mut b: usize = v.len();
    while b > 0 && space(v[b - 1])
        invariant
            b <= v@.len(),
            forall|i: int| b <= i < v@.len() ==> is_space(#[trigger] v@[i]),
        decreases b,
    {
        b -= 1;
    }
    proof {
        lemma_trimmed_end_at(v@, b as int);
        assert(v@.take(b as int) =~= v@.subrange(0, b as int));
    }
    slice_subrange(v, 0, b)
}

/// Whether there is nothing but white space.
pub fn blank(v: &[char]) -> (r: bool)
    ensures
        r == is_blank(v@),
{
    trim(v).len() == 0
}

} // verus!
