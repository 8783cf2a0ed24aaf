//! Positions in a text, counted in characters and in bytes of its UTF-8 form.
use crate::text::to_chars;
use vstd::prelude::*;
use vstd::utf8::encode_utf8;

verus! {

/// How many bytes a character takes in UTF-8.
pub open spec fn width(c: char) -> nat {
    let u = c as u32;
    if u < 0x80 {
        1
    } else if u < 0x800 {
        2
    } else if u < 0x10000 {
        3
    } else {
        4
    }
}

/// How many bytes a text takes in UTF-8.
pub open spec fn byte_len(s: Seq<char>) -> nat
    decreases s.len(),
{
    if s.len() == 0 {
        0
    } else {
        byte_len(s.drop_last()) + width(s.last())
    }
}

/// The byte position of the character position `i`.
pub open spec fn byte_pos(s: Seq<char>, i: int) -> nat {
    byte_len(s.take(i))
}

/// The last character position whose byte position is not after `b`.
pub open spec fn floor_pos(s: Seq<char>, b: int) -> int
    decreases s.len(),
{
    if s.len() == 0 || byte_len(s) <= b {
        s.len() as int
    } else {
        floor_pos(s.drop_last(), b)
    }
}

/// The first character position whose byte position is not before `b`, or the end of the text.
pub open spec fn ceil_pos(s: Seq<char>, b: int) -> int
    decreases s.len(),
{
    if s.len() == 0 || byte_len(s.drop_last()) < b {
        s.len() as int
    } else {
        ceil_pos(s.drop_last(), b)
    }
}

/// Whether the byte position `b` lies between two characters of `s`, or at one of its ends.
pub open spec fn is_boundary(s: Seq<char>, b: int) -> bool {
    exists|i: int| 0 <= i <= s.len() && #[trigger] byte_pos(s, i) == b
}

pub proof fn lemma_byte_len_concat(a: Seq<char>, b: Seq<char>)
    ensures
        byte_len(a + b) == byte_len(a) + byte_len(b),
    decreases b.len(),
{
    if b.len() == 0 {
        assert(a + b =~= a);
    } else {
        lemma_byte_len_concat(a, b.drop_last());
        assert((a + b).drop_last() =~= a + b.drop_last());
        assert((a + b).last() == b.last());
    }
}

/// Byte positions grow with character positions, by one to four bytes per character.
pub proof fn lemma_byte_pos_step(s: Seq<char>, i: int, j: int)
    requires
        0 <= i <= j <= s.len(),
    ensures
        byte_pos(s, j) == byte_pos(s, i) + byte_len(s.subrange(i, j)),
        byte_pos(s, i) + (j - i) <= byte_pos(s, j) <= byte_pos(s, i) + 4 * (j - i),
    decreases j - i,
{
    assert(s.take(j) =~= s.take(i) + s.subrange(i, j));
    lemma_byte_len_concat(s.take(i), s.subrange(i, j));
    if i < j {
        lemma_byte_pos_step(s, i, j - 1);
        assert(s.take(j).drop_last() =~= s.take(j - 1));
    }
}

/// Character positions are determined by their byte positions.
pub proof fn lemma_byte_pos_order(s: Seq<char>, i: int, j: int)
    requires
        0 <= i <= s.len(),
        0 <= j <= s.len(),
    ensures
        i < j <==> byte_pos(s, i) < byte_pos(s, j),
        i == j <==> byte_pos(s, i) == byte_pos(s, j),
{
    if i <= j {
        lemma_byte_pos_step(s, i, j);
    } else {
        lemma_byte_pos_step(s, j, i);
    }
}

pub proof fn lemma_byte_pos_end(s: Seq<char>)
    ensures
        byte_pos(s, s.len() as int) == byte_len(s),
        byte_pos(s, 0) == 0,
{
    assert(s.take(s.len() as int) =~= s);
    assert(s.take(0) =~= Seq::<char>::empty());
}

/// `floor_pos` is the last position not after `b`.
pub proof fn lemma_floor_pos(s: Seq<char>, b: int)
    requires
        0 <= b,
    ensures
        0 <= floor_pos(s, b) <= s.len(),
        byte_pos(s, floor_pos(s, b)) <= b,
        floor_pos(s, b) < s.len() ==> b < byte_pos(s, floor_pos(s, b) + 1),
    decreases s.len(),
{
    lemma_byte_pos_end(s);
    if s.len() == 0 || byte_len(s) <= b {
    } else {
        let t = s.drop_last();
        lemma_floor_pos(t, b);
        let k = floor_pos(t, b);
        assert(t.take(k) =~= s.take(k));
        if k < t.len() {
            assert(t.take(k + 1) =~= s.take(k + 1));
        }
    }
}

/// `ceil_pos` is the first position not before `b`.
pub proof fn lemma_ceil_pos(s: Seq<char>, b: int)
    ensures
        0 <= ceil_pos(s, b) <= s.len(),
        ceil_pos(s, b) < s.len() ==> byte_pos(s, ceil_pos(s, b)) >= b,
        b <= byte_len(s) ==> byte_pos(s, ceil_pos(s, b)) >= b,
        ceil_pos(s, b) > 0 ==> byte_pos(s, ceil_pos(s, b) - 1) < b,
    decreases s.len(),
{
    lemma_byte_pos_end(s);
    if s.len() == 0 {
    } else {
        let t = s.drop_last();
        assert(s.take(s.len() - 1) =~= t);
        if byte_len(t) < b {
        } else {
            lemma_ceil_pos(t, b);
            let k = ceil_pos(t, b);
            assert(t.take(k) =~= s.take(k));
            if k > 0 {
                assert(t.take(k - 1) =~= s.take(k - 1));
            }
        }
    }
}

/// Nothing lies at or after the end but the end itself.
pub proof fn lemma_ceil_far(s: Seq<char>, b: int)
    requires
        b >= byte_len(s),
    ensures
        ceil_pos(s, b) == s.len(),
{
}

/// The floor and the ceiling of the byte position of a character are that character's position.
pub proof fn lemma_floor_of_pos(s: Seq<char>, i: int)
    requires
        0 <= i <= s.len(),
    ensures
        floor_pos(s, byte_pos(s, i) as int) == i,
        ceil_pos(s, byte_pos(s, i) as int) == i,
{
    let b = byte_pos(s, i) as int;
    lemma_floor_pos(s, b);
    let k = floor_pos(s, b);
    lemma_byte_pos_order(s, i, k);
    if k < s.len() {
        lemma_byte_pos_order(s, i, k + 1);
    }
    lemma_ceil_pos(s, b);
    let c = ceil_pos(s, b);
    lemma_byte_pos_end(s);
    lemma_byte_pos_order(s, i, s.len() as int);
    lemma_byte_pos_order(s, i, c);
    lemma_byte_pos_order(s, c, i);
    if c > 0 {
        lemma_byte_pos_order(s, c - 1, i);
    }
}

/// `byte_len` is the length of the UTF-8 encoding.
pub proof fn byte_len_is_utf8_len(s: Seq<char>)
    ensures
        byte_len(s) == encode_utf8(s).len(),
    decreases s.len(),
{
    if s.len() > 0 {
        let rest = s.drop_first();
        byte_len_is_utf8_len(rest);
        assert(s =~= seq![s[0]] + rest);
        lemma_byte_len_concat(seq![s[0]], rest);
        assert(seq![s[0]].drop_last() =~= Seq::<char>::empty());
        assert(byte_len(seq![s[0]]) == width(s[0])) by {
            reveal_with_fuel(byte_len, 2);
        }
        vstd::utf8::char_is_scalar(s[0]);
    }
}

/// The width of a character in UTF-8.
pub fn char_width(c: char) -> (r: usize)
    ensures
        r == width(c),
        1 <= r <= 4,
{
    let u: u32 = c as u32;
    if u < 0x80 {
        1
    } else if u < 0x800 {
        2
    } else if u < 0x10000 {
        3
    } else {
        4
    }
}

/// Counts the bytes that characters take in UTF-8.
pub fn count_bytes(v: &[char]) -> (r: u128)
    ensures
        r == byte_len(v@),
{
    let mut n: u128 = 0;
    let mut i: usize = 0;
    while i < v.len()
        invariant
            i <= v@.len(),
            n == byte_len(v@.take(i as int)),
            n <= 4 * i,
        decreases v@.len() - i,
    {
        assert(v@.take(i + 1).drop_last() =~= v@.take(i as int));
        n = n + char_width(v[i]) as u128;
        i += 1;
    }
    assert(v@.take(i as int) =~= v@);
    n
}

/// A text with the byte position of each of its characters.
pub struct Source {
    pub chars: Vec<char>,
    pub offs: Vec<usize>,
}

impl View for Source {
    type V = Seq<char>;

    open spec fn view(&self) -> Seq<char> {
        self.chars@
    }
}

impl Source {
    /// `offs[i]` is the byte position of character `i`; the last entry is the byte length.
    pub open spec fn wf(&self) -> bool {
        &&& self.offs@.len() == self.chars@.len() + 1
        &&& forall|i: int|
            0 <= i <= self.chars@.len() ==> #[trigger] self.offs@[i] == byte_pos(self.chars@, i)
    }

    /// Indexes a string.
    pub fn new(s: &str) -> (r: Source)
        ensures
            r.wf(),
            r@ == s@,
            byte_len(s@) <= usize::MAX,
    {
        let bytes = s.as_bytes();
        let total = bytes.len();
        proof {
            byte_len_is_utf8_len(s@);
        }
        let chars = to_chars(s);
        let mut offs: Vec<usize> = Vec::new();
        let mut at: usize = 0;
        let mut i: usize = 0;
        proof {
            lemma_byte_pos_end(s@);
        }
        offs.push(0);
        while i < chars.len()
            invariant
                i <= chars@.len(),
                chars@ == s@,
                total == byte_len(s@),
                offs@.len() == i + 1,
                at == byte_pos(s@, i as int),
                forall|j: int| 0 <= j <= i ==> #[trigger] offs@[j] == byte_pos(s@, j),
            decreases chars@.len() - i,
        {
            proof {
                lemma_byte_pos_step(s@, i as int, i + 1);
                lemma_byte_pos_step(s@, i + 1, s@.len() as int);
                lemma_byte_pos_end(s@);
                assert(s@.take(i + 1).drop_last() =~= s@.take(i as int));
            }
            at = at + char_width(chars[i]);
            offs.push(at);
            i += 1;
        }
        Source { chars, offs }
    }

    /// The last character position not after byte `b`.
    pub fn floor(&self, b: usize) -> (r: usize)
        requires
            self.wf(),
        ensures
            r == floor_pos(self@, b as int),
            r <= self@.len(),
    {
        let mut k: usize = self.chars.len();
        proof {
            lemma_floor_pos(self@, b as int);
            lemma_byte_pos_end(self@);
        }
        while k > 0 && self.offs[k] > b
            invariant
                self.wf(),
                k <= self@.len(),
                floor_pos(self@, b as int) <= k,
                0 <= floor_pos(self@, b as int) <= self@.len(),
                byte_pos(self@, floor_pos(self@, b as int)) <= b,
                floor_pos(self@, b as int) < self@.len() ==> b < byte_pos(
                    self@,
                    floor_pos(self@, b as int) + 1,
                ),
            decreases k,
        {
            proof {
                lemma_byte_pos_order(self@, floor_pos(self@, b as int), k as int);
            }
            k -= 1;
        }
        proof {
            let f = floor_pos(self@, b as int);
            if f < k {
                lemma_byte_pos_order(self@, f + 1, k as int);
                lemma_byte_pos_order(self@, k as int, f + 1);
            }
        }
        k
    }

    /// The first character position not before byte `b`.
    pub fn ceil(&self, b: usize) -> (r: usize)
        requires
            self.wf(),
        ensures
            r == ceil_pos(self@, b as int),
            r <= self@.len(),
    {
        let mut k: usize = 0;
        proof {
            lemma_ceil_pos(self@, b as int);
        }
        while k < self.chars.len() && self.offs[k] < b
            invariant
                self.wf(),
                k <= self@.len(),
                k <= ceil_pos(self@, b as int),
                0 <= ceil_pos(self@, b as int) <= self@.len(),
                ceil_pos(self@, b as int) < self@.len() ==> byte_pos(
                    self@,
                    ceil_pos(self@, b as int),
                ) >= b,
                ceil_pos(self@, b as int) > 0 ==> byte_pos(self@, ceil_pos(self@, b as int) - 1)
                    < b,
            decreases self@.len() - k,
        {
            k += 1;
        }
        proof {
            let f = ceil_pos(self@, b as int);
            if k < f {
                lemma_byte_pos_order(self@, f - 1, k as int);
                lemma_byte_pos_order(self@, k as int, f - 1);
            }
        }
        k
    }
}

} // verus!
