//! How alike two texts are: the share of neighbouring character pairs that they have in common.
use crate::text::{is_space, space};
use vstd::multiset::Multiset;
use vstd::prelude::*;

verus! {

/// The text without its white space.
pub open spec fn solid(s: Seq<char>) -> Seq<char>
    decreases s.len(),
{
    if s.len() == 0 {
        Seq::empty()
    } else if is_space(s.last()) {
        solid(s.drop_last())
    } else {
        solid(s.drop_last()).push(s.last())
    }
}

/// The pairs of neighbouring characters of a text, white space left out.
pub open spec fn pairs(s: Seq<char>) -> Seq<(char, char)> {
    let w = solid(s);
    if w.len() < 2 {
        Seq::empty()
    } else {
        Seq::new((w.len() - 1) as nat, |i: int| (w[i], w[i + 1]))
    }
}

/// How many pairs two lists have in common, each counted as often as it stands in both.
pub open spec fn in_common(a: Seq<(char, char)>, b: Seq<(char, char)>) -> nat {
    a.to_multiset().intersection_with(b.to_multiset()).len()
}

/// A fraction between zero and one.
#[derive(Debug, Clone, Copy)]
pub struct Share {
    pub num: u128,
    pub den: u128,
}

/// Twice the pairs in common over all pairs of both texts, as a numerator and a denominator; zero
/// when one of the texts has no pair.
pub open spec fn dice(a: Seq<char>, b: Seq<char>) -> (nat, nat) {
    let x = pairs(a);
    let y = pairs(b);
    if x.len() == 0 || y.len() == 0 {
        (0, 1)
    } else {
        (2 * in_common(x, y), x.len() + y.len())
    }
}

/// Whether a share is seven tenths or more.
pub open spec fn is_close(f: (nat, nat)) -> bool {
    10 * f.0 >= 7 * f.1
}

/// Whether share `f` is greater than share `g`.
pub open spec fn exceeds(f: (nat, nat), g: (nat, nat)) -> bool {
    f.0 * g.1 > g.0 * f.1
}

proof fn lemma_common_step(a: Multiset<(char, char)>, b: Multiset<(char, char)>, g: (char, char))
    requires
        a.count(g) > 0,
    ensures
        b.count(g) > 0 ==> a.intersection_with(b).len() == 1 + a.remove(g).intersection_with(
            b.remove(g),
        ).len(),
        b.count(g) == 0 ==> a.intersection_with(b).len() == a.remove(g).intersection_with(b).len(),
{
    broadcast use {vstd::multiset::group_multiset_axioms, vstd::multiset::group_multiset_properties};

    if b.count(g) > 0 {
        let rest = a.remove(g).intersection_with(b.remove(g));
        assert(a.intersection_with(b) =~= rest.insert(g));
    } else {
        assert(a.intersection_with(b) =~= a.remove(g).intersection_with(b));
    }
}

proof fn lemma_common_hit(a: Seq<(char, char)>, b: Seq<(char, char)>, k: int)
    requires
        a.len() > 0,
        0 <= k < b.len(),
        b[k] == a[0],
    ensures
        in_common(a, b) == 1 + in_common(a.remove(0), b.remove(k)),
{
    broadcast use vstd::seq_lib::group_to_multiset_ensures;

    assert(a.contains(a[0]));
    assert(b.contains(b[k]));
    lemma_common_step(a.to_multiset(), b.to_multiset(), a[0]);
}

proof fn lemma_common_miss(a: Seq<(char, char)>, b: Seq<(char, char)>)
    requires
        a.len() > 0,
        !b.contains(a[0]),
    ensures
        in_common(a, b) == in_common(a.remove(0), b),
{
    broadcast use vstd::seq_lib::group_to_multiset_ensures;

    assert(a.contains(a[0]));
    lemma_common_step(a.to_multiset(), b.to_multiset(), a[0]);
}

proof fn lemma_common_none(b: Seq<(char, char)>)
    ensures
        in_common(Seq::empty(), b) == 0,
{
    broadcast use {vstd::multiset::group_multiset_axioms, vstd::multiset::group_multiset_properties, vstd::seq_lib::group_to_multiset_ensures};

    let empty = Multiset::<(char, char)>::empty();
    assert(Seq::<(char, char)>::empty().to_multiset() =~= empty);
    assert(empty.intersection_with(b.to_multiset()) =~= empty);
}

fn find_pairs(v: &[char]) -> (r: Vec<(char, char)>)
    ensures
        r@ == pairs(v@),
        r@.len() <= v@.len(),
{
    let mut w: Vec<char> = Vec::new();
    let mut i: usize = 0;
    while i < v.len()
        invariant
            i <= v@.len(),
            w@.len() <= i,
            w@ == solid(v@.take(i as int)),
        decreases v@.len() - i,
    {
        assert(v@.take(i + 1).drop_last() =~= v@.take(i as int));
        if !space(v[i]) {
            w.push(v[i]);
        }
        i += 1;
    }
    assert(v@.take(i as int) =~= v@);
    let mut out: Vec<(char, char)> = Vec::new();
    let mut k: usize = 1;
    while k < w.len()
        invariant
            1 <= k,
            k <= w@.len() || k == 1,
            w@ == solid(v@),
            w@.len() <= v@.len(),
            out@.len() == k - 1,
            forall|j: int| 0 <= j < out@.len() ==> #[trigger] out@[j] == (w@[j], w@[j + 1]),
        decreases w@.len() - k,
    {
        out.push((w[k - 1], w[k]));
        k += 1;
    }
    assert(out@ =~= pairs(v@));
    out
}

fn count_common(a: &Vec<(char, char)>, b: Vec<(char, char)>) -> (r: usize)
    ensures
        r == in_common(a@, b@),
        r <= a@.len(),
        r <= b@.len(),
{
    let ghost total = in_common(a@, b@);
    let ghost n = b@.len();
    let mut rest = b;
    let mut hit: usize = 0;
    let mut i: usize = 0;
    assert(a@.skip(0) =~= a@);
    while i < a.len()
        invariant
            i <= a@.len(),
            hit <= i,
            hit + rest@.len() == n,
            hit + in_common(a@.skip(i as int), rest@) == total,
        decreases a@.len() - i,
    {
        let ghost left = a@.skip(i as int);
        let g = a[i];
        let mut k: usize = 0;
        while k < rest.len() && !(rest[k].0 == g.0 && rest[k].1 == g.1)
            invariant
                k <= rest@.len(),
                forall|j: int| 0 <= j < k ==> rest@[j] != g,
            decreases rest@.len() - k,
        {
            k += 1;
        }
        assert(left.remove(0) =~= a@.skip(i + 1));
        if k < rest.len() {
            proof {
                lemma_common_hit(left, rest@, k as int);
            }
            rest.remove(k);
            hit += 1;
        } else {
            proof {
                lemma_common_miss(left, rest@);
            }
        }
        i += 1;
    }
    proof {
        assert(a@.skip(i as int) =~= Seq::<(char, char)>::empty());
        lemma_common_none(rest@);
    }
    hit
}

/// Computes how alike two texts are.
pub fn share(a: &[char], b: &[char]) -> (r: Share)
    ensures
        (r.num as nat, r.den as nat) == dice(a@, b@),
        r.num <= 2 * a@.len(),
        r.num <= 2 * b@.len(),
        1 <= r.den <= 2 * usize::MAX,
        r.num <= 2 * usize::MAX,
{
    let x = find_pairs(a);
    let y = find_pairs(b);
    if x.len() == 0 || y.len() == 0 {
        return Share { num: 0, den: 1 };
    }
    let den: u128 = x.len() as u128 + y.len() as u128;
    let hit = count_common(&x, y);
    Share { num: 2 * (hit as u128), den }
}

impl Share {
    /// The share as numerator and denominator.
    pub open spec fn parts(&self) -> (nat, nat) {
        (self.num as nat, self.den as nat)
    }

    /// Whether the share is seven tenths or more.
    pub fn close(&self) -> (r: bool)
        requires
            self.num <= 2 * usize::MAX,
            self.den <= 2 * usize::MAX,
        ensures
            r == is_close(self.parts()),
    {
        10 * self.num >= 7 * self.den
    }

    /// Whether the share is greater than another.
    pub fn greater(&self, other: &Share) -> (r: bool)
        requires
            self.num <= u64::MAX,
            self.den <= u64::MAX,
            other.num <= u64::MAX,
            other.den <= u64::MAX,
        ensures
            r == exceeds(self.parts(), other.parts()),
    {
        assert(self.num * other.den <= u64::MAX * u64::MAX) by (nonlinear_arith)
            requires
                self.num <= u64::MAX,
                other.den <= u64::MAX,
        ;
        assert(other.num * self.den <= u64::MAX * u64::MAX) by (nonlinear_arith)
            requires
                other.num <= u64::MAX,
                self.den <= u64::MAX,
        ;
        self.num * other.den > other.num * self.den
    }
}

// ---------------------------------------------------------------------------------------------
// What likeness is
// ---------------------------------------------------------------------------------------------

proof fn lemma_common_bounds(a: Seq<(char, char)>, b: Seq<(char, char)>)
    ensures
        in_common(a, b) == in_common(b, a),
        in_common(a, b) <= a.len(),
        in_common(a, a) == a.len(),
{
    broadcast use {vstd::multiset::group_multiset_axioms, vstd::multiset::group_multiset_properties, vstd::seq_lib::group_to_multiset_ensures};

    let x = a.to_multiset();
    let y = b.to_multiset();
    assert(x.intersection_with(y) =~= y.intersection_with(x));
    assert(x.intersection_with(x) =~= x);
    let both = x.intersection_with(y);
    assert(both.add(x.sub(both)) =~= x);
    assert(both.len() + x.sub(both).len() == x.len());
}

/// Likeness goes both ways, and never exceeds one.
pub proof fn likeness_goes_both_ways(a: Seq<char>, b: Seq<char>)
    ensures
        dice(a, b) == dice(b, a),
        dice(a, b).0 <= dice(a, b).1,
        dice(a, b).1 > 0,
{
    lemma_common_bounds(pairs(a), pairs(b));
    lemma_common_bounds(pairs(b), pairs(a));
}

/// A text with two characters at least, white space left out, is wholly like itself.
pub proof fn texts_are_like_themselves(a: Seq<char>)
    requires
        solid(a).len() >= 2,
    ensures
        dice(a, a).0 == dice(a, a).1,
        is_close(dice(a, a)),
{
    lemma_common_bounds(pairs(a), pairs(a));
}

/// Texts that share no pair of neighbouring characters are not alike at all.
pub proof fn strangers_are_not_alike(a: Seq<char>, b: Seq<char>)
    requires
        forall|i: int, j: int|
            #![trigger pairs(a)[i], pairs(b)[j]]
            0 <= i < pairs(a).len() && 0 <= j < pairs(b).len() ==> pairs(a)[i] != pairs(b)[j],
    ensures
        dice(a, b).0 == 0,
        !is_close(dice(a, b)),
{
    broadcast use {vstd::multiset::group_multiset_axioms, vstd::multiset::group_multiset_properties, vstd::seq_lib::group_to_multiset_ensures};

    let x = pairs(a).to_multiset();
    let y = pairs(b).to_multiset();
    assert forall|g: (char, char)| x.intersection_with(y).count(g) == 0 by {
        if x.count(g) > 0 && y.count(g) > 0 {
            assert(pairs(a).contains(g));
            assert(pairs(b).contains(g));
        }
    }
    assert(x.intersection_with(y) =~= Multiset::empty());
}

/// The characters that are no white space stay, in order, and no others; texts may be taken apart
/// anywhere.
pub proof fn solid_keeps_all_but_white_space(a: Seq<char>, b: Seq<char>)
    ensures
        solid(a + b) == solid(a) + solid(b),
        (forall|i: int| 0 <= i < b.len() ==> is_space(#[trigger] b[i])) ==> solid(b).len() == 0,
        (forall|i: int| 0 <= i < b.len() ==> !is_space(#[trigger] b[i])) ==> solid(b) == b,
    decreases b.len(),
{
    if b.len() == 0 {
        assert(a + b =~= a);
        assert(solid(b) =~= b);
    } else {
        let head = b.drop_last();
        solid_keeps_all_but_white_space(a, head);
        assert((a + b).drop_last() =~= a + head);
        assert((a + b).last() == b.last());
        assert(b.last() == b[b.len() - 1]);
        assert(forall|i: int| 0 <= i < head.len() ==> head[i] == b[i]);
        if forall|i: int| 0 <= i < b.len() ==> !is_space(#[trigger] b[i]) {
            assert forall|i: int| 0 <= i < head.len() implies !is_space(#[trigger] head[i]) by {
                assert(head[i] == b[i]);
            }
            assert(head.push(b.last()) =~= b);
        }
        if forall|i: int| 0 <= i < b.len() ==> is_space(#[trigger] b[i]) {
            assert forall|i: int| 0 <= i < head.len() implies is_space(#[trigger] head[i]) by {
                assert(head[i] == b[i]);
            }
        }
        assert(solid(a + b) =~= solid(a) + solid(b));
    }
}

} // verus!
