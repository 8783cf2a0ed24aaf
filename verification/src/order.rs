//! Orders: texts by their characters, and stable sorting by an integer key.
use crate::text::{copy, rows};
use vstd::prelude::*;

verus! {

// ---------------------------------------------------------------------------------------------
// Texts
// ---------------------------------------------------------------------------------------------

/// The order of texts by their first differing character, a prefix coming first. It is also the
/// order of their UTF-8 forms.
pub open spec fn text_less(a: Seq<char>, b: Seq<char>) -> bool
    decreases a.len(),
{
    if b.len() == 0 {
        false
    } else if a.len() == 0 {
        true
    } else if a[0] == b[0] {
        text_less(a.drop_first(), b.drop_first())
    } else {
        a[0] < b[0]
    }
}

/// An ascending list of texts with `x` in its place; it stays as it is when it holds `x`.
pub open spec fn with_text(s: Seq<Seq<char>>, x: Seq<char>) -> Seq<Seq<char>>
    decreases s.len(),
{
    if s.len() == 0 {
        seq![x]
    } else if s.last() == x {
        s
    } else if text_less(s.last(), x) {
        s.push(x)
    } else {
        with_text(s.drop_last(), x).push(s.last())
    }
}

/// The texts of a list in ascending order, each once.
pub open spec fn sorted_texts(s: Seq<Seq<char>>) -> Seq<Seq<char>>
    decreases s.len(),
{
    if s.len() == 0 {
        Seq::empty()
    } else {
        with_text(sorted_texts(s.drop_last()), s.last())
    }
}

/// Whether each text of a list comes before all that follow it.
pub open spec fn ascending(s: Seq<Seq<char>>) -> bool {
    forall|i: int, j: int|
        #![trigger s[i], s[j]]
        0 <= i < j < s.len() ==> text_less(s[i], s[j])
}

/// Of two different texts exactly one comes before the other, and no text comes before itself.
pub proof fn text_order_is_total(a: Seq<char>, b: Seq<char>)
    ensures
        a == b ==> !text_less(a, b),
        a != b ==> text_less(a, b) != text_less(b, a),
    decreases a.len(),
{
    if a.len() > 0 && b.len() > 0 && a[0] == b[0] {
        text_order_is_total(a.drop_first(), b.drop_first());
        if a.drop_first() == b.drop_first() {
            assert(a =~= seq![a[0]] + a.drop_first());
            assert(b =~= seq![b[0]] + b.drop_first());
        }
    } else if a.len() == 0 && b.len() == 0 {
        assert(a =~= b);
    }
}

/// The order of texts is transitive.
pub proof fn text_order_is_transitive(a: Seq<char>, b: Seq<char>, c: Seq<char>)
    requires
        text_less(a, b),
        text_less(b, c),
    ensures
        text_less(a, c),
    decreases a.len(),
{
    if a.len() > 0 && a[0] == b[0] && b[0] == c[0] {
        text_order_is_transitive(a.drop_first(), b.drop_first(), c.drop_first());
    }
}

proof fn lemma_with_text(s: Seq<Seq<char>>, x: Seq<char>)
    requires
        ascending(s),
    ensures
        ascending(with_text(s, x)),
        forall|t: Seq<char>| #[trigger]
            with_text(s, x).contains(t) <==> s.contains(t) || t == x,
    decreases s.len(),
{
    let r = with_text(s, x);
    if s.len() == 0 {
        assert(r[0] == x);
        assert forall|t: Seq<char>| #[trigger] r.contains(t) implies t == x by {}
    } else if s.last() == x {
        assert(s[s.len() - 1] == x);
    } else if text_less(s.last(), x) {
        assert forall|i: int, j: int|
            #![trigger r[i], r[j]]
            0 <= i < j < r.len() implies text_less(r[i], r[j]) by {
            if j == s.len() && i < s.len() - 1 {
                text_order_is_transitive(s[i], s.last(), x);
            }
        }
        assert(r[s.len() as int] == x);
        assert forall|t: Seq<char>| #[trigger] r.contains(t) <==> s.contains(t) || t == x by {
            if s.contains(t) {
                let k = choose|k: int| 0 <= k < s.len() && s[k] == t;
                assert(r[k] == t);
            }
            if r.contains(t) {
                let k = choose|k: int| 0 <= k < r.len() && r[k] == t;
                if k < s.len() {
                    assert(s[k] == t);
                }
            }
        }
    } else {
        let p = s.drop_last();
        let q = with_text(p, x);
        lemma_with_text(p, x);
        text_order_is_total(s.last(), x);
        assert forall|i: int, j: int|
            #![trigger r[i], r[j]]
            0 <= i < j < r.len() implies text_less(r[i], r[j]) by {
            if j == q.len() {
                assert(q.contains(q[i]));
                if p.contains(q[i]) {
                    let k = choose|k: int| 0 <= k < p.len() && p[k] == q[i];
                    assert(s[k] == q[i] && s[s.len() - 1] == s.last());
                }
            }
        }
        assert forall|t: Seq<char>| #[trigger] r.contains(t) <==> s.contains(t) || t == x by {
            if r.contains(t) {
                let k = choose|k: int| 0 <= k < r.len() && r[k] == t;
                if k < q.len() {
                    assert(q.contains(t));
                    if p.contains(t) {
                        let m = choose|m: int| 0 <= m < p.len() && p[m] == t;
                        assert(s[m] == t);
                    }
                } else {
                    assert(s[s.len() - 1] == t);
                }
            }
            if s.contains(t) {
                let k = choose|k: int| 0 <= k < s.len() && s[k] == t;
                if k < p.len() {
                    assert(p[k] == t);
                    assert(q.contains(t));
                    let m = choose|m: int| 0 <= m < q.len() && q[m] == t;
                    assert(r[m] == t);
                } else {
                    assert(r[q.len() as int] == t);
                }
            }
            if t == x {
                assert(q.contains(x));
                let m = choose|m: int| 0 <= m < q.len() && q[m] == x;
                assert(r[m] == x);
            }
        }
    }
}

/// `sorted_texts` is strictly ascending and holds the texts of the list, no others.
pub proof fn sorted_texts_ascend(s: Seq<Seq<char>>)
    ensures
        ascending(sorted_texts(s)),
        forall|t: Seq<char>| #[trigger] sorted_texts(s).contains(t) <==> s.contains(t),
    decreases s.len(),
{
    if s.len() > 0 {
        let p = s.drop_last();
        sorted_texts_ascend(p);
        lemma_with_text(sorted_texts(p), s.last());
        assert forall|t: Seq<char>| #[trigger] sorted_texts(s).contains(t) <==> s.contains(t) by {
            if s.contains(t) {
                let k = choose|k: int| 0 <= k < s.len() && s[k] == t;
                if k < p.len() {
                    assert(p[k] == t);
                    assert(sorted_texts(p).contains(t));
                }
            }
            if sorted_texts(p).contains(t) {
                let k = choose|k: int| 0 <= k < p.len() && p[k] == t;
                assert(s[k] == t);
            }
            assert(s[s.len() - 1] == s.last());
        }
    }
}

/// Whether text `a` comes before text `b`.
pub fn comes_before(a: &[char], b: &[char]) -> (r: bool)
    ensures
        r == text_less(a@, b@),
{
    let mut i: usize = 0;
    assert(a@.skip(0) =~= a@);
    assert(b@.skip(0) =~= b@);
    while i < a.len() && i < b.len() && a[i] == b[i]
        invariant
            i <= a@.len(),
            i <= b@.len(),
            text_less(a@, b@) == text_less(a@.skip(i as int), b@.skip(i as int)),
        decreases a@.len() - i,
    {
        assert(a@.skip(i as int).drop_first() =~= a@.skip(i + 1));
        assert(b@.skip(i as int).drop_first() =~= b@.skip(i + 1));
        i += 1;
    }
    if i >= b.len() {
        false
    } else if i >= a.len() {
        true
    } else {
        a[i] < b[i]
    }
}

/// Puts a text in its place in an ascending list, unless the list holds it.
pub fn insert_text(v: &mut Vec<Vec<char>>, x: &[char])
    ensures
        rows(final(v)@) == with_text(rows(old(v)@), x@),
{
    let ghost s = rows(v@);
    let mut k: usize = v.len();
    let ghost mut tail: Seq<Seq<char>> = Seq::empty();
    assert(s.take(k as int) =~= s);
    assert(with_text(s, x@) + tail =~= with_text(s, x@));
    while k > 0 && !crate::text::same(v[k - 1].as_slice(), x) && !comes_before(
        v[k - 1].as_slice(),
        x,
    )
        invariant
            k <= v@.len(),
            s == rows(v@),
            tail == s.skip(k as int),
            with_text(s, x@) == with_text(s.take(k as int), x@) + tail,
        decreases k,
    {
        proof {
            let t = s.take(k as int);
            assert(t.last() == v@[k - 1]@);
            assert(t.drop_last() =~= s.take(k - 1));
            let old_tail = tail;
            tail = s.skip(k - 1);
            assert(tail =~= seq![t.last()] + old_tail);
            assert(with_text(t.drop_last(), x@).push(t.last()) + old_tail =~= with_text(
                t.drop_last(),
                x@,
            ) + tail);
        }
        k -= 1;
    }
    proof {
        let t = s.take(k as int);
        if k > 0 {
            assert(t.last() == v@[k - 1]@);
        }
    }
    if k > 0 && crate::text::same(v[k - 1].as_slice(), x) {
        assert(s.take(k as int) + s.skip(k as int) =~= s);
    } else {
        v.insert(k, copy(x));
        assert(rows(v@) =~= s.take(k as int).push(x@) + s.skip(k as int));
        if k == 0 {
            assert(s.take(0).push(x@) =~= seq![x@]);
        }
    }
}

// ---------------------------------------------------------------------------------------------
// Integer keys
// ---------------------------------------------------------------------------------------------

/// The place of an item with the given key in a list with ascending keys: behind the last item
/// whose key is not greater.
pub open spec fn slot(keys: Seq<int>, key: int) -> int
    decreases keys.len(),
{
    if keys.len() == 0 || keys.last() <= key {
        keys.len() as int
    } else {
        slot(keys.drop_last(), key)
    }
}

/// The keys of a list of items with keys.
pub open spec fn keys_of<T>(s: Seq<(int, T)>) -> Seq<int> {
    Seq::new(s.len(), |i: int| s[i].0)
}

/// A list with ascending keys and one more item in its place.
pub open spec fn with_item<T>(s: Seq<(int, T)>, x: (int, T)) -> Seq<(int, T)> {
    s.insert(slot(keys_of(s), x.0), x)
}

/// The items of a list by ascending key; items with the same key keep their order.
pub open spec fn sorted_by_key<T>(s: Seq<(int, T)>) -> Seq<(int, T)>
    decreases s.len(),
{
    if s.len() == 0 {
        Seq::empty()
    } else {
        with_item(sorted_by_key(s.drop_last()), s.last())
    }
}

/// Whether the keys of a list ascend.
pub open spec fn keys_ascend(keys: Seq<int>) -> bool {
    forall|i: int, j: int| #![trigger keys[i], keys[j]] 0 <= i < j < keys.len() ==> keys[i] <= keys[j]
}

pub proof fn lemma_slot(keys: Seq<int>, key: int)
    ensures
        0 <= slot(keys, key) <= keys.len(),
        slot(keys, key) > 0 ==> keys[slot(keys, key) - 1] <= key,
        forall|i: int| slot(keys, key) <= i < keys.len() ==> #[trigger] keys[i] > key,
    decreases keys.len(),
{
    if keys.len() == 0 || keys.last() <= key {
    } else {
        let t = keys.drop_last();
        lemma_slot(t, key);
        assert forall|i: int| slot(keys, key) <= i < keys.len() implies #[trigger] keys[i] > key by {
            if i < t.len() {
                assert(t[i] == keys[i]);
            }
        }
        if slot(t, key) > 0 {
            assert(t[slot(t, key) - 1] == keys[slot(t, key) - 1]);
        }
    }
}

/// Sorting by key gives ascending keys and keeps the items.
pub proof fn sorted_by_key_ascends<T>(s: Seq<(int, T)>)
    ensures
        keys_ascend(keys_of(sorted_by_key(s))),
        sorted_by_key(s).to_multiset() == s.to_multiset(),
        sorted_by_key(s).len() == s.len(),
    decreases s.len(),
{
    broadcast use vstd::seq_lib::group_to_multiset_ensures;

    if s.len() > 0 {
        let p = sorted_by_key(s.drop_last());
        let x = s.last();
        sorted_by_key_ascends(s.drop_last());
        let keys = keys_of(p);
        lemma_slot(keys, x.0);
        let k = slot(keys, x.0);
        let r = p.insert(k, x);
        assert forall|i: int, j: int|
            #![trigger keys_of(r)[i], keys_of(r)[j]]
            0 <= i < j < r.len() implies keys_of(r)[i] <= keys_of(r)[j] by {
            let a = if i < k { i } else { i - 1 };
            let b = if j < k { j } else { j - 1 };
            if i != k {
                assert(keys[a] == keys_of(r)[i]);
            }
            if j != k {
                assert(keys[b] == keys_of(r)[j]);
            }
            if j == k && k > 0 && i < k - 1 {
                assert(keys[i] <= keys[k - 1]);
            }
        }
        assert(s =~= s.drop_last().push(x));
        assert(p.insert(k, x).to_multiset() =~= p.to_multiset().insert(x));
    } else {
        assert(s =~= Seq::<(int, T)>::empty());
    }
}

} // verus!
