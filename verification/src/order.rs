//! Stable sorting of lists whose items have an order.

use vstd::prelude::*;

verus! {

/// Items that come one before the other, or in either order.
pub trait Ranked: Sized {
    /// Whether this item has to stand before `other`.
    spec fn before(&self, other: &Self) -> bool;

    /// No two items have to stand before each other, and an item that stands
    /// between none of two keeps them apart from neither.
    proof fn order_laws(a: &Self, b: &Self, c: &Self)
        ensures
            a.before(b) ==> !b.before(a),
            a.before(c) ==> a.before(b) || b.before(c),
    ;

    /// Whether this item has to stand before `other`.
    fn stands_before(&self, other: &Self) -> (r: bool)
        ensures
            r == self.before(other),
    ;
}

/// Whether no item of `s` has to stand before one that precedes it.
pub open spec fn in_order<T: Ranked>(s: Seq<T>) -> bool {
    forall|i: int, j: int| 0 <= i < j < s.len() ==> !(#[trigger] s[j].before(&#[trigger] s[i]))
}

/// `s` with `x` behind the last item that `x` need not stand before.
pub open spec fn inserted<T: Ranked>(s: Seq<T>, x: T) -> Seq<T>
    decreases s.len(),
{
    if s.len() > 0 && x.before(&s.last()) {
        inserted(s.drop_last(), x).push(s.last())
    } else {
        s.push(x)
    }
}

/// The items of `s` in order, those that may stand in either order left in the
/// order that `s` has them.
pub open spec fn sorted<T: Ranked>(s: Seq<T>) -> Seq<T>
    decreases s.len(),
{
    if s.len() == 0 {
        s
    } else {
        inserted(sorted(s.drop_last()), s.last())
    }
}

/// Inserting puts the item at one place and keeps the rest as it was.
pub proof fn lemma_inserted_place<T: Ranked>(s: Seq<T>, x: T) -> (k: int)
    ensures
        0 <= k <= s.len(),
        inserted(s, x) == s.insert(k, x),
        forall|j: int| k <= j < s.len() ==> x.before(&#[trigger] s[j]),
        k > 0 ==> !x.before(&s[k - 1]),
    decreases s.len(),
{
    if s.len() > 0 && x.before(&s.last()) {
        let k = lemma_inserted_place(s.drop_last(), x);
        assert(s.drop_last().insert(k, x).push(s.last()) =~= s.insert(k, x));
        assert forall|j: int| k <= j < s.len() implies x.before(&#[trigger] s[j]) by {
            if j < s.len() - 1 {
                assert(s[j] == s.drop_last()[j]);
            }
        }
        k
    } else {
        assert(s.push(x) =~= s.insert(s.len() as int, x));
        s.len() as int
    }
}

/// Inserting into a list in order gives a list in order.
proof fn lemma_inserted_in_order<T: Ranked>(s: Seq<T>, x: T)
    requires
        in_order(s),
    ensures
        in_order(inserted(s, x)),
{
    let k = lemma_inserted_place(s, x);
    let r = s.insert(k, x);
    assert forall|i: int, j: int| 0 <= i < j < r.len() implies !(#[trigger] r[j].before(
        &#[trigger] r[i],
    )) by {
        if i == k {
            assert(r[j] == s[j - 1]);
            T::order_laws(&x, &s[j - 1], &x);
        } else if j == k {
            assert(r[i] == s[i]);
            if i < k - 1 {
                // x stands before neither s[k - 1] nor, by the order, s[i].
                T::order_laws(&x, &s[k - 1], &s[i]);
                assert(!s[k - 1].before(&s[i]));
            }
        } else {
            let i0 = if i < k {
                i
            } else {
                i - 1
            };
            let j0 = if j < k {
                j
            } else {
                j - 1
            };
            assert(r[i] == s[i0] && r[j] == s[j0]);
        }
    }
}

/// A sorted list is in order.
pub proof fn lemma_sorted_in_order<T: Ranked>(s: Seq<T>)
    ensures
        in_order(sorted(s)),
    decreases s.len(),
{
    if s.len() > 0 {
        lemma_sorted_in_order(s.drop_last());
        lemma_inserted_in_order(sorted(s.drop_last()), s.last());
    }
}

/// Sorting keeps the items: none is lost and none is added.
pub proof fn lemma_sorted_same_items<T: Ranked>(s: Seq<T>)
    ensures
        sorted(s).to_multiset() == s.to_multiset(),
        sorted(s).len() == s.len(),
    decreases s.len(),
{
    broadcast use vstd::seq_lib::group_to_multiset_ensures;

    if s.len() > 0 {
        let head = s.drop_last();
        lemma_sorted_same_items(head);
        let k = lemma_inserted_place(sorted(head), s.last());
        assert(sorted(head).insert(k, s.last()).to_multiset() == sorted(head).to_multiset().insert(
            s.last(),
        ));
        assert(head.push(s.last()) =~= s);
    }
}

/// A list that is in order stays as it is.
pub proof fn lemma_sorted_keeps<T: Ranked>(s: Seq<T>)
    requires
        in_order(s),
    ensures
        sorted(s) == s,
    decreases s.len(),
{
    if s.len() > 0 {
        let head = s.drop_last();
        assert(in_order(head)) by {
            assert forall|i: int, j: int| 0 <= i < j < head.len() implies !(
            #[trigger] head[j].before(&#[trigger] head[i])) by {
                assert(head[i] == s[i] && head[j] == s[j]);
            }
        }
        lemma_sorted_keeps(head);
        if head.len() > 0 {
            assert(!s[s.len() - 1].before(&s[s.len() - 2]));
        }
        assert(head.push(s.last()) =~= s);
    }
}

/// The items of `v` in order, those that may stand in either order left in the
/// order that `v` has them.
pub fn sort<T: Ranked>(v: Vec<T>) -> (r: Vec<T>)
    ensures
        r@ == sorted(v@),
{
    let mut out: Vec<T> = Vec::new();
    let ghost all = v@;
    for x in it: v
        invariant
            it.seq() == all,
            out@ == sorted(all.take(it.index() as int)),
    {
        let ghost i = it.index() as int;
        let ghost whole = out@;
        assert(all.take(i + 1).drop_last() == all.take(i));
        assert(all.take(i + 1).last() == x);
        let mut k: usize = out.len();
        assert(whole.take(k as int) == whole);
        assert(whole.skip(k as int) == Seq::<T>::empty());
        assert(inserted(whole, x) == inserted(whole, x) + whole.skip(k as int));
        while k > 0 && x.stands_before(&out[k - 1])
            invariant
                0 <= k <= whole.len(),
                out@ == whole,
                inserted(whole, x) == inserted(whole.take(k as int), x) + whole.skip(k as int),
            decreases k,
        {
            let ghost front = whole.take(k as int);
            assert(front.drop_last() == whole.take(k - 1));
            assert(front.last() == whole[k - 1]);
            k -= 1;
            assert(inserted(front.drop_last(), x).push(front.last()) + whole.skip(k + 1) == inserted(
                front.drop_last(),
                x,
            ) + whole.skip(k as int));
        }
        assert(whole.take(k as int).push(x) + whole.skip(k as int) == whole.insert(k as int, x));
        out.insert(k, x);
    }
    assert(all.take(all.len() as int) == all);
    out
}

}
