//! Sums and parts of lists.

use vstd::prelude::*;

verus! {

/// The sum of a number over the items of a list.
pub open spec fn total<T>(s: Seq<T>, f: spec_fn(T) -> int) -> int
    decreases s.len(),
{
    if s.len() == 0 {
        0
    } else {
        total(s.drop_last(), f) + f(s.last())
    }
}

/// The sum over two lists, one behind the other, is the sum of the sums.
pub proof fn lemma_total_joined<T>(a: Seq<T>, b: Seq<T>, f: spec_fn(T) -> int)
    ensures
        total(a + b, f) == total(a, f) + total(b, f),
    decreases b.len(),
{
    if b.len() == 0 {
        assert(a + b =~= a);
    } else {
        assert((a + b).drop_last() =~= a + b.drop_last());
        lemma_total_joined(a, b.drop_last(), f);
    }
}

/// Whether a number is another, but for the multiples of what a word of 64 bits
/// can hold: what a sum is that wraps around.
pub open spec fn wraps_to(sum: int, n: int) -> bool {
    (sum - n) % 0x1_0000_0000_0000_0000 == 0
}

/// A sum that fits is not wrapped around.
pub proof fn lemma_fitting_sum(sum: int, n: i64)
    requires
        wraps_to(sum, n as int),
        i64::MIN <= sum <= i64::MAX,
    ensures
        n == sum,
{
}

/// Adding with wrapping around keeps to the sum.
pub proof fn lemma_wrapping_step(sum: int, n: i64, x: i64)
    requires
        wraps_to(sum, n as int),
    ensures
        wraps_to(sum + x, n.wrapping_add(x) as int),
{
}

}
