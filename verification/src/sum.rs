//! Sequential summation with two's-complement wrap-around.

use vstd::prelude::*;

verus! {

/// The exact sum of the elements of `s`, as a mathematical integer.
pub open spec fn total(s: Seq<i32>) -> int
    decreases s.len(),
{
    if s.len() == 0 {
        0
    } else {
        total(s.drop_last()) + s.last()
    }
}

/// The one integer in the `i32` range that differs from `x` by a multiple of 2^32.
pub open spec fn wrap(x: int) -> int {
    (x + 0x8000_0000) % 0x1_0000_0000 - 0x8000_0000
}

/// `wrap` leaves values of the `i32` range alone and always lands in that range.
pub proof fn lemma_wrap_range(x: int)
    ensures
        i32::MIN <= wrap(x) <= i32::MAX,
        i32::MIN <= x <= i32::MAX ==> wrap(x) == x,
{
}

/// Reducing either summand first does not change the reduced sum.
pub proof fn lemma_wrap_add(x: int, y: int)
    ensures
        wrap(wrap(x) + y) == wrap(x + y),
        wrap(x + wrap(y)) == wrap(x + y),
        wrap(wrap(x) + wrap(y)) == wrap(x + y),
{
}

/// The sum of a range splits at any point inside it.
pub proof fn lemma_total_split(s: Seq<i32>, lo: int, mid: int, hi: int)
    requires
        0 <= lo <= mid <= hi <= s.len(),
    ensures
        total(s.subrange(lo, hi)) == total(s.subrange(lo, mid)) + total(s.subrange(mid, hi)),
    decreases hi - mid,
{
    if mid == hi {
        assert(s.subrange(mid, hi) =~= Seq::<i32>::empty());
    } else {
        lemma_total_split(s, lo, mid, hi - 1);
        assert(s.subrange(lo, hi).drop_last() =~= s.subrange(lo, hi - 1));
        assert(s.subrange(mid, hi).drop_last() =~= s.subrange(mid, hi - 1));
    }
}

/// A sequence that holds the same value `c` everywhere sums to `len * c`.
pub proof fn lemma_total_of_constant(s: Seq<i32>, c: i32)
    requires
        forall|i: int| 0 <= i < s.len() ==> s[i] == c,
    ensures
        total(s) == s.len() * c,
    decreases s.len(),
{
    if s.len() > 0 {
        lemma_total_of_constant(s.drop_last(), c);
        assert(s.len() * c == (s.len() - 1) * c + c) by (nonlinear_arith);
    }
}

/// Sums `arr[lo..hi]`, wrapping around on overflow.
pub fn sum_range(arr: &[i32], lo: usize, hi: usize) -> (r: i32)
    requires
        lo <= hi <= arr@.len(),
    ensures
        r == wrap(total(arr@.subrange(lo as int, hi as int))),
{
    let mut acc: i32 = 0;
    let mut i: usize = lo;
    assert(arr@.subrange(lo as int, lo as int) =~= Seq::<i32>::empty());
    while i < hi
        invariant
            lo <= i <= hi <= arr@.len(),
            acc == wrap(total(arr@.subrange(lo as int, i as int))),
        decreases hi - i,
    {
        proof {
            let next = arr@.subrange(lo as int, i + 1);
            assert(next.drop_last() =~= arr@.subrange(lo as int, i as int));
            assert(next.last() == arr@[i as int]);
            lemma_wrap_add(total(arr@.subrange(lo as int, i as int)), arr@[i as int] as int);
        }
        acc = acc.wrapping_add(arr[i]);
        i += 1;
    }
    acc
}

/// Sums every element of `arr`. The exact sum is returned whenever it fits in
/// an `i32`; otherwise it is reduced modulo 2^32 into the `i32` range.
pub fn p(arr: &[i32]) -> (r: i32)
    ensures
        r == wrap(total(arr@)),
        i32::MIN <= total(arr@) <= i32::MAX ==> r == total(arr@),
{
    assert(arr@.subrange(0, arr@.len() as int) =~= arr@);
    sum_range(arr, 0, arr.len())
}

} // verus!
