//! Binary search for insertion points in sorted vectors, and insertion that
//! keeps a vector sorted.
//!
//! The functions of this module ask of the element type only that it can be
//! compared with `<`; those of [`bisect`] ask for `Ord` and can also work on a
//! window of the vector. [`order`] holds the vocabulary of the contracts,
//! [`laws`] what holds of insertion points in general.

use vstd::prelude::*;

pub mod bisect;
pub mod laws;
pub mod order;

use crate::laws::lemma_insert_keeps_sorted;
use crate::laws::lemma_left_point_counts;
use crate::laws::lemma_right_point_counts;
use crate::laws::lemma_sorted_is_partitioned;
use crate::order::above_come_last;
use crate::order::below_come_first;
use crate::order::count_le;
use crate::order::count_lt;
use crate::order::is_left_point;
use crate::order::is_right_point;
use crate::order::le;
use crate::order::lt;
use crate::order::order_known;
use crate::order::sorted;
use crate::order::totally_ordered;

verus! {

/// Puts `x` into `a` at its rightmost insertion point: behind the elements
/// that compare equal to it.
///
/// `a` gains `x` at one index and is otherwise unchanged. If `a` was sorted,
/// the index is the number of elements `<= x`, and `a` is sorted again.
pub fn insort_right<T>(a: &mut Vec<T>, x: T)
    where T: PartialOrd
    ensures
        exists|i: int|
            ({
                &&& 0 <= i <= old(a)@.len()
                &&& final(a)@ == #[trigger] old(a)@.insert(i, x)
                &&& order_known::<T>() && above_come_last(old(a)@, x, 0, old(a)@.len() as int)
                    ==> is_right_point(old(a)@, x, 0, old(a)@.len() as int, i)
            }),
        totally_ordered::<T>() && sorted(old(a)@) ==> ({
            &&& final(a)@ == old(a)@.insert(count_le(old(a)@, x) as int, x)
            &&& sorted(final(a)@)
        }),
{
    let lo: usize = bisect_right(a, &x);
    proof {
        if totally_ordered::<T>() && sorted(a@) {
            lemma_insert_keeps_sorted(a@, x, 0, a@.len() as int, lo as int);
        }
    }
    a.insert(lo, x);
}

/// The index where `x` goes into `a` behind everything that is not above it.
///
/// If the elements above `x` come last in `a`, they are exactly the ones from
/// the result on. If `a` is sorted, every element before the result is
/// `<= x`, every one from the result on is `> x`, and the result is the number
/// of elements `<= x`.
pub fn bisect_right<T>(a: &Vec<T>, x: &T) -> (i: usize)
    where T: PartialOrd
    ensures
        i <= a@.len(),
        order_known::<T>() && above_come_last(a@, *x, 0, a@.len() as int) ==> is_right_point(
            a@,
            *x,
            0,
            a@.len() as int,
            i as int,
        ),
        totally_ordered::<T>() && sorted(a@) ==> ({
            &&& forall|k: int| 0 <= k < i ==> le(#[trigger] a@[k], *x)
            &&& forall|k: int| i <= k < a@.len() ==> lt(*x, #[trigger] a@[k])
            &&& i == count_le(a@, *x)
        }),
{
    let mut lo: usize = 0;
    let mut hi: usize = a.len();
    while lo < hi
        invariant
            lo <= hi <= a@.len(),
            order_known::<T>() && above_come_last(a@, *x, 0, a@.len() as int) ==> ({
                &&& forall|k: int| 0 <= k < lo ==> !lt(*x, #[trigger] a@[k])
                &&& forall|k: int| hi <= k < a@.len() ==> lt(*x, #[trigger] a@[k])
            }),
        decreases hi - lo,
    {
        // the midpoint of lo and hi, written so that no sum can overflow
        let mid: usize = lo + (hi - lo) / 2;
        if x < &a[mid] {
            hi = mid;
        } else {
            lo = mid + 1;
        }
    }
    proof {
        if totally_ordered::<T>() && sorted(a@) {
            lemma_sorted_is_partitioned(a@, *x, 0, a@.len() as int);
            lemma_right_point_counts(a@, *x, 0, a@.len() as int, lo as int);
            assert(a@.subrange(0, a@.len() as int) =~= a@);
        }
    }
    lo
}

/// Puts `x` into `a` at its leftmost insertion point: before the elements that
/// compare equal to it.
///
/// `a` gains `x` at one index and is otherwise unchanged. If `a` was sorted,
/// the index is the number of elements `< x`, and `a` is sorted again.
pub fn insort_left<T>(a: &mut Vec<T>, x: T)
    where T: PartialOrd
    ensures
        exists|i: int|
            ({
                &&& 0 <= i <= old(a)@.len()
                &&& final(a)@ == #[trigger] old(a)@.insert(i, x)
                &&& order_known::<T>() && below_come_first(old(a)@, x, 0, old(a)@.len() as int)
                    ==> is_left_point(old(a)@, x, 0, old(a)@.len() as int, i)
            }),
        totally_ordered::<T>() && sorted(old(a)@) ==> ({
            &&& final(a)@ == old(a)@.insert(count_lt(old(a)@, x) as int, x)
            &&& sorted(final(a)@)
        }),
{
    let lo: usize = bisect_left(a, &x);
    proof {
        if totally_ordered::<T>() && sorted(a@) {
            lemma_insert_keeps_sorted(a@, x, 0, a@.len() as int, lo as int);
        }
    }
    a.insert(lo, x);
}

/// The index where `x` goes into `a` before everything that is not below it.
///
/// If the elements below `x` come first in `a`, they are exactly the ones
/// before the result. If `a` is sorted, every element before the result is
/// `< x`, every one from the result on is `>= x`, and the result is the number
/// of elements `< x`.
pub fn bisect_left<T>(a: &Vec<T>, x: &T) -> (i: usize)
    where T: PartialOrd
    ensures
        i <= a@.len(),
        order_known::<T>() && below_come_first(a@, *x, 0, a@.len() as int) ==> is_left_point(
            a@,
            *x,
            0,
            a@.len() as int,
            i as int,
        ),
        totally_ordered::<T>() && sorted(a@) ==> ({
            &&& forall|k: int| 0 <= k < i ==> lt(#[trigger] a@[k], *x)
            &&& forall|k: int| i <= k < a@.len() ==> le(*x, #[trigger] a@[k])
            &&& i == count_lt(a@, *x)
        }),
{
    let mut lo: usize = 0;
    let mut hi: usize = a.len();
    while lo < hi
        invariant
            lo <= hi <= a@.len(),
            order_known::<T>() && below_come_first(a@, *x, 0, a@.len() as int) ==> ({
                &&& forall|k: int| 0 <= k < lo ==> lt(#[trigger] a@[k], *x)
                &&& forall|k: int| hi <= k < a@.len() ==> !lt(#[trigger] a@[k], *x)
            }),
        decreases hi - lo,
    {
        // the midpoint of lo and hi, written so that no sum can overflow
        let mid: usize = lo + (hi - lo) / 2;
        if &a[mid] < x {
            lo = mid + 1;
        } else {
            hi = mid;
        }
    }
    proof {
        if totally_ordered::<T>() && sorted(a@) {
            lemma_sorted_is_partitioned(a@, *x, 0, a@.len() as int);
            lemma_left_point_counts(a@, *x, 0, a@.len() as int, lo as int);
            assert(a@.subrange(0, a@.len() as int) =~= a@);
        }
    }
    lo
}

} // verus!
