//! Searches and insertions for totally ordered element types, on the whole
//! vector or on a window `[lo, hi)` of it.
//!
//! A bound that is `None` stands for the vector's own: `lo` for 0, `hi` for
//! the length. A window whose `lo` is not below its `hi` is empty, wherever it
//! lies, and a search in it returns `lo`. A window that is not empty must lie
//! within the vector: the functions neither clamp bounds nor report them, they
//! require this of the caller.

use vstd::prelude::*;
use crate::laws::lemma_insert_keeps_sorted;
use crate::laws::lemma_left_point_counts;
use crate::laws::lemma_right_point_counts;
use crate::laws::lemma_sorted_is_partitioned;
use crate::order::above_come_last;
use crate::order::below_come_first;
use crate::order::count_le;
use crate::order::count_lt;
use crate::order::is_left_point;
use crate::order::is_right_point;
use crate::order::le;
use crate::order::lt;
use crate::order::order_known;
use crate::order::sorted;
use crate::order::sorted_within;
use crate::order::totally_ordered;

verus! {

/// Where the window given by `lo` begins.
pub open spec fn window_start(lo: Option<usize>) -> int {
    match lo {
        Some(l) => l as int,
        None => 0,
    }
}

/// Where the window given by `hi` ends, in a vector of length `len`.
pub open spec fn window_end(hi: Option<usize>, len: nat) -> int {
    match hi {
        Some(h) => h as int,
        None => len as int,
    }
}

/// The elements of the window `[start, end)` of `s`; none where the window is
/// empty.
pub open spec fn window<T>(s: Seq<T>, start: int, end: int) -> Seq<T> {
    if 0 <= start < end <= s.len() {
        s.subrange(start, end)
    } else {
        Seq::empty()
    }
}

/// The index where `x` goes into `a[lo..hi]` before everything that is not
/// below it.
///
/// The result lies in the window. If the elements below `x` come first in the
/// window, they are exactly the ones before the result. If the window is
/// sorted, every element of it before the result is `< x`, every one from the
/// result on is `>= x`, and the result lies as far behind `lo` as the window
/// has elements `< x`.
pub fn bisect_left_slice<T>(a: &Vec<T>, x: &T, lo: Option<usize>, hi: Option<usize>) -> (i: usize)
    where T: Ord
    requires
        window_start(lo) < window_end(hi, a@.len()) ==> window_end(hi, a@.len()) <= a@.len(),
    ensures
        window_start(lo) <= i,
        i <= window_end(hi, a@.len()) || i == window_start(lo),
        order_known::<T>() && below_come_first(
            a@,
            *x,
            window_start(lo),
            window_end(hi, a@.len()),
        ) ==> is_left_point(a@, *x, window_start(lo), window_end(hi, a@.len()), i as int),
        totally_ordered::<T>() && sorted_within(a@, window_start(lo), window_end(hi, a@.len()))
            ==> ({
            &&& forall|k: int| window_start(lo) <= k < i ==> lt(#[trigger] a@[k], *x)
            &&& forall|k: int| i <= k < window_end(hi, a@.len()) ==> le(*x, #[trigger] a@[k])
            &&& i == window_start(lo) + count_lt(
                window(a@, window_start(lo), window_end(hi, a@.len())),
                *x,
            )
        }),
{
    let start: usize = lo.unwrap_or(0);
    let end: usize = hi.unwrap_or(a.len());
    let mut lo: usize = start;
    let mut hi: usize = end;
    while lo < hi
        invariant
            start <= lo,
            lo <= hi || lo == start,
            hi <= end,
            start < end ==> end <= a@.len(),
            order_known::<T>() && below_come_first(a@, *x, start as int, end as int) ==> ({
                &&& forall|k: int| start <= k < lo ==> lt(#[trigger] a@[k], *x)
                &&& forall|k: int| hi <= k < end ==> !lt(#[trigger] a@[k], *x)
            }),
        decreases hi - lo,
    {
        // the midpoint of lo and hi, written so that no sum can overflow
        let mid: usize = lo + (hi - lo) / 2;
        if &a[mid] < x {
            lo = mid + 1;
        } else {
            hi = mid;
        }
    }
    proof {
        if totally_ordered::<T>() && sorted_within(a@, start as int, end as int) {
            lemma_sorted_is_partitioned(a@, *x, start as int, end as int);
            if start < end {
                lemma_left_point_counts(a@, *x, start as int, end as int, lo as int);
            } else {
                reveal(Seq::filter);
            }
        }
    }
    lo
}

/// The index where `x` goes into `a` before everything that is not below it.
///
/// If the elements below `x` come first in `a`, they are exactly the ones
/// before the result. If `a` is sorted, every element before the result is
/// `< x`, every one from the result on is `>= x`, and the result is the number
/// of elements `< x`.
pub fn bisect_left<T>(a: &Vec<T>, x: &T) -> (i: usize)
    where T: Ord
    ensures
        i <= a@.len(),
        order_known::<T>() && below_come_first(a@, *x, 0, a@.len() as int) ==> is_left_point(
            a@,
            *x,
            0,
            a@.len() as int,
            i as int,
        ),
        totally_ordered::<T>() && sorted(a@) ==> ({
            &&& forall|k: int| 0 <= k < i ==> lt(#[trigger] a@[k], *x)
            &&& forall|k: int| i <= k < a@.len() ==> le(*x, #[trigger] a@[k])
            &&& i == count_lt(a@, *x)
        }),
{
    proof {
        lemma_whole_window(a@);
    }
    bisect_left_slice(a, x, None, None)
}

/// The index where `x` goes into `a[lo..hi]` behind everything that is not
/// above it.
///
/// The result lies in the window. If the elements above `x` come last in the
/// window, they are exactly the ones from the result on. If the window is
/// sorted, every element of it before the result is `<= x`, every one from the
/// result on is `> x`, and the result lies as far behind `lo` as the window
/// has elements `<= x`.
pub fn bisect_right_slice<T>(a: &Vec<T>, x: &T, lo: Option<usize>, hi: Option<usize>) -> (i: usize)
    where T: Ord
    requires
        window_start(lo) < window_end(hi, a@.len()) ==> window_end(hi, a@.len()) <= a@.len(),
    ensures
        window_start(lo) <= i,
        i <= window_end(hi, a@.len()) || i == window_start(lo),
        order_known::<T>() && above_come_last(
            a@,
            *x,
            window_start(lo),
            window_end(hi, a@.len()),
        ) ==> is_right_point(a@, *x, window_start(lo), window_end(hi, a@.len()), i as int),
        totally_ordered::<T>() && sorted_within(a@, window_start(lo), window_end(hi, a@.len()))
            ==> ({
            &&& forall|k: int| window_start(lo) <= k < i ==> le(#[trigger] a@[k], *x)
            &&& forall|k: int| i <= k < window_end(hi, a@.len()) ==> lt(*x, #[trigger] a@[k])
            &&& i == window_start(lo) + count_le(
                window(a@, window_start(lo), window_end(hi, a@.len())),
                *x,
            )
        }),
{
    let start: usize = lo.unwrap_or(0);
    let end: usize = hi.unwrap_or(a.len());
    let mut lo: usize = start;
    let mut hi: usize = end;
    while lo < hi
        invariant
            start <= lo,
            lo <= hi || lo == start,
            hi <= end,
            start < end ==> end <= a@.len(),
            order_known::<T>() && above_come_last(a@, *x, start as int, end as int) ==> ({
                &&& forall|k: int| start <= k < lo ==> !lt(*x, #[trigger] a@[k])
                &&& forall|k: int| hi <= k < end ==> lt(*x, #[trigger] a@[k])
            }),
        decreases hi - lo,
    {
        // the midpoint of lo and hi, written so that no sum can overflow
        let mid: usize = lo + (hi - lo) / 2;
        if x < &a[mid] {
            hi = mid;
        } else {
            lo = mid + 1;
        }
    }
    proof {
        if totally_ordered::<T>() && sorted_within(a@, start as int, end as int) {
            lemma_sorted_is_partitioned(a@, *x, start as int, end as int);
            if start < end {
                lemma_right_point_counts(a@, *x, start as int, end as int, lo as int);
            } else {
                reveal(Seq::filter);
            }
        }
    }
    lo
}

/// The index where `x` goes into `a` behind everything that is not above it.
///
/// If the elements above `x` come last in `a`, they are exactly the ones from
/// the result on. If `a` is sorted, every element before the result is
/// `<= x`, every one from the result on is `> x`, and the result is the number
/// of elements `<= x`.
pub fn bisect_right<T>(a: &Vec<T>, x: &T) -> (i: usize)
    where T: Ord
    ensures
        i <= a@.len(),
        order_known::<T>() && above_come_last(a@, *x, 0, a@.len() as int) ==> is_right_point(
            a@,
            *x,
            0,
            a@.len() as int,
            i as int,
        ),
        totally_ordered::<T>() && sorted(a@) ==> ({
            &&& forall|k: int| 0 <= k < i ==> le(#[trigger] a@[k], *x)
            &&& forall|k: int| i <= k < a@.len() ==> lt(*x, #[trigger] a@[k])
            &&& i == count_le(a@, *x)
        }),
{
    proof {
        lemma_whole_window(a@);
    }
    bisect_right_slice(a, x, None, None)
}

/// Puts `x` into `a` at its leftmost insertion point in `a[lo..hi]`: before
/// the elements of the window that compare equal to it.
///
/// `a` gains `x` at one index of the window and is otherwise unchanged. If the
/// window was sorted, the index is the one that `bisect_left_slice` returns,
/// and the window, now one longer, is sorted again.
pub fn insort_left_slice<T>(a: &mut Vec<T>, x: T, lo: Option<usize>, hi: Option<usize>)
    where T: Ord
    requires
        window_start(lo) <= old(a)@.len(),
        window_start(lo) < window_end(hi, old(a)@.len()) ==> window_end(hi, old(a)@.len()) <= old(
            a,
        )@.len(),
    ensures
        exists|i: int|
            ({
                &&& window_start(lo) <= i
                &&& i <= window_end(hi, old(a)@.len()) || i == window_start(lo)
                &&& final(a)@ == #[trigger] old(a)@.insert(i, x)
                &&& order_known::<T>() && below_come_first(
                    old(a)@,
                    x,
                    window_start(lo),
                    window_end(hi, old(a)@.len()),
                ) ==> is_left_point(
                    old(a)@,
                    x,
                    window_start(lo),
                    window_end(hi, old(a)@.len()),
                    i,
                )
            }),
        totally_ordered::<T>() && sorted_within(
            old(a)@,
            window_start(lo),
            window_end(hi, old(a)@.len()),
        ) ==> ({
            &&& final(a)@ == old(a)@.insert(
                window_start(lo) + count_lt(
                    window(old(a)@, window_start(lo), window_end(hi, old(a)@.len())),
                    x,
                ),
                x,
            )
            &&& sorted_within(final(a)@, window_start(lo), window_end(hi, old(a)@.len()) + 1)
        }),
{
    let i: usize = bisect_left_slice(a, &x, lo, hi);
    proof {
        let start = window_start(lo);
        let end = window_end(hi, a@.len());
        if totally_ordered::<T>() && sorted_within(a@, start, end) {
            lemma_insert_keeps_sorted(a@, x, start, end, i as int);
        }
    }
    a.insert(i, x);
}

/// Puts `x` into `a` at its leftmost insertion point: before the elements that
/// compare equal to it.
///
/// `a` gains `x` at one index and is otherwise unchanged. If `a` was sorted,
/// the index is the number of elements `< x`, and `a` is sorted again.
pub fn insort_left<T>(a: &mut Vec<T>, x: T)
    where T: Ord
    ensures
        exists|i: int|
            ({
                &&& 0 <= i <= old(a)@.len()
                &&& final(a)@ == #[trigger] old(a)@.insert(i, x)
                &&& order_known::<T>() && below_come_first(old(a)@, x, 0, old(a)@.len() as int)
                    ==> is_left_point(old(a)@, x, 0, old(a)@.len() as int, i)
            }),
        totally_ordered::<T>() && sorted(old(a)@) ==> ({
            &&& final(a)@ == old(a)@.insert(count_lt(old(a)@, x) as int, x)
            &&& sorted(final(a)@)
        }),
{
    proof {
        lemma_whole_window(a@);
    }
    insort_left_slice(a, x, None, None);
}

/// Puts `x` into `a` at its rightmost insertion point in `a[lo..hi]`: behind
/// the elements of the window that compare equal to it.
///
/// `a` gains `x` at one index of the window and is otherwise unchanged. If the
/// window was sorted, the index is the one that `bisect_right_slice` returns,
/// and the window, now one longer, is sorted again.
pub fn insort_right_slice<T>(a: &mut Vec<T>, x: T, lo: Option<usize>, hi: Option<usize>)
    where T: Ord
    requires
        window_start(lo) <= old(a)@.len(),
        window_start(lo) < window_end(hi, old(a)@.len()) ==> window_end(hi, old(a)@.len()) <= old(
            a,
        )@.len(),
    ensures
        exists|i: int|
            ({
                &&& window_start(lo) <= i
                &&& i <= window_end(hi, old(a)@.len()) || i == window_start(lo)
                &&& final(a)@ == #[trigger] old(a)@.insert(i, x)
                &&& order_known::<T>() && above_come_last(
                    old(a)@,
                    x,
                    window_start(lo),
                    window_end(hi, old(a)@.len()),
                ) ==> is_right_point(
                    old(a)@,
                    x,
                    window_start(lo),
                    window_end(hi, old(a)@.len()),
                    i,
                )
            }),
        totally_ordered::<T>() && sorted_within(
            old(a)@,
            window_start(lo),
            window_end(hi, old(a)@.len()),
        ) ==> ({
            &&& final(a)@ == old(a)@.insert(
                window_start(lo) + count_le(
                    window(old(a)@, window_start(lo), window_end(hi, old(a)@.len())),
                    x,
                ),
                x,
            )
            &&& sorted_within(final(a)@, window_start(lo), window_end(hi, old(a)@.len()) + 1)
        }),
{
    let i: usize = bisect_right_slice(a, &x, lo, hi);
    proof {
        let start = window_start(lo);
        let end = window_end(hi, a@.len());
        if totally_ordered::<T>() && sorted_within(a@, start, end) {
            lemma_insert_keeps_sorted(a@, x, start, end, i as int);
        }
    }
    a.insert(i, x);
}

/// Puts `x` into `a` at its rightmost insertion point: behind the elements
/// that compare equal to it.
///
/// `a` gains `x` at one index and is otherwise unchanged. If `a` was sorted,
/// the index is the number of elements `<= x`, and `a` is sorted again.
pub fn insort_right<T>(a: &mut Vec<T>, x: T)
    where T: Ord
    ensures
        exists|i: int|
            ({
                &&& 0 <= i <= old(a)@.len()
                &&& final(a)@ == #[trigger] old(a)@.insert(i, x)
                &&& order_known::<T>() && above_come_last(old(a)@, x, 0, old(a)@.len() as int)
                    ==> is_right_point(old(a)@, x, 0, old(a)@.len() as int, i)
            }),
        totally_ordered::<T>() && sorted(old(a)@) ==> ({
            &&& final(a)@ == old(a)@.insert(count_le(old(a)@, x) as int, x)
            &&& sorted(final(a)@)
        }),
{
    proof {
        lemma_whole_window(a@);
    }
    insort_right_slice(a, x, None, None);
}

/// The window from 0 to the length is the sequence itself.
proof fn lemma_whole_window<T>(s: Seq<T>)
    ensures
        window(s, 0, s.len() as int) == s,
{
    assert(window(s, 0, s.len() as int) =~= s);
}

} // verus!
