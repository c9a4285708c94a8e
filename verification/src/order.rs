//! The ordering vocabulary that every contract of this crate is written in.
//!
//! The executable code compares elements with `<` and nothing else. What `<`
//! means for a type `T` in a contract is the order that `vstd` models for `T`;
//! the predicates below give that order short names, and say what it is for a
//! sequence to be sorted, and for an index to be an insertion point.

use vstd::prelude::*;
use vstd::std_specs::cmp::PartialOrdIs;
use vstd::std_specs::cmp::PartialOrdSpec;

verus! {

/// The executable comparisons of `T` compute the order that contracts speak
/// of. Of a type without this property nothing follows from the outcome of
/// `<`.
pub open spec fn order_known<T: PartialOrd>() -> bool {
    T::obeys_partial_cmp_spec()
}

/// `a < b`.
pub open spec fn lt<T: PartialOrd>(a: T, b: T) -> bool {
    a.is_lt(&b)
}

/// `a <= b`.
pub open spec fn le<T: PartialOrd>(a: T, b: T) -> bool {
    a.is_le(&b)
}

/// `a` and `b` compare equal: neither is below the other.
pub open spec fn equivalent<T: PartialOrd>(a: T, b: T) -> bool {
    le(a, b) && le(b, a)
}

/// `le` as a relation, in the form that `vstd`'s sorting vocabulary takes.
pub open spec fn le_relation<T: PartialOrd>() -> spec_fn(T, T) -> bool {
    |a: T, b: T| le(a, b)
}

/// The order of `T` is known and orders any two values: `<` is the strict
/// part of `<=`, and `<=` is transitive. Values that compare equal need not be
/// the same value.
pub open spec fn totally_ordered<T: PartialOrd>() -> bool {
    &&& order_known::<T>()
    &&& forall|a: T, b: T|
        #![trigger lt(a, b)]
        #![trigger le(b, a)]
        lt(a, b) <==> !le(b, a)
    &&& forall|a: T, b: T, c: T| #[trigger] le(a, b) && #[trigger] le(b, c) ==> le(a, c)
}

/// Values of `T` that compare equal are the same value.
pub open spec fn antisymmetric<T: PartialOrd>() -> bool {
    forall|a: T, b: T| #[trigger] le(a, b) && #[trigger] le(b, a) ==> a == b
}

/// `s[start..end]` is in non-decreasing order.
pub open spec fn sorted_within<T: PartialOrd>(s: Seq<T>, start: int, end: int) -> bool {
    forall|j: int, k: int| start <= j < k < end ==> le(#[trigger] s[j], #[trigger] s[k])
}

/// `s` is in non-decreasing order.
pub open spec fn sorted<T: PartialOrd>(s: Seq<T>) -> bool {
    sorted_within(s, 0, s.len() as int)
}

/// In `s[start..end]` the elements below `x` come first: no element below `x`
/// stands behind one that is not. This is all that a leftmost search needs.
pub open spec fn below_come_first<T: PartialOrd>(s: Seq<T>, x: T, start: int, end: int) -> bool {
    forall|j: int, k: int|
        start <= j <= k < end && lt(#[trigger] s[k], x) ==> lt(#[trigger] s[j], x)
}

/// In `s[start..end]` the elements above `x` come last: no element above `x`
/// stands before one that is not. This is all that a rightmost search needs.
pub open spec fn above_come_last<T: PartialOrd>(s: Seq<T>, x: T, start: int, end: int) -> bool {
    forall|j: int, k: int|
        start <= j <= k < end && lt(x, #[trigger] s[j]) ==> lt(x, #[trigger] s[k])
}

/// `i` is the leftmost insertion point of `x` in `s[start..end]`: the elements
/// of `s[start..i]` are below `x`, those of `s[i..end]` are not.
pub open spec fn is_left_point<T: PartialOrd>(
    s: Seq<T>,
    x: T,
    start: int,
    end: int,
    i: int,
) -> bool {
    &&& forall|k: int| start <= k < i ==> lt(#[trigger] s[k], x)
    &&& forall|k: int| i <= k < end ==> !lt(#[trigger] s[k], x)
}

/// `i` is the rightmost insertion point of `x` in `s[start..end]`: the
/// elements of `s[i..end]` are above `x`, those of `s[start..i]` are not.
pub open spec fn is_right_point<T: PartialOrd>(
    s: Seq<T>,
    x: T,
    start: int,
    end: int,
    i: int,
) -> bool {
    &&& forall|k: int| start <= k < i ==> !lt(x, #[trigger] s[k])
    &&& forall|k: int| i <= k < end ==> lt(x, #[trigger] s[k])
}

/// How many elements of `s` are strictly less than `x`.
pub open spec fn count_lt<T: PartialOrd>(s: Seq<T>, x: T) -> nat {
    s.filter(|e: T| lt(e, x)).len()
}

/// How many elements of `s` are less than or equal to `x`.
pub open spec fn count_le<T: PartialOrd>(s: Seq<T>, x: T) -> nat {
    s.filter(|e: T| le(e, x)).len()
}

/// `x`, or a value that compares equal to it, is an element of `s`.
pub open spec fn occurs<T: PartialOrd>(s: Seq<T>, x: T) -> bool {
    exists|k: int| 0 <= k < s.len() && equivalent(#[trigger] s[k], x)
}

/// A type that keeps the laws of comparison as `vstd` states them is totally
/// ordered: the integer types are, and tuples, options and references of
/// such types.
pub proof fn lemma_lawful_is_totally_ordered<T: Ord>()
    requires
        vstd::laws_cmp::obeys_cmp::<T>(),
    ensures
        totally_ordered::<T>(),
{
    reveal(vstd::laws_cmp::obeys_cmp_partial_ord);
    reveal(vstd::laws_cmp::obeys_cmp_ord);
    reveal(vstd::laws_cmp::obeys_partial_cmp_spec_properties);
    reveal(vstd::laws_eq::obeys_eq_spec_properties);
}

} // verus!
