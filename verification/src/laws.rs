//! What holds of insertion points in general: how the two searches relate to
//! sortedness, to counting, and to each other.

use vstd::prelude::*;
use crate::order::above_come_last;
use crate::order::antisymmetric;
use crate::order::below_come_first;
use crate::order::count_le;
use crate::order::count_lt;
use crate::order::equivalent;
use crate::order::is_left_point;
use crate::order::is_right_point;
use crate::order::le;
use crate::order::le_relation;
use crate::order::lt;
use crate::order::occurs;
use crate::order::sorted;
use crate::order::sorted_within;
use crate::order::totally_ordered;

verus! {

/// In a sorted stretch of a totally ordered type, whatever `x` is, the
/// elements below `x` come first and the elements above `x` come last.
pub proof fn lemma_sorted_is_partitioned<T: PartialOrd>(s: Seq<T>, x: T, start: int, end: int)
    requires
        totally_ordered::<T>(),
        sorted_within(s, start, end),
    ensures
        below_come_first(s, x, start, end),
        above_come_last(s, x, start, end),
{
    assert forall|j: int, k: int| start <= j <= k < end && lt(#[trigger] s[k], x) implies lt(
        #[trigger] s[j],
        x,
    ) by {
        if j < k && !lt(s[j], x) {
            assert(le(x, s[j]));
            assert(le(s[j], s[k]));
            assert(le(x, s[k]));
        }
    }
    assert forall|j: int, k: int| start <= j <= k < end && lt(x, #[trigger] s[j]) implies lt(
        x,
        #[trigger] s[k],
    ) by {
        if j < k && !lt(x, s[k]) {
            assert(le(s[k], x));
            assert(le(s[j], s[k]));
            assert(le(s[j], x));
        }
    }
}

/// Where a predicate holds of exactly the first `i` elements of `s`, it holds
/// of `i` elements.
proof fn lemma_prefix_count<T>(s: Seq<T>, p: spec_fn(T) -> bool, i: int)
    requires
        0 <= i <= s.len(),
        forall|k: int| 0 <= k < i ==> p(#[trigger] s[k]),
        forall|k: int| i <= k < s.len() ==> !p(#[trigger] s[k]),
    ensures
        s.filter(p).len() == i,
    decreases s.len(),
{
    reveal(Seq::filter);
    if s.len() > 0 {
        let rest = s.drop_last();
        if i == s.len() {
            assert(p(s[i - 1]));
            lemma_prefix_count(rest, p, i - 1);
        } else {
            assert(!p(s[s.len() - 1]));
            lemma_prefix_count(rest, p, i);
        }
    }
}

/// The leftmost insertion point of `x` in `s[start..end]` lies as many places
/// behind `start` as the stretch has elements strictly less than `x`.
pub proof fn lemma_left_point_counts<T: PartialOrd>(s: Seq<T>, x: T, start: int, end: int, i: int)
    requires
        0 <= start <= i <= end <= s.len(),
        is_left_point(s, x, start, end, i),
    ensures
        i == start + count_lt(s.subrange(start, end), x),
{
    let w = s.subrange(start, end);
    let p = |e: T| lt(e, x);
    assert forall|k: int| 0 <= k < i - start implies p(#[trigger] w[k]) by {
        assert(lt(s[start + k], x));
    }
    assert forall|k: int| i - start <= k < w.len() implies !p(#[trigger] w[k]) by {
        assert(!lt(s[start + k], x));
    }
    lemma_prefix_count(w, p, i - start);
}

/// In a totally ordered type, the rightmost insertion point of `x` in
/// `s[start..end]` lies as many places behind `start` as the stretch has
/// elements less than or equal to `x`.
pub proof fn lemma_right_point_counts<T: PartialOrd>(
    s: Seq<T>,
    x: T,
    start: int,
    end: int,
    i: int,
)
    requires
        totally_ordered::<T>(),
        0 <= start <= i <= end <= s.len(),
        is_right_point(s, x, start, end, i),
    ensures
        i == start + count_le(s.subrange(start, end), x),
{
    let w = s.subrange(start, end);
    let p = |e: T| le(e, x);
    assert forall|k: int| 0 <= k < i - start implies p(#[trigger] w[k]) by {
        assert(!lt(x, s[start + k]));
    }
    assert forall|k: int| i - start <= k < w.len() implies !p(#[trigger] w[k]) by {
        assert(lt(x, s[start + k]));
    }
    lemma_prefix_count(w, p, i - start);
}

/// A sorted stretch `s[start..end]` that gains `x` at an index `i` with
/// nothing above `x` before it and nothing below `x` from it on is sorted
/// again, over `[start, end + 1)`.
pub proof fn lemma_insert_keeps_sorted<T: PartialOrd>(
    s: Seq<T>,
    x: T,
    start: int,
    end: int,
    i: int,
)
    requires
        totally_ordered::<T>(),
        0 <= start <= i <= s.len(),
        start < end ==> i <= end <= s.len(),
        sorted_within(s, start, end),
        forall|k: int| start <= k < i ==> le(#[trigger] s[k], x),
        forall|k: int| i <= k < end ==> le(x, #[trigger] s[k]),
    ensures
        sorted_within(s.insert(i, x), start, end + 1),
{
    let r = s.insert(i, x);
    assert forall|j: int, k: int| start <= j < k < end + 1 implies le(
        #[trigger] r[j],
        #[trigger] r[k],
    ) by {
        if j < i && k > i {
            assert(le(s[j], s[k - 1]));
        } else if j < i && k < i {
            assert(le(s[j], s[k]));
        } else if j > i {
            assert(le(s[j - 1], s[k - 1]));
        } else if j == i {
            assert(le(x, s[k - 1]));
        } else {
            assert(le(s[j], x));
        }
    }
}

/// Where the elements below `x` come first in `s`, the number of elements
/// strictly less than `x` is the leftmost insertion point of `x`.
pub proof fn lemma_count_is_left_point<T: PartialOrd>(s: Seq<T>, x: T)
    requires
        below_come_first(s, x, 0, s.len() as int),
    ensures
        count_lt(s, x) <= s.len(),
        is_left_point(s, x, 0, s.len() as int, count_lt(s, x) as int),
    decreases s.len(),
{
    reveal(Seq::filter);
    if s.len() > 0 {
        let rest = s.drop_last();
        let n = rest.len() as int;
        assert forall|j: int, k: int| 0 <= j <= k < n && lt(#[trigger] rest[k], x) implies lt(
            #[trigger] rest[j],
            x,
        ) by {
            assert(lt(s[k], x) ==> lt(s[j], x));
        }
        lemma_count_is_left_point(rest, x);
        let c = count_lt(rest, x) as int;
        assert(forall|k: int| 0 <= k < n ==> rest[k] == s[k]);
        if lt(s[n], x) {
            if c < n {
                assert(!lt(rest[c], x));
                assert(lt(s[n], x) ==> lt(s[c], x));
            }
        }
    }
}

/// Where the elements above `x` come last in `s`, and the type is totally
/// ordered, the number of elements less than or equal to `x` is the rightmost
/// insertion point of `x`.
pub proof fn lemma_count_is_right_point<T: PartialOrd>(s: Seq<T>, x: T)
    requires
        totally_ordered::<T>(),
        above_come_last(s, x, 0, s.len() as int),
    ensures
        count_le(s, x) <= s.len(),
        is_right_point(s, x, 0, s.len() as int, count_le(s, x) as int),
    decreases s.len(),
{
    reveal(Seq::filter);
    if s.len() > 0 {
        let rest = s.drop_last();
        let n = rest.len() as int;
        assert forall|j: int, k: int| 0 <= j <= k < n && lt(x, #[trigger] rest[j]) implies lt(
            x,
            #[trigger] rest[k],
        ) by {
            assert(lt(x, s[j]) ==> lt(x, s[k]));
        }
        lemma_count_is_right_point(rest, x);
        let c = count_le(rest, x) as int;
        assert(forall|k: int| 0 <= k < n ==> rest[k] == s[k]);
        if le(s[n], x) {
            if c < n {
                assert(lt(x, rest[c]));
                assert(lt(x, s[c]) ==> lt(x, s[n]));
            }
        }
    }
}

/// A stretch has at most one leftmost insertion point for `x`: two searches
/// for the same value in the same stretch find the same index.
pub proof fn lemma_left_point_unique<T: PartialOrd>(
    s: Seq<T>,
    x: T,
    start: int,
    end: int,
    i1: int,
    i2: int,
)
    requires
        start <= i1 <= end,
        start <= i2 <= end,
        is_left_point(s, x, start, end, i1),
        is_left_point(s, x, start, end, i2),
    ensures
        i1 == i2,
{
    if i1 < i2 {
        assert(lt(s[i1], x));
    } else if i2 < i1 {
        assert(lt(s[i2], x));
    }
}

/// A stretch has at most one rightmost insertion point for `x`: two searches
/// for the same value in the same stretch find the same index.
pub proof fn lemma_right_point_unique<T: PartialOrd>(
    s: Seq<T>,
    x: T,
    start: int,
    end: int,
    i1: int,
    i2: int,
)
    requires
        start <= i1 <= end,
        start <= i2 <= end,
        is_right_point(s, x, start, end, i1),
        is_right_point(s, x, start, end, i2),
    ensures
        i1 == i2,
{
    if i1 < i2 {
        assert(lt(x, s[i1]));
    } else if i2 < i1 {
        assert(lt(x, s[i2]));
    }
}

/// Where `x` occurs in a sorted stretch, its leftmost insertion point is the
/// place of its first occurrence.
pub proof fn lemma_left_point_is_first_occurrence<T: PartialOrd>(
    s: Seq<T>,
    x: T,
    start: int,
    end: int,
    i: int,
    at: int,
)
    requires
        totally_ordered::<T>(),
        sorted_within(s, start, end),
        start <= i <= end,
        is_left_point(s, x, start, end, i),
        start <= at < end,
        equivalent(s[at], x),
    ensures
        i <= at,
        equivalent(s[i], x),
        forall|k: int| start <= k < i ==> !equivalent(#[trigger] s[k], x),
{
    assert(lt(s[at], x) <==> !le(x, s[at]));
    assert(!lt(s[i], x));
    if i < at {
        assert(le(s[i], s[at]));
    }
    assert forall|k: int| start <= k < i implies !equivalent(#[trigger] s[k], x) by {
        assert(lt(s[k], x));
    }
}

/// Where `x` occurs in a sorted stretch, its rightmost insertion point is the
/// place behind its last occurrence.
pub proof fn lemma_right_point_is_behind_last_occurrence<T: PartialOrd>(
    s: Seq<T>,
    x: T,
    start: int,
    end: int,
    i: int,
    at: int,
)
    requires
        totally_ordered::<T>(),
        sorted_within(s, start, end),
        start <= i <= end,
        is_right_point(s, x, start, end, i),
        start <= at < end,
        equivalent(s[at], x),
    ensures
        at < i,
        equivalent(s[i - 1], x),
        forall|k: int| i <= k < end ==> !equivalent(#[trigger] s[k], x),
{
    assert(lt(x, s[at]) <==> !le(s[at], x));
    assert(!lt(x, s[i - 1]));
    if at < i - 1 {
        assert(le(s[at], s[i - 1]));
    }
    assert forall|k: int| i <= k < end implies !equivalent(#[trigger] s[k], x) by {
        assert(lt(x, s[k]));
    }
}

/// In a totally ordered type the leftmost insertion point of `x` is never
/// behind the rightmost, and the two are the same exactly when neither `x`
/// nor a value that compares equal to it occurs in `s`.
pub proof fn lemma_left_le_right<T: PartialOrd>(s: Seq<T>, x: T)
    requires
        totally_ordered::<T>(),
    ensures
        count_lt(s, x) <= count_le(s, x),
        count_lt(s, x) == count_le(s, x) <==> !occurs(s, x),
    decreases s.len(),
{
    reveal(Seq::filter);
    if s.len() > 0 {
        let rest = s.drop_last();
        let n = rest.len() as int;
        lemma_left_le_right(rest, x);
        assert(forall|k: int| 0 <= k < n ==> rest[k] == s[k]);
        assert(lt(s[n], x) <==> !le(x, s[n]));
        if occurs(rest, x) {
            let k = choose|k: int| 0 <= k < rest.len() && equivalent(#[trigger] rest[k], x);
            assert(equivalent(s[k], x));
        }
        if equivalent(s[n], x) {
            assert(occurs(s, x));
        }
        if occurs(s, x) && !equivalent(s[n], x) {
            let k = choose|k: int| 0 <= k < s.len() && equivalent(#[trigger] s[k], x);
            assert(equivalent(rest[k], x));
        }
    }
}

/// A sequence that gains `x` at any index holds what it held, and `x` once
/// more.
proof fn lemma_insert_adds_one<T>(s: Seq<T>, x: T, i: int)
    requires
        0 <= i <= s.len(),
    ensures
        s.insert(i, x).to_multiset() == s.push(x).to_multiset(),
{
    broadcast use vstd::seq_lib::group_to_multiset_ensures;

    let r = s.insert(i, x);
    assert(r.remove(i) =~= s);
    assert(r[i] == x);
    assert(r.to_multiset().count(x) > 0);
    assert(r.to_multiset() =~= s.to_multiset().insert(x));
}

/// In a totally ordered type whose equal values are the same value, `le` is a
/// total ordering in the sense of `vstd`.
proof fn lemma_le_is_total_ordering<T: PartialOrd>()
    requires
        totally_ordered::<T>(),
        antisymmetric::<T>(),
    ensures
        vstd::relations::total_ordering(le_relation::<T>()),
{
    let leq = le_relation::<T>();
    assert forall|a: T| #[trigger] leq(a, a) by {
        assert(lt(a, a) <==> !le(a, a));
    }
    assert forall|a: T, b: T| #[trigger] leq(a, b) || #[trigger] leq(b, a) by {
        assert(lt(a, b) <==> !le(b, a));
    }
    assert forall|a: T, b: T| #[trigger] leq(a, b) && #[trigger] leq(b, a) implies a == b by {
        assert(le(a, b) && le(b, a));
    }
    assert forall|a: T, b: T, c: T| #[trigger] leq(a, b) && #[trigger] leq(b, c) implies leq(
        a,
        c,
    ) by {
        assert(le(a, b) && le(b, c));
    }
}

/// A sorted sequence with `x` put in at index `i`, where nothing before `i`
/// is above `x` and nothing from `i` on is below it, is the sequence with `x`
/// appended, sorted.
proof fn lemma_insert_sorts<T: PartialOrd>(s: Seq<T>, x: T, i: int)
    requires
        totally_ordered::<T>(),
        antisymmetric::<T>(),
        sorted(s),
        0 <= i <= s.len(),
        forall|k: int| 0 <= k < i ==> le(#[trigger] s[k], x),
        forall|k: int| i <= k < s.len() ==> le(x, #[trigger] s[k]),
    ensures
        s.insert(i, x) == s.push(x).sort_by(le_relation::<T>()),
{
    let leq = le_relation::<T>();
    let r = s.insert(i, x);
    let t = s.push(x).sort_by(leq);
    lemma_le_is_total_ordering::<T>();
    lemma_insert_keeps_sorted(s, x, 0, s.len() as int, i);
    assert forall|j: int, k: int| 0 <= j < k < r.len() implies #[trigger] leq(r[j], r[k]) by {
        assert(le(r[j], r[k]));
    }
    s.push(x).lemma_sort_by_ensures(leq);
    lemma_insert_adds_one(s, x, i);
    vstd::seq_lib::lemma_sorted_unique(r, t, leq);
}

/// Putting `x` into a sorted sequence at its leftmost or at its rightmost
/// insertion point gives the sequence with `x` appended, sorted: in a totally
/// ordered type whose equal values are the same value, that is the one sorted
/// arrangement of these elements.
pub proof fn lemma_insort_sorts<T: PartialOrd>(s: Seq<T>, x: T)
    requires
        totally_ordered::<T>(),
        antisymmetric::<T>(),
        sorted(s),
    ensures
        s.insert(count_lt(s, x) as int, x) == s.push(x).sort_by(le_relation::<T>()),
        s.insert(count_le(s, x) as int, x) == s.push(x).sort_by(le_relation::<T>()),
{
    lemma_sorted_is_partitioned(s, x, 0, s.len() as int);
    lemma_count_is_left_point(s, x);
    lemma_count_is_right_point(s, x);
    lemma_insert_sorts(s, x, count_lt(s, x) as int);
    lemma_insert_sorts(s, x, count_le(s, x) as int);
}

/// `r` is `s` sorted, and sorted stably, as `from` shows: `from[k]` is the
/// place in `s` that the element `r[k]` came from, every place of `s` is the
/// source of some place of `r`, and of two places of `r` the earlier holds the
/// smaller element or, where the two compare equal, the one that stood
/// earlier in `s`.
pub open spec fn stably_sorts<T: PartialOrd>(r: Seq<T>, s: Seq<T>, from: Seq<int>) -> bool {
    &&& r.len() == s.len()
    &&& from.len() == s.len()
    &&& forall|k: int| 0 <= k < r.len() ==> 0 <= #[trigger] from[k] < s.len() && r[k] == s[from[k]]
    &&& forall|u: int| 0 <= u < s.len() ==> #[trigger] from.contains(u)
    &&& forall|j: int, k: int|
        #![trigger from[j], from[k]]
        0 <= j < k < r.len() ==> lt(r[j], r[k]) || (equivalent(r[j], r[k]) && from[j] < from[k])
}

/// `r` is what a stable sort makes of `s`.
pub open spec fn is_stable_sort_of<T: PartialOrd>(r: Seq<T>, s: Seq<T>) -> bool {
    exists|from: Seq<int>| stably_sorts(r, s, from)
}

/// Two stable sortings of one sequence take the element of each place up to
/// `m` from the same place.
proof fn lemma_same_sources<T: PartialOrd>(
    s: Seq<T>,
    r1: Seq<T>,
    from1: Seq<int>,
    r2: Seq<T>,
    from2: Seq<int>,
    m: int,
)
    requires
        totally_ordered::<T>(),
        stably_sorts(r1, s, from1),
        stably_sorts(r2, s, from2),
        0 <= m <= s.len(),
    ensures
        forall|k: int| 0 <= k < m ==> from1[k] == from2[k],
    decreases m,
{
    if m > 0 {
        lemma_same_sources(s, r1, from1, r2, from2, m - 1);
        let n = m - 1;
        let u = from1[n];
        let v = from2[n];
        if u != v {
            // the place of r2 that took its element from u, and the place of
            // r1 that took its element from v, both lie behind n
            assert(from2.contains(u));
            assert(from1.contains(v));
            let k2 = choose|k: int| 0 <= k < from2.len() && from2[k] == u;
            let k1 = choose|k: int| 0 <= k < from1.len() && from1[k] == v;
            if k2 < n {
                assert(from1[k2] == from2[k2]);
                lemma_sources_differ(r1, s, from1, k2, n);
            }
            if k1 < n {
                assert(from1[k1] == from2[k1]);
                lemma_sources_differ(r2, s, from2, k1, n);
            }
            // so r2 puts v before u, and r1 puts u before v
            assert(lt(r2[n], r2[k2]) || (equivalent(r2[n], r2[k2]) && from2[n] < from2[k2]));
            assert(lt(r1[n], r1[k1]) || (equivalent(r1[n], r1[k1]) && from1[n] < from1[k1]));
            assert(lt(s[v], s[u]) <==> !le(s[u], s[v]));
            assert(lt(s[u], s[v]) <==> !le(s[v], s[u]));
        }
    }
}

/// A stable sorting takes the elements of two places from two places.
proof fn lemma_sources_differ<T: PartialOrd>(r: Seq<T>, s: Seq<T>, from: Seq<int>, j: int, k: int)
    requires
        totally_ordered::<T>(),
        stably_sorts(r, s, from),
        0 <= j < k < r.len(),
    ensures
        from[j] != from[k],
{
    if from[j] == from[k] {
        assert(lt(r[j], r[k]) <==> !le(r[k], r[j]));
    }
}

/// In a totally ordered type a sequence has one stable sorting.
pub proof fn lemma_stable_sort_unique<T: PartialOrd>(s: Seq<T>, r1: Seq<T>, r2: Seq<T>)
    requires
        totally_ordered::<T>(),
        is_stable_sort_of(r1, s),
        is_stable_sort_of(r2, s),
    ensures
        r1 == r2,
{
    let from1 = choose|from: Seq<int>| stably_sorts(r1, s, from);
    let from2 = choose|from: Seq<int>| stably_sorts(r2, s, from);
    lemma_same_sources(s, r1, from1, r2, from2, s.len() as int);
    assert forall|k: int| 0 <= k < r1.len() implies r1[k] == r2[k] by {
        assert(from1[k] == from2[k]);
    }
    assert(r1 =~= r2);
}

/// Putting `x` into a sorted sequence at its rightmost insertion point sorts
/// the sequence with `x` appended, and stably: the elements that were there
/// keep their order, and `x`, which was appended last, stands behind the
/// elements that compare equal to it.
pub proof fn lemma_insort_right_stably_sorts<T: PartialOrd>(s: Seq<T>, x: T)
    requires
        totally_ordered::<T>(),
        sorted(s),
    ensures
        is_stable_sort_of(s.insert(count_le(s, x) as int, x), s.push(x)),
{
    lemma_sorted_is_partitioned(s, x, 0, s.len() as int);
    lemma_count_is_right_point(s, x);
    let n = s.len() as int;
    let i = count_le(s, x) as int;
    let r = s.insert(i, x);
    let t = s.push(x);
    let from = Seq::new(
        (n + 1) as nat,
        |k: int|
            if k < i {
                k
            } else if k == i {
                n
            } else {
                k - 1
            },
    );
    assert forall|u: int| 0 <= u < t.len() implies #[trigger] from.contains(u) by {
        if u < i {
            assert(from[u] == u);
        } else if u == n {
            assert(from[i] == u);
        } else {
            assert(from[u + 1] == u);
        }
    }
    assert forall|j: int, k: int|
        #![trigger from[j], from[k]]
        0 <= j < k < r.len() implies lt(r[j], r[k]) || (equivalent(r[j], r[k]) && from[j]
        < from[k]) by {
        assert(lt(r[j], r[k]) <==> !le(r[k], r[j]));
        if k == i {
            assert(!lt(x, s[j]));
        } else if j == i {
            assert(lt(x, s[k - 1]));
        } else {
            assert(le(s[from[j]], s[from[k]]));
        }
    }
    assert(stably_sorts(r, t, from));
}

/// Putting `x` into a sorted sequence with `insort_right` gives what any
/// stable sort makes of the sequence with `x` appended.
pub proof fn lemma_insort_right_is_stable_sort<T: PartialOrd>(s: Seq<T>, x: T, r: Seq<T>)
    requires
        totally_ordered::<T>(),
        sorted(s),
        is_stable_sort_of(r, s.push(x)),
    ensures
        r == s.insert(count_le(s, x) as int, x),
{
    lemma_insort_right_stably_sorts(s, x);
    lemma_stable_sort_unique(s.push(x), r, s.insert(count_le(s, x) as int, x));
}

/// Putting `x` into a sorted sequence with `insort_left` gives what any stable
/// sort makes of the sequence with `x` appended, as long as the elements that
/// compare equal to `x` are `x`: a stable sort leaves `x` behind them,
/// `insort_left` puts it before them.
pub proof fn lemma_insort_left_is_stable_sort<T: PartialOrd>(s: Seq<T>, x: T, r: Seq<T>)
    requires
        totally_ordered::<T>(),
        sorted(s),
        forall|k: int| 0 <= k < s.len() && equivalent(#[trigger] s[k], x) ==> s[k] == x,
        is_stable_sort_of(r, s.push(x)),
    ensures
        r == s.insert(count_lt(s, x) as int, x),
{
    lemma_insort_right_is_stable_sort(s, x, r);
    lemma_sorted_is_partitioned(s, x, 0, s.len() as int);
    lemma_count_is_left_point(s, x);
    lemma_count_is_right_point(s, x);
    lemma_left_le_right(s, x);
    let il = count_lt(s, x) as int;
    let ir = count_le(s, x) as int;
    let left = s.insert(il, x);
    let right = s.insert(ir, x);
    assert forall|k: int| 0 <= k < left.len() implies left[k] == right[k] by {
        if il < k <= ir {
            assert(!lt(s[k - 1], x));
            assert(!lt(x, s[k - 1]));
            assert(equivalent(s[k - 1], x));
        }
        if il <= k < ir {
            assert(!lt(s[k], x));
            assert(!lt(x, s[k]));
            assert(equivalent(s[k], x));
        }
    }
    assert(left =~= right);
}

} // verus!
