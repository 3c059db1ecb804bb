//! Sorted sequences: where a value belongs in one, and what keeps one sorted.

use crate::order::{
    at_most, equiv, lemma_at_most_transitive, lemma_equiv_less, lemma_equiv_transitive,
    lemma_less_equiv, lemma_less_transitive, lemma_trichotomy, less, sorted, strictly_sorted,
    total_order,
};
use crate::skiplist::dedup_seq;
use vstd::prelude::*;

verus! {

/// `x` sorts before `q`, or compares as equal to it where `inclusive` says
/// that this counts.
pub open spec fn below<V: Ord>(x: V, q: V, inclusive: bool) -> bool {
    less(x, q) || (inclusive && equiv(x, q))
}

/// The number of values of `s` that are below `q`. In a sorted sequence they
/// are the first ones, so this is the index of the first that is not.
pub open spec fn rank<V: Ord>(s: Seq<V>, q: V, inclusive: bool) -> int
    decreases s.len(),
{
    if s.len() == 0 {
        0
    } else {
        rank(s.drop_last(), q, inclusive) + if below(s.last(), q, inclusive) {
            1int
        } else {
            0int
        }
    }
}

/// What lies below a value that is below `q` is below `q`.
pub proof fn lemma_below_down<V: Ord>(x: V, y: V, q: V, inclusive: bool)
    requires
        total_order::<V>(),
        at_most(x, y),
        below(y, q, inclusive),
    ensures
        below(x, q, inclusive),
{
    lemma_at_most_transitive(x, y, q);
}

/// Where the first `k` values are below `q` and the others are not, `k` is
/// the rank of `q`.
pub proof fn lemma_rank_split<V: Ord>(s: Seq<V>, q: V, inclusive: bool, k: int)
    requires
        0 <= k <= s.len(),
        forall|i: int| 0 <= i < k ==> below(#[trigger] s[i], q, inclusive),
        forall|i: int| k <= i < s.len() ==> !below(#[trigger] s[i], q, inclusive),
    ensures
        rank(s, q, inclusive) == k,
    decreases s.len(),
{
    if s.len() > 0 {
        let t = s.drop_last();
        assert forall|i: int| 0 <= i < t.len() implies t[i] == s[i] by {}
        if k == s.len() {
            assert(below(s[s.len() - 1], q, inclusive));
            lemma_rank_split(t, q, inclusive, k - 1);
        } else {
            assert(!below(s[s.len() - 1], q, inclusive));
            lemma_rank_split(t, q, inclusive, k);
        }
    }
}

/// In a sorted sequence the values below `q` are the first `rank` ones.
pub proof fn lemma_rank_sorted<V: Ord>(s: Seq<V>, q: V, inclusive: bool)
    requires
        total_order::<V>(),
        sorted(s),
    ensures
        0 <= rank(s, q, inclusive) <= s.len(),
        forall|i: int| 0 <= i < rank(s, q, inclusive) ==> below(#[trigger] s[i], q, inclusive),
        forall|i: int|
            rank(s, q, inclusive) <= i < s.len() ==> !below(#[trigger] s[i], q, inclusive),
    decreases s.len(),
{
    if s.len() > 0 {
        let t = s.drop_last();
        assert forall|i: int| 0 <= i < t.len() implies t[i] == s[i] by {}
        assert(sorted(t)) by {
            assert forall|i: int, j: int| 0 <= i < j < t.len() implies at_most(
                #[trigger] t[i],
                #[trigger] t[j],
            ) by {
                assert(at_most(s[i], s[j]));
            }
        }
        lemma_rank_sorted(t, q, inclusive);
        let kt = rank(t, q, inclusive);
        if below(s.last(), q, inclusive) {
            if kt < t.len() {
                assert(at_most(s[kt], s[s.len() - 1]));
                lemma_below_down(s[kt], s.last(), q, inclusive);
                assert(below(t[kt], q, inclusive));
            }
            assert forall|i: int| 0 <= i < kt + 1 implies below(#[trigger] s[i], q, inclusive) by {
                if i < kt {
                    assert(below(t[i], q, inclusive));
                }
            }
        } else {
            assert forall|i: int| kt <= i < s.len() implies !below(#[trigger] s[i], q, inclusive) by {
                if i < t.len() {
                    assert(!below(t[i], q, inclusive));
                }
            }
            assert forall|i: int| 0 <= i < kt implies below(#[trigger] s[i], q, inclusive) by {
                assert(below(t[i], q, inclusive));
            }
        }
    }
}

/// The rank that counts equal values is no smaller than the one that does
/// not, and between the two lie the values that compare as equal to `q`.
pub proof fn lemma_rank_run<V: Ord>(s: Seq<V>, q: V)
    requires
        total_order::<V>(),
        sorted(s),
    ensures
        0 <= rank(s, q, false) <= rank(s, q, true) <= s.len(),
        forall|i: int| rank(s, q, false) <= i < rank(s, q, true) ==> equiv(#[trigger] s[i], q),
        forall|i: int|
            0 <= i < s.len() && equiv(#[trigger] s[i], q) ==> rank(s, q, false) <= i < rank(
                s,
                q,
                true,
            ),
{
    lemma_rank_sorted(s, q, false);
    lemma_rank_sorted(s, q, true);
    let lo = rank(s, q, false);
    let hi = rank(s, q, true);
    if hi < lo {
        assert(below(s[hi], q, false));
        assert(!below(s[hi], q, true));
    }
    assert forall|i: int| 0 <= i < s.len() && equiv(#[trigger] s[i], q) implies lo <= i < hi by {
        lemma_trichotomy(s[i], q);
        if i < lo {
            assert(below(s[i], q, false));
        }
        if i >= hi {
            assert(!below(s[i], q, true));
        }
    }
}

/// A value put at its rank leaves the sequence sorted.
pub proof fn lemma_sorted_insert<V: Ord>(s: Seq<V>, k: int, v: V)
    requires
        total_order::<V>(),
        sorted(s),
        0 <= k <= s.len(),
        forall|i: int| 0 <= i < k ==> at_most(#[trigger] s[i], v),
        forall|i: int| k <= i < s.len() ==> at_most(v, #[trigger] s[i]),
    ensures
        sorted(s.insert(k, v)),
{
    let t = s.insert(k, v);
    assert forall|i: int, j: int| 0 <= i < j < t.len() implies at_most(
        #[trigger] t[i],
        #[trigger] t[j],
    ) by {
        let i0 = if i < k { i } else { i - 1 };
        let j0 = if j < k { j } else { j - 1 };
        if i == k {
            assert(t[j] == s[j0]);
            assert(at_most(v, s[j0]));
        } else if j == k {
            assert(t[i] == s[i0]);
            assert(at_most(s[i0], v));
        } else {
            assert(t[i] == s[i0]);
            assert(t[j] == s[j0]);
            assert(at_most(s[i0], s[j0]));
        }
    }
}

/// A value put strictly between its neighbours leaves the sequence strictly
/// sorted.
pub proof fn lemma_strictly_sorted_insert<V: Ord>(s: Seq<V>, k: int, v: V)
    requires
        total_order::<V>(),
        strictly_sorted(s),
        0 <= k <= s.len(),
        forall|i: int| 0 <= i < k ==> less(#[trigger] s[i], v),
        forall|i: int| k <= i < s.len() ==> less(v, #[trigger] s[i]),
    ensures
        strictly_sorted(s.insert(k, v)),
{
    let t = s.insert(k, v);
    assert forall|i: int, j: int| 0 <= i < j < t.len() implies less(
        #[trigger] t[i],
        #[trigger] t[j],
    ) by {
        let i0 = if i < k { i } else { i - 1 };
        let j0 = if j < k { j } else { j - 1 };
        if i == k {
            assert(t[j] == s[j0]);
            assert(less(v, s[j0]));
        } else if j == k {
            assert(t[i] == s[i0]);
            assert(less(s[i0], v));
        } else {
            assert(t[i] == s[i0]);
            assert(t[j] == s[j0]);
            assert(less(s[i0], s[j0]));
        }
    }
}

/// A value that takes the place of one it compares as equal to leaves the
/// sequence sorted, and strictly sorted if it was.
pub proof fn lemma_sorted_update<V: Ord>(s: Seq<V>, k: int, v: V)
    requires
        total_order::<V>(),
        sorted(s),
        0 <= k < s.len(),
        equiv(s[k], v),
    ensures
        sorted(s.update(k, v)),
        strictly_sorted(s) ==> strictly_sorted(s.update(k, v)),
{
    let t = s.update(k, v);
    lemma_trichotomy(s[k], v);
    assert forall|i: int, j: int| 0 <= i < j < t.len() implies at_most(
        #[trigger] t[i],
        #[trigger] t[j],
    ) by {
        assert(at_most(s[i], s[j]));
        if i == k {
            assert(at_most(v, s[k]));
            lemma_at_most_transitive(v, s[k], s[j]);
        } else if j == k {
            assert(at_most(s[k], v));
            lemma_at_most_transitive(s[i], s[k], v);
        }
    }
    if strictly_sorted(s) {
        assert forall|i: int, j: int| 0 <= i < j < t.len() implies less(
            #[trigger] t[i],
            #[trigger] t[j],
        ) by {
            assert(less(s[i], s[j]));
            if i == k {
                lemma_equiv_less(v, s[k], s[j]);
            } else if j == k {
                lemma_less_equiv(s[i], s[k], v);
            }
        }
    }
}

/// A sequence without a run of its values is sorted if it was, and strictly
/// sorted if it was.
pub proof fn lemma_sorted_cut<V: Ord>(s: Seq<V>, a: int, b: int)
    requires
        0 <= a <= b <= s.len(),
    ensures
        sorted(s) ==> sorted(s.subrange(0, a) + s.subrange(b, s.len() as int)),
        strictly_sorted(s) ==> strictly_sorted(s.subrange(0, a) + s.subrange(b, s.len() as int)),
{
    let t = s.subrange(0, a) + s.subrange(b, s.len() as int);
    assert forall|i: int| 0 <= i < t.len() implies #[trigger] t[i] == s[if i < a {
        i
    } else {
        i + (b - a)
    }] by {}
    if sorted(s) {
        assert forall|i: int, j: int| 0 <= i < j < t.len() implies at_most(
            #[trigger] t[i],
            #[trigger] t[j],
        ) by {
            let i0 = if i < a { i } else { i + (b - a) };
            let j0 = if j < a { j } else { j + (b - a) };
            assert(at_most(s[i0], s[j0]));
        }
    }
    if strictly_sorted(s) {
        assert forall|i: int, j: int| 0 <= i < j < t.len() implies less(
            #[trigger] t[i],
            #[trigger] t[j],
        ) by {
            let i0 = if i < a { i } else { i + (b - a) };
            let j0 = if j < a { j } else { j + (b - a) };
            assert(less(s[i0], s[j0]));
        }
    }
}

/// A strictly sorted sequence is sorted.
pub proof fn lemma_strict_is_sorted<V: Ord>(s: Seq<V>)
    requires
        strictly_sorted(s),
    ensures
        sorted(s),
{
    assert forall|i: int, j: int| 0 <= i < j < s.len() implies at_most(
        #[trigger] s[i],
        #[trigger] s[j],
    ) by {
        assert(less(s[i], s[j]));
    }
}

/// What is left of a sorted sequence when each value equal to the one kept
/// before it is dropped: its values are values of the sequence, the last one
/// is the last kept of a run that reaches the end, and no two are equal.
pub proof fn lemma_dedup_sorted<V: Ord>(s: Seq<V>)
    requires
        total_order::<V>(),
        sorted(s),
    ensures
        strictly_sorted(dedup_seq(s)),
        dedup_seq(s).len() <= s.len(),
        s.len() > 0 ==> dedup_seq(s).len() > 0 && at_most(dedup_seq(s).last(), s.last()),
        forall|i: int|
            0 <= i < dedup_seq(s).len() && s.len() > 0 ==> at_most(
                #[trigger] dedup_seq(s)[i],
                s.last(),
            ),
    decreases s.len(),
{
    if s.len() > 0 {
        let t = s.drop_last();
        assert forall|i: int| 0 <= i < t.len() implies t[i] == s[i] by {}
        assert(sorted(t)) by {
            assert forall|i: int, j: int| 0 <= i < j < t.len() implies at_most(
                #[trigger] t[i],
                #[trigger] t[j],
            ) by {
                assert(at_most(s[i], s[j]));
            }
        }
        lemma_dedup_sorted(t);
        let rest = dedup_seq(t);
        let d = dedup_seq(s);
        if t.len() > 0 {
            assert(at_most(s[t.len() - 1], s[s.len() - 1]));
            assert(t.last() == s[t.len() - 1]);
        }
        assert forall|i: int| 0 <= i < rest.len() implies at_most(#[trigger] rest[i], s.last()) by {
            lemma_at_most_transitive(rest[i], t.last(), s.last());
        }
        if rest.len() > 0 && equiv(rest.last(), s.last()) {
            assert(d == rest);
        } else {
            assert(d == rest.push(s.last()));
            crate::order::lemma_equiv_reflexive(s.last());
            assert forall|i: int, j: int| 0 <= i < j < d.len() implies less(
                #[trigger] d[i],
                #[trigger] d[j],
            ) by {
                if j < rest.len() {
                    assert(less(rest[i], rest[j]));
                } else {
                    assert(d[j] == s.last());
                    assert(d[i] == rest[i]);
                    assert(at_most(rest.last(), s.last()));
                    assert(less(rest.last(), s.last()));
                    if i < rest.len() - 1 {
                        assert(less(rest[i], rest[rest.len() - 1]));
                        lemma_less_transitive(rest[i], rest.last(), s.last());
                    }
                }
            }
        }
    }
}

/// A sorted sequence read from the back never rises.
pub proof fn lemma_reverse_sorted<V: Ord>(s: Seq<V>)
    requires
        sorted(s),
    ensures
        forall|i: int, j: int|
            0 <= i < j < s.len() ==> at_most(#[trigger] s.reverse()[j], #[trigger] s.reverse()[i]),
{
    let r = s.reverse();
    assert forall|i: int, j: int| 0 <= i < j < s.len() implies at_most(
        #[trigger] r[j],
        #[trigger] r[i],
    ) by {
        assert(r[j] == s[s.len() - 1 - j]);
        assert(r[i] == s[s.len() - 1 - i]);
        assert(at_most(s[s.len() - 1 - j], s[s.len() - 1 - i]));
    }
}

/// In a sorted sequence every value that compares as equal to `v` stands
/// before the rank at which a list that keeps duplicates puts `v`, and every
/// value behind that rank sorts behind `v`.
pub proof fn lemma_duplicates_follow<V: Ord>(s: Seq<V>, v: V)
    requires
        total_order::<V>(),
        sorted(s),
    ensures
        0 <= rank(s, v, true) <= s.len(),
        forall|i: int| 0 <= i < s.len() && equiv(#[trigger] s[i], v) ==> i < rank(s, v, true),
        forall|i: int| rank(s, v, true) <= i < s.len() ==> less(v, #[trigger] s[i]),
        s.insert(rank(s, v, true), v).len() == s.len() + 1,
{
    lemma_rank_run(s, v);
    lemma_rank_sorted(s, v, true);
    assert forall|i: int| rank(s, v, true) <= i < s.len() implies less(v, #[trigger] s[i]) by {
        lemma_trichotomy(s[i], v);
    }
}

} // verus!
