//! What merging two sorted sequences yields, and the laws of the set
//! operations that are built on it.

use crate::order::{
    equiv, lemma_equiv_less, lemma_equiv_reflexive, lemma_equiv_transitive, lemma_less_equiv,
    lemma_less_transitive, lemma_trichotomy, less, strictly_sorted, total_order,
};
use vstd::prelude::*;

verus! {

/// Some value of `s` compares as equal to `x`.
pub open spec fn member<V: Ord>(s: Seq<V>, x: V) -> bool {
    exists|i: int| 0 <= i < s.len() && equiv(#[trigger] s[i], x)
}

/// The merge of `a` and `b` that takes each value once: of two that compare
/// as equal, the one of `a`.
pub open spec fn union_seq<V: Ord>(a: Seq<V>, b: Seq<V>) -> Seq<V>
    decreases a.len() + b.len(),
{
    if a.len() == 0 {
        b
    } else if b.len() == 0 {
        a
    } else if less(a[0], b[0]) {
        seq![a[0]] + union_seq(a.skip(1), b)
    } else if less(b[0], a[0]) {
        seq![b[0]] + union_seq(a, b.skip(1))
    } else {
        seq![a[0]] + union_seq(a.skip(1), b.skip(1))
    }
}

/// The values of `a` that the merge with `b` finds in both.
pub open spec fn intersection_seq<V: Ord>(a: Seq<V>, b: Seq<V>) -> Seq<V>
    decreases a.len() + b.len(),
{
    if a.len() == 0 || b.len() == 0 {
        Seq::empty()
    } else if less(a[0], b[0]) {
        intersection_seq(a.skip(1), b)
    } else if less(b[0], a[0]) {
        intersection_seq(a, b.skip(1))
    } else {
        seq![a[0]] + intersection_seq(a.skip(1), b.skip(1))
    }
}

/// The values of `a` that the merge with `b` finds in `a` alone.
pub open spec fn difference_seq<V: Ord>(a: Seq<V>, b: Seq<V>) -> Seq<V>
    decreases a.len() + b.len(),
{
    if a.len() == 0 {
        Seq::empty()
    } else if b.len() == 0 {
        a
    } else if less(a[0], b[0]) {
        seq![a[0]] + difference_seq(a.skip(1), b)
    } else if less(b[0], a[0]) {
        difference_seq(a, b.skip(1))
    } else {
        difference_seq(a.skip(1), b.skip(1))
    }
}

/// The values that the merge of `a` and `b` finds in one of them alone.
pub open spec fn symmetric_difference_seq<V: Ord>(a: Seq<V>, b: Seq<V>) -> Seq<V>
    decreases a.len() + b.len(),
{
    if a.len() == 0 {
        b
    } else if b.len() == 0 {
        a
    } else if less(a[0], b[0]) {
        seq![a[0]] + symmetric_difference_seq(a.skip(1), b)
    } else if less(b[0], a[0]) {
        seq![b[0]] + symmetric_difference_seq(a, b.skip(1))
    } else {
        symmetric_difference_seq(a.skip(1), b.skip(1))
    }
}

/// The values of `a` that have no equal in `b`, found by looking each up.
pub open spec fn keep_missing<V: Ord>(a: Seq<V>, b: Seq<V>) -> Seq<V>
    decreases a.len(),
{
    if a.len() == 0 {
        Seq::empty()
    } else if member(b, a[0]) {
        keep_missing(a.skip(1), b)
    } else {
        seq![a[0]] + keep_missing(a.skip(1), b)
    }
}

/// The values of `a` that have an equal in `b`, found by looking each up.
pub open spec fn keep_present<V: Ord>(a: Seq<V>, b: Seq<V>) -> Seq<V>
    decreases a.len(),
{
    if a.len() == 0 {
        Seq::empty()
    } else if member(b, a[0]) {
        seq![a[0]] + keep_present(a.skip(1), b)
    } else {
        keep_present(a.skip(1), b)
    }
}

/// A strictly sorted sequence without its first value is strictly sorted,
/// and its first value sorts before the others.
pub proof fn lemma_strict_skip<V: Ord>(s: Seq<V>)
    requires
        strictly_sorted(s),
        s.len() > 0,
    ensures
        strictly_sorted(s.skip(1)),
        forall|i: int| 0 <= i < s.skip(1).len() ==> less(s[0], #[trigger] s.skip(1)[i]),
{
    let t = s.skip(1);
    assert forall|i: int, j: int| 0 <= i < j < t.len() implies less(
        #[trigger] t[i],
        #[trigger] t[j],
    ) by {
        assert(less(s[i + 1], s[j + 1]));
    }
    assert forall|i: int| 0 <= i < t.len() implies less(s[0], #[trigger] t[i]) by {
        assert(less(s[0], s[i + 1]));
    }
}

/// No value of `s` compares as equal to one that sorts before all of them.
pub proof fn lemma_member_not_smaller<V: Ord>(s: Seq<V>, x: V)
    requires
        total_order::<V>(),
        forall|i: int| 0 <= i < s.len() ==> less(x, #[trigger] s[i]),
    ensures
        !member(s, x),
{
    if member(s, x) {
        let i = choose|i: int| 0 <= i < s.len() && equiv(#[trigger] s[i], x);
        lemma_trichotomy(s[i], x);
    }
}

/// Whether a sequence has a value does not depend on which of two values
/// that compare as equal is asked for.
pub proof fn lemma_member_equiv<V: Ord>(s: Seq<V>, x: V, y: V)
    requires
        total_order::<V>(),
        equiv(x, y),
    ensures
        member(s, x) == member(s, y),
{
    lemma_trichotomy(x, y);
    if member(s, x) {
        let i = choose|i: int| 0 <= i < s.len() && equiv(#[trigger] s[i], x);
        lemma_equiv_transitive(s[i], x, y);
    }
    if member(s, y) {
        let i = choose|i: int| 0 <= i < s.len() && equiv(#[trigger] s[i], y);
        lemma_equiv_transitive(s[i], y, x);
    }
}

/// A sequence has a value if its first value compares as equal to it or the
/// rest has it.
pub proof fn lemma_member_skip<V: Ord>(s: Seq<V>, x: V)
    requires
        s.len() > 0,
    ensures
        member(s, x) == (equiv(s[0], x) || member(s.skip(1), x)),
{
    let t = s.skip(1);
    if member(s, x) {
        let i = choose|i: int| 0 <= i < s.len() && equiv(#[trigger] s[i], x);
        if i > 0 {
            assert(equiv(t[i - 1], x));
        }
    }
    if member(t, x) {
        let i = choose|i: int| 0 <= i < t.len() && equiv(#[trigger] t[i], x);
        assert(equiv(s[i + 1], x));
    }
    if equiv(s[0], x) {
        assert(member(s, x));
    }
}

/// A sequence with a value put in front has what the value compares as
/// equal to and what the sequence has.
pub proof fn lemma_member_cons<V: Ord>(v: V, s: Seq<V>, x: V)
    ensures
        member(seq![v] + s, x) == (equiv(v, x) || member(s, x)),
{
    let t = seq![v] + s;
    assert(t[0] == v);
    assert(t.skip(1) =~= s);
    lemma_member_skip(t, x);
}

/// The union and the intersection together are as long as the two
/// sequences together.
pub proof fn lemma_union_len<V: Ord>(a: Seq<V>, b: Seq<V>)
    ensures
        union_seq(a, b).len() + intersection_seq(a, b).len() == a.len() + b.len(),
    decreases a.len() + b.len(),
{
    if a.len() == 0 || b.len() == 0 {
    } else if less(a[0], b[0]) {
        lemma_union_len(a.skip(1), b);
    } else if less(b[0], a[0]) {
        lemma_union_len(a, b.skip(1));
    } else {
        lemma_union_len(a.skip(1), b.skip(1));
    }
}

/// The two differences and the intersection together are as long as the
/// union.
pub proof fn lemma_parts_len<V: Ord>(a: Seq<V>, b: Seq<V>)
    requires
        total_order::<V>(),
    ensures
        difference_seq(a, b).len() + difference_seq(b, a).len() + intersection_seq(a, b).len()
            == union_seq(a, b).len(),
        symmetric_difference_seq(a, b).len() == difference_seq(a, b).len() + difference_seq(
            b,
            a,
        ).len(),
        intersection_seq(a, b).len() == intersection_seq(b, a).len(),
    decreases a.len() + b.len(),
{
    if a.len() == 0 || b.len() == 0 {
    } else {
        lemma_trichotomy(a[0], b[0]);
        if less(a[0], b[0]) {
            lemma_parts_len(a.skip(1), b);
        } else if less(b[0], a[0]) {
            lemma_parts_len(a, b.skip(1));
        } else {
            lemma_parts_len(a.skip(1), b.skip(1));
        }
    }
}

/// The union has the values that one of the two sequences has.
pub proof fn lemma_union_member<V: Ord>(a: Seq<V>, b: Seq<V>, x: V)
    requires
        total_order::<V>(),
    ensures
        member(union_seq(a, b), x) == (member(a, x) || member(b, x)),
    decreases a.len() + b.len(),
{
    if a.len() == 0 {
        assert(!member(a, x));
    } else if b.len() == 0 {
        assert(!member(b, x));
    } else {
        lemma_member_skip(a, x);
        lemma_member_skip(b, x);
        if less(a[0], b[0]) {
            lemma_union_member(a.skip(1), b, x);
            lemma_member_cons(a[0], union_seq(a.skip(1), b), x);
        } else if less(b[0], a[0]) {
            lemma_union_member(a, b.skip(1), x);
            lemma_member_cons(b[0], union_seq(a, b.skip(1)), x);
        } else {
            lemma_union_member(a.skip(1), b.skip(1), x);
            lemma_member_cons(a[0], union_seq(a.skip(1), b.skip(1)), x);
            lemma_trichotomy(a[0], b[0]);
            if equiv(b[0], x) {
                lemma_equiv_transitive(a[0], b[0], x);
            }
            if equiv(a[0], x) {
                lemma_trichotomy(b[0], a[0]);
                lemma_equiv_transitive(b[0], a[0], x);
            }
        }
    }
}

/// Looking each value of `a` up in `b` keeps those that `a` has and `b` has
/// not, or those that both have.
pub proof fn lemma_keep_member<V: Ord>(a: Seq<V>, b: Seq<V>, x: V)
    requires
        total_order::<V>(),
    ensures
        member(keep_missing(a, b), x) == (member(a, x) && !member(b, x)),
        member(keep_present(a, b), x) == (member(a, x) && member(b, x)),
    decreases a.len(),
{
    if a.len() == 0 {
        assert(!member(a, x));
        assert(!member(keep_missing(a, b), x));
        assert(!member(keep_present(a, b), x));
    } else {
        lemma_keep_member(a.skip(1), b, x);
        lemma_member_skip(a, x);
        lemma_member_cons(a[0], keep_missing(a.skip(1), b), x);
        lemma_member_cons(a[0], keep_present(a.skip(1), b), x);
        if equiv(a[0], x) {
            lemma_member_equiv(b, a[0], x);
        }
    }
}

/// A value of `b` that sorts before all of `a` makes no difference to what
/// looking the values of `a` up in `b` keeps.
pub proof fn lemma_keep_skip<V: Ord>(a: Seq<V>, b: Seq<V>)
    requires
        total_order::<V>(),
        b.len() > 0,
        forall|i: int| 0 <= i < a.len() ==> less(b[0], #[trigger] a[i]),
    ensures
        keep_missing(a, b) == keep_missing(a, b.skip(1)),
        keep_present(a, b) == keep_present(a, b.skip(1)),
    decreases a.len(),
{
    if a.len() > 0 {
        let t = a.skip(1);
        assert forall|i: int| 0 <= i < t.len() implies less(b[0], #[trigger] t[i]) by {
            assert(less(b[0], a[i + 1]));
        }
        lemma_keep_skip(t, b);
        lemma_member_skip(b, a[0]);
        assert(less(b[0], a[0]));
        lemma_trichotomy(b[0], a[0]);
    }
}

/// On sets, the merge and the lookup find the same difference and the same
/// intersection, value for value.
pub proof fn lemma_merge_is_lookup<V: Ord>(a: Seq<V>, b: Seq<V>)
    requires
        total_order::<V>(),
        strictly_sorted(a),
        strictly_sorted(b),
    ensures
        difference_seq(a, b) == keep_missing(a, b),
        intersection_seq(a, b) == keep_present(a, b),
    decreases a.len() + b.len(),
{
    if a.len() == 0 {
    } else if b.len() == 0 {
        assert(b =~= Seq::<V>::empty());
        lemma_keep_nothing(a);
    } else {
        lemma_strict_skip(a);
        lemma_strict_skip(b);
        lemma_trichotomy(a[0], b[0]);
        lemma_member_skip(b, a[0]);
        if less(a[0], b[0]) {
            // a[0] sorts before all of b
            assert forall|i: int| 0 <= i < b.len() implies less(a[0], #[trigger] b[i]) by {
                if i > 0 {
                    assert(less(b[0], b.skip(1)[i - 1]));
                    lemma_less_transitive(a[0], b[0], b[i]);
                }
            }
            lemma_member_not_smaller(b, a[0]);
            lemma_merge_is_lookup(a.skip(1), b);
        } else if less(b[0], a[0]) {
            assert forall|i: int| 0 <= i < a.len() implies less(b[0], #[trigger] a[i]) by {
                if i > 0 {
                    assert(less(a[0], a.skip(1)[i - 1]));
                    lemma_less_transitive(b[0], a[0], a[i]);
                }
            }
            lemma_keep_skip(a, b);
            lemma_merge_is_lookup(a, b.skip(1));
        } else {
            // a[0] and b[0] compare as equal
            assert(equiv(b[0], a[0]));
            assert(member(b, a[0]));
            let t = a.skip(1);
            assert forall|i: int| 0 <= i < t.len() implies less(b[0], #[trigger] t[i]) by {
                assert(less(a[0], t[i]));
                lemma_equiv_less(b[0], a[0], t[i]);
            }
            lemma_keep_skip(t, b);
            lemma_merge_is_lookup(t, b.skip(1));
        }
    }
}

/// Looking values up in the empty sequence keeps all or none of them.
pub proof fn lemma_keep_nothing<V: Ord>(a: Seq<V>)
    ensures
        keep_missing(a, Seq::<V>::empty()) == a,
        keep_present(a, Seq::<V>::empty()) == Seq::<V>::empty(),
    decreases a.len(),
{
    let e = Seq::<V>::empty();
    if a.len() > 0 {
        lemma_keep_nothing(a.skip(1));
        assert(!member(e, a[0]));
        assert(seq![a[0]] + a.skip(1) =~= a);
    } else {
        assert(keep_missing(a, e) =~= a);
    }
}

/// The intersection is no longer than either sequence.
pub proof fn lemma_intersection_bound<V: Ord>(a: Seq<V>, b: Seq<V>)
    ensures
        intersection_seq(a, b).len() <= a.len(),
        intersection_seq(a, b).len() <= b.len(),
    decreases a.len() + b.len(),
{
    if a.len() == 0 || b.len() == 0 {
    } else if less(a[0], b[0]) {
        lemma_intersection_bound(a.skip(1), b);
    } else if less(b[0], a[0]) {
        lemma_intersection_bound(a, b.skip(1));
    } else {
        lemma_intersection_bound(a.skip(1), b.skip(1));
    }
}

/// Looking the values of `a` up in `b` keeps all of them just when `b` has
/// each of them.
pub proof fn lemma_keep_all<V: Ord>(a: Seq<V>, b: Seq<V>)
    ensures
        keep_present(a, b).len() <= a.len(),
        keep_present(a, b).len() == a.len() <==> forall|i: int|
            0 <= i < a.len() ==> member(b, #[trigger] a[i]),
    decreases a.len(),
{
    if a.len() > 0 {
        let t = a.skip(1);
        lemma_keep_all(t, b);
        if keep_present(a, b).len() == a.len() {
            assert forall|i: int| 0 <= i < a.len() implies member(b, #[trigger] a[i]) by {
                if i > 0 {
                    assert(member(b, t[i - 1]));
                }
            }
        }
        if forall|i: int| 0 <= i < a.len() ==> member(b, #[trigger] a[i]) {
            assert(member(b, a[0]));
            assert forall|i: int| 0 <= i < t.len() implies member(b, #[trigger] t[i]) by {
                assert(member(b, a[i + 1]));
            }
        }
    }
}

/// What a merge still has to look at on one side: the value it holds, if
/// any, and then what its walk of that side has left.
pub open spec fn pending<V>(value: Option<&V>, rest: Seq<V>) -> Seq<V> {
    match value {
        Some(v) => seq![*v] + rest,
        None => Seq::empty(),
    }
}

/// A value taken from a walk stands, with what the walk has left, for what
/// the walk had left before.
pub proof fn lemma_pending_next<V>(value: Option<&V>, before: Seq<V>, after: Seq<V>)
    requires
        before.len() == 0 ==> value is None && after == before,
        before.len() > 0 ==> value == Some(&before[0]) && after == before.skip(1),
    ensures
        pending(value, after) == before,
{
    assert(pending(value, after) =~= before);
}

/// The first of what is pending is the value held, and the rest is what the
/// walk has left.
pub proof fn lemma_pending_held<V>(v: &V, rest: Seq<V>)
    ensures
        pending(Some(v), rest).len() > 0,
        pending(Some(v), rest)[0] == *v,
        pending(Some(v), rest).skip(1) == rest,
{
    assert(pending(Some(v), rest).skip(1) =~= rest);
}

/// Of two sets, no value is in both differences, and the union has just
/// the values that one of the differences or the intersection has.
pub proof fn lemma_set_parts<V: Ord>(a: Seq<V>, b: Seq<V>, x: V)
    requires
        total_order::<V>(),
        strictly_sorted(a),
        strictly_sorted(b),
    ensures
        !(member(difference_seq(a, b), x) && member(difference_seq(b, a), x)),
        !(member(difference_seq(a, b), x) && member(intersection_seq(a, b), x)),
        !(member(difference_seq(b, a), x) && member(intersection_seq(a, b), x)),
        member(union_seq(a, b), x) <==> member(difference_seq(a, b), x) || member(
            difference_seq(b, a),
            x,
        ) || member(intersection_seq(a, b), x),
{
    lemma_merge_is_lookup(a, b);
    lemma_merge_is_lookup(b, a);
    lemma_keep_member(a, b, x);
    lemma_keep_member(b, a, x);
    lemma_union_member(a, b, x);
}

/// The sizes of the set operations: the union and the intersection make up
/// the two sets, and the two differences and the intersection make up the
/// union.
pub proof fn lemma_set_sizes<V: Ord>(a: Seq<V>, b: Seq<V>)
    requires
        total_order::<V>(),
    ensures
        union_seq(a, b).len() == a.len() + b.len() - intersection_seq(a, b).len(),
        union_seq(a, b).len() == difference_seq(a, b).len() + difference_seq(b, a).len()
            + intersection_seq(a, b).len(),
{
    lemma_union_len(a, b);
    lemma_parts_len(a, b);
}

} // verus!
