//! The total order that the ordered containers sort by, stated once over
//! `Ord`, with the laws the containers' proofs use.

use core::cmp::Ordering;
use vstd::prelude::*;
use vstd::std_specs::cmp::{OrdSpec, PartialEqSpec, PartialOrdSpec};

verus! {

/// How one value stands to another.
#[derive(Clone, Copy, Debug, PartialEq, Eq)]
pub enum Relation {
    Less,
    Equal,
    Greater,
}

/// `V`'s comparison is deterministic and a total order up to equivalence.
pub open spec fn total_order<V: Ord>() -> bool {
    vstd::laws_cmp::obeys_cmp::<V>()
}

/// `a` sorts strictly before `b`.
pub open spec fn less<V: Ord>(a: V, b: V) -> bool {
    a.cmp_spec(&b) == Ordering::Less
}

/// `a` and `b` compare as equal.
pub open spec fn equiv<V: Ord>(a: V, b: V) -> bool {
    a.cmp_spec(&b) == Ordering::Equal
}

/// `a` sorts before `b` or compares as equal to it.
pub open spec fn at_most<V: Ord>(a: V, b: V) -> bool {
    less(a, b) || equiv(a, b)
}

/// No element sorts after a later one.
pub open spec fn sorted<V: Ord>(s: Seq<V>) -> bool {
    forall|i: int, j: int| 0 <= i < j < s.len() ==> at_most(#[trigger] s[i], #[trigger] s[j])
}

/// Every element sorts strictly before each later one.
pub open spec fn strictly_sorted<V: Ord>(s: Seq<V>) -> bool {
    forall|i: int, j: int| 0 <= i < j < s.len() ==> less(#[trigger] s[i], #[trigger] s[j])
}

/// Of `less(a, b)`, `equiv(a, b)` and `less(b, a)` exactly one holds.
pub proof fn lemma_trichotomy<V: Ord>(a: V, b: V)
    requires
        total_order::<V>(),
    ensures
        less(a, b) || equiv(a, b) || less(b, a),
        !(less(a, b) && equiv(a, b)),
        !(less(a, b) && less(b, a)),
        !(equiv(a, b) && less(b, a)),
        equiv(a, b) <==> equiv(b, a),
{
    reveal(vstd::laws_cmp::obeys_cmp_ord);
    reveal(vstd::laws_cmp::obeys_cmp_partial_ord);
    reveal(vstd::laws_cmp::obeys_partial_cmp_spec_properties);
    reveal(vstd::laws_eq::obeys_eq_spec_properties);
    assert(a.partial_cmp_spec(&b) == Some(a.cmp_spec(&b)));
    assert(b.partial_cmp_spec(&a) == Some(b.cmp_spec(&a)));
    assert(a.eq_spec(&b) <==> b.eq_spec(&a));
}

/// Every value compares as equal to itself.
pub proof fn lemma_equiv_reflexive<V: Ord>(a: V)
    requires
        total_order::<V>(),
    ensures
        equiv(a, a),
{
    lemma_trichotomy(a, a);
}

/// What sorts before a value sorts before what that value sorts before.
pub proof fn lemma_less_transitive<V: Ord>(a: V, b: V, c: V)
    requires
        total_order::<V>(),
        less(a, b),
        less(b, c),
    ensures
        less(a, c),
{
    reveal(vstd::laws_cmp::obeys_cmp_ord);
    reveal(vstd::laws_cmp::obeys_partial_cmp_spec_properties);
    assert(a.partial_cmp_spec(&b) == Some(a.cmp_spec(&b)));
    assert(b.partial_cmp_spec(&c) == Some(b.cmp_spec(&c)));
    assert(a.partial_cmp_spec(&c) == Some(a.cmp_spec(&c)));
}

/// Two values that compare as equal to a third compare as equal.
pub proof fn lemma_equiv_transitive<V: Ord>(a: V, b: V, c: V)
    requires
        total_order::<V>(),
        equiv(a, b),
        equiv(b, c),
    ensures
        equiv(a, c),
{
    reveal(vstd::laws_cmp::obeys_cmp_ord);
    reveal(vstd::laws_cmp::obeys_cmp_partial_ord);
    reveal(vstd::laws_cmp::obeys_partial_cmp_spec_properties);
    reveal(vstd::laws_eq::obeys_eq_spec_properties);
    assert(a.partial_cmp_spec(&b) == Some(a.cmp_spec(&b)));
    assert(b.partial_cmp_spec(&c) == Some(b.cmp_spec(&c)));
    assert(a.partial_cmp_spec(&c) == Some(a.cmp_spec(&c)));
    assert(a.eq_spec(&b) && b.eq_spec(&c));
    assert(a.eq_spec(&c));
}

/// What sorts before a value sorts before its equals.
pub proof fn lemma_less_equiv<V: Ord>(a: V, b: V, c: V)
    requires
        total_order::<V>(),
        less(a, b),
        equiv(b, c),
    ensures
        less(a, c),
{
    lemma_trichotomy(a, c);
    lemma_trichotomy(a, b);
    lemma_trichotomy(b, c);
    if equiv(a, c) {
        lemma_equiv_transitive(a, c, b);
    } else if less(c, a) {
        lemma_less_transitive(c, a, b);
    }
}

/// The equals of a value sort before what it sorts before.
pub proof fn lemma_equiv_less<V: Ord>(a: V, b: V, c: V)
    requires
        total_order::<V>(),
        equiv(a, b),
        less(b, c),
    ensures
        less(a, c),
{
    lemma_trichotomy(a, c);
    lemma_trichotomy(a, b);
    lemma_trichotomy(b, c);
    if equiv(a, c) {
        lemma_equiv_transitive(b, a, c);
    } else if less(c, a) {
        lemma_less_transitive(b, c, a);
    }
}

/// `at_most` is transitive, and strict as soon as one of its steps is.
pub proof fn lemma_at_most_transitive<V: Ord>(a: V, b: V, c: V)
    requires
        total_order::<V>(),
        at_most(a, b),
        at_most(b, c),
    ensures
        at_most(a, c),
        less(a, b) || less(b, c) ==> less(a, c),
{
    if less(a, b) {
        if less(b, c) {
            lemma_less_transitive(a, b, c);
        } else {
            lemma_less_equiv(a, b, c);
        }
    } else {
        if less(b, c) {
            lemma_equiv_less(a, b, c);
        } else {
            lemma_equiv_transitive(a, b, c);
        }
    }
}

/// Compares two values by `Ord::cmp`.
pub fn compare<V: Ord>(a: &V, b: &V) -> (r: Relation)
    requires
        total_order::<V>(),
    ensures
        r is Less <==> less(*a, *b),
        r is Equal <==> equiv(*a, *b),
        r is Greater <==> less(*b, *a),
{
    proof {
        reveal(vstd::laws_cmp::obeys_cmp_ord);
        lemma_trichotomy(*a, *b);
    }
    match a.cmp(b) {
        Ordering::Less => Relation::Less,
        Ordering::Equal => Relation::Equal,
        Ordering::Greater => Relation::Greater,
    }
}

} // verus!
