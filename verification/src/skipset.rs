//! The sorted set: an ordered skip list that keeps one of any values that
//! compare as equal, with the set operations as merges of two walks.

use crate::explain::{diagram, texts, too_wide, MAX_SPAN};
use crate::level_generator::{draw_below, entropy_rng, LevelGenerator};
use crate::merge::{
    difference_seq, intersection_seq, keep_missing, keep_present, lemma_intersection_bound,
    lemma_keep_all, lemma_member_skip, lemma_merge_is_lookup, lemma_parts_len, lemma_pending_held,
    lemma_pending_next, member, pending, symmetric_difference_seq, union_seq,
};
use crate::order::{compare, equiv, lemma_trichotomy, strictly_sorted, total_order, Relation};
use crate::ordered_skiplist::{value_range_end, value_range_start, OrderedSkipList};
use crate::skiplist::{range_end, range_start, Bound, IntoIter, Iter, Range};
use crate::sorted::{lemma_rank_run, rank};
use vstd::prelude::*;

verus! {

/// A set of values. Its view is the sequence of its values, smallest first.
pub struct SkipSet<V: Ord> {
    pub(crate) sk: OrderedSkipList<V>,
}

impl<V: Ord> View for SkipSet<V> {
    type V = Seq<V>;

    closed spec fn view(&self) -> Seq<V> {
        self.sk@
    }
}

impl<V: Ord> SkipSet<V> {
    /// The set is an ordered list that keeps no two values that compare as
    /// equal.
    pub closed spec fn wf(&self) -> bool {
        self.sk.wf() && !self.sk.allows_duplicates()
    }

    /// The values of a well-formed set are strictly sorted.
    pub proof fn lemma_strictly_sorted(&self)
        requires
            self.wf(),
        ensures
            total_order::<V>(),
            strictly_sorted(self@),
    {
        self.sk.lemma_sorted();
    }

    /// The empty set.
    pub fn new() -> (set: Self)
        requires
            total_order::<V>(),
        ensures
            set.wf(),
            set@ == Seq::<V>::empty(),
    {
        Self::with_level_generator(LevelGenerator::new())
    }

    /// The generator that the set takes the levels of its nodes from.
    pub closed spec fn level_generator(&self) -> LevelGenerator {
        self.sk.level_generator()
    }

    /// The empty set, which takes its levels from `lg`.
    pub fn with_level_generator(lg: LevelGenerator) -> (set: Self)
        requires
            total_order::<V>(),
        ensures
            set.wf(),
            set@ == Seq::<V>::empty(),
            set.level_generator() == lg,
    {
        SkipSet { sk: OrderedSkipList::with_config(false, lg) }
    }

    /// Puts `value` in the set, in the place of the value that compares as
    /// equal to it if there is one, which is handed back.
    pub fn add(&mut self, value: V) -> (r: Option<V>)
        requires
            old(self).wf(),
        ensures
            final(self).wf(),
            ({
                let k = rank(old(self)@, value, false);
                if k < old(self)@.len() && equiv(old(self)@[k], value) {
                    r == Some(old(self)@[k]) && final(self)@ == old(self)@.update(k, value)
                } else {
                    r is None && final(self)@ == old(self)@.insert(k, value)
                }
            }),
            r is Some <==> member(old(self)@, value),
            final(self).level_generator().probability() == old(
                self,
            ).level_generator().probability(),
            final(self).level_generator().max_levels() == old(
                self,
            ).level_generator().max_levels(),
            old(self).level_generator().limit() <= final(self).level_generator().limit() <= old(
                self,
            ).level_generator().limit() + 1,
    {
        proof {
            self.sk.lemma_sorted();
            lemma_rank_run(self.sk@, value);
        }
        self.sk.insert(value)
    }

    /// The value of the set that compares as equal to `q`, if there is one.
    pub fn get(&self, q: &V) -> (r: Option<&V>)
        requires
            self.wf(),
        ensures
            r is Some <==> member(self@, *q),
            match r {
                Some(v) => {
                    let k = rank(self@, *q, false);
                    k < self@.len() && equiv(self@[k], *q) && *v == self@[k]
                },
                None => true,
            },
    {
        proof {
            self.sk.lemma_sorted();
            lemma_rank_run(self.sk@, *q);
        }
        match self.sk.get_first(q) {
            Some((_, v)) => Some(v),
            None => None,
        }
    }

    /// Takes the value that compares as equal to `q` out of the set, if
    /// there is one.
    pub fn remove(&mut self, q: &V) -> (r: Option<V>)
        requires
            old(self).wf(),
        ensures
            final(self).wf(),
            r is Some <==> member(old(self)@, *q),
            ({
                let k = rank(old(self)@, *q, false);
                if k < old(self)@.len() && equiv(old(self)@[k], *q) {
                    r == Some(old(self)@[k]) && final(self)@ == old(self)@.remove(k)
                } else {
                    r is None && final(self)@ == old(self)@
                }
            }),
    {
        proof {
            self.sk.lemma_sorted();
            lemma_rank_run(self.sk@, *q);
        }
        self.sk.remove_first(q)
    }

    /// Whether the set has a value that compares as equal to `q`.
    pub fn contains(&self, q: &V) -> (b: bool)
        requires
            self.wf(),
        ensures
            b == member(self@, *q),
    {
        self.get(q).is_some()
    }

    /// The number of values in the set.
    pub fn cardinal(&self) -> (n: usize)
        requires
            self.wf(),
        ensures
            n == self@.len(),
    {
        self.sk.len()
    }

    /// The value at `index`, or `None` if the set is not that large.
    pub fn pick(&self, index: usize) -> (r: Option<&V>)
        requires
            self.wf(),
        ensures
            index < self@.len() ==> r == Some(&self@[index as int]),
            index >= self@.len() ==> r is None,
    {
        self.sk.get(index)
    }

    /// Some value of the set, chosen at random, or `None` if the set is
    /// empty.
    pub fn choose_one(&self) -> (r: Option<&V>)
        requires
            self.wf(),
        ensures
            self@.len() == 0 ==> r is None,
            self@.len() > 0 ==> r is Some && exists|i: int|
                0 <= i < self@.len() && r == Some(&#[trigger] self@[i]),
    {
        let cnt = self.cardinal();
        if cnt == 0 {
            return None;
        }
        let mut rng = entropy_rng();
        let index = draw_below(&mut rng, cnt);
        self.pick(index)
    }

    /// The smallest value, if there is one.
    pub fn min(&self) -> (r: Option<&V>)
        requires
            self.wf(),
        ensures
            self@.len() == 0 ==> r is None,
            self@.len() > 0 ==> r == Some(&self@[0]),
    {
        self.sk.front()
    }

    /// The greatest value, if there is one.
    pub fn max(&self) -> (r: Option<&V>)
        requires
            self.wf(),
        ensures
            self@.len() == 0 ==> r is None,
            self@.len() > 0 ==> r == Some(&self@.last()),
    {
        self.sk.back()
    }

    /// Takes the smallest value out of the set, if there is one.
    pub fn remove_min(&mut self) -> (r: Option<V>)
        requires
            old(self).wf(),
        ensures
            final(self).wf(),
            old(self)@.len() == 0 ==> r is None && final(self)@ == old(self)@,
            old(self)@.len() > 0 ==> r == Some(old(self)@[0]) && final(self)@ == old(self)@.remove(
                0,
            ),
    {
        self.sk.pop_front()
    }

    /// Takes the greatest value out of the set, if there is one.
    pub fn remove_max(&mut self) -> (r: Option<V>)
        requires
            old(self).wf(),
        ensures
            final(self).wf(),
            old(self)@.len() == 0 ==> r is None && final(self)@ == old(self)@,
            old(self)@.len() > 0 ==> r == Some(old(self)@.last()) && final(self)@ == old(
                self,
            )@.drop_last(),
    {
        self.sk.pop_back()
    }

    /// The values from the smallest on.
    pub fn iter(&self) -> (it: Iter<'_, V>)
        requires
            self.wf(),
        ensures
            it.wf(),
            it@ == self@,
    {
        self.sk.iter()
    }

    /// The values between two bounds, smallest first. The empty set has an
    /// empty range, whatever the bounds.
    pub fn range(&self, start: Bound<&V>, end: Bound<&V>) -> (it: Range<'_, V>)
        requires
            self.wf(),
            self@.len() == 0 || value_range_start(self@, start) <= value_range_end(self@, end),
        ensures
            it.wf(),
            self@.len() == 0 ==> it@ == Seq::<V>::empty(),
            self@.len() > 0 ==> it@ == self@.subrange(
                value_range_start(self@, start),
                value_range_end(self@, end),
            ),
    {
        self.sk.range(start, end)
    }

    /// The values that one of the two sets has and the other has not,
    /// smallest first.
    pub fn symmetric_difference<'a>(&'a self, rhs: &'a SkipSet<V>) -> (it: SymmetricDifference<
        'a,
        V,
    >)
        requires
            self.wf(),
            rhs.wf(),
        ensures
            it.wf(),
            it@ == symmetric_difference_seq(self@, rhs@),
    {
        proof {
            self.sk.lemma_sorted();
        }
        let mut lhs_iter = self.iter();
        let mut rhs_iter = rhs.iter();
        let lhs_value = lhs_iter.next();
        let rhs_value = rhs_iter.next();
        proof {
            lemma_pending_next(lhs_value, self@, lhs_iter@);
            lemma_pending_next(rhs_value, rhs@, rhs_iter@);
        }
        SymmetricDifference { lhs_iter, rhs_iter, lhs_value, rhs_value }
    }

    /// The values that this set has and `rhs` has not, smallest first, found
    /// by whichever of the two ways promises to be cheaper.
    pub fn difference<'a>(&'a self, rhs: &'a SkipSet<V>) -> (it: Difference<'a, V>)
        requires
            self.wf(),
            rhs.wf(),
        ensures
            it.wf(),
            it@ == difference_seq(self@, rhs@),
    {
        if product_below(self.cardinal(), rhs.levels(), rhs.cardinal()) {
            return self.difference_search(rhs);
        }
        self.difference_traverse(rhs)
    }

    /// The values that this set has and `rhs` has not, smallest first, found
    /// by walking both sets side by side.
    pub fn difference_traverse<'a>(&'a self, rhs: &'a SkipSet<V>) -> (it: Difference<'a, V>)
        requires
            self.wf(),
            rhs.wf(),
        ensures
            it.wf(),
            it is Traverse,
            it@ == difference_seq(self@, rhs@),
    {
        proof {
            self.sk.lemma_sorted();
        }
        let mut lhs_iter = self.iter();
        let mut rhs_iter = rhs.iter();
        let lhs_value = lhs_iter.next();
        let rhs_value = rhs_iter.next();
        proof {
            lemma_pending_next(lhs_value, self@, lhs_iter@);
            lemma_pending_next(rhs_value, rhs@, rhs_iter@);
        }
        Difference::Traverse(DifferenceTraverse { lhs_iter, rhs_iter, lhs_value, rhs_value })
    }

    /// The values that this set has and `rhs` has not, smallest first, found
    /// by looking each value of this set up in `rhs`.
    pub fn difference_search<'a>(&'a self, rhs: &'a SkipSet<V>) -> (it: Difference<'a, V>)
        requires
            self.wf(),
            rhs.wf(),
        ensures
            it.wf(),
            it is Search,
            it@ == keep_missing(self@, rhs@),
            it@ == difference_seq(self@, rhs@),
    {
        proof {
            self.lemma_strictly_sorted();
            rhs.lemma_strictly_sorted();
            lemma_merge_is_lookup(self@, rhs@);
        }
        Difference::Search(DifferenceSearch { lhs_iter: self.iter(), rhs })
    }

    /// The values that both sets have, smallest first, taken from the
    /// smaller set and found by whichever of the two ways promises to be
    /// cheaper.
    pub fn intersection<'a>(&'a self, rhs: &'a SkipSet<V>) -> (it: Intersection<'a, V>)
        requires
            self.wf(),
            rhs.wf(),
        ensures
            it.wf(),
            it@ == if rhs@.len() < self@.len() {
                intersection_seq(rhs@, self@)
            } else {
                intersection_seq(self@, rhs@)
            },
    {
        let (small, large) = if rhs.cardinal() < self.cardinal() {
            (rhs, self)
        } else {
            (self, rhs)
        };
        if product_below(small.cardinal(), large.levels(), large.cardinal()) {
            return small.intersection_search(large);
        }
        small.intersection_traverse(large)
    }

    /// The values of this set that `rhs` has too, smallest first, found by
    /// walking both sets side by side.
    pub fn intersection_traverse<'a>(&'a self, rhs: &'a SkipSet<V>) -> (it: Intersection<'a, V>)
        requires
            self.wf(),
            rhs.wf(),
        ensures
            it.wf(),
            it is Traverse,
            it@ == intersection_seq(self@, rhs@),
    {
        proof {
            self.sk.lemma_sorted();
        }
        let mut lhs_iter = self.iter();
        let mut rhs_iter = rhs.iter();
        let lhs_value = lhs_iter.next();
        let rhs_value = rhs_iter.next();
        proof {
            lemma_pending_next(lhs_value, self@, lhs_iter@);
            lemma_pending_next(rhs_value, rhs@, rhs_iter@);
        }
        Intersection::Traverse(IntersectionTraverse { lhs_iter, rhs_iter, lhs_value, rhs_value })
    }

    /// The values of this set that `rhs` has too, smallest first, found by
    /// looking each value of this set up in `rhs`.
    pub fn intersection_search<'a>(&'a self, rhs: &'a SkipSet<V>) -> (it: Intersection<'a, V>)
        requires
            self.wf(),
            rhs.wf(),
        ensures
            it.wf(),
            it is Search,
            it@ == keep_present(self@, rhs@),
            it@ == intersection_seq(self@, rhs@),
    {
        proof {
            self.lemma_strictly_sorted();
            rhs.lemma_strictly_sorted();
            lemma_merge_is_lookup(self@, rhs@);
        }
        Intersection::Search(IntersectionSearch { lhs_iter: self.iter(), rhs })
    }

    /// The values that one of the two sets has, smallest first: of two that
    /// compare as equal, the one of this set.
    pub fn union<'a>(&'a self, rhs: &'a SkipSet<V>) -> (it: Union<'a, V>)
        requires
            self.wf(),
            rhs.wf(),
        ensures
            it.wf(),
            it@ == union_seq(self@, rhs@),
    {
        proof {
            self.sk.lemma_sorted();
        }
        let mut lhs_iter = self.iter();
        let mut rhs_iter = rhs.iter();
        let lhs_value = lhs_iter.next();
        let rhs_value = rhs_iter.next();
        proof {
            lemma_pending_next(lhs_value, self@, lhs_iter@);
            lemma_pending_next(rhs_value, rhs@, rhs_iter@);
        }
        Union { lhs_iter, rhs_iter, lhs_value, rhs_value }
    }

    /// The number of values that both sets have.
    fn count_common(&self, rhs: &Self) -> (cnt: usize)
        requires
            self.wf(),
            rhs.wf(),
        ensures
            cnt == keep_present(self@, rhs@).len(),
            cnt == keep_present(rhs@, self@).len(),
    {
        let bound = self.cardinal();
        let mut it = self.intersection(rhs);
        let ghost all = it@;
        proof {
            self.lemma_strictly_sorted();
            rhs.lemma_strictly_sorted();
            lemma_parts_len(self@, rhs@);
            lemma_merge_is_lookup(self@, rhs@);
            lemma_merge_is_lookup(rhs@, self@);
            lemma_intersection_bound(self@, rhs@);
        }
        let mut cnt: usize = 0;
        loop
            invariant
                it.wf(),
                cnt + it@.len() == all.len(),
                all.len() <= bound,
            ensures
                cnt == all.len(),
            decreases it@.len(),
        {
            match it.next() {
                None => {
                    break ;
                },
                Some(_) => {
                    cnt = cnt + 1;
                },
            }
        }
        cnt
    }

    /// Whether `rhs` has every value of this set.
    pub fn is_subset(&self, rhs: &Self) -> (b: bool)
        requires
            self.wf(),
            rhs.wf(),
        ensures
            b <==> forall|i: int| 0 <= i < self@.len() ==> member(rhs@, #[trigger] self@[i]),
    {
        proof {
            lemma_keep_all(self@, rhs@);
        }
        let cnt = self.count_common(rhs);
        cnt == self.cardinal()
    }

    /// Whether this set has every value of `rhs`.
    pub fn is_superset(&self, rhs: &Self) -> (b: bool)
        requires
            self.wf(),
            rhs.wf(),
        ensures
            b <==> forall|i: int| 0 <= i < rhs@.len() ==> member(self@, #[trigger] rhs@[i]),
    {
        proof {
            lemma_keep_all(rhs@, self@);
        }
        let cnt = self.count_common(rhs);
        cnt == rhs.cardinal()
    }

    /// The number of levels in use.
    pub closed spec fn spec_levels(&self) -> nat {
        self.sk.spec_levels()
    }

    /// The number of levels of the node of each value.
    pub closed spec fn heights(&self) -> Seq<nat> {
        self.sk.heights()
    }

    /// The number of levels in use.
    fn levels(&self) -> (n: usize)
        requires
            self.wf(),
        ensures
            n == self.spec_levels(),
    {
        self.sk.levels()
    }

    /// A diagram of the links over a stretch of the set, of 20 values at
    /// most, with the text that `shown` holds for each value.
    pub fn explain(&self, start: Bound<usize>, end: Bound<usize>, shown: &Vec<String>) -> (r:
        Result<String, &'static str>)
        requires
            self.wf(),
            range_start(start) <= range_end(end, self@.len() as int),
            range_end(end, self@.len() as int) - range_start(start) <= MAX_SPAN ==> shown@.len()
                == range_end(end, self@.len() as int) - range_start(start),
        ensures
            match r {
                Ok(text) => {
                    let left = range_start(start);
                    let span = range_end(end, self@.len() as int) - left;
                    &&& span <= MAX_SPAN
                    &&& text@ == diagram(
                        self.heights(),
                        left as nat,
                        span as nat,
                        self.spec_levels(),
                        texts(shown@),
                    )
                },
                Err(message) => {
                    &&& range_end(end, self@.len() as int) - range_start(start) > MAX_SPAN
                    &&& message@ == too_wide()
                },
            },
    {
        self.sk.explain(start, end, shown)
    }

    /// Gives the set up for its values, smallest first.
    pub fn into_iter(self) -> (it: IntoIter<V>)
        requires
            self.wf(),
        ensures
            it.wf(),
            it@ == self@,
    {
        self.sk.into_iter()
    }
}

/// Whether `a` times `b` is less than `c`.
fn product_below(a: usize, b: usize, c: usize) -> (r: bool)
    ensures
        r == (a * b < c),
{
    match a.checked_mul(b) {
        Some(product) => product < c,
        None => false,
    }
}

/// The merge that yields what one of two sets has and the other has not. Its
/// view is what is still to come.
pub struct SymmetricDifference<'a, V: Ord> {
    lhs_iter: Iter<'a, V>,
    rhs_iter: Iter<'a, V>,
    lhs_value: Option<&'a V>,
    rhs_value: Option<&'a V>,
}

impl<'a, V: Ord> View for SymmetricDifference<'a, V> {
    type V = Seq<V>;

    closed spec fn view(&self) -> Seq<V> {
        symmetric_difference_seq(
            pending(self.lhs_value, self.lhs_iter@),
            pending(self.rhs_value, self.rhs_iter@),
        )
    }
}

impl<'a, V: Ord> SymmetricDifference<'a, V> {
    /// The walks are at places of well-formed sets.
    pub closed spec fn wf(&self) -> bool {
        self.lhs_iter.wf() && self.rhs_iter.wf() && total_order::<V>()
    }

    /// The next value, if one is left.
    pub fn next(&mut self) -> (r: Option<&'a V>)
        requires
            old(self).wf(),
        ensures
            final(self).wf(),
            old(self)@.len() == 0 ==> r is None && final(self)@ == old(self)@,
            old(self)@.len() > 0 ==> r == Some(&old(self)@[0]) && final(self)@ == old(self)@.skip(
                1,
            ),
    {
        loop
            invariant
                self.wf(),
                self@ == old(self)@,
            decreases
                    pending(self.lhs_value, self.lhs_iter@).len() + pending(
                        self.rhs_value,
                        self.rhs_iter@,
                    ).len(),
        {
            let ghost left = pending(self.lhs_value, self.lhs_iter@);
            let ghost right = pending(self.rhs_value, self.rhs_iter@);
            let ghost lrest = self.lhs_iter@;
            let ghost rrest = self.rhs_iter@;
            match (self.lhs_value, self.rhs_value) {
                (None, None) => {
                    return None;
                },
                (None, Some(r)) => {
                    self.rhs_value = self.rhs_iter.next();
                    proof {
                        lemma_pending_held(r, rrest);
                        lemma_pending_next(self.rhs_value, rrest, self.rhs_iter@);
                    }
                    return Some(r);
                },
                (Some(l), None) => {
                    self.lhs_value = self.lhs_iter.next();
                    proof {
                        lemma_pending_held(l, lrest);
                        lemma_pending_next(self.lhs_value, lrest, self.lhs_iter@);
                    }
                    return Some(l);
                },
                (Some(l), Some(r)) => {
                    proof {
                        lemma_pending_held(l, lrest);
                        lemma_pending_held(r, rrest);
                        lemma_trichotomy(*l, *r);
                    }
                    match compare(l, r) {
                        Relation::Equal => {
                            self.lhs_value = self.lhs_iter.next();
                            self.rhs_value = self.rhs_iter.next();
                            proof {
                                lemma_pending_next(self.lhs_value, lrest, self.lhs_iter@);
                                lemma_pending_next(self.rhs_value, rrest, self.rhs_iter@);
                            }
                        },
                        Relation::Greater => {
                            self.rhs_value = self.rhs_iter.next();
                            proof {
                                lemma_pending_next(self.rhs_value, rrest, self.rhs_iter@);
                                assert((seq![*r] + symmetric_difference_seq(left, rrest)).skip(1)
                                    =~= symmetric_difference_seq(left, rrest));
                            }
                            return Some(r);
                        },
                        Relation::Less => {
                            self.lhs_value = self.lhs_iter.next();
                            proof {
                                lemma_pending_next(self.lhs_value, lrest, self.lhs_iter@);
                                assert((seq![*l] + symmetric_difference_seq(lrest, right)).skip(1)
                                    =~= symmetric_difference_seq(lrest, right));
                            }
                            return Some(l);
                        },
                    }
                },
            }
        }
    }
}

/// The merge that yields what one set has and another has not. Its view is
/// what is still to come.
pub struct DifferenceTraverse<'a, V: Ord> {
    lhs_iter: Iter<'a, V>,
    rhs_iter: Iter<'a, V>,
    lhs_value: Option<&'a V>,
    rhs_value: Option<&'a V>,
}

impl<'a, V: Ord> View for DifferenceTraverse<'a, V> {
    type V = Seq<V>;

    closed spec fn view(&self) -> Seq<V> {
        difference_seq(
            pending(self.lhs_value, self.lhs_iter@),
            pending(self.rhs_value, self.rhs_iter@),
        )
    }
}

impl<'a, V: Ord> DifferenceTraverse<'a, V> {
    /// The walks are at places of well-formed sets.
    pub closed spec fn wf(&self) -> bool {
        self.lhs_iter.wf() && self.rhs_iter.wf() && total_order::<V>()
    }

    /// The next value, if one is left.
    pub fn next(&mut self) -> (r: Option<&'a V>)
        requires
            old(self).wf(),
        ensures
            final(self).wf(),
            old(self)@.len() == 0 ==> r is None && final(self)@ == old(self)@,
            old(self)@.len() > 0 ==> r == Some(&old(self)@[0]) && final(self)@ == old(self)@.skip(
                1,
            ),
    {
        loop
            invariant
                self.wf(),
                self@ == old(self)@,
            decreases
                    pending(self.lhs_value, self.lhs_iter@).len() + pending(
                        self.rhs_value,
                        self.rhs_iter@,
                    ).len(),
        {
            let ghost left = pending(self.lhs_value, self.lhs_iter@);
            let ghost right = pending(self.rhs_value, self.rhs_iter@);
            let ghost lrest = self.lhs_iter@;
            let ghost rrest = self.rhs_iter@;
            match (self.lhs_value, self.rhs_value) {
                (None, _) => {
                    return None;
                },
                (Some(l), None) => {
                    self.lhs_value = self.lhs_iter.next();
                    proof {
                        lemma_pending_held(l, lrest);
                        lemma_pending_next(self.lhs_value, lrest, self.lhs_iter@);
                    }
                    return Some(l);
                },
                (Some(l), Some(r)) => {
                    proof {
                        lemma_pending_held(l, lrest);
                        lemma_pending_held(r, rrest);
                        lemma_trichotomy(*l, *r);
                    }
                    match compare(l, r) {
                        Relation::Equal => {
                            self.lhs_value = self.lhs_iter.next();
                            self.rhs_value = self.rhs_iter.next();
                            proof {
                                lemma_pending_next(self.lhs_value, lrest, self.lhs_iter@);
                                lemma_pending_next(self.rhs_value, rrest, self.rhs_iter@);
                            }
                        },
                        Relation::Greater => {
                            self.rhs_value = self.rhs_iter.next();
                            proof {
                                lemma_pending_next(self.rhs_value, rrest, self.rhs_iter@);
                            }
                        },
                        Relation::Less => {
                            self.lhs_value = self.lhs_iter.next();
                            proof {
                                lemma_pending_next(self.lhs_value, lrest, self.lhs_iter@);
                                assert((seq![*l] + difference_seq(lrest, right)).skip(1)
                                    =~= difference_seq(lrest, right));
                            }
                            return Some(l);
                        },
                    }
                },
            }
        }
    }
}

/// The lookup that yields what one set has and another has not. Its view is
/// what is still to come.
pub struct DifferenceSearch<'a, V: Ord> {
    lhs_iter: Iter<'a, V>,
    rhs: &'a SkipSet<V>,
}

impl<'a, V: Ord> View for DifferenceSearch<'a, V> {
    type V = Seq<V>;

    closed spec fn view(&self) -> Seq<V> {
        keep_missing(self.lhs_iter@, self.rhs@)
    }
}

impl<'a, V: Ord> DifferenceSearch<'a, V> {
    /// The walks are at places of well-formed sets.
    pub closed spec fn wf(&self) -> bool {
        self.lhs_iter.wf() && self.rhs.wf()
    }

    /// The next value, if one is left.
    pub fn next(&mut self) -> (r: Option<&'a V>)
        requires
            old(self).wf(),
        ensures
            final(self).wf(),
            old(self)@.len() == 0 ==> r is None && final(self)@ == old(self)@,
            old(self)@.len() > 0 ==> r == Some(&old(self)@[0]) && final(self)@ == old(self)@.skip(
                1,
            ),
    {
        loop
            invariant
                self.wf(),
                self@ == old(self)@,
            decreases self.lhs_iter@.len(),
        {
            let ghost rest = self.lhs_iter@;
            match self.lhs_iter.next() {
                None => {
                    return None;
                },
                Some(value) => {
                    if !self.rhs.contains(value) {
                        proof {
                            assert((seq![*value] + keep_missing(rest.skip(1), self.rhs@)).skip(1)
                                =~= keep_missing(rest.skip(1), self.rhs@));
                        }
                        return Some(value);
                    }
                },
            }
        }
    }
}

/// What one set has and another has not, by merge or by lookup. Its view is
/// what is still to come.
pub enum Difference<'a, V: Ord> {
    Traverse(DifferenceTraverse<'a, V>),
    Search(DifferenceSearch<'a, V>),
}

impl<'a, V: Ord> View for Difference<'a, V> {
    type V = Seq<V>;

    open spec fn view(&self) -> Seq<V> {
        match self {
            Difference::Traverse(d) => d@,
            Difference::Search(d) => d@,
        }
    }
}

impl<'a, V: Ord> Difference<'a, V> {
    /// The walks are at places of well-formed sets.
    pub open spec fn wf(&self) -> bool {
        match self {
            Difference::Traverse(d) => d.wf(),
            Difference::Search(d) => d.wf(),
        }
    }

    /// The next value, if one is left.
    pub fn next(&mut self) -> (r: Option<&'a V>)
        requires
            old(self).wf(),
        ensures
            final(self).wf(),
            old(self)@.len() == 0 ==> r is None && final(self)@ == old(self)@,
            old(self)@.len() > 0 ==> r == Some(&old(self)@[0]) && final(self)@ == old(self)@.skip(
                1,
            ),
    {
        match self {
            Difference::Traverse(d) => d.next(),
            Difference::Search(d) => d.next(),
        }
    }
}

/// The merge that yields what two sets both have. Its view is what is still
/// to come.
pub struct IntersectionTraverse<'a, V: Ord> {
    lhs_iter: Iter<'a, V>,
    rhs_iter: Iter<'a, V>,
    lhs_value: Option<&'a V>,
    rhs_value: Option<&'a V>,
}

impl<'a, V: Ord> View for IntersectionTraverse<'a, V> {
    type V = Seq<V>;

    closed spec fn view(&self) -> Seq<V> {
        intersection_seq(
            pending(self.lhs_value, self.lhs_iter@),
            pending(self.rhs_value, self.rhs_iter@),
        )
    }
}

impl<'a, V: Ord> IntersectionTraverse<'a, V> {
    /// The walks are at places of well-formed sets.
    pub closed spec fn wf(&self) -> bool {
        self.lhs_iter.wf() && self.rhs_iter.wf() && total_order::<V>()
    }

    /// The next value, if one is left.
    pub fn next(&mut self) -> (r: Option<&'a V>)
        requires
            old(self).wf(),
        ensures
            final(self).wf(),
            old(self)@.len() == 0 ==> r is None && final(self)@ == old(self)@,
            old(self)@.len() > 0 ==> r == Some(&old(self)@[0]) && final(self)@ == old(self)@.skip(
                1,
            ),
    {
        loop
            invariant
                self.wf(),
                self@ == old(self)@,
            decreases
                    pending(self.lhs_value, self.lhs_iter@).len() + pending(
                        self.rhs_value,
                        self.rhs_iter@,
                    ).len(),
        {
            let ghost left = pending(self.lhs_value, self.lhs_iter@);
            let ghost right = pending(self.rhs_value, self.rhs_iter@);
            let ghost lrest = self.lhs_iter@;
            let ghost rrest = self.rhs_iter@;
            match (self.lhs_value, self.rhs_value) {
                (Some(l), Some(r)) => {
                    proof {
                        lemma_pending_held(l, lrest);
                        lemma_pending_held(r, rrest);
                        lemma_trichotomy(*l, *r);
                    }
                    match compare(l, r) {
                        Relation::Equal => {
                            self.lhs_value = self.lhs_iter.next();
                            self.rhs_value = self.rhs_iter.next();
                            proof {
                                lemma_pending_next(self.lhs_value, lrest, self.lhs_iter@);
                                lemma_pending_next(self.rhs_value, rrest, self.rhs_iter@);
                                assert((seq![*l] + intersection_seq(lrest, rrest)).skip(1)
                                    =~= intersection_seq(lrest, rrest));
                            }
                            return Some(l);
                        },
                        Relation::Greater => {
                            self.rhs_value = self.rhs_iter.next();
                            proof {
                                lemma_pending_next(self.rhs_value, rrest, self.rhs_iter@);
                            }
                        },
                        Relation::Less => {
                            self.lhs_value = self.lhs_iter.next();
                            proof {
                                lemma_pending_next(self.lhs_value, lrest, self.lhs_iter@);
                            }
                        },
                    }
                },
                _ => {
                    return None;
                },
            }
        }
    }
}

/// The lookup that yields what two sets both have. Its view is what is still
/// to come.
pub struct IntersectionSearch<'a, V: Ord> {
    lhs_iter: Iter<'a, V>,
    rhs: &'a SkipSet<V>,
}

impl<'a, V: Ord> View for IntersectionSearch<'a, V> {
    type V = Seq<V>;

    closed spec fn view(&self) -> Seq<V> {
        keep_present(self.lhs_iter@, self.rhs@)
    }
}

impl<'a, V: Ord> IntersectionSearch<'a, V> {
    /// The walks are at places of well-formed sets.
    pub closed spec fn wf(&self) -> bool {
        self.lhs_iter.wf() && self.rhs.wf()
    }

    /// The next value, if one is left.
    pub fn next(&mut self) -> (r: Option<&'a V>)
        requires
            old(self).wf(),
        ensures
            final(self).wf(),
            old(self)@.len() == 0 ==> r is None && final(self)@ == old(self)@,
            old(self)@.len() > 0 ==> r == Some(&old(self)@[0]) && final(self)@ == old(self)@.skip(
                1,
            ),
    {
        loop
            invariant
                self.wf(),
                self@ == old(self)@,
            decreases self.lhs_iter@.len(),
        {
            let ghost rest = self.lhs_iter@;
            match self.lhs_iter.next() {
                None => {
                    return None;
                },
                Some(value) => {
                    if self.rhs.contains(value) {
                        proof {
                            assert((seq![*value] + keep_present(rest.skip(1), self.rhs@)).skip(1)
                                =~= keep_present(rest.skip(1), self.rhs@));
                        }
                        return Some(value);
                    }
                },
            }
        }
    }
}

/// What two sets both have, by merge or by lookup. Its view is what is still
/// to come.
pub enum Intersection<'a, V: Ord> {
    Traverse(IntersectionTraverse<'a, V>),
    Search(IntersectionSearch<'a, V>),
}

impl<'a, V: Ord> View for Intersection<'a, V> {
    type V = Seq<V>;

    open spec fn view(&self) -> Seq<V> {
        match self {
            Intersection::Traverse(d) => d@,
            Intersection::Search(d) => d@,
        }
    }
}

impl<'a, V: Ord> Intersection<'a, V> {
    /// The walks are at places of well-formed sets.
    pub open spec fn wf(&self) -> bool {
        match self {
            Intersection::Traverse(d) => d.wf(),
            Intersection::Search(d) => d.wf(),
        }
    }

    /// The next value, if one is left.
    pub fn next(&mut self) -> (r: Option<&'a V>)
        requires
            old(self).wf(),
        ensures
            final(self).wf(),
            old(self)@.len() == 0 ==> r is None && final(self)@ == old(self)@,
            old(self)@.len() > 0 ==> r == Some(&old(self)@[0]) && final(self)@ == old(self)@.skip(
                1,
            ),
    {
        match self {
            Intersection::Traverse(d) => d.next(),
            Intersection::Search(d) => d.next(),
        }
    }
}

/// The merge that yields what one of two sets has. Its view is what is still
/// to come.
pub struct Union<'a, V: Ord> {
    lhs_iter: Iter<'a, V>,
    rhs_iter: Iter<'a, V>,
    lhs_value: Option<&'a V>,
    rhs_value: Option<&'a V>,
}

impl<'a, V: Ord> View for Union<'a, V> {
    type V = Seq<V>;

    closed spec fn view(&self) -> Seq<V> {
        union_seq(pending(self.lhs_value, self.lhs_iter@), pending(self.rhs_value, self.rhs_iter@))
    }
}

impl<'a, V: Ord> Union<'a, V> {
    /// The walks are at places of well-formed sets.
    pub closed spec fn wf(&self) -> bool {
        self.lhs_iter.wf() && self.rhs_iter.wf() && total_order::<V>()
    }

    /// The next value, if one is left.
    pub fn next(&mut self) -> (r: Option<&'a V>)
        requires
            old(self).wf(),
        ensures
            final(self).wf(),
            old(self)@.len() == 0 ==> r is None && final(self)@ == old(self)@,
            old(self)@.len() > 0 ==> r == Some(&old(self)@[0]) && final(self)@ == old(self)@.skip(
                1,
            ),
    {
        let ghost left = pending(self.lhs_value, self.lhs_iter@);
        let ghost right = pending(self.rhs_value, self.rhs_iter@);
        let ghost lrest = self.lhs_iter@;
        let ghost rrest = self.rhs_iter@;
        match (self.lhs_value, self.rhs_value) {
            (None, None) => None,
            (None, Some(r)) => {
                self.rhs_value = self.rhs_iter.next();
                proof {
                    lemma_pending_held(r, rrest);
                    lemma_pending_next(self.rhs_value, rrest, self.rhs_iter@);
                }
                Some(r)
            },
            (Some(l), None) => {
                self.lhs_value = self.lhs_iter.next();
                proof {
                    lemma_pending_held(l, lrest);
                    lemma_pending_next(self.lhs_value, lrest, self.lhs_iter@);
                }
                Some(l)
            },
            (Some(l), Some(r)) => {
                proof {
                    lemma_pending_held(l, lrest);
                    lemma_pending_held(r, rrest);
                    lemma_trichotomy(*l, *r);
                }
                match compare(l, r) {
                    Relation::Equal => {
                        self.lhs_value = self.lhs_iter.next();
                        self.rhs_value = self.rhs_iter.next();
                        proof {
                            lemma_pending_next(self.lhs_value, lrest, self.lhs_iter@);
                            lemma_pending_next(self.rhs_value, rrest, self.rhs_iter@);
                            assert((seq![*l] + union_seq(lrest, rrest)).skip(1) =~= union_seq(
                                lrest,
                                rrest,
                            ));
                        }
                        Some(l)
                    },
                    Relation::Greater => {
                        self.rhs_value = self.rhs_iter.next();
                        proof {
                            lemma_pending_next(self.rhs_value, rrest, self.rhs_iter@);
                            assert((seq![*r] + union_seq(left, rrest)).skip(1) =~= union_seq(
                                left,
                                rrest,
                            ));
                        }
                        Some(r)
                    },
                    Relation::Less => {
                        self.lhs_value = self.lhs_iter.next();
                        proof {
                            lemma_pending_next(self.lhs_value, lrest, self.lhs_iter@);
                            assert((seq![*l] + union_seq(lrest, right)).skip(1) =~= union_seq(
                                lrest,
                                right,
                            ));
                        }
                        Some(l)
                    },
                }
            },
        }
    }
}

} // verus!
