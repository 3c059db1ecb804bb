//! The ordered skip list: values kept sorted, with or without values that
//! compare as equal to one another.

use crate::explain::{diagram, texts, too_wide, MAX_SPAN};
use crate::level_generator::LevelGenerator;
use crate::order::{equiv, sorted, strictly_sorted, total_order};
use crate::skiplist::{
    dedup_seq, range_end, range_start, Bound, IntoIter, Iter, Range, ReverseIter, ReverseRange,
    SkipList,
};
use crate::sorted::{
    lemma_dedup_sorted, lemma_rank_run, lemma_rank_sorted, lemma_sorted_cut, lemma_sorted_insert,
    lemma_sorted_update, lemma_strict_is_sorted, lemma_strictly_sorted_insert, rank,
};
use vstd::prelude::*;

verus! {

/// The index at which a range of values that starts at `start` begins in the
/// sorted sequence `s`.
pub open spec fn value_range_start<V: Ord>(s: Seq<V>, start: Bound<&V>) -> int {
    match start {
        Bound::Included(q) => rank(s, *q, false),
        Bound::Excluded(q) => rank(s, *q, true),
        Bound::Unbounded => 0,
    }
}

/// The index behind the last of a range of values that ends at `end` in the
/// sorted sequence `s`.
pub open spec fn value_range_end<V: Ord>(s: Seq<V>, end: Bound<&V>) -> int {
    match end {
        Bound::Included(q) => rank(s, *q, true),
        Bound::Excluded(q) => rank(s, *q, false),
        Bound::Unbounded => s.len() as int,
    }
}

/// A list whose values are kept in order. Its view is the sequence of its
/// values, smallest first.
pub struct OrderedSkipList<V: Ord> {
    pub(crate) sk: SkipList<V>,
    pub(crate) duplicatable: bool,
}

impl<V: Ord> View for OrderedSkipList<V> {
    type V = Seq<V>;

    closed spec fn view(&self) -> Seq<V> {
        self.sk@
    }
}

impl<V: Ord> OrderedSkipList<V> {
    /// The list is linked consistently and sorted by a total order, strictly
    /// so where it keeps no two values that compare as equal.
    pub closed spec fn wf(&self) -> bool {
        &&& self.sk.wf()
        &&& total_order::<V>()
        &&& sorted(self.sk@)
        &&& (!self.duplicatable ==> strictly_sorted(self.sk@))
    }

    /// Whether the list keeps values that compare as equal to one another.
    pub closed spec fn allows_duplicates(&self) -> bool {
        self.duplicatable
    }

    /// The values of a well-formed list are sorted, and strictly so where it
    /// keeps no duplicates.
    pub proof fn lemma_sorted(&self)
        requires
            self.wf(),
        ensures
            total_order::<V>(),
            sorted(self@),
            !self.allows_duplicates() ==> strictly_sorted(self@),
    {
    }

    /// An empty list that keeps one of any values that compare as equal.
    pub fn new() -> (list: Self)
        requires
            total_order::<V>(),
        ensures
            list.wf(),
            list@ == Seq::<V>::empty(),
            !list.allows_duplicates(),
    {
        Self::with_config(false, LevelGenerator::new())
    }

    /// An empty list that keeps values that compare as equal side by side.
    pub fn new_duplicatable() -> (list: Self)
        requires
            total_order::<V>(),
        ensures
            list.wf(),
            list@ == Seq::<V>::empty(),
            list.allows_duplicates(),
    {
        Self::with_config(true, LevelGenerator::new())
    }

    /// The generator that the list takes the levels of its nodes from.
    pub closed spec fn level_generator(&self) -> LevelGenerator {
        self.sk.level_generator()
    }

    /// An empty list that takes its levels from `lg`.
    pub fn with_config(dup: bool, lg: LevelGenerator) -> (list: Self)
        requires
            total_order::<V>(),
        ensures
            list.wf(),
            list@ == Seq::<V>::empty(),
            list.allows_duplicates() == dup,
            list.level_generator() == lg,
    {
        Self { sk: SkipList::with_level_generator(lg), duplicatable: dup }
    }

    /// Takes out each value that compares as equal to the one before it.
    pub fn dedup(&mut self)
        requires
            old(self).wf(),
        ensures
            final(self).wf(),
            final(self).allows_duplicates() == old(self).allows_duplicates(),
            final(self)@ == dedup_seq(old(self)@),
            strictly_sorted(final(self)@),
    {
        proof {
            lemma_dedup_sorted(self.sk@);
            lemma_strict_is_sorted(dedup_seq(self.sk@));
        }
        self.sk.dedup();
    }

    /// The number of values in the list.
    pub fn len(&self) -> (n: usize)
        requires
            self.wf(),
        ensures
            n == self@.len(),
    {
        self.sk.len()
    }

    /// The values from the smallest on.
    pub fn iter(&self) -> (it: Iter<'_, V>)
        requires
            self.wf(),
        ensures
            it.wf(),
            it@ == self@,
    {
        self.sk.iter()
    }

    /// The values from the greatest on.
    pub fn reverse_iter(&self) -> (it: ReverseIter<'_, V>)
        requires
            self.wf(),
        ensures
            it.wf(),
            it@ == self@.reverse(),
    {
        self.sk.reverse_iter()
    }

    /// The values between two bounds, smallest first. An empty list has an
    /// empty range, whatever the bounds.
    pub fn range(&self, start: Bound<&V>, end: Bound<&V>) -> (it: Range<'_, V>)
        requires
            self.wf(),
            self@.len() == 0 || value_range_start(self@, start) <= value_range_end(self@, end),
        ensures
            it.wf(),
            self@.len() == 0 ==> it@ == Seq::<V>::empty(),
            self@.len() > 0 ==> it@ == self@.subrange(
                value_range_start(self@, start),
                value_range_end(self@, end),
            ),
    {
        if self.len() == 0 {
            return self.sk.range(Bound::Included(0), Bound::Excluded(0));
        }
        let left = match start {
            Bound::Unbounded => 0,
            Bound::Included(q) => self._index_not_less(q),
            Bound::Excluded(q) => self._index_not_less_or_equal(q),
        };
        let right = match end {
            Bound::Unbounded => self.len(),
            Bound::Included(q) => self._index_not_less_or_equal(q),
            Bound::Excluded(q) => self._index_not_less(q),
        };
        self.sk.range(Bound::Included(left), Bound::Excluded(right))
    }

    /// The values between two bounds, greatest first. An empty list has an
    /// empty range, whatever the bounds.
    pub fn reverse_range(&self, start: Bound<&V>, end: Bound<&V>) -> (it: ReverseRange<'_, V>)
        requires
            self.wf(),
            self@.len() == 0 || value_range_start(self@, start) <= value_range_end(self@, end),
        ensures
            it.wf(),
            self@.len() == 0 ==> it@ == Seq::<V>::empty(),
            self@.len() > 0 ==> it@ == self@.subrange(
                value_range_start(self@, start),
                value_range_end(self@, end),
            ).reverse(),
    {
        if self.len() == 0 {
            return self.sk.reverse_range(Bound::Included(0), Bound::Excluded(0));
        }
        let left = match start {
            Bound::Unbounded => 0,
            Bound::Included(q) => self._index_not_less(q),
            Bound::Excluded(q) => self._index_not_less_or_equal(q),
        };
        let right = match end {
            Bound::Unbounded => self.len(),
            Bound::Included(q) => self._index_not_less_or_equal(q),
            Bound::Excluded(q) => self._index_not_less(q),
        };
        self.sk.reverse_range(Bound::Included(left), Bound::Excluded(right))
    }

    /// The index of the first value that does not sort before `q`: the
    /// number of values that do.
    pub fn _index_not_less(&self, q: &V) -> (k: usize)
        requires
            self.wf(),
            self@.len() > 0,
        ensures
            k == rank(self@, *q, false),
            k <= self@.len(),
    {
        self.sk.rank_of(q, false)
    }

    /// The index of the first value that sorts behind `q`: the number of
    /// values that do not.
    pub fn _index_not_less_or_equal(&self, q: &V) -> (k: usize)
        requires
            self.wf(),
            self@.len() > 0,
        ensures
            k == rank(self@, *q, true),
            k <= self@.len(),
    {
        self.sk.rank_of(q, true)
    }

    /// The value at `index`, or `None` if the list is not that long.
    pub fn get(&self, index: usize) -> (r: Option<&V>)
        requires
            self.wf(),
        ensures
            index < self@.len() ==> r == Some(&self@[index as int]),
            index >= self@.len() ==> r is None,
    {
        self.sk.get(index)
    }

    /// The last value that compares as equal to `q`, with its index.
    pub fn get_last(&self, q: &V) -> (r: Option<(usize, &V)>)
        requires
            self.wf(),
        ensures
            match r {
                Some((index, value)) => {
                    &&& index == rank(self@, *q, true) - 1
                    &&& index < self@.len()
                    &&& equiv(self@[index as int], *q)
                    &&& *value == self@[index as int]
                },
                None => {
                    let k = rank(self@, *q, true);
                    !(k >= 1 && equiv(self@[k - 1], *q))
                },
            },
    {
        if self.len() == 0 {
            return None;
        }
        self.sk.find_last(q)
    }

    /// The first value that compares as equal to `q`, with its index.
    pub fn get_first(&self, q: &V) -> (r: Option<(usize, &V)>)
        requires
            self.wf(),
        ensures
            match r {
                Some((index, value)) => {
                    &&& index == rank(self@, *q, false)
                    &&& index < self@.len()
                    &&& equiv(self@[index as int], *q)
                    &&& *value == self@[index as int]
                },
                None => {
                    let k = rank(self@, *q, false);
                    !(k < self@.len() && equiv(self@[k], *q))
                },
            },
    {
        if self.len() == 0 {
            return None;
        }
        self.sk.find_first(q)
    }

    /// Puts `value` in its place. A list that keeps duplicates puts it behind
    /// the values that compare as equal to it; one that does not puts it in
    /// the place of the value that does, if there is one, and hands that back.
    pub fn insert(&mut self, value: V) -> (r: Option<V>)
        requires
            old(self).wf(),
        ensures
            final(self).wf(),
            final(self).allows_duplicates() == old(self).allows_duplicates(),
            old(self).allows_duplicates() ==> r is None && final(self)@ == old(self)@.insert(
                rank(old(self)@, value, true),
                value,
            ),
            !old(self).allows_duplicates() ==> ({
                let k = rank(old(self)@, value, false);
                if k < old(self)@.len() && equiv(old(self)@[k], value) {
                    r == Some(old(self)@[k]) && final(self)@ == old(self)@.update(k, value)
                } else {
                    r is None && final(self)@ == old(self)@.insert(k, value)
                }
            }),
            final(self).level_generator().probability() == old(
                self,
            ).level_generator().probability(),
            final(self).level_generator().max_levels() == old(
                self,
            ).level_generator().max_levels(),
            old(self).level_generator().limit() <= final(self).level_generator().limit() <= old(
                self,
            ).level_generator().limit() + 1,
    {
        proof {
            let s = self.sk@;
            lemma_rank_sorted(s, value, true);
            lemma_rank_sorted(s, value, false);
            lemma_rank_run(s, value);
            let hi = rank(s, value, true);
            let lo = rank(s, value, false);
            assert forall|i: int| hi <= i < s.len() implies crate::order::at_most(
                value,
                #[trigger] s[i],
            ) by {
                crate::order::lemma_trichotomy(s[i], value);
            }
            lemma_sorted_insert(s, hi, value);
            if !self.duplicatable {
                if lo < s.len() && equiv(s[lo], value) {
                    lemma_sorted_update(s, lo, value);
                } else {
                    assert forall|i: int| lo <= i < s.len() implies crate::order::less(
                        value,
                        #[trigger] s[i],
                    ) by {
                        crate::order::lemma_trichotomy(s[i], value);
                        if equiv(s[i], value) {
                            assert(lo <= i < hi);
                            assert(equiv(s[lo], value));
                        }
                    }
                    lemma_strictly_sorted_insert(s, lo, value);
                    lemma_strict_is_sorted(s.insert(lo, value));
                }
            }
        }
        self.sk.insert_sorted(value, self.duplicatable)
    }

    /// Takes the value at `index` out of the list.
    pub fn remove(&mut self, index: usize) -> (value: V)
        requires
            old(self).wf(),
            index < old(self)@.len(),
        ensures
            final(self).wf(),
            final(self).allows_duplicates() == old(self).allows_duplicates(),
            final(self)@ == old(self)@.remove(index as int),
            value == old(self)@[index as int],
    {
        proof {
            let s = self.sk@;
            lemma_sorted_cut(s, index as int, index + 1);
            assert(s.remove(index as int) =~= s.subrange(0, index as int) + s.subrange(
                index + 1,
                s.len() as int,
            ));
        }
        self.sk.remove(index)
    }

    /// Takes the first value that compares as equal to `q` out of the list.
    pub fn remove_first(&mut self, q: &V) -> (r: Option<V>)
        requires
            old(self).wf(),
        ensures
            final(self).wf(),
            final(self).allows_duplicates() == old(self).allows_duplicates(),
            ({
                let k = rank(old(self)@, *q, false);
                if k < old(self)@.len() && equiv(old(self)@[k], *q) {
                    r == Some(old(self)@[k]) && final(self)@ == old(self)@.remove(k)
                } else {
                    r is None && final(self)@ == old(self)@
                }
            }),
    {
        let first = self.get_first(q);
        match first {
            None => None,
            Some((index, _)) => Some(self.remove(index)),
        }
    }

    /// Takes the last value that compares as equal to `q` out of the list.
    pub fn remove_last(&mut self, q: &V) -> (r: Option<V>)
        requires
            old(self).wf(),
        ensures
            final(self).wf(),
            final(self).allows_duplicates() == old(self).allows_duplicates(),
            ({
                let k = rank(old(self)@, *q, true);
                if k >= 1 && equiv(old(self)@[k - 1], *q) {
                    r == Some(old(self)@[k - 1]) && final(self)@ == old(self)@.remove(k - 1)
                } else {
                    r is None && final(self)@ == old(self)@
                }
            }),
    {
        let last = self.get_last(q);
        match last {
            None => None,
            Some((index, _)) => Some(self.remove(index)),
        }
    }

    /// Takes every value that compares as equal to `q` out of the list and
    /// says how many they were.
    pub fn remove_value(&mut self, q: &V) -> (n: usize)
        requires
            old(self).wf(),
        ensures
            final(self).wf(),
            final(self).allows_duplicates() == old(self).allows_duplicates(),
            n == rank(old(self)@, *q, true) - rank(old(self)@, *q, false),
            final(self)@ == old(self)@.subrange(0, rank(old(self)@, *q, false)) + old(
                self,
            )@.subrange(rank(old(self)@, *q, true), old(self)@.len() as int),
    {
        proof {
            lemma_rank_run(self.sk@, *q);
        }
        let ghost s = self.sk@;
        let ghost lo = rank(s, *q, false);
        let ghost hi = rank(s, *q, true);
        let count: usize = self.len();
        let left = match self.get_first(q) {
            None => {
                proof {
                    if lo < hi {
                        assert(equiv(s[lo], *q));
                    }
                    assert(s =~= s.subrange(0, lo) + s.subrange(hi, s.len() as int));
                }
                return 0;
            },
            Some((index, _)) => index,
        };
        let right = match self.get_last(q) {
            None => {
                proof {
                    assert(equiv(s[hi - 1], *q));
                }
                vstd::pervasive::unreached()
            },
            Some((index, _)) => index + 1,
        };
        proof {
            lemma_sorted_cut(s, lo, hi);
        }
        self.sk.remove_range(Bound::Included(left), Bound::Excluded(right))
    }

    /// The smallest value, if there is one.
    pub fn front(&self) -> (r: Option<&V>)
        requires
            self.wf(),
        ensures
            self@.len() == 0 ==> r is None,
            self@.len() > 0 ==> r == Some(&self@[0]),
    {
        self.sk.front()
    }

    /// The greatest value, if there is one.
    pub fn back(&self) -> (r: Option<&V>)
        requires
            self.wf(),
        ensures
            self@.len() == 0 ==> r is None,
            self@.len() > 0 ==> r == Some(&self@.last()),
    {
        self.sk.back()
    }

    /// Takes the smallest value out of the list, if there is one.
    pub fn pop_front(&mut self) -> (r: Option<V>)
        requires
            old(self).wf(),
        ensures
            final(self).wf(),
            final(self).allows_duplicates() == old(self).allows_duplicates(),
            old(self)@.len() == 0 ==> r is None && final(self)@ == old(self)@,
            old(self)@.len() > 0 ==> r == Some(old(self)@[0]) && final(self)@ == old(self)@.remove(
                0,
            ),
    {
        proof {
            let s = self.sk@;
            if s.len() > 0 {
                lemma_sorted_cut(s, 0, 1);
                assert(s.remove(0) =~= s.subrange(0, 0) + s.subrange(1, s.len() as int));
            }
        }
        self.sk.pop_front()
    }

    /// Takes the greatest value out of the list, if there is one.
    pub fn pop_back(&mut self) -> (r: Option<V>)
        requires
            old(self).wf(),
        ensures
            final(self).wf(),
            final(self).allows_duplicates() == old(self).allows_duplicates(),
            old(self)@.len() == 0 ==> r is None && final(self)@ == old(self)@,
            old(self)@.len() > 0 ==> r == Some(old(self)@.last()) && final(self)@ == old(
                self,
            )@.drop_last(),
    {
        proof {
            let s = self.sk@;
            if s.len() > 0 {
                lemma_sorted_cut(s, s.len() - 1, s.len() as int);
                assert(s.drop_last() =~= s.subrange(0, s.len() - 1) + s.subrange(
                    s.len() as int,
                    s.len() as int,
                ));
            }
        }
        self.sk.pop_back()
    }

    /// The number of levels in use.
    pub closed spec fn spec_levels(&self) -> nat {
        self.sk.spec_levels()
    }

    /// The number of levels of the node of each value.
    pub closed spec fn heights(&self) -> Seq<nat> {
        self.sk.heights()
    }

    /// The number of levels in use.
    pub(crate) fn levels(&self) -> (n: usize)
        requires
            self.wf(),
        ensures
            n == self.spec_levels(),
    {
        self.sk.levels()
    }

    /// A diagram of the links over a stretch of the list, of 20 values at
    /// most, with the text that `shown` holds for each value.
    pub fn explain(&self, start: Bound<usize>, end: Bound<usize>, shown: &Vec<String>) -> (r:
        Result<String, &'static str>)
        requires
            self.wf(),
            range_start(start) <= range_end(end, self@.len() as int),
            range_end(end, self@.len() as int) - range_start(start) <= MAX_SPAN ==> shown@.len()
                == range_end(end, self@.len() as int) - range_start(start),
        ensures
            match r {
                Ok(text) => {
                    let left = range_start(start);
                    let span = range_end(end, self@.len() as int) - left;
                    &&& span <= MAX_SPAN
                    &&& text@ == diagram(
                        self.heights(),
                        left as nat,
                        span as nat,
                        self.spec_levels(),
                        texts(shown@),
                    )
                },
                Err(message) => {
                    &&& range_end(end, self@.len() as int) - range_start(start) > MAX_SPAN
                    &&& message@ == too_wide()
                },
            },
    {
        self.sk.explain(start, end, shown)
    }

    /// Gives the list up for its values, smallest first.
    pub fn into_iter(self) -> (it: IntoIter<V>)
        requires
            self.wf(),
        ensures
            it.wf(),
            it@ == self@,
    {
        self.sk.into_iter()
    }
}

} // verus!
