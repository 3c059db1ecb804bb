//! The sorted map: keys in an ordered skip list, each with its value at the
//! same index of an indexed skip list.

use crate::merge::member;
use crate::order::{equiv, strictly_sorted, total_order};
use crate::ordered_skiplist::OrderedSkipList;
use crate::skiplist::SkipList;
use crate::sorted::{lemma_rank_run, rank};
use vstd::prelude::*;

verus! {

/// A map from keys to values, sorted by key. No two keys compare as equal.
pub struct SkipMap<K: Ord, V> {
    keys: OrderedSkipList<K>,
    values: SkipList<V>,
}

impl<K: Ord, V> SkipMap<K, V> {
    /// The keys, smallest first.
    pub closed spec fn keys(&self) -> Seq<K> {
        self.keys@
    }

    /// The values, in the order of their keys.
    pub closed spec fn values(&self) -> Seq<V> {
        self.values@
    }

    /// Every key has its value, and the keys are a set.
    pub closed spec fn wf(&self) -> bool {
        &&& self.keys.wf()
        &&& !self.keys.allows_duplicates()
        &&& self.values.wf()
        &&& self.keys@.len() == self.values@.len()
    }

    /// The keys of a well-formed map are strictly sorted, and there are as
    /// many values as keys.
    pub proof fn lemma_keys(&self)
        requires
            self.wf(),
        ensures
            total_order::<K>(),
            strictly_sorted(self.keys()),
            self.keys().len() == self.values().len(),
    {
        self.keys.lemma_sorted();
    }

    /// The empty map.
    pub fn new() -> (map: Self)
        requires
            total_order::<K>(),
        ensures
            map.wf(),
            map.keys() == Seq::<K>::empty(),
            map.values() == Seq::<V>::empty(),
    {
        SkipMap { keys: OrderedSkipList::new(), values: SkipList::new() }
    }

    /// Puts `value` under `key`. Where a key compares as equal to `key`, it
    /// and its value are replaced and handed back.
    pub fn insert(&mut self, key: K, value: V) -> (r: Option<(K, V)>)
        requires
            old(self).wf(),
        ensures
            final(self).wf(),
            r is Some <==> member(old(self).keys(), key),
            ({
                let k = rank(old(self).keys(), key, false);
                if k < old(self).keys().len() && equiv(old(self).keys()[k], key) {
                    &&& r == Some((old(self).keys()[k], old(self).values()[k]))
                    &&& final(self).keys() == old(self).keys().update(k, key)
                    &&& final(self).values() == old(self).values().update(k, value)
                } else {
                    &&& r is None
                    &&& final(self).keys() == old(self).keys().insert(k, key)
                    &&& final(self).values() == old(self).values().insert(k, value)
                }
            }),
    {
        proof {
            self.keys.lemma_sorted();
            lemma_rank_run(self.keys@, key);
        }
        let count = self.keys.len();
        let found: Option<usize> = match self.keys.get_first(&key) {
            Some((index, _)) => Some(index),
            None => None,
        };
        match found {
            Some(index) => {
                let old_key = self.keys.insert(key);
                let mut held = value;
                match self.values.get_mut(index) {
                    Some(place) => {
                        core::mem::swap(place, &mut held);
                    },
                    None => {},
                }
                match old_key {
                    Some(k) => Some((k, held)),
                    None => vstd::pervasive::unreached(),
                }
            },
            None => {
                let index = if count == 0 {
                    0
                } else {
                    self.keys._index_not_less(&key)
                };
                let _ = self.keys.insert(key);
                self.values.insert(index, value);
                None
            },
        }
    }

    /// Takes the key that compares as equal to `q` out of the map, with its
    /// value, if there is one.
    pub fn remove(&mut self, q: &K) -> (r: Option<(K, V)>)
        requires
            old(self).wf(),
        ensures
            final(self).wf(),
            r is Some <==> member(old(self).keys(), *q),
            ({
                let k = rank(old(self).keys(), *q, false);
                if k < old(self).keys().len() && equiv(old(self).keys()[k], *q) {
                    &&& r == Some((old(self).keys()[k], old(self).values()[k]))
                    &&& final(self).keys() == old(self).keys().remove(k)
                    &&& final(self).values() == old(self).values().remove(k)
                } else {
                    &&& r is None
                    &&& final(self).keys() == old(self).keys()
                    &&& final(self).values() == old(self).values()
                }
            }),
    {
        proof {
            self.keys.lemma_sorted();
            lemma_rank_run(self.keys@, *q);
        }
        let found: Option<usize> = match self.keys.get_first(q) {
            Some((index, _)) => Some(index),
            None => None,
        };
        match found {
            Some(index) => {
                let key = self.keys.remove(index);
                let value = self.values.remove(index);
                Some((key, value))
            },
            None => None,
        }
    }

    /// The value under the key that compares as equal to `q`, if there is
    /// one.
    pub fn get(&self, q: &K) -> (r: Option<&V>)
        requires
            self.wf(),
        ensures
            r is Some <==> member(self.keys(), *q),
            match r {
                Some(v) => {
                    let k = rank(self.keys(), *q, false);
                    k < self.keys().len() && equiv(self.keys()[k], *q) && *v == self.values()[k]
                },
                None => true,
            },
    {
        proof {
            self.keys.lemma_sorted();
            lemma_rank_run(self.keys@, *q);
        }
        match self.keys.get_first(q) {
            Some((index, _)) => self.values.get(index),
            None => None,
        }
    }

    /// The value under the key that compares as equal to `q`, to be changed
    /// in place, if there is one.
    pub fn get_mut(&mut self, q: &K) -> (r: Option<&mut V>)
        requires
            old(self).wf(),
        ensures
            final(self).wf(),
            final(self).keys() == old(self).keys(),
            r is Some <==> member(old(self).keys(), *q),
            match r {
                Some(v) => {
                    let k = rank(old(self).keys(), *q, false);
                    &&& k < old(self).keys().len()
                    &&& equiv(old(self).keys()[k], *q)
                    &&& *v == old(self).values()[k]
                    &&& final(self).values() == old(self).values().update(k, *final(v))
                },
                None => final(self).values() == old(self).values(),
            },
    {
        proof {
            self.keys.lemma_sorted();
            lemma_rank_run(self.keys@, *q);
        }
        let found: Option<usize> = match self.keys.get_first(q) {
            Some((index, _)) => Some(index),
            None => None,
        };
        match found {
            Some(index) => self.values.get_mut(index),
            None => None,
        }
    }

    /// The key that compares as equal to `q`, with its value, if there is
    /// one.
    pub fn get_kv(&self, q: &K) -> (r: Option<(&K, &V)>)
        requires
            self.wf(),
        ensures
            r is Some <==> member(self.keys(), *q),
            match r {
                Some((key, value)) => {
                    let k = rank(self.keys(), *q, false);
                    &&& k < self.keys().len()
                    &&& equiv(self.keys()[k], *q)
                    &&& *key == self.keys()[k]
                    &&& *value == self.values()[k]
                },
                None => true,
            },
    {
        proof {
            self.keys.lemma_sorted();
            lemma_rank_run(self.keys@, *q);
        }
        match self.keys.get_first(q) {
            Some((index, key)) => match self.values.get(index) {
                Some(value) => Some((key, value)),
                None => None,
            },
            None => None,
        }
    }

    /// Whether a key compares as equal to `q`.
    pub fn contains(&self, q: &K) -> (b: bool)
        requires
            self.wf(),
        ensures
            b == member(self.keys(), *q),
    {
        proof {
            self.keys.lemma_sorted();
            lemma_rank_run(self.keys@, *q);
        }
        self.keys.get_first(q).is_some()
    }

    /// The number of keys.
    pub fn len(&self) -> (n: usize)
        requires
            self.wf(),
        ensures
            n == self.keys().len(),
            n == self.values().len(),
    {
        self.keys.len()
    }

    /// The smallest key with its value, if there is one.
    pub fn first(&self) -> (r: Option<(&K, &V)>)
        requires
            self.wf(),
        ensures
            self.keys().len() == 0 ==> r is None,
            self.keys().len() > 0 ==> r == Some((&self.keys()[0], &self.values()[0])),
    {
        match self.keys.front() {
            Some(key) => match self.values.front() {
                Some(value) => Some((key, value)),
                None => None,
            },
            None => None,
        }
    }

    /// Takes the smallest key out of the map, with its value, if there is
    /// one.
    pub fn remove_first(&mut self) -> (r: Option<(K, V)>)
        requires
            old(self).wf(),
        ensures
            final(self).wf(),
            old(self).keys().len() == 0 ==> r is None && final(self).keys() == old(self).keys()
                && final(self).values() == old(self).values(),
            old(self).keys().len() > 0 ==> r == Some((old(self).keys()[0], old(self).values()[0]))
                && final(self).keys() == old(self).keys().remove(0) && final(self).values() == old(
                self,
            ).values().remove(0),
    {
        match self.keys.pop_front() {
            Some(key) => match self.values.pop_front() {
                Some(value) => Some((key, value)),
                None => vstd::pervasive::unreached(),
            },
            None => None,
        }
    }

    /// The greatest key with its value, if there is one.
    pub fn last(&self) -> (r: Option<(&K, &V)>)
        requires
            self.wf(),
        ensures
            self.keys().len() == 0 ==> r is None,
            self.keys().len() > 0 ==> r == Some((&self.keys().last(), &self.values().last())),
    {
        match self.keys.back() {
            Some(key) => match self.values.back() {
                Some(value) => Some((key, value)),
                None => None,
            },
            None => None,
        }
    }

    /// Takes the greatest key out of the map, with its value, if there is
    /// one.
    pub fn remove_last(&mut self) -> (r: Option<(K, V)>)
        requires
            old(self).wf(),
        ensures
            final(self).wf(),
            old(self).keys().len() == 0 ==> r is None && final(self).keys() == old(self).keys()
                && final(self).values() == old(self).values(),
            old(self).keys().len() > 0 ==> r == Some(
                (old(self).keys().last(), old(self).values().last()),
            ) && final(self).keys() == old(self).keys().drop_last() && final(self).values() == old(
                self,
            ).values().drop_last(),
    {
        match self.keys.pop_back() {
            Some(key) => match self.values.pop_back() {
                Some(value) => Some((key, value)),
                None => vstd::pervasive::unreached(),
            },
            None => None,
        }
    }
    /// The key that compares as equal to `q`, with its value to be changed in
    /// place, if there is one.
    pub fn get_kv_mut(&mut self, q: &K) -> (r: Option<(&K, &mut V)>)
        requires
            old(self).wf(),
        ensures
            final(self).wf(),
            final(self).keys() == old(self).keys(),
            r is Some <==> member(old(self).keys(), *q),
            match r {
                Some((key, value)) => {
                    let k = rank(old(self).keys(), *q, false);
                    &&& k < old(self).keys().len()
                    &&& equiv(old(self).keys()[k], *q)
                    &&& *key == old(self).keys()[k]
                    &&& *value == old(self).values()[k]
                    &&& final(self).values() == old(self).values().update(k, *final(value))
                },
                None => final(self).values() == old(self).values(),
            },
    {
        proof {
            self.keys.lemma_sorted();
            lemma_rank_run(self.keys@, *q);
        }
        match self.keys.get_first(q) {
            Some((index, key)) => match self.values.get_mut(index) {
                Some(value) => Some((key, value)),
                None => None,
            },
            None => None,
        }
    }

    /// The smallest key, with its value to be changed in place, if there is
    /// one.
    pub fn first_mut(&mut self) -> (r: Option<(&K, &mut V)>)
        requires
            old(self).wf(),
        ensures
            final(self).wf(),
            final(self).keys() == old(self).keys(),
            r is Some <==> old(self).keys().len() > 0,
            match r {
                Some((key, value)) => {
                    &&& *key == old(self).keys()[0]
                    &&& *value == old(self).values()[0]
                    &&& final(self).values() == old(self).values().update(0, *final(value))
                },
                None => final(self).values() == old(self).values(),
            },
    {
        match self.keys.front() {
            Some(key) => match self.values.front_mut() {
                Some(value) => Some((key, value)),
                None => None,
            },
            None => None,
        }
    }

    /// The greatest key, with its value to be changed in place, if there is
    /// one.
    pub fn last_mut(&mut self) -> (r: Option<(&K, &mut V)>)
        requires
            old(self).wf(),
        ensures
            final(self).wf(),
            final(self).keys() == old(self).keys(),
            r is Some <==> old(self).keys().len() > 0,
            match r {
                Some((key, value)) => {
                    &&& *key == old(self).keys().last()
                    &&& *value == old(self).values().last()
                    &&& final(self).values() == old(self).values().update(
                        old(self).values().len() - 1,
                        *final(value),
                    )
                },
                None => final(self).values() == old(self).values(),
            },
    {
        match self.keys.back() {
            Some(key) => match self.values.back_mut() {
                Some(value) => Some((key, value)),
                None => None,
            },
            None => None,
        }
    }
}

} // verus!
