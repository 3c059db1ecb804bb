use skiplist::level_generator::LevelGenerator;
use skiplist::ordered_skiplist::OrderedSkipList;
use skiplist::skiplist::Bound;
use std::cmp::Ordering;

/// A value that is ordered by its key alone.
#[derive(Debug, Clone, Copy)]
struct Tagged {
    key: i32,
    tag: i32,
}

impl PartialEq for Tagged {
    fn eq(&self, other: &Self) -> bool {
        self.key == other.key
    }
}

impl Eq for Tagged {}

impl PartialOrd for Tagged {
    fn partial_cmp(&self, other: &Self) -> Option<Ordering> {
        Some(self.cmp(other))
    }
}

impl Ord for Tagged {
    fn cmp(&self, other: &Self) -> Ordering {
        self.key.cmp(&other.key)
    }
}

fn tagged(key: i32, tag: i32) -> Tagged {
    Tagged { key, tag }
}

fn tags(sk: &OrderedSkipList<Tagged>) -> Vec<(i32, i32)> {
    let mut out = Vec::new();
    let mut it = sk.iter();
    while let Some(v) = it.next() {
        out.push((v.key, v.tag));
    }
    out
}

fn values(sk: &OrderedSkipList<i32>) -> Vec<i32> {
    let mut out = Vec::new();
    let mut it = sk.iter();
    while let Some(v) = it.next() {
        out.push(*v);
    }
    out
}

#[test]
fn duplicates_are_put_behind_their_equals() {
    let mut sk = OrderedSkipList::new_duplicatable();
    assert!(sk.insert(tagged(1, 0)).is_none());
    assert!(sk.insert(tagged(0, 0)).is_none());
    assert!(sk.insert(tagged(1, 1)).is_none());
    assert!(sk.insert(tagged(2, 0)).is_none());
    assert!(sk.insert(tagged(1, 2)).is_none());
    assert!(sk.insert(tagged(0, 1)).is_none());
    assert_eq!(tags(&sk), vec![(0, 0), (0, 1), (1, 0), (1, 1), (1, 2), (2, 0)]);
    assert_eq!(sk.len(), 6);
}

#[test]
fn equal_value_is_replaced_where_duplicates_are_not_kept() {
    let mut sk = OrderedSkipList::new();
    assert!(sk.insert(tagged(1, 0)).is_none());
    assert!(sk.insert(tagged(0, 0)).is_none());
    assert!(sk.insert(tagged(2, 0)).is_none());
    let old = sk.insert(tagged(1, 1));
    assert_eq!(old.map(|t| t.tag), Some(0));
    assert_eq!(sk.len(), 3);
    assert_eq!(tags(&sk), vec![(0, 0), (1, 1), (2, 0)]);
    let old = sk.insert(tagged(1, 2));
    assert_eq!(old.map(|t| t.tag), Some(1));
    assert_eq!(sk.len(), 3);
}

#[test]
fn get_first_and_get_last() {
    let mut sk = OrderedSkipList::new_duplicatable();
    sk.insert(1);
    sk.insert(0);
    sk.insert(1);
    sk.insert(2);
    assert_eq!(sk.get_last(&2), Some((3, &2)));
    assert_eq!(sk.get_last(&1), Some((2, &1)));
    assert_eq!(sk.get_last(&3), None);
    assert_eq!(sk.get_first(&1), Some((1, &1)));
    assert_eq!(sk.get_first(&2), Some((3, &2)));
    assert_eq!(sk.get_first(&-1), None);
    let empty: OrderedSkipList<i32> = OrderedSkipList::new();
    assert_eq!(empty.get_first(&1), None);
    assert_eq!(empty.get_last(&1), None);
}

#[test]
fn get_first_and_get_last_tell_equals_apart() {
    let mut sk = OrderedSkipList::new_duplicatable();
    for tag in 0..4 {
        sk.insert(tagged(5, tag));
    }
    sk.insert(tagged(4, 0));
    sk.insert(tagged(6, 0));
    let (i, v) = sk.get_first(&tagged(5, 99)).unwrap();
    assert_eq!((i, v.tag), (1, 0));
    let (i, v) = sk.get_last(&tagged(5, 99)).unwrap();
    assert_eq!((i, v.tag), (4, 3));
}

#[test]
fn remove_first_and_remove_last() {
    let mut sk = OrderedSkipList::new_duplicatable();
    for tag in 0..3 {
        sk.insert(tagged(5, tag));
    }
    sk.insert(tagged(4, 0));
    assert_eq!(sk.remove_first(&tagged(5, 0)).map(|t| t.tag), Some(0));
    assert_eq!(sk.remove_last(&tagged(5, 0)).map(|t| t.tag), Some(2));
    assert_eq!(tags(&sk), vec![(4, 0), (5, 1)]);
    assert!(sk.remove_first(&tagged(7, 0)).is_none());
    assert!(sk.remove_last(&tagged(3, 0)).is_none());
    assert_eq!(sk.len(), 2);
}

#[test]
fn remove_value_takes_every_equal() {
    let mut sk = OrderedSkipList::new_duplicatable();
    sk.insert(0);
    sk.insert(0);
    sk.insert(0);
    assert_eq!(sk.remove_value(&0), 3);
    assert_eq!(sk.len(), 0);
    assert_eq!(sk.remove_value(&0), 0);
    for v in [1, 2, 2, 3] {
        sk.insert(v);
    }
    assert_eq!(sk.remove_value(&4), 0);
    assert_eq!(sk.remove_value(&2), 2);
    assert_eq!(values(&sk), vec![1, 3]);
}

#[test]
fn remove_by_index_and_pops() {
    let mut sk = OrderedSkipList::new();
    for v in [3, 1, 2, 0] {
        sk.insert(v);
    }
    assert_eq!(sk.remove(1), 1);
    assert_eq!(sk.front(), Some(&0));
    assert_eq!(sk.back(), Some(&3));
    assert_eq!(sk.pop_front(), Some(0));
    assert_eq!(sk.pop_back(), Some(3));
    assert_eq!(sk.pop_back(), Some(2));
    assert_eq!(sk.pop_back(), None);
    assert_eq!(sk.pop_front(), None);
    assert_eq!(sk.front(), None);
    assert_eq!(sk.back(), None);
}

#[test]
fn iteration_is_sorted_both_ways() {
    let mut sk = OrderedSkipList::new_duplicatable();
    let mut state: u64 = 7;
    for _ in 0..500 {
        state = state.wrapping_mul(6364136223846793005).wrapping_add(1442695040888963407);
        sk.insert((state >> 40) as i32 % 100);
    }
    assert_eq!(sk.len(), 500);
    let forward = values(&sk);
    for pair in forward.windows(2) {
        assert!(pair[0] <= pair[1]);
    }
    let mut backward = Vec::new();
    let mut it = sk.reverse_iter();
    while let Some(v) = it.next() {
        backward.push(*v);
    }
    for pair in backward.windows(2) {
        assert!(pair[0] >= pair[1]);
    }
    backward.reverse();
    assert_eq!(forward, backward);
}

#[test]
fn ordered_dedup() {
    let mut sk = OrderedSkipList::new_duplicatable();
    for v in [0, 0, 1, 1, 1, 2] {
        sk.insert(v);
    }
    sk.dedup();
    assert_eq!(values(&sk), vec![0, 1, 2]);
}

#[test]
fn range_by_value() {
    let mut sk = OrderedSkipList::new();
    for i in 0..20 {
        sk.insert(i);
    }
    let mut out = Vec::new();
    let mut it = sk.range(Bound::Included(&2), Bound::Excluded(&7));
    while let Some(v) = it.next() {
        out.push(*v);
    }
    assert_eq!(out, vec![2, 3, 4, 5, 6]);

    let mut out = Vec::new();
    let mut it = sk.reverse_range(Bound::Included(&2), Bound::Excluded(&7));
    while let Some(v) = it.next() {
        out.push(*v);
    }
    assert_eq!(out, vec![6, 5, 4, 3, 2]);

    let mut out = Vec::new();
    let mut it = sk.range(Bound::Excluded(&17), Bound::Unbounded);
    while let Some(v) = it.next() {
        out.push(*v);
    }
    assert_eq!(out, vec![18, 19]);

    let mut out = Vec::new();
    let mut it = sk.range(Bound::Unbounded, Bound::Included(&1));
    while let Some(v) = it.next() {
        out.push(*v);
    }
    assert_eq!(out, vec![0, 1]);

    assert_eq!(sk.range(Bound::Included(&30), Bound::Unbounded).next(), None);
    assert_eq!(sk.range(Bound::Included(&5), Bound::Excluded(&5)).next(), None);
}

#[test]
fn range_by_value_with_duplicates_and_gaps() {
    let mut sk = OrderedSkipList::new_duplicatable();
    for v in [1, 3, 3, 3, 5, 7] {
        sk.insert(v);
    }
    let mut out = Vec::new();
    let mut it = sk.range(Bound::Included(&3), Bound::Included(&3));
    while let Some(v) = it.next() {
        out.push(*v);
    }
    assert_eq!(out, vec![3, 3, 3]);
    let mut out = Vec::new();
    let mut it = sk.range(Bound::Excluded(&3), Bound::Excluded(&7));
    while let Some(v) = it.next() {
        out.push(*v);
    }
    assert_eq!(out, vec![5]);
    let mut out = Vec::new();
    let mut it = sk.range(Bound::Included(&2), Bound::Included(&6));
    while let Some(v) = it.next() {
        out.push(*v);
    }
    assert_eq!(out, vec![3, 3, 3, 5]);
    assert_eq!(sk._index_not_less(&3), 1);
    assert_eq!(sk._index_not_less_or_equal(&3), 4);
    assert_eq!(sk._index_not_less(&0), 0);
    assert_eq!(sk._index_not_less_or_equal(&9), 6);
}

#[test]
fn empty_list_has_an_empty_range_whatever_the_bounds() {
    let sk: OrderedSkipList<i32> = OrderedSkipList::new();
    assert_eq!(sk.range(Bound::Included(&7), Bound::Excluded(&2)).next(), None);
    assert_eq!(sk.reverse_range(Bound::Included(&7), Bound::Excluded(&2)).next(), None);
}

#[test]
fn with_config_and_into_iter() {
    let mut sk = OrderedSkipList::with_config(true, LevelGenerator::with_config(1 << 62, 4));
    for v in [2, 1, 2, 0] {
        sk.insert(v);
    }
    let mut it = sk.into_iter();
    let mut out = Vec::new();
    while let Some(v) = it.next() {
        out.push(v);
    }
    assert_eq!(out, vec![0, 1, 2, 2]);
}
