use rand::rngs::StdRng;
use rand::{Rng, SeedableRng};
use skiplist::level_generator::LevelGenerator;
use skiplist::skiplist::Bound;
use skiplist::skipset::{Difference, Intersection, SkipSet};
use std::collections::BTreeSet;

fn set_of(values: &[i32]) -> SkipSet<i32> {
    let mut ss = SkipSet::new();
    for v in values {
        ss.add(*v);
    }
    ss
}

fn values(ss: &SkipSet<i32>) -> Vec<i32> {
    let mut out = Vec::new();
    let mut it = ss.iter();
    while let Some(v) = it.next() {
        out.push(*v);
    }
    out
}

fn union(a: &SkipSet<i32>, b: &SkipSet<i32>) -> Vec<i32> {
    let mut out = Vec::new();
    let mut it = a.union(b);
    while let Some(v) = it.next() {
        out.push(*v);
    }
    out
}

fn intersection(a: &SkipSet<i32>, b: &SkipSet<i32>) -> Vec<i32> {
    let mut out = Vec::new();
    let mut it = a.intersection(b);
    while let Some(v) = it.next() {
        out.push(*v);
    }
    out
}

fn drain_difference(mut it: Difference<i32>) -> Vec<i32> {
    let mut out = Vec::new();
    while let Some(v) = it.next() {
        out.push(*v);
    }
    out
}

fn drain_intersection(mut it: Intersection<i32>) -> Vec<i32> {
    let mut out = Vec::new();
    while let Some(v) = it.next() {
        out.push(*v);
    }
    out
}

fn symmetric_difference(a: &SkipSet<i32>, b: &SkipSet<i32>) -> Vec<i32> {
    let mut out = Vec::new();
    let mut it = a.symmetric_difference(b);
    while let Some(v) = it.next() {
        out.push(*v);
    }
    out
}

#[test]
fn add_get_and_cardinal() {
    let mut ss = SkipSet::new();
    assert_eq!(ss.add(1), None);
    assert_eq!(ss.add(2), None);
    assert_eq!(ss.add(0), None);
    assert_eq!(ss.cardinal(), 3);
    assert_eq!(ss.get(&1), Some(&1));
    assert_eq!(ss.get(&3), None);
    assert_eq!(ss.add(1), Some(1));
    assert_eq!(ss.cardinal(), 3);
    assert_eq!(values(&ss), vec![0, 1, 2]);
}

#[test]
fn contains_and_remove() {
    let mut ss = set_of(&[5, 3, 8]);
    assert!(ss.contains(&3));
    assert!(!ss.contains(&4));
    assert_eq!(ss.remove(&3), Some(3));
    assert_eq!(ss.remove(&3), None);
    assert!(!ss.contains(&3));
    assert_eq!(ss.cardinal(), 2);
    assert_eq!(values(&ss), vec![5, 8]);
}

#[test]
fn min_max_and_their_removal() {
    let mut ss = set_of(&[5, 3, 8, 1]);
    assert_eq!(ss.min(), Some(&1));
    assert_eq!(ss.max(), Some(&8));
    assert_eq!(ss.remove_min(), Some(1));
    assert_eq!(ss.remove_max(), Some(8));
    assert_eq!(values(&ss), vec![3, 5]);
    let mut empty: SkipSet<i32> = SkipSet::new();
    assert_eq!(empty.min(), None);
    assert_eq!(empty.max(), None);
    assert_eq!(empty.remove_min(), None);
    assert_eq!(empty.remove_max(), None);
}

#[test]
fn pick_by_index() {
    let ss = set_of(&[5, 3, 8]);
    assert_eq!(ss.pick(0), Some(&3));
    assert_eq!(ss.pick(2), Some(&8));
    assert_eq!(ss.pick(3), None);
}

#[test]
fn choose_one_is_a_value_of_the_set() {
    let empty: SkipSet<i32> = SkipSet::new();
    assert_eq!(empty.choose_one(), None);
    let one = set_of(&[7]);
    assert_eq!(one.choose_one(), Some(&7));
    let ss = set_of(&[1, 2, 3, 4, 5]);
    for _ in 0..200 {
        let v = ss.choose_one();
        assert!(v.is_some());
        assert!(ss.contains(v.unwrap()));
    }
}

#[test]
fn set_range() {
    let ss = set_of(&[1, 3, 5, 7, 9]);
    let mut out = Vec::new();
    let mut it = ss.range(Bound::Included(&3), Bound::Excluded(&8));
    while let Some(v) = it.next() {
        out.push(*v);
    }
    assert_eq!(out, vec![3, 5, 7]);
}

#[test]
fn symmetric_difference_of_shifted_sets() {
    let mut ss1 = SkipSet::new();
    let mut ss2 = SkipSet::new();
    for i in 0..10 {
        ss1.add(i);
        ss2.add(i + 1);
    }
    assert_eq!(symmetric_difference(&ss1, &ss2), vec![0, 10]);
}

#[test]
fn difference_of_shifted_sets() {
    let mut ss1 = SkipSet::new();
    let mut ss2 = SkipSet::new();
    for i in 0..10 {
        ss1.add(i);
        ss2.add(i + 1);
    }
    assert_eq!(drain_difference(ss1.difference(&ss2)), vec![0]);
    assert_eq!(drain_difference(ss1.difference_traverse(&ss2)), vec![0]);
    assert_eq!(drain_difference(ss1.difference_search(&ss2)), vec![0]);
    assert_eq!(drain_difference(ss2.difference(&ss1)), vec![10]);
}

#[test]
fn difference_search_of_disjoint_sets() {
    let mut ss1 = SkipSet::new();
    let mut ss2 = SkipSet::new();
    for i in 0..3 {
        ss1.add(i);
    }
    for i in 3..30 {
        ss2.add(i);
    }
    assert_eq!(drain_difference(ss1.difference_search(&ss2)), vec![0, 1, 2]);
    assert_eq!(drain_difference(ss1.difference(&ss2)), vec![0, 1, 2]);
}

#[test]
fn intersection_of_shifted_sets() {
    let mut ss1 = SkipSet::new();
    let mut ss2 = SkipSet::new();
    for i in 0..10 {
        ss1.add(i);
        ss2.add(i + 1);
    }
    let expected: Vec<i32> = (1..10).collect();
    assert_eq!(intersection(&ss1, &ss2), expected);
    assert_eq!(drain_intersection(ss1.intersection_traverse(&ss2)), expected);
    assert_eq!(drain_intersection(ss1.intersection_search(&ss2)), expected);
}

#[test]
fn union_of_shifted_sets() {
    let mut ss1 = SkipSet::new();
    let mut ss2 = SkipSet::new();
    for i in 0..10 {
        ss1.add(i);
        ss2.add(i + 1);
    }
    assert_eq!(union(&ss1, &ss2), (0..11).collect::<Vec<i32>>());
}

#[test]
fn operations_on_empty_sets() {
    let empty: SkipSet<i32> = SkipSet::new();
    let ss = set_of(&[1, 2]);
    assert_eq!(union(&empty, &ss), vec![1, 2]);
    assert_eq!(union(&ss, &empty), vec![1, 2]);
    assert_eq!(union(&empty, &empty), Vec::<i32>::new());
    assert_eq!(intersection(&empty, &ss), Vec::<i32>::new());
    assert_eq!(intersection(&ss, &empty), Vec::<i32>::new());
    assert_eq!(drain_difference(ss.difference(&empty)), vec![1, 2]);
    assert_eq!(drain_difference(empty.difference(&ss)), Vec::<i32>::new());
    assert_eq!(drain_difference(ss.difference_search(&empty)), vec![1, 2]);
    assert_eq!(symmetric_difference(&ss, &empty), vec![1, 2]);
    assert_eq!(symmetric_difference(&empty, &ss), vec![1, 2]);
}

#[test]
fn subset_and_superset() {
    let mut ss1 = SkipSet::new();
    let mut ss2 = SkipSet::new();
    for i in 0..10 {
        ss1.add(i);
    }
    for i in 0..20 {
        ss2.add(i);
    }
    assert!(ss1.is_subset(&ss2));
    assert!(ss2.is_superset(&ss1));
    assert!(!ss2.is_subset(&ss1));
    assert!(!ss1.is_superset(&ss2));
    assert!(ss1.is_subset(&ss1));
    assert!(ss1.is_superset(&ss1));
    let empty: SkipSet<i32> = SkipSet::new();
    assert!(empty.is_subset(&ss1));
    assert!(ss1.is_superset(&empty));
    assert!(!ss1.is_subset(&empty));
    let other = set_of(&[0, 100]);
    assert!(!other.is_subset(&ss2));
}

#[test]
fn difference_and_difference_search_agree_on_steps_of_two_and_three() {
    let mut a = SkipSet::new();
    let mut b = SkipSet::new();
    let mut i = 0;
    while i <= 998 {
        a.add(i);
        i += 2;
    }
    let mut i = 0;
    while i <= 999 {
        b.add(i);
        i += 3;
    }
    assert_eq!(a.cardinal(), 500);
    assert_eq!(b.cardinal(), 334);
    let merged = drain_difference(a.difference(&b));
    let walked = drain_difference(a.difference_traverse(&b));
    let looked_up = drain_difference(a.difference_search(&b));
    assert_eq!(merged, looked_up);
    assert_eq!(walked, looked_up);
    let expected: Vec<i32> = (0..=998).filter(|x| x % 2 == 0 && x % 3 != 0).collect();
    assert_eq!(merged, expected);
    for pair in merged.windows(2) {
        assert!(pair[0] < pair[1]);
    }
}

#[test]
fn set_algebra_on_random_sets() {
    let mut rng = StdRng::from_entropy();
    for _ in 0..30 {
        let mut a = SkipSet::new();
        let mut b = SkipSet::new();
        let mut model_a = BTreeSet::new();
        let mut model_b = BTreeSet::new();
        let size_a: usize = rng.gen_range(0, 200);
        let size_b: usize = rng.gen_range(0, 200);
        for _ in 0..size_a {
            let v: i32 = rng.gen_range(0, 300);
            a.add(v);
            model_a.insert(v);
        }
        for _ in 0..size_b {
            let v: i32 = rng.gen_range(0, 300);
            b.add(v);
            model_b.insert(v);
        }
        let u = union(&a, &b);
        let i = intersection(&a, &b);
        let d_ab = drain_difference(a.difference(&b));
        let d_ba = drain_difference(b.difference(&a));
        let sd = symmetric_difference(&a, &b);

        assert_eq!(u, model_a.union(&model_b).cloned().collect::<Vec<i32>>());
        assert_eq!(i, model_a.intersection(&model_b).cloned().collect::<Vec<i32>>());
        assert_eq!(d_ab, model_a.difference(&model_b).cloned().collect::<Vec<i32>>());
        assert_eq!(d_ba, model_b.difference(&model_a).cloned().collect::<Vec<i32>>());
        assert_eq!(sd, model_a.symmetric_difference(&model_b).cloned().collect::<Vec<i32>>());

        assert_eq!(u.len(), a.cardinal() + b.cardinal() - i.len());
        for v in d_ab.iter() {
            assert!(!d_ba.contains(v));
        }
        let mut rebuilt: Vec<i32> = Vec::new();
        rebuilt.extend(d_ab.iter());
        rebuilt.extend(d_ba.iter());
        rebuilt.extend(i.iter());
        rebuilt.sort();
        assert_eq!(rebuilt, u);
        assert_eq!(drain_difference(a.difference_traverse(&b)), drain_difference(a.difference_search(&b)));
        assert_eq!(
            drain_intersection(a.intersection_traverse(&b)),
            drain_intersection(a.intersection_search(&b))
        );
        assert_eq!(a.is_subset(&b), model_a.is_subset(&model_b));
        assert_eq!(a.is_superset(&b), model_a.is_superset(&model_b));
    }
}

#[test]
fn small_set_against_large_set() {
    // few values against many: the lookup is the cheaper way
    let small = set_of(&[5, 500, 5000, 50000]);
    let mut large = SkipSet::new();
    for i in 0..2000 {
        large.add(i);
    }
    assert_eq!(drain_difference(small.difference(&large)), vec![5000, 50000]);
    assert_eq!(intersection(&small, &large), vec![5, 500]);
    assert_eq!(intersection(&large, &small), vec![5, 500]);
    assert!(!small.is_subset(&large));
}

#[test]
fn set_with_level_generator_and_into_iter() {
    let mut ss = SkipSet::with_level_generator(LevelGenerator::with_config(1 << 63, 3));
    for v in [4, 2, 4, 1] {
        ss.add(v);
    }
    let mut it = ss.into_iter();
    let mut out = Vec::new();
    while let Some(v) = it.next() {
        out.push(v);
    }
    assert_eq!(out, vec![1, 2, 4]);
}

#[test]
fn set_takes_its_levels_from_its_generator() {
    // with probability 0 no node of the set has more than one level
    let mut ss = SkipSet::with_level_generator(LevelGenerator::with_propability(0));
    for v in 0..200 {
        ss.add(v);
    }
    let text = ss.explain(Bound::Included(0), Bound::Excluded(1), &vec![String::from("0")]);
    assert_eq!(
        text,
        Ok(String::from("start: 0, levels: 1, show_len: 1, total_len: 200\n[+0] --> \nvalues:\n[+0]: 0\n"))
    );
    // with two levels allowed and a probability of nearly 1, two are in use
    let mut ss = SkipSet::with_level_generator(LevelGenerator::with_config(u64::MAX, 2));
    for v in 0..200 {
        ss.add(v);
    }
    let text = ss.explain(Bound::Included(0), Bound::Excluded(0), &Vec::new());
    assert_eq!(text, Ok(String::from("start: 0, levels: 2, show_len: 0, total_len: 200\n\n\nvalues:\n")));
}
