use skiplist::level_generator::LevelGenerator;
use skiplist::skiplist::{Bound, Node, SkipList, NIL};

fn filled(n: i32) -> SkipList<i32> {
    let mut sk = SkipList::new();
    for i in 0..n {
        sk.push_back(i);
    }
    sk
}

fn values(sk: &SkipList<i32>) -> Vec<i32> {
    let mut out = Vec::new();
    let mut it = sk.iter();
    while let Some(v) = it.next() {
        out.push(*v);
    }
    out
}

#[test]
fn node_new_is_unlinked() {
    let node = Node::new(Some(7), 3);
    assert_eq!(node.value, Some(7));
    assert_eq!(node.next, NIL);
    assert_eq!(node.prev, NIL);
    assert_eq!(node.links, vec![NIL, NIL, NIL]);
    assert_eq!(node.links_len, vec![0, 0, 0]);
    let head: Node<i32> = Node::new(None, 0);
    assert_eq!(head.value, None);
    assert!(head.links.is_empty());
}

#[test]
fn node_increase_level_adds_one_unlinked_level() {
    let mut node = Node::new(Some(1), 1);
    node.links[0] = 5;
    node.links_len[0] = 2;
    node.increase_level();
    assert_eq!(node.links, vec![5, NIL]);
    assert_eq!(node.links_len, vec![2, 0]);
    assert_eq!(node.value, Some(1));
}

#[test]
fn node_replace_hands_back_the_old_value() {
    let mut node = Node::new(Some(1), 1);
    assert_eq!(node.replace(2), Some(1));
    assert_eq!(node.value, Some(2));
    let mut head: Node<i32> = Node::new(None, 1);
    assert_eq!(head.replace(3), None);
    assert_eq!(head.value, Some(3));
}

#[test]
fn new_list_is_empty() {
    let sk: SkipList<i32> = SkipList::new();
    assert_eq!(sk.len(), 0);
    assert_eq!(sk.get(0), None);
    assert_eq!(sk.front(), None);
    assert_eq!(sk.back(), None);
    assert_eq!(values(&sk), Vec::<i32>::new());
}

#[test]
fn push_front_and_push_back() {
    let mut sk = SkipList::new();
    sk.push_front(0);
    sk.push_front(1);
    sk.push_front(2);
    assert_eq!(sk.get(0), Some(&2));
    sk.push_back(9);
    assert_eq!(values(&sk), vec![2, 1, 0, 9]);
    assert_eq!(sk.front(), Some(&2));
    assert_eq!(sk.back(), Some(&9));
    assert_eq!(sk.len(), 4);
}

#[test]
fn pop_front_and_pop_back() {
    let mut sk = filled(4);
    assert_eq!(sk.pop_front(), Some(0));
    assert_eq!(sk.pop_back(), Some(3));
    assert_eq!(values(&sk), vec![1, 2]);
    assert_eq!(sk.pop_back(), Some(2));
    assert_eq!(sk.pop_back(), Some(1));
    assert_eq!(sk.pop_back(), None);
    assert_eq!(sk.pop_front(), None);
    assert_eq!(sk.len(), 0);
}

#[test]
fn push_back_then_pop_back_drains_in_reverse() {
    let mut sk = filled(50);
    let n = sk.len();
    let mut out = Vec::new();
    for _ in 0..n {
        out.push(sk.pop_back().unwrap());
    }
    assert_eq!(sk.len(), 0);
    let expected: Vec<i32> = (0..50).rev().collect();
    assert_eq!(out, expected);
}

#[test]
fn insert_then_remove_returns_the_value() {
    let mut sk = filled(10);
    sk.insert(4, 100);
    assert_eq!(sk.get(4), Some(&100));
    assert_eq!(sk.remove(4), 100);
    assert_eq!(values(&sk), (0..10).collect::<Vec<i32>>());
}

#[test]
fn get_equals_front_after_pops() {
    let sk = filled(30);
    for i in 0..30 {
        let mut copy = filled(30);
        for _ in 0..i {
            copy.pop_front();
        }
        assert_eq!(sk.get(i), copy.front());
    }
}

#[test]
fn get_mut_front_mut_back_mut() {
    let mut sk = filled(5);
    *sk.get_mut(2).unwrap() = 20;
    *sk.front_mut().unwrap() = 10;
    *sk.back_mut().unwrap() = 40;
    assert_eq!(values(&sk), vec![10, 1, 20, 3, 40]);
    assert!(sk.get_mut(5).is_none());
    let mut empty: SkipList<i32> = SkipList::new();
    assert!(empty.front_mut().is_none());
    assert!(empty.back_mut().is_none());
}

#[test]
fn reverse_iter_walks_back_to_front() {
    let sk = filled(6);
    let mut out = Vec::new();
    let mut it = sk.reverse_iter();
    while let Some(v) = it.next() {
        out.push(*v);
    }
    assert_eq!(out, vec![5, 4, 3, 2, 1, 0]);
    assert_eq!(it.next(), None);
    let empty: SkipList<i32> = SkipList::new();
    assert_eq!(empty.reverse_iter().next(), None);
}

#[test]
fn iter_restarts_on_each_call() {
    let sk = filled(3);
    let mut it = sk.iter();
    assert_eq!(it.next(), Some(&0));
    let mut again = sk.iter();
    assert_eq!(again.next(), Some(&0));
    assert_eq!(it.next(), Some(&1));
    assert_eq!(it.next(), Some(&2));
    assert_eq!(it.next(), None);
    assert_eq!(it.next(), None);
}

#[test]
fn iter_mut_and_reverse_iter_mut() {
    let mut sk = filled(3);
    {
        let mut it = sk.iter_mut();
        while let Some(v) = it.next() {
            *v *= 2;
        }
    }
    assert_eq!(values(&sk), vec![0, 2, 4]);
    let mut sk = SkipList::new();
    sk.push_back(0);
    sk.push_back(1);
    sk.push_back(2);
    {
        let mut i = 0;
        let mut it = sk.reverse_iter_mut();
        while let Some(v) = it.next() {
            *v += i;
            i += 1;
        }
    }
    assert_eq!(values(&sk), vec![2, 2, 2]);
}

#[test]
fn range_and_reverse_range() {
    let sk = filled(10);
    let mut out = Vec::new();
    let mut it = sk.range(Bound::Included(2), Bound::Excluded(7));
    while let Some(v) = it.next() {
        out.push(*v);
    }
    assert_eq!(out, vec![2, 3, 4, 5, 6]);

    let mut out = Vec::new();
    let mut it = sk.reverse_range(Bound::Unbounded, Bound::Excluded(7));
    while let Some(v) = it.next() {
        out.push(*v);
    }
    assert_eq!(out, vec![6, 5, 4, 3, 2, 1, 0]);

    let mut out = Vec::new();
    let mut it = sk.range(Bound::Excluded(7), Bound::Included(100));
    while let Some(v) = it.next() {
        out.push(*v);
    }
    assert_eq!(out, vec![8, 9]);

    assert_eq!(sk.range(Bound::Included(4), Bound::Excluded(4)).next(), None);
    assert_eq!(sk.reverse_range(Bound::Included(4), Bound::Excluded(4)).next(), None);
    let empty: SkipList<i32> = SkipList::new();
    assert_eq!(empty.range(Bound::Included(5), Bound::Excluded(2)).next(), None);
    assert_eq!(empty.reverse_range(Bound::Included(5), Bound::Excluded(2)).next(), None);
}

#[test]
fn range_mut_and_reverse_range_mut() {
    let mut sk = filled(10);
    {
        let mut it = sk.range_mut(Bound::Unbounded, Bound::Unbounded);
        while let Some(v) = it.next() {
            *v *= 2;
        }
    }
    assert_eq!(values(&sk), vec![0, 2, 4, 6, 8, 10, 12, 14, 16, 18]);
    let mut sk = filled(10);
    {
        let mut a = 0;
        let mut it = sk.reverse_range_mut(Bound::Unbounded, Bound::Excluded(8));
        while let Some(v) = it.next() {
            *v += a;
            a += 1;
        }
    }
    assert_eq!(values(&sk), vec![7, 7, 7, 7, 7, 7, 7, 7, 8, 9]);
    {
        let mut it = sk.range_mut(Bound::Included(8), Bound::Included(8));
        while let Some(v) = it.next() {
            *v = -1;
        }
    }
    assert_eq!(sk.get(8), Some(&-1));
    assert_eq!(sk.get(9), Some(&9));
}

#[test]
fn remove_range_in_the_middle() {
    let mut sk = filled(20);
    assert_eq!(sk.remove_range(Bound::Included(1), Bound::Excluded(19)), 18);
    assert_eq!(sk.get(0), Some(&0));
    assert_eq!(sk.get(1), Some(&19));
    assert_eq!(sk.len(), 2);
    assert_eq!(sk.remove_range(Bound::Unbounded, Bound::Unbounded), 2);
    assert_eq!(sk.len(), 0);
    assert_eq!(sk.remove_range(Bound::Unbounded, Bound::Unbounded), 0);
    sk.push_back(5);
    assert_eq!(values(&sk), vec![5]);
}

#[test]
fn dedup_leaves_the_first_of_each_run() {
    let mut sk = SkipList::new();
    for v in [0, 0, 1, 1, 1, 2, 0, 0] {
        sk.push_back(v);
    }
    sk.dedup();
    assert_eq!(values(&sk), vec![0, 1, 2, 0]);
    let mut empty: SkipList<i32> = SkipList::new();
    empty.dedup();
    assert_eq!(empty.len(), 0);
    let mut one = filled(1);
    one.dedup();
    assert_eq!(values(&one), vec![0]);
}

#[test]
fn into_iter_gives_the_values_up() {
    let sk = filled(10);
    let mut it = sk.into_iter();
    let mut idx = 0;
    while let Some(v) = it.next() {
        assert_eq!(v, idx);
        idx += 1;
    }
    assert_eq!(idx, 10);
}

#[test]
fn length_is_puts_less_takes() {
    let mut sk = SkipList::new();
    let mut model: Vec<u64> = Vec::new();
    let mut state: u64 = 12345;
    let mut puts = 0usize;
    let mut takes = 0usize;
    for step in 0..4000u64 {
        state = state.wrapping_mul(6364136223846793005).wrapping_add(1442695040888963407);
        let r = (state >> 33) as usize;
        if model.is_empty() || r % 3 != 0 {
            let at = r % (model.len() + 1);
            sk.insert(at, step);
            model.insert(at, step);
            puts += 1;
        } else {
            let at = r % model.len();
            assert_eq!(sk.remove(at), model.remove(at));
            takes += 1;
        }
        assert_eq!(sk.len(), puts - takes);
    }
    assert_eq!(sk.len(), model.len());
    for (i, v) in model.iter().enumerate() {
        assert_eq!(sk.get(i), Some(v));
    }
    let mut it = sk.iter();
    for v in model.iter() {
        assert_eq!(it.next(), Some(v));
    }
    assert_eq!(it.next(), None);
    let mut it = sk.reverse_iter();
    for v in model.iter().rev() {
        assert_eq!(it.next(), Some(v));
    }
    assert_eq!(it.next(), None);
}

#[test]
fn ranges_are_removed_like_from_a_vector() {
    let mut sk = SkipList::new();
    let mut model: Vec<u64> = Vec::new();
    let mut state: u64 = 99;
    for round in 0..200u64 {
        for k in 0..20 {
            state = state.wrapping_mul(6364136223846793005).wrapping_add(1442695040888963407);
            let at = (state >> 33) as usize % (model.len() + 1);
            sk.insert(at, round * 100 + k);
            model.insert(at, round * 100 + k);
        }
        state = state.wrapping_mul(6364136223846793005).wrapping_add(1442695040888963407);
        let left = (state >> 33) as usize % (model.len() + 1);
        state = state.wrapping_mul(6364136223846793005).wrapping_add(1442695040888963407);
        let width = (state >> 33) as usize % 25;
        let right = std::cmp::min(left + width, model.len());
        let n = sk.remove_range(Bound::Included(left), Bound::Excluded(left + width));
        assert_eq!(n, right - left);
        model.drain(left..right);
        assert_eq!(sk.len(), model.len());
        for (i, v) in model.iter().enumerate() {
            assert_eq!(sk.get(i), Some(v));
        }
    }
}

#[test]
fn list_takes_its_levels_from_its_generator() {
    let mut sk = SkipList::with_level_generator(LevelGenerator::with_propability(0));
    for v in 0..200 {
        sk.push_back(v);
    }
    let text = sk.explain(Bound::Included(0), Bound::Excluded(0), &Vec::new());
    assert_eq!(text, Ok(String::from("start: 0, levels: 1, show_len: 0, total_len: 200\n\nvalues:\n")));
    let mut sk = SkipList::with_level_generator(LevelGenerator::with_config(u64::MAX, 3));
    for v in 0..200 {
        sk.push_back(v);
    }
    let text = sk.explain(Bound::Included(0), Bound::Excluded(0), &Vec::new());
    assert_eq!(text, Ok(String::from("start: 0, levels: 3, show_len: 0, total_len: 200\n\n\n\nvalues:\n")));
}
