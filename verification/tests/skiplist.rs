use skiplist::skiplist::{Bound, SkipList};

#[test]
fn skiplist_insert() {
    let mut sk = SkipList::new();
    sk.insert(0, "0-0");
    sk.insert(1, "1-0");
    sk.insert(2, "2-0");
    sk.insert(3, "3-0");

    assert_eq!(sk.get(0), Some(&"0-0"));
    assert_eq!(sk.get(1), Some(&"1-0"));
    assert_eq!(sk.get(2), Some(&"2-0"));
    assert_eq!(sk.get(3), Some(&"3-0"));

    sk.insert(3, "3-1");
    assert_eq!(sk.get(0), Some(&"0-0"));
    assert_eq!(sk.get(1), Some(&"1-0"));
    assert_eq!(sk.get(2), Some(&"2-0"));
    assert_eq!(sk.get(3), Some(&"3-1"));
    assert_eq!(sk.get(4), Some(&"3-0"));

    sk.insert(0, "0-1");
    assert_eq!(sk.get(0), Some(&"0-1"));
    assert_eq!(sk.get(1), Some(&"0-0"));
    assert_eq!(sk.get(2), Some(&"1-0"));
    assert_eq!(sk.get(3), Some(&"2-0"));
    assert_eq!(sk.get(4), Some(&"3-1"));
    assert_eq!(sk.get(5), Some(&"3-0"));

    sk.insert(3, "3-2");
    assert_eq!(sk.get(0), Some(&"0-1"));
    assert_eq!(sk.get(1), Some(&"0-0"));
    assert_eq!(sk.get(2), Some(&"1-0"));
    assert_eq!(sk.get(3), Some(&"3-2"));
    assert_eq!(sk.get(4), Some(&"2-0"));
    assert_eq!(sk.get(5), Some(&"3-1"));
    assert_eq!(sk.get(6), Some(&"3-0"));
}

#[test]
fn skiplist_remove() {
    let mut sk = SkipList::new();
    sk.insert(0, "0");
    sk.insert(1, "1");
    sk.insert(2, "2");
    sk.insert(3, "3");
    sk.insert(4, "4");
    sk.insert(5, "5");

    assert_eq!(sk.get(0), Some(&"0"));
    assert_eq!(sk.get(1), Some(&"1"));
    assert_eq!(sk.get(2), Some(&"2"));
    assert_eq!(sk.get(3), Some(&"3"));
    assert_eq!(sk.get(4), Some(&"4"));
    assert_eq!(sk.get(5), Some(&"5"));

    assert_eq!(sk.remove(4), "4");
    assert_eq!(sk.get(0), Some(&"0"));
    assert_eq!(sk.get(1), Some(&"1"));
    assert_eq!(sk.get(2), Some(&"2"));
    assert_eq!(sk.get(3), Some(&"3"));
    assert_eq!(sk.get(4), Some(&"5"));

    assert_eq!(sk.remove(1), "1");
    assert_eq!(sk.get(0), Some(&"0"));
    assert_eq!(sk.get(1), Some(&"2"));
    assert_eq!(sk.get(2), Some(&"3"));
    assert_eq!(sk.get(3), Some(&"5"));

    assert_eq!(sk.remove(3), "5");
    assert_eq!(sk.get(0), Some(&"0"));
    assert_eq!(sk.get(1), Some(&"2"));
    assert_eq!(sk.get(2), Some(&"3"));

    assert_eq!(sk.remove(0), "0");
    assert_eq!(sk.get(0), Some(&"2"));
    assert_eq!(sk.get(1), Some(&"3"));

    assert_eq!(sk.remove(0), "2");
    assert_eq!(sk.get(0), Some(&"3"));

    assert_eq!(sk.remove(0), "3");
    assert_eq!(sk.get(0), None);
}

#[test]
fn nomalize_range() {
    let mut sk = SkipList::new();

    for i in 0..10 {
        sk.push_back(i);
    }

    let range = sk._normalize_range(Bound::Included(1), Bound::Excluded(4));
    assert_eq!(range, (1, 4));

    let range = sk._normalize_range(Bound::Included(1), Bound::Included(4));
    assert_eq!(range, (1, 5));

    let range = sk._normalize_range(Bound::Included(1), Bound::Unbounded);
    assert_eq!(range, (1, 10));

    let range = sk._normalize_range(Bound::Included(1), Bound::Excluded(15));
    assert_eq!(range, (1, 10));

    let range = sk._normalize_range(Bound::Unbounded, Bound::Excluded(4));
    assert_eq!(range, (0, 4));

    let range = sk._normalize_range(Bound::Included(4), Bound::Excluded(4));
    assert_eq!(range, (4, 4));

    let range = sk._normalize_range(Bound::Unbounded, Bound::Unbounded);
    assert_eq!(range, (0, 10));

    let range = sk._normalize_range(Bound::Included(10), Bound::Excluded(15));
    assert_eq!(range, (10, 10));
}

#[test]
fn remove_range() {
    let mut sk = SkipList::new();

    for i in 0..20 {
        sk.push_back(i);
    }

    let n = sk.remove_range(Bound::Included(7), Bound::Excluded(7));
    assert_eq!(n, 0);
    assert_eq!(sk.len(), 20);

    let n = sk.remove_range(Bound::Included(7), Bound::Excluded(8));
    assert_eq!(n, 1);
    assert_eq!(sk.len(), 19);
    assert_eq!(sk.get(7), Some(&8));

    let n = sk.remove_range(Bound::Included(7), Bound::Excluded(10));
    assert_eq!(n, 3);
    assert_eq!(sk.len(), 16);
    assert_eq!(sk.get(7), Some(&11));

    let n = sk.remove_range(Bound::Included(7), Bound::Unbounded);
    assert_eq!(n, 9);
    assert_eq!(sk.len(), 7);
    assert_eq!(sk.get(7), None);
    assert_eq!(sk.get(6), Some(&6));

    let n = sk.remove_range(Bound::Unbounded, Bound::Excluded(2));
    assert_eq!(n, 2);
    assert_eq!(sk.len(), 5);
    assert_eq!(sk.get(0), Some(&2));
}
