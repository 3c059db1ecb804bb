use skiplist::ordered_skiplist::OrderedSkipList;

#[test]
fn ordered_skiplist_no_dup_insert() {
    let mut sk = OrderedSkipList::new();
    sk.insert(0);
    sk.insert(2);
    sk.insert(1);
    sk.insert(4);
    sk.insert(3);

    assert_eq!(sk.len(), 5);
    assert_eq!(sk.get(0), Some(&0));
    assert_eq!(sk.get(1), Some(&1));
    assert_eq!(sk.get(2), Some(&2));
    assert_eq!(sk.get(3), Some(&3));
    assert_eq!(sk.get(4), Some(&4));

    sk.insert(0);
    sk.insert(1);
    sk.insert(2);
    sk.insert(3);
    sk.insert(4);

    assert_eq!(sk.len(), 5);
    assert_eq!(sk.get(0), Some(&0));
    assert_eq!(sk.get(1), Some(&1));
    assert_eq!(sk.get(2), Some(&2));
    assert_eq!(sk.get(3), Some(&3));
    assert_eq!(sk.get(4), Some(&4));
}

#[test]
fn ordered_skiplist_dup_insert() {
    let mut sk = OrderedSkipList::new_duplicatable();
    sk.insert(0);
    sk.insert(2);
    sk.insert(1);
    sk.insert(4);
    sk.insert(3);

    assert_eq!(sk.len(), 5);
    assert_eq!(sk.get(0), Some(&0));
    assert_eq!(sk.get(1), Some(&1));
    assert_eq!(sk.get(2), Some(&2));
    assert_eq!(sk.get(3), Some(&3));
    assert_eq!(sk.get(4), Some(&4));

    sk.insert(0);
    sk.insert(1);
    sk.insert(2);
    sk.insert(3);
    sk.insert(4);

    assert_eq!(sk.len(), 10);
    assert_eq!(sk.get(0), Some(&0));
    assert_eq!(sk.get(1), Some(&0));
    assert_eq!(sk.get(2), Some(&1));
    assert_eq!(sk.get(3), Some(&1));
    assert_eq!(sk.get(4), Some(&2));
}

#[test]
fn remove_value() {
    let mut sk = OrderedSkipList::new_duplicatable();
    sk.insert(5);
    sk.insert(5);
    for i in 0..10 {
        sk.insert(i);
    }

    assert_eq!(sk.len(), 12);
    assert_eq!(sk.get_first(&5), Some((5, &5)));
    assert_eq!(sk.get_last(&5), Some((7, &5)));

    sk.remove_value(&5);
    assert_eq!(sk.len(), 9);
    assert_eq!(sk.get_first(&5), None);
}
