use rand::rngs::StdRng;
use rand::{Rng, SeedableRng};
use skiplist::explain::decimal;
use skiplist::level_generator::LevelGenerator;
use skiplist::ordered_skiplist::OrderedSkipList;
use skiplist::skiplist::{Bound, SkipList};
use skiplist::skipset::SkipSet;

fn shown(sk: &SkipList<i32>, start: Bound<usize>, end: Bound<usize>) -> Vec<String> {
    let mut out = Vec::new();
    let mut it = sk.range(start, end);
    while let Some(v) = it.next() {
        out.push(format!("{}", v));
    }
    out
}

fn show(sk: &SkipList<i32>, left: usize, right: Option<usize>) {
    let end = || match right {
        Some(r) => Bound::Excluded(r),
        None => Bound::Unbounded,
    };
    let texts = shown(sk, Bound::Included(left), end());
    let texts = if texts.len() > 20 { Vec::new() } else { texts };
    match sk.explain(Bound::Included(left), end(), &texts) {
        Ok(text) => println!("{}", text),
        Err(err) => println!("{}", err),
    };
}

#[test]
fn explain() {
    let mut sk = SkipList::<i32>::new();
    let mut rng = StdRng::from_entropy();
    for i in 0..500 {
        sk.insert(rng.gen_range(0, i + 1), rng.gen())
    }

    show(&sk, 0, Some(10));

    println!("");

    show(&sk, 485, None);

    println!("");

    show(&sk, 470, None);
}

#[test]
fn decimal_text() {
    assert_eq!(decimal(0), "0");
    assert_eq!(decimal(7), "7");
    assert_eq!(decimal(10), "10");
    assert_eq!(decimal(1234), "1234");
    assert_eq!(decimal(9_876_543_210), "9876543210");
    assert_eq!(decimal(usize::MAX), format!("{}", usize::MAX));
}

#[test]
fn explain_an_empty_list() {
    let sk: SkipList<i32> = SkipList::new();
    let text = sk.explain(Bound::Unbounded, Bound::Unbounded, &Vec::new());
    assert_eq!(text, Ok(String::from("start: 0, levels: 0, show_len: 0, total_len: 0\nvalues:\n")));
}

#[test]
fn explain_one_value() {
    let mut sk = SkipList::new();
    sk.push_back(5);
    let text = sk.explain(Bound::Unbounded, Bound::Unbounded, &vec![String::from("five")]);
    assert_eq!(
        text,
        Ok(String::from("start: 0, levels: 1, show_len: 1, total_len: 1\n[+0] --> \nvalues:\n[+0]: five\n"))
    );
}

#[test]
fn explain_a_flat_list() {
    // with probability 0 no node has more than one level
    let mut sk = SkipList::with_level_generator(LevelGenerator::with_propability(0));
    for i in 0..12 {
        sk.push_back(i * 10);
    }
    let texts = shown(&sk, Bound::Included(9), Bound::Unbounded);
    let text = sk.explain(Bound::Included(9), Bound::Unbounded, &texts);
    assert_eq!(
        text,
        Ok(String::from(
            "start: 9, levels: 1, show_len: 3, total_len: 12\n\
             [+0] --> [+1] --> [+2] --> \n\
             values:\n\
             [+0]: 90\n\
             [+1]: 100\n\
             [+2]: 110\n"
        ))
    );
    let text = sk.explain(Bound::Included(4), Bound::Excluded(4), &Vec::new());
    assert_eq!(text, Ok(String::from("start: 4, levels: 1, show_len: 0, total_len: 12\n\nvalues:\n")));
}

#[test]
fn explain_two_levels() {
    // with a probability of nearly 1 and two levels, the first node has one
    // level and all later ones have two
    let mut sk = SkipList::with_level_generator(LevelGenerator::with_config(u64::MAX, 2));
    sk.push_back(0);
    for i in 1..12 {
        sk.push_front(i);
    }
    let texts = shown(&sk, Bound::Unbounded, Bound::Unbounded);
    let text = sk.explain(Bound::Unbounded, Bound::Unbounded, &texts).unwrap();
    let mut top = String::new();
    let mut bottom = String::new();
    let mut listed = String::new();
    for i in 0..11 {
        top.push_str(&format!("[+{}] ", i));
        top.push_str(if i < 10 { "--> " } else { "----" });
        bottom.push_str(&format!("[+{}] --> ", i));
    }
    top.push_str("------");
    top.push_str("--> ");
    bottom.push_str("[+11] --> ");
    for i in 0..12 {
        listed.push_str(&format!("[+{}]: {}\n", i, 11 - i));
    }
    let expected = format!(
        "start: 0, levels: 2, show_len: 12, total_len: 12\n{}\n{}\nvalues:\n{}",
        top, bottom, listed
    );
    assert_eq!(text, expected);

    // the node without a second level in front
    let mut sk = SkipList::with_level_generator(LevelGenerator::with_config(u64::MAX, 2));
    sk.push_back(0);
    sk.push_back(1);
    sk.push_back(2);
    let texts = shown(&sk, Bound::Unbounded, Bound::Excluded(2));
    let text = sk.explain(Bound::Unbounded, Bound::Excluded(2), &texts).unwrap();
    assert_eq!(
        text,
        "start: 0, levels: 2, show_len: 2, total_len: 3\n\
         -------> [+1] --> \n\
         [+0] --> [+1] --> \n\
         values:\n\
         [+0]: 0\n\
         [+1]: 1\n"
    );
}

#[test]
fn explain_refuses_more_than_20_values() {
    let mut sk = SkipList::new();
    for i in 0..30 {
        sk.push_back(i);
    }
    assert_eq!(
        sk.explain(Bound::Unbounded, Bound::Unbounded, &Vec::new()),
        Err("Range span is too big, the span should be smaller than 20")
    );
    assert_eq!(
        sk.explain(Bound::Included(0), Bound::Excluded(21), &Vec::new()),
        Err("Range span is too big, the span should be smaller than 20")
    );
    let texts = shown(&sk, Bound::Included(0), Bound::Excluded(20));
    assert!(sk.explain(Bound::Included(0), Bound::Excluded(20), &texts).is_ok());
}

#[test]
fn explain_of_ordered_list_and_set() {
    let mut sk = OrderedSkipList::new();
    sk.insert(3);
    let text = sk.explain(Bound::Unbounded, Bound::Unbounded, &vec![String::from("3")]);
    assert_eq!(
        text,
        Ok(String::from("start: 0, levels: 1, show_len: 1, total_len: 1\n[+0] --> \nvalues:\n[+0]: 3\n"))
    );
    let mut ss = SkipSet::new();
    ss.add(4);
    let text = ss.explain(Bound::Unbounded, Bound::Unbounded, &vec![String::from("4")]);
    assert_eq!(
        text,
        Ok(String::from("start: 0, levels: 1, show_len: 1, total_len: 1\n[+0] --> \nvalues:\n[+0]: 4\n"))
    );
}
