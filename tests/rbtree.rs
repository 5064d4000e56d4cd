use algs4::rbtree::RedBlackBST;
use std::iter::FromIterator;

#[test]
fn test_red_black_tree_shape() {
    let mut t = RedBlackBST::<i32, ()>::new();
    assert_eq!(0, t.depth());
    for c in 0..255 {
        t.put(c, ());
    }
    assert_eq!(255, t.size());
    // max for n=255
    assert!(t.depth() <= 8);
}

#[test]
fn test_red_black_tree() {
    let mut t = RedBlackBST::<char, usize>::new();
    for (i, c) in "SEARCHEXAMP".chars().enumerate() {
        t.put(c, i);
    }

    assert_eq!(t.get(&'E'), Some(&6));
    assert_eq!(t.floor(&'O'), Some(&'M'));
    assert_eq!(t.ceiling(&'Q'), Some(&'R'));
    assert_eq!(t.size(), 9);
    assert_eq!(t.rank(&'E'), 2);
    assert_eq!(t.select(2), Some(&'E'));
    assert_eq!(t.rank(&'M'), 4);
    assert_eq!(t.select(4), Some(&'M'));
    assert_eq!(t.max(), Some(&'X'));
    assert_eq!(t.min(), Some(&'A'));
    // inorder visit
    assert_eq!(String::from_iter(t.keys().into_iter().copied()), "ACEHMPRSX");
}

fn searchexamp() -> RedBlackBST<char, usize> {
    let mut t = RedBlackBST::<char, usize>::new();
    for (i, c) in "SEARCHEXAMP".chars().enumerate() {
        t.put(c, i);
    }
    t
}

#[test]
fn scenario_searchexamp_counts_and_order() {
    let t = searchexamp();
    assert_eq!(t.size(), 9);
    assert_eq!(t.get(&'A'), Some(&8));
    assert_eq!(t.get(&'S'), Some(&0));
    assert_eq!(t.get(&'Z'), None);
    assert!(t.contains(&'H'));
    assert!(!t.contains(&'B'));
    let keys: Vec<char> = t.keys().into_iter().copied().collect();
    assert_eq!(keys, vec!['A', 'C', 'E', 'H', 'M', 'P', 'R', 'S', 'X']);
}

#[test]
fn empty_table_answers_absent() {
    let t = RedBlackBST::<i32, i32>::new();
    assert!(t.is_empty());
    assert_eq!(t.size(), 0);
    assert_eq!(t.depth(), 0);
    assert_eq!(t.min(), None);
    assert_eq!(t.max(), None);
    assert_eq!(t.floor(&3), None);
    assert_eq!(t.ceiling(&3), None);
    assert_eq!(t.rank(&3), 0);
    assert_eq!(t.select(0), None);
    assert_eq!(t.get(&3), None);
    assert!(t.keys().is_empty());
}

#[test]
fn default_is_empty() {
    let t: RedBlackBST<i32, i32> = Default::default();
    assert!(t.is_empty());
}

#[test]
fn put_then_get_round_trip() {
    let mut t = RedBlackBST::<i32, &str>::new();
    t.put(7, "seven");
    assert_eq!(t.get(&7), Some(&"seven"));
    t.put(7, "SEVEN");
    assert_eq!(t.get(&7), Some(&"SEVEN"));
    assert_eq!(t.size(), 1);
    t.put(3, "three");
    t.put(3, "THREE");
    assert_eq!(t.get(&3), Some(&"THREE"));
    assert_eq!(t.size(), 2);
}

#[test]
fn rank_of_select_is_identity() {
    let mut t = RedBlackBST::<i32, i32>::new();
    for k in [50, 20, 80, 10, 30, 70, 90, 60, 40, 0] {
        t.put(k, -k);
    }
    for k in 0..t.size() {
        let key = *t.select(k).unwrap();
        assert_eq!(t.rank(&key), k);
    }
    assert_eq!(t.select(t.size()), None);
    assert_eq!(t.select(3), Some(&30));
    assert_eq!(t.rank(&35), 4);
    assert_eq!(t.rank(&-1), 0);
    assert_eq!(t.rank(&1000), 10);
}

#[test]
fn floor_and_ceiling_boundaries() {
    let mut t = RedBlackBST::<i32, ()>::new();
    for k in [10, 20, 30, 40] {
        t.put(k, ());
    }
    assert_eq!(t.floor(&20), Some(&20));
    assert_eq!(t.ceiling(&20), Some(&20));
    assert_eq!(t.floor(&5), None);
    assert_eq!(t.ceiling(&45), None);
    assert_eq!(t.floor(&25), Some(&20));
    assert_eq!(t.ceiling(&25), Some(&30));
    assert_eq!(t.floor(&100), Some(&40));
    assert_eq!(t.ceiling(&-100), Some(&10));
}

#[test]
fn delete_absent_key_changes_nothing() {
    let mut t = searchexamp();
    let keys_before: Vec<char> = t.keys().into_iter().copied().collect();
    let depth_before = t.depth();
    t.delete(&'Z');
    t.delete(&'B');
    let keys_after: Vec<char> = t.keys().into_iter().copied().collect();
    assert_eq!(keys_before, keys_after);
    assert_eq!(t.depth(), depth_before);
    assert_eq!(t.size(), 9);
    assert_eq!(t.get(&'E'), Some(&6));
}

#[test]
fn delete_present_keys() {
    let mut t = searchexamp();
    t.delete(&'E');
    assert!(!t.contains(&'E'));
    assert_eq!(t.size(), 8);
    t.delete(&'S');
    t.delete(&'A');
    let keys: Vec<char> = t.keys().into_iter().copied().collect();
    assert_eq!(keys, vec!['C', 'H', 'M', 'P', 'R', 'X']);
    assert_eq!(t.get(&'X'), Some(&7));
    assert_eq!(t.get(&'P'), Some(&10));
    for c in ['C', 'H', 'M', 'P', 'R', 'X'] {
        t.delete(&c);
    }
    assert!(t.is_empty());
}

#[test]
fn delete_min_and_max() {
    let mut t = searchexamp();
    t.delete_min();
    assert_eq!(t.min(), Some(&'C'));
    t.delete_max();
    assert_eq!(t.max(), Some(&'S'));
    assert_eq!(t.size(), 7);
    let keys: Vec<char> = t.keys().into_iter().copied().collect();
    assert_eq!(keys, vec!['C', 'E', 'H', 'M', 'P', 'R', 'S']);

    let mut e = RedBlackBST::<i32, ()>::new();
    e.delete_min();
    e.delete_max();
    assert!(e.is_empty());
}

#[test]
fn insert_only_height_stays_logarithmic() {
    // 2^height <= (n + 1)^2 after puts alone, here in descending order.
    let mut t = RedBlackBST::<i32, i32>::new();
    let n: usize = 1000;
    for k in (0..n as i32).rev() {
        t.put(k, k);
    }
    assert_eq!(t.size(), n);
    let h = t.depth() as u32;
    assert!(2u64.pow(h) <= ((n + 1) * (n + 1)) as u64);
    for k in 0..n {
        assert_eq!(t.select(k), Some(&(k as i32)));
    }
}

#[test]
fn delete_heavy_workload_keeps_order() {
    // Deletion does not rebalance: the keys stay ordered but the depth
    // may exceed the insertion-only bound.
    let mut t = RedBlackBST::<i32, i32>::new();
    for k in 0..200 {
        t.put(k, k * 2);
    }
    for k in 0..150 {
        t.delete(&k);
    }
    assert_eq!(t.size(), 50);
    let keys: Vec<i32> = t.keys().into_iter().copied().collect();
    assert_eq!(keys, (150..200).collect::<Vec<i32>>());
    assert_eq!(t.get(&199), Some(&398));
    assert!(t.depth() >= 6);
}
