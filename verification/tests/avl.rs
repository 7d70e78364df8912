use ledger::avl::AVL;
use std::sync::Arc;

fn tree(keys: &[&str]) -> AVL<i32> {
    let mut t = AVL::new(String::from(keys[0]), 0);
    for (i, k) in keys.iter().enumerate().skip(1) {
        t = t.add(String::from(*k), i as i32);
    }
    t
}

fn keys_of(t: &AVL<i32>) -> Vec<String> {
    t.lineup().iter().map(|e| e.0.as_ref().clone()).collect()
}

fn listing(t: &AVL<i32>) -> Vec<(String, i32)> {
    t.lineup().iter().map(|e| (e.0.as_ref().clone(), *e.1)).collect()
}

fn strings(keys: &[&str]) -> Vec<String> {
    keys.iter().map(|k| String::from(*k)).collect()
}

fn key_at(t: &Option<Arc<AVL<i32>>>) -> Option<String> {
    t.as_ref().map(|n| n.key().clone())
}

fn balanced(t: &AVL<i32>) -> bool {
    let (l, r) = t.heights();
    let here = l <= r + 1 && r <= l + 1;
    let left = t.left().map_or(true, |n| balanced(&n));
    let right = t.right().map_or(true, |n| balanced(&n));
    here && left && right
}

fn ordered(t: &AVL<i32>, low: Option<&String>, high: Option<&String>) -> bool {
    let k = t.key();
    let above = low.map_or(true, |l| l < k);
    let below = high.map_or(true, |h| k < h);
    let left = t.left().map_or(true, |n| ordered(&n, low, Some(k)));
    let right = t.right().map_or(true, |n| ordered(&n, Some(k), high));
    above && below && left && right
}

#[test]
fn can_create_avl() {
    let a = AVL::new(String::from("hello"), 10);
    assert_eq!(a.key(), "hello");
    assert_eq!(a.val(), &10);
}

#[test]
fn can_add_value() {
    let a = AVL::new(String::from("hello"), 10);
    let b = a.add(String::from("foo"), 22);
    let c = b.add(String::from("bar"), 33);

    assert_eq!(c.key(), "foo");
    assert_eq!(c.left().unwrap().key(), "bar");
    assert_eq!(c.right().unwrap().key(), "hello");
}

#[test]
fn can_remove_value() {
    let a = AVL::new(String::from("hello"), 10);
    let b = a.add(String::from("foo"), 22);
    let c = b.add(String::from("bar"), 33);
    let d = c.add(String::from("baz"), 44);
    let e = d.add(String::from("norm"), 55);
    let f = e.delete(&String::from("foo")).unwrap();

    assert_eq!(f.key(), "baz");
    assert_eq!(f.left().unwrap().key(), "bar");
    if let Some(ref right) = f.right() {
        assert_eq!(right.key(), "hello");
        if let Some(ref rightright) = right.right() {
            assert_eq!(rightright.key(), "norm");
        } else {
            panic!("No right of right");
        }
    } else {
        panic!("No right");
    }
}

#[test]
fn new_tree_is_a_single_node() {
    let a = AVL::new(String::from("k"), 7);
    assert_eq!(a.heights(), (0, 0));
    assert!(a.left().is_none());
    assert!(a.right().is_none());
    assert_eq!(listing(&a), vec![(String::from("k"), 7)]);
}

#[test]
fn add_records_the_height_of_the_new_subtree() {
    let a = AVL::new(String::from("m"), 0);
    let b = a.add(String::from("f"), 1);
    assert_eq!(b.heights(), (1, 0));
    let c = b.add(String::from("t"), 2);
    assert_eq!(c.heights(), (1, 1));
    let d = c.add(String::from("c"), 3);
    assert_eq!(d.heights(), (2, 1));
    assert_eq!(d.left().unwrap().heights(), (1, 0));
    let e = d.add(String::from("x"), 4);
    assert_eq!(e.heights(), (2, 2));
    assert_eq!(e.right().unwrap().heights(), (0, 1));
}

#[test]
fn add_replaces_the_value_of_a_key() {
    let t = tree(&["m", "f", "t"]);
    let u = t.add(String::from("f"), 99);
    assert_eq!(
        listing(&u),
        vec![(String::from("f"), 99), (String::from("m"), 0), (String::from("t"), 2)]
    );
    assert_eq!(u.heights(), t.heights());
}

#[test]
fn setting_a_key_twice_keeps_the_count() {
    let t = tree(&["m", "f", "t", "c"]);
    let once = t.add(String::from("h"), 1);
    let twice = once.add(String::from("h"), 2);
    assert_eq!(twice.get(&String::from("h")).map(|v| *v), Some(2));
    assert_eq!(twice.lineup().len(), once.lineup().len());
    assert_eq!(keys_of(&twice), strings(&["c", "f", "h", "m", "t"]));
}

#[test]
fn add_leaves_the_old_tree_alone() {
    let t = tree(&["m", "f", "t"]);
    let before = listing(&t);
    let u = t.add(String::from("a"), 5);
    let w = t.add(String::from("m"), 6);
    assert_eq!(listing(&t), before);
    assert_eq!(keys_of(&u), strings(&["a", "f", "m", "t"]));
    assert_eq!(w.get(&String::from("m")).map(|v| *v), Some(6));
    assert_eq!(t.get(&String::from("m")).map(|v| *v), Some(0));
}

#[test]
fn delete_leaves_the_old_tree_alone() {
    let t = tree(&["m", "f", "t"]);
    let before = listing(&t);
    let u = t.delete(&String::from("f")).unwrap();
    assert_eq!(listing(&t), before);
    assert_eq!(keys_of(&u), strings(&["m", "t"]));
}

#[test]
fn untouched_subtrees_are_shared() {
    let t = tree(&["m", "f", "t"]);
    let u = t.add(String::from("a"), 5);
    assert!(Arc::ptr_eq(&t.right().unwrap(), &u.right().unwrap()));
    assert!(!Arc::ptr_eq(&t.left().unwrap(), &u.left().unwrap()));
}

#[test]
fn single_rotation_to_the_right() {
    let t = tree(&["c", "b", "a"]);
    assert_eq!(t.key(), "b");
    assert_eq!(t.heights(), (1, 1));
    let left = t.left().unwrap();
    let right = t.right().unwrap();
    assert_eq!(left.key(), "a");
    assert_eq!(right.key(), "c");
    assert_eq!(left.heights(), (0, 0));
    assert_eq!(right.heights(), (0, 0));
    assert!(right.left().is_none());
}

#[test]
fn single_rotation_to_the_left() {
    let t = tree(&["a", "b", "c"]);
    assert_eq!(t.key(), "b");
    assert_eq!(t.heights(), (1, 1));
    assert_eq!(t.left().unwrap().key(), "a");
    assert_eq!(t.right().unwrap().key(), "c");
    assert_eq!(t.left().unwrap().heights(), (0, 0));
    assert!(t.left().unwrap().right().is_none());
}

#[test]
fn double_rotation_left_right() {
    let t = tree(&["c", "a", "b"]);
    assert_eq!(t.key(), "b");
    assert_eq!(t.heights(), (1, 1));
    let left = t.left().unwrap();
    let right = t.right().unwrap();
    assert_eq!(left.key(), "a");
    assert_eq!(right.key(), "c");
    assert_eq!(left.heights(), (0, 0));
    assert_eq!(right.heights(), (0, 0));
    assert!(left.right().is_none());
    assert!(right.left().is_none());
}

#[test]
fn double_rotation_right_left() {
    let t = tree(&["a", "c", "b"]);
    assert_eq!(t.key(), "b");
    assert_eq!(t.heights(), (1, 1));
    let left = t.left().unwrap();
    let right = t.right().unwrap();
    assert_eq!(left.key(), "a");
    assert_eq!(right.key(), "c");
    assert!(left.right().is_none());
    assert!(right.left().is_none());
    assert_eq!(keys_of(&t), strings(&["a", "b", "c"]));
}

#[test]
fn rotation_keeps_the_far_subtree_of_the_old_root() {
    let t = tree(&["m", "f", "t", "c"]);
    assert_eq!(t.heights(), (2, 1));
    let u = t.add(String::from("a"), 9);
    assert_eq!(u.key(), "m");
    assert_eq!(u.heights(), (2, 1));
    let left = u.left().unwrap();
    assert_eq!(left.key(), "c");
    assert_eq!(left.heights(), (1, 1));
    assert_eq!(keys_of(&u), strings(&["a", "c", "f", "m", "t"]));
}

#[test]
fn rotation_cuts_off_the_near_subtree_of_the_new_root() {
    let t = tree(&["50", "30", "70", "20", "40"]);
    assert_eq!(keys_of(&t), strings(&["20", "30", "40", "50", "70"]));
    assert_eq!(t.heights(), (2, 1));
    let u = t.add(String::from("35"), 9);
    assert_eq!(u.key(), "30");
    assert_eq!(u.heights(), (1, 1));
    assert_eq!(u.left().unwrap().key(), "20");
    let right = u.right().unwrap();
    assert_eq!(right.key(), "50");
    assert_eq!(right.heights(), (0, 0));
    assert!(right.left().is_none());
    assert_eq!(right.right().unwrap().key(), "70");
    assert_eq!(keys_of(&u), strings(&["20", "30", "50", "70"]));
    assert!(u.get(&String::from("35")).is_none());
    assert_eq!(keys_of(&t), strings(&["20", "30", "40", "50", "70"]));
}

#[test]
fn trees_built_by_add_are_balanced_and_ordered() {
    let keys = [
        "q", "w", "e", "r", "t", "y", "u", "i", "o", "p", "a", "s", "d", "f", "g", "h", "j", "k",
        "l", "z", "x", "c", "v", "b", "n", "m",
    ];
    let mut t = AVL::new(String::from("start"), -1);
    for (i, k) in keys.iter().enumerate() {
        t = t.add(String::from(*k), i as i32);
        assert!(balanced(&t));
        assert!(ordered(&t, None, None));
        let listed = keys_of(&t);
        for pair in listed.windows(2) {
            assert!(pair[0] < pair[1]);
        }
    }
}

#[test]
fn lineup_is_strictly_ascending_after_deletes() {
    let mut t = tree(&["m", "f", "t", "c", "h", "p", "x", "a", "d"]);
    for k in ["h", "m", "zz", "a"] {
        t = Arc::try_unwrap(t.delete(&String::from(k)).unwrap()).unwrap();
        assert!(ordered(&t, None, None));
        let listed = keys_of(&t);
        for pair in listed.windows(2) {
            assert!(pair[0] < pair[1]);
        }
        assert!(!listed.contains(&String::from(k)));
    }
}

#[test]
fn get_finds_what_was_added() {
    let t = tree(&["m", "f", "t", "c"]);
    assert_eq!(t.get(&String::from("m")).map(|v| *v), Some(0));
    assert_eq!(t.get(&String::from("f")).map(|v| *v), Some(1));
    assert_eq!(t.get(&String::from("t")).map(|v| *v), Some(2));
    assert_eq!(t.get(&String::from("c")).map(|v| *v), Some(3));
    assert!(t.get(&String::from("b")).is_none());
    assert!(t.get(&String::from("n")).is_none());
    assert!(t.get(&String::from("z")).is_none());
}

#[test]
fn delete_of_an_absent_key_keeps_the_entries() {
    let t = tree(&["m", "f", "t", "c", "x"]);
    let before = listing(&t);
    for k in ["a", "d", "g", "n", "u", "z", ""] {
        let u = t.delete(&String::from(k)).unwrap();
        assert_eq!(listing(&u), before);
    }
}

#[test]
fn delete_of_the_only_key_leaves_nothing() {
    let t = AVL::new(String::from("k"), 1);
    assert!(t.delete(&String::from("k")).is_none());
    assert!(t.delete(&String::from("j")).is_some());
}

#[test]
fn delete_of_a_leaf_takes_it_out() {
    let t = tree(&["m", "f", "t"]);
    let u = t.delete(&String::from("f")).unwrap();
    assert_eq!(keys_of(&u), strings(&["m", "t"]));
    assert!(u.left().is_none());
    assert_eq!(u.heights(), (0, 1));
    let w = u.delete(&String::from("t")).unwrap();
    assert_eq!(keys_of(&w), strings(&["m"]));
    assert_eq!(w.heights(), (0, 0));
}

#[test]
fn delete_promotes_the_rightmost_of_the_left_subtree() {
    let t = tree(&["m", "f", "t", "c", "h"]);
    let u = t.delete(&String::from("m")).unwrap();
    assert_eq!(u.key(), "h");
    assert_eq!(u.val(), &4);
    assert_eq!(key_at(&u.left()), Some(String::from("f")));
    assert_eq!(key_at(&u.right()), Some(String::from("t")));
    assert_eq!(u.left().unwrap().heights(), (1, 0));
    assert_eq!(u.heights(), (2, 1));
    assert_eq!(keys_of(&u), strings(&["c", "f", "h", "t"]));
}

#[test]
fn delete_promotes_the_leftmost_of_the_right_subtree() {
    let t = tree(&["f", "c", "m", "h"]);
    let u = t.delete(&String::from("c")).unwrap();
    assert_eq!(keys_of(&u), strings(&["f", "h", "m"]));
    let w = u.delete(&String::from("f")).unwrap();
    assert_eq!(w.key(), "h");
    assert_eq!(w.val(), &3);
    assert!(w.left().is_none());
    assert_eq!(key_at(&w.right()), Some(String::from("m")));
    assert_eq!(w.heights(), (0, 1));
    assert_eq!(w.right().unwrap().heights(), (0, 0));
}

#[test]
fn delete_does_not_rebalance() {
    let t = tree(&["m", "f", "t", "c", "x"]);
    let u = t.delete(&String::from("c")).unwrap();
    let w = u.delete(&String::from("f")).unwrap();
    assert_eq!(w.key(), "m");
    assert_eq!(w.heights(), (0, 2));
    assert_eq!(keys_of(&w), strings(&["m", "t", "x"]));
}

#[test]
fn setting_a_key_that_was_cut_off_puts_it_in() {
    let t = tree(&["50", "30", "70", "20", "40"]);
    let once = t.add(String::from("35"), 1);
    assert!(once.get(&String::from("35")).is_none());
    let twice = once.add(String::from("35"), 2);
    assert_eq!(twice.get(&String::from("35")).map(|v| *v), Some(2));
    assert_eq!(twice.lineup().len(), once.lineup().len() + 1);
    assert_eq!(keys_of(&twice), strings(&["20", "30", "35", "50", "70"]));
    assert_eq!(twice.heights(), (1, 2));
    assert_eq!(twice.right().unwrap().heights(), (1, 0));
}

#[test]
fn double_rotation_keeps_the_far_subtree_of_the_old_root() {
    let t = tree(&["50", "30", "70", "20", "40", "10", "45"]);
    assert_eq!(keys_of(&t), strings(&["10", "20", "30", "45", "50", "70"]));
    let old = t.right().unwrap();
    assert_eq!(old.key(), "50");
    assert_eq!(old.heights(), (1, 0));
    assert_eq!(old.right().unwrap().key(), "70");
    let u = t.add(String::from("47"), 9);
    assert_eq!(u.key(), "30");
    assert_eq!(u.heights(), (1, 2));
    let top = u.right().unwrap();
    assert_eq!(top.key(), "47");
    assert_eq!(top.heights(), (1, 1));
    let left = top.left().unwrap();
    let right = top.right().unwrap();
    assert_eq!(left.key(), "45");
    assert_eq!(left.heights(), (0, 0));
    assert!(left.right().is_none());
    assert_eq!(right.key(), "50");
    assert_eq!(right.heights(), (0, 0));
    assert!(right.left().is_none());
    assert_eq!(right.right().unwrap().key(), "70");
    assert_eq!(keys_of(&u), strings(&["10", "20", "30", "45", "47", "50", "70"]));
}
