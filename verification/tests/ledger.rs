use ledger::avl::AVL;
use ledger::ledger::{proceed, Attempt, Course, Ledger};
use ledger::state::{same_root, State};
use ledger::transaction::LedgerTransaction;
use std::cell::Cell;
use std::sync::Arc;

fn entries(led: &Ledger<i32>) -> Vec<(String, i32)> {
    match led.load().map() {
        Some(tree) => tree.lineup().iter().map(|e| (e.0.as_ref().clone(), *e.1)).collect(),
        None => Vec::new(),
    }
}

fn pair(k: &str, v: i32) -> (String, i32) {
    (String::from(k), v)
}

#[test]
fn can_add_values() {
    let led = Ledger::<i32>::new();

    led.transaction(|mut t| {
        t.set("foo", 20);
        t.set("bar", 10);
        t.set("baz", -1000);
        t
    });

    if let Some(ref tree) = led.load().map() {
        println!("{:?}", tree.lineup());
    }

    led.transaction(|mut t| {
        t.delete("baz");
        t
    });

    if let Some(ref tree) = led.load().map() {
        println!("{:?}", tree.lineup());
    }
}

#[test]
fn new_ledger_is_empty() {
    let led = Ledger::<i32>::new();
    assert!(led.load().map().is_none());
    assert_eq!(entries(&led), Vec::new());
}

#[test]
fn commits_follow_one_another() {
    let led = Ledger::<i32>::new();
    let first = led.transaction(|mut t| {
        t.set("foo", 20);
        t.set("bar", 10);
        t.set("baz", -1000);
        t
    });
    assert!(first);
    assert_eq!(entries(&led), vec![pair("bar", 10), pair("baz", -1000), pair("foo", 20)]);
    let second = led.transaction(|mut t| {
        t.delete("baz");
        t
    });
    assert!(second);
    assert_eq!(entries(&led), vec![pair("bar", 10), pair("foo", 20)]);
}

#[test]
fn a_snapshot_stays_as_it_was() {
    let led = Ledger::<i32>::new();
    led.transaction(|mut t| {
        t.set("a", 1);
        t
    });
    let old = led.load();
    led.transaction(|mut t| {
        t.set("b", 2);
        t.delete("a");
        t
    });
    let tree = old.map().unwrap();
    assert_eq!(tree.lineup().len(), 1);
    assert_eq!(tree.get(&String::from("a")).map(|v| *v), Some(1));
    assert_eq!(entries(&led), vec![pair("b", 2)]);
}

#[test]
fn a_commit_without_writes_succeeds_and_publishes_nothing() {
    let led = Ledger::<i32>::new();
    led.transaction(|mut t| {
        t.set("a", 1);
        t
    });
    let before = led.load().map().unwrap();
    let done = led.attemptTransaction(0, |t| {
        assert_eq!(t.get("a").map(|v| *v), Some(1));
        t
    });
    assert!(done);
    let after = led.load().map().unwrap();
    assert!(Arc::ptr_eq(&before, &after));
}

#[test]
fn a_commit_that_empties_the_map_is_published() {
    let led = Ledger::<i32>::new();
    led.transaction(|mut t| {
        t.set("a", 1);
        t
    });
    let done = led.transaction(|mut t| {
        t.delete("a");
        t
    });
    assert!(done);
    assert!(led.load().map().is_none());
}

#[test]
fn contention_is_settled_by_a_retry() {
    let led = Ledger::<i32>::new();
    let raced = Cell::new(false);
    let runs = Cell::new(0);
    let done = led.transaction(|mut t| {
        runs.set(runs.get() + 1);
        if !raced.get() {
            raced.set(true);
            let other = led.transaction(|mut u| {
                u.set("theirs", 2);
                u
            });
            assert!(other);
        }
        t.set("ours", 1);
        t
    });
    assert!(done);
    assert_eq!(runs.get(), 2);
    assert_eq!(entries(&led), vec![pair("ours", 1), pair("theirs", 2)]);
}

#[test]
fn a_lost_commit_without_retries_fails() {
    let led = Ledger::<i32>::new();
    let runs = Cell::new(0);
    let done = led.attemptTransaction(0, |mut t| {
        runs.set(runs.get() + 1);
        let other = led.transaction(|mut u| {
            u.set("theirs", 2);
            u
        });
        assert!(other);
        t.set("ours", 1);
        t
    });
    assert!(!done);
    assert_eq!(runs.get(), 1);
    assert_eq!(entries(&led), vec![pair("theirs", 2)]);
}

#[test]
fn the_retry_budget_bounds_the_attempts() {
    let led = Ledger::<i32>::new();
    let runs = Cell::new(0);
    let done = led.attemptTransaction(2, |mut t| {
        runs.set(runs.get() + 1);
        let n = runs.get();
        led.transaction(move |mut u| {
            u.set("theirs", n);
            u
        });
        t.set("ours", 1);
        t
    });
    assert!(!done);
    assert_eq!(runs.get(), 3);
    assert_eq!(entries(&led), vec![pair("theirs", 3)]);
}

#[test]
fn the_default_budget_is_three_retries() {
    let led = Ledger::<i32>::new();
    let runs = Cell::new(0);
    let done = led.transaction(|mut t| {
        runs.set(runs.get() + 1);
        let n = runs.get();
        led.attemptTransaction(0, move |mut u| {
            u.set("theirs", n);
            u
        });
        t.set("ours", 1);
        t
    });
    assert!(!done);
    assert_eq!(runs.get(), 4);
    assert_eq!(entries(&led), vec![pair("theirs", 4)]);
}

#[test]
fn a_transaction_reads_its_own_writes() {
    let mut t = LedgerTransaction::<i32>::new(None);
    assert!(t.get("a").is_none());
    t.set("a", 1);
    assert_eq!(t.get("a").map(|v| *v), Some(1));
    t.set("a", 2);
    t.set("b", 3);
    assert_eq!(t.get("a").map(|v| *v), Some(2));
    t.delete("a");
    assert!(t.get("a").is_none());
    assert_eq!(t.get("b").map(|v| *v), Some(3));
    t.delete("b");
    assert!(t.digest().is_none());
}

#[test]
fn a_transaction_leaves_the_root_it_was_opened_on() {
    let root = Some(Arc::new(AVL::new(String::from("a"), 1)));
    let mut t = LedgerTransaction::new(root.clone());
    t.set("b", 2);
    t.delete("a");
    let out = t.digest().unwrap();
    assert_eq!(out.lineup().len(), 1);
    assert_eq!(out.key(), "b");
    let kept = root.unwrap();
    assert_eq!(kept.lineup().len(), 1);
    assert_eq!(kept.key(), "a");
}

#[test]
fn delete_in_an_empty_transaction_does_nothing() {
    let mut t = LedgerTransaction::<i32>::new(None);
    t.delete("a");
    assert!(t.digest().is_none());
}

#[test]
fn snapshots_can_be_read() {
    let led = Ledger::<i32>::new();
    let first = led.load();
    assert!(first.get("a").is_none());
    assert!(first.lineup().is_empty());
    led.transaction(|mut t| {
        t.set("b", 2);
        t.set("a", 1);
        t
    });
    let second = led.load();
    assert_eq!(second.get("a").map(|v| *v), Some(1));
    assert_eq!(second.get("b").map(|v| *v), Some(2));
    assert!(second.get("c").is_none());
    let listed: Vec<(String, i32)> =
        second.lineup().iter().map(|e| (e.0.as_ref().clone(), *e.1)).collect();
    assert_eq!(listed, vec![pair("a", 1), pair("b", 2)]);
    assert!(first.lineup().is_empty());
}

#[test]
fn snapshots_hand_out_their_root() {
    let empty = State::<i32>::empty();
    assert!(empty.map().is_none());
    let root = Arc::new(AVL::new(String::from("a"), 1));
    let s = State::new(Some(root.clone()), Some(Arc::new(empty)));
    assert!(Arc::ptr_eq(&s.map().unwrap(), &root));
}

#[test]
fn the_same_root_is_not_published_again() {
    let root = Arc::new(AVL::new(String::from("a"), 1));
    let twin = Arc::new(AVL::new(String::from("a"), 1));
    let observed = Arc::new(State::new(Some(root.clone()), None));
    assert!(State::successor(&observed, Some(root.clone())).is_none());
    let next = State::successor(&observed, Some(twin.clone())).unwrap();
    assert!(Arc::ptr_eq(&next.map().unwrap(), &twin));
    let emptied = State::successor(&observed, None).unwrap();
    assert!(emptied.map().is_none());
    let first = Arc::new(State::<i32>::empty());
    assert!(State::successor(&first, None).is_none());
    assert!(State::successor(&first, Some(root)).is_some());
}

#[test]
fn roots_are_compared_by_identity() {
    let root = Arc::new(AVL::new(String::from("a"), 1));
    let twin = Arc::new(AVL::new(String::from("a"), 1));
    assert!(same_root(&Some(root.clone()), &Some(root.clone())));
    assert!(!same_root(&Some(root.clone()), &Some(twin)));
    assert!(!same_root(&Some(root.clone()), &None));
    assert!(!same_root(&None, &Some(root)));
    assert!(same_root::<i32>(&None, &None));
}

#[test]
fn the_retry_rule() {
    assert_eq!(proceed(Attempt::Unchanged, 0), Course::Done(true));
    assert_eq!(proceed(Attempt::Unchanged, 3), Course::Done(true));
    assert_eq!(proceed(Attempt::Published, 0), Course::Done(true));
    assert_eq!(proceed(Attempt::Published, 7), Course::Done(true));
    assert_eq!(proceed(Attempt::Lost, 0), Course::Done(false));
    assert_eq!(proceed(Attempt::Lost, 1), Course::Again(0));
    assert_eq!(proceed(Attempt::Lost, 3), Course::Again(2));
    assert_eq!(proceed(Attempt::Lost, u32::MAX), Course::Again(u32::MAX - 1));
}

fn shared<T: Send + Sync>(_: &T) {}

#[test]
fn a_ledger_can_be_shared() {
    let led = Ledger::<i32>::new();
    shared(&led);
    shared(&led.load());
}
