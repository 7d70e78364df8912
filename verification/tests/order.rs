use ledger::order::{compare_keys, KeyOrder};

fn order(a: &str, b: &str) -> KeyOrder {
    compare_keys(&String::from(a), &String::from(b))
}

#[test]
fn equal_keys() {
    assert_eq!(order("", ""), KeyOrder::Equal);
    assert_eq!(order("foo", "foo"), KeyOrder::Equal);
}

#[test]
fn a_prefix_comes_first() {
    assert_eq!(order("", "a"), KeyOrder::Less);
    assert_eq!(order("ba", "bar"), KeyOrder::Less);
    assert_eq!(order("bar", "ba"), KeyOrder::Greater);
}

#[test]
fn the_first_difference_decides() {
    assert_eq!(order("bar", "baz"), KeyOrder::Less);
    assert_eq!(order("baz", "bar"), KeyOrder::Greater);
    assert_eq!(order("b", "abc"), KeyOrder::Greater);
    assert_eq!(order("Z", "a"), KeyOrder::Less);
}

#[test]
fn keys_are_ordered_as_strings_are() {
    let keys = ["", "a", "ab", "b", "é", "z", "zz", "日本", "10", "9", "A", "~"];
    for a in keys {
        for b in keys {
            let expected = if a < b {
                KeyOrder::Less
            } else if a == b {
                KeyOrder::Equal
            } else {
                KeyOrder::Greater
            };
            assert_eq!(order(a, b), expected);
        }
    }
}
