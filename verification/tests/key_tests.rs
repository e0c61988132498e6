use csv::key::Key;
use csv::value::Value;
use std::cmp::Ordering;

fn ints(numbers: &[i64]) -> Key {
    Key::compound(numbers.iter().map(|n| Value::from_i64(*n)).collect())
}

#[test]
fn integer_key_holds_one_integer() {
    let key = Key::integer(7);
    assert_eq!(key.arity(), 1);
    assert!(key == ints(&[7]));
    assert!(Key::integer(0) < Key::integer(1));
    assert!(Key::integer(10) > Key::integer(9));
}

#[test]
fn an_integer_key_above_the_signed_range_wraps_around() {
    assert!(Key::integer(i64::MAX as usize) == ints(&[i64::MAX]));
    assert!(Key::integer(i64::MAX as usize + 1) == ints(&[i64::MIN]));
    assert!(Key::integer(usize::MAX) == ints(&[-1]));
    assert!(Key::integer(usize::MAX) < Key::integer(0));
}

#[test]
fn keys_are_ordered_column_by_column() {
    assert_eq!(ints(&[1, 2]).compare(&ints(&[1, 3])), Ordering::Less);
    assert_eq!(ints(&[2, 0]).compare(&ints(&[1, 9])), Ordering::Greater);
    assert_eq!(ints(&[1, 2]).compare(&ints(&[1, 2])), Ordering::Equal);
    assert!(ints(&[1, 2]) < ints(&[1, 3]));
    assert!(ints(&[1, 2]) <= ints(&[1, 2]));
}

#[test]
fn a_shorter_key_comes_before_a_longer_one_that_begins_with_it() {
    assert_eq!(ints(&[1]).compare(&ints(&[1, 0])), Ordering::Less);
    assert_eq!(ints(&[1, 0]).compare(&ints(&[1])), Ordering::Greater);
    assert_eq!(ints(&[]).compare(&ints(&[5])), Ordering::Less);
    assert_eq!(ints(&[]).compare(&ints(&[])), Ordering::Equal);
    assert!(ints(&[1]) < ints(&[1, 0]));
    assert!(ints(&[1]) != ints(&[1, 0]));
}

#[test]
fn the_first_pair_that_differs_decides_before_the_lengths() {
    assert_eq!(ints(&[2]).compare(&ints(&[1, 0])), Ordering::Greater);
    assert_eq!(ints(&[0, 5, 5]).compare(&ints(&[1])), Ordering::Less);
}

#[test]
fn pairs_without_an_order_are_passed_over() {
    let a = Key::compound(vec![Value::null(), Value::from_i64(1)]);
    let b = Key::compound(vec![Value::null(), Value::from_i64(2)]);
    assert_eq!(a.compare(&b), Ordering::Less);
    assert_eq!(b.compare(&a), Ordering::Greater);
    let mixed = Key::compound(vec![Value::text("x")]);
    assert_eq!(mixed.compare(&ints(&[3])), Ordering::Equal);
    assert!(mixed != ints(&[3]));
}

#[test]
fn comparing_the_other_way_round_flips_the_order() {
    let keys = vec![
        ints(&[]),
        ints(&[1]),
        ints(&[1, 2]),
        ints(&[2]),
        Key::compound(vec![Value::text("a")]),
        Key::compound(vec![Value::text("b"), Value::null()]),
        Key::compound(vec![Value::null()]),
    ];
    for a in &keys {
        for b in &keys {
            assert_eq!(a.compare(b), b.compare(a).reverse());
        }
    }
}

#[test]
fn text_keys() {
    let bob = Key::compound(vec![Value::from_text("bob", None)]);
    let alice = Key::compound(vec![Value::from_text("alice", None)]);
    assert!(bob > alice);
    assert!(alice < bob);
    assert!(bob == Key::compound(vec![Value::text("bob")]));
}
