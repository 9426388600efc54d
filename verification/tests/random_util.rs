use std::collections::HashSet;

use spt_native::loot::random_util::{get_array_value, get_int};

#[test]
fn get_int_returns_min_when_max_is_not_above_min() {
    assert_eq!(get_int(5, 5), 5);
    assert_eq!(get_int(5, 3), 5);
    assert_eq!(get_int(-2, -7), -2);
}

#[test]
fn get_int_is_inclusive_at_both_ends() {
    let drawn: HashSet<i32> = (0..1000).map(|_| get_int(1, 3)).collect();
    assert_eq!(drawn, HashSet::from([1, 2, 3]));
}

#[test]
fn get_array_value_returns_an_element_of_the_list() {
    let list = ["a", "b", "c"];
    let drawn: HashSet<&str> = (0..1000).map(|_| *get_array_value(&list)).collect();
    assert_eq!(drawn, HashSet::from(["a", "b", "c"]));
}

#[test]
fn get_int_covers_the_extremes_of_the_range() {
    for _ in 0..100 {
        let value = get_int(i32::MIN, i32::MAX);
        assert!((i32::MIN..=i32::MAX).contains(&value));
    }
    assert_eq!(get_int(i32::MAX, i32::MIN), i32::MAX);
}

#[test]
fn get_array_value_of_a_single_element_is_that_element() {
    let list = [42u8];
    for _ in 0..10 {
        assert_eq!(*get_array_value(&list), 42);
    }
}
