use learning_rust::adds_two;
use learning_rust::basics::{add_two, internal_adder, Rectangle};

#[test]
fn is_works() {
    assert_eq!(2 + 2, 4);
}

#[test]
fn big_can_hold_small() {
    let small = Rectangle {
        height: 10,
        width: 10,
    };
    let big = Rectangle {
        height: 20,
        width: 20,
    };
    assert!(big.can_hold(&small));
}

#[test]
fn small_does_not_hold_big() {
    let small = Rectangle {
        height: 10,
        width: 10,
    };
    let big = Rectangle {
        height: 20,
        width: 20,
    };
    assert!(!small.can_hold(&big));
}

#[test]
fn equal_rectangles_do_not_hold_each_other() {
    let a = Rectangle {
        height: 10,
        width: 20,
    };
    assert!(!a.can_hold(&a));
}

#[test]
fn test_result() -> Result<(), String> {
    if 2 == 2 {
        Ok(())
    } else {
        Err("test error".to_string())
    }
}

#[test]
fn internal() {
    assert_eq!(4, internal_adder(2, 2));
}

#[test]
fn add_two_adds_two() {
    assert_ne!(5, add_two(2));
    assert_eq!(4, add_two(2));
    assert_eq!(3, add_two(1));
    assert_eq!(i32::MAX, add_two(i32::MAX - 2));
}

#[test]
fn adds_two_matches_add_two() {
    assert_eq!(adds_two(-7), add_two(-7));
    assert_eq!(adds_two(40), 42);
}
