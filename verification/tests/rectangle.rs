use rust_server::rectangle::Rectangle;
use std::cmp::Ordering;

#[test]
fn bigger_can_holder_smaller() {
    let bigger = Rectangle {
        width: 8,
        height: 7,
    };

    let smaller = Rectangle {
        width: 5,
        height: 5,
    };

    assert!(bigger.can_hold(&smaller));
}

#[test]
fn smaller_cannot_hold_bigger() {
    let smaller = Rectangle {
        width: 5,
        height: 10,
    };

    let bigger = Rectangle {
        width: 8,
        height: 7,
    };

    assert!(!smaller.can_hold(&bigger));
}

#[test]
fn can_compare() {
    let rect1 = Rectangle {
        width: 2,
        height: 3,
    };

    let rect2 = Rectangle {
        width: 2,
        height: 5,
    };

    let rect3 = Rectangle {
        width: 9,
        height: 1,
    };

    let rect4 = Rectangle {
        width: 1,
        height: 1,
    };

    let rect5 = Rectangle {
        width: 10,
        height: 10,
    };

    let equal = rect1.clone();

    // rect1 and 2
    assert_eq!(rect1.partial_cmp(&rect2), Some(Ordering::Less));
    assert_eq!(rect2.partial_cmp(&rect1), Some(Ordering::Greater));

    // rect1 and 3
    assert_eq!(rect1.partial_cmp(&rect3), Some(Ordering::Greater));
    assert_eq!(rect3.partial_cmp(&rect1), Some(Ordering::Less));

    // rect1 and 4
    assert_eq!(rect1.partial_cmp(&rect4), Some(Ordering::Greater));
    assert_eq!(rect4.partial_cmp(&rect1), Some(Ordering::Less));

    // rect1 and 5
    assert_eq!(rect1.partial_cmp(&rect5), Some(Ordering::Less));
    assert_eq!(rect5.partial_cmp(&rect1), Some(Ordering::Greater));

    // rect1 and it's clone
    assert_eq!(rect1.partial_cmp(&equal), Some(Ordering::Equal));
    assert_eq!(equal.partial_cmp(&rect1), Some(Ordering::Equal));
}

#[test]
fn area_is_width_times_height() {
    assert_eq!(1500, Rectangle { width: 30, height: 50 }.area());
    assert_eq!(0, Rectangle { width: 0, height: 50 }.area());
    assert_eq!(u32::MAX, Rectangle { width: u32::MAX, height: 1 }.area());
}

#[test]
fn same_width_by_height_then_width() {
    let a = Rectangle { width: 3, height: 4 };
    let b = Rectangle { width: 4, height: 4 };
    assert!(a < b);
    assert!(!(b < a));
    assert!(!a.can_hold(&a));
}
