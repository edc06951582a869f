use rust_server::smart_pointers::box_demo::List;
use rust_server::smart_pointers::box_demo::List::{Cons, Nil};

fn items<T>(list: &List<T>) -> Vec<&T> {
    let mut iter = list.iter();
    let mut all = Vec::new();
    while let Some(value) = iter.next() {
        all.push(value);
    }
    all
}

#[test]
fn test_display() {
    let list = Cons(2, Box::new(Cons(10, Box::new(Nil))));
    let list2 = Cons("hello", Box::new(Cons("I'm a", Box::new(Cons("Cons list", Box::new(Nil))))));

    assert_eq!("[2, 10]", list.to_string());
    assert_eq!("[hello, I'm a, Cons list]", list2.to_string());
}

#[test]
fn test_add_and_pop() {
    let mut list = Cons(1, Box::new(Cons(2, Box::new(Nil))));

    assert_eq!("[1, 2]", list.to_string());
    assert_eq!(2, items(&list).len());

    list.add(3);

    assert_eq!("[1, 2, 3]", list.to_string());
    assert_eq!(3, items(&list).len());

    let v = list.pop();

    assert_eq!(Some(3), v);
    assert_eq!("[1, 2]", list.to_string());
    assert_eq!(2, items(&list).len());

    let v = list.pop();
    assert_eq!(Some(2), v);
    let v = list.pop();
    assert_eq!(Some(1), v);
    let v = list.pop();
    assert_eq!(None, v);

    assert_eq!("[]", list.to_string());
    assert_eq!(0, items(&list).len());
}

#[test]
fn test_add_and_pop_2() {
    let mut list: List<i32> = Nil;

    assert_eq!(None, list.peek());

    assert!(Vec::<i32>::new().iter().eq(items(&list)));

    list.add(42);
    assert!(vec![42].iter().eq(items(&list)));

    list.add(101);
    assert!(vec![42, 101].iter().eq(items(&list)));

    assert_eq!(42, *list.peek().unwrap());

    list.pop();
    assert!(vec![42].iter().eq(items(&list)));

    list.pop();
    assert!(Vec::<i32>::new().iter().eq(items(&list)));

    let long_list = vec![83, 1, 23, -9, 23, 1, 0, -90];
    long_list.iter().for_each(|v| list.add(*v));

    assert!(long_list.iter().eq(items(&list)));
}

#[test]
fn is_nil_tells_empty_lists() {
    let mut list: List<u8> = Nil;
    assert!(list.is_nil());
    list.add(1);
    assert!(!list.is_nil());
    assert_eq!(Some(1), list.pop());
    assert!(list.is_nil());
}
