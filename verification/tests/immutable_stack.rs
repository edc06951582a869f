use rust_server::too_many_linked_lists::immutable_stack::ImmutableStack;

#[test]
fn immutable_stack_basics() {
    let list = ImmutableStack::new();
    assert_eq!(list.head(), None);
    assert_eq!(list.len(), 0);

    let list = list.prepend(1).prepend(2).prepend(3);
    assert_eq!(list.head(), Some(&3));
    assert_eq!(list.len(), 3);
    assert!(!list.is_empty());

    let list = list.tail();
    assert_eq!(list.head(), Some(&2));

    let list = list.tail();
    assert_eq!(list.head(), Some(&1));

    let list = list.tail();
    assert_eq!(list.head(), None);
    assert_eq!(list.len(), 0);
    assert!(list.is_empty());

    // Make sure empty tail works
    let list = list.tail();
    assert_eq!(list.head(), None);
    assert_eq!(list.len(), 0);
}

#[test]
fn is_immutable() {
    let list1 = ImmutableStack::default();

    let list2 = list1.prepend("hello").prepend("I am").prepend("immutable");

    assert_eq!(None, list1.head());
    assert_eq!(Some(&"immutable"), list2.head());
    assert_eq!(0, list1.len());
    assert_eq!(3, list2.len());

    let list3 = list2.tail();

    assert_eq!(3, list2.len());
    assert_eq!(2, list3.len());
}

#[test]
fn immutable_stack_iter() {
    let list = ImmutableStack::new().prepend(1).prepend(2).prepend(3);

    let mut iter = list.iter();
    assert_eq!(iter.next(), Some(&3));
    assert_eq!(iter.next(), Some(&2));
    assert_eq!(iter.next(), Some(&1));
    assert_eq!(iter.next(), None);

    let mut iter = list.iter();
    let mut all = Vec::new();
    while let Some(value) = iter.next() {
        all.push(value);
    }
    assert!(vec![3, 2, 1].iter().eq(all));
}

#[test]
fn display() {
    let list = ImmutableStack::new();
    assert_eq!("[]", list.to_string());

    let list = list.prepend(1).prepend(2).prepend(3);

    assert_eq!("[3, 2, 1]", list.to_string());
}

#[test]
fn stacks_share_their_tails() {
    let base = ImmutableStack::new().prepend("a").prepend("b");
    let left = base.prepend("l");
    let right = base.prepend("r");
    assert_eq!("[l, b, a]", left.to_string());
    assert_eq!("[r, b, a]", right.to_string());
    assert_eq!("[b, a]", left.tail().to_string());
    assert_eq!("[b, a]", base.to_string());
}
