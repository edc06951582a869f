use rust_server::too_many_linked_lists::ok_stack::OkStack;

#[test]
fn push_and_pop() {
    let mut stack = OkStack::new();

    assert_eq!(0, stack.len());

    stack.push(10);
    stack.push(20);
    stack.push(30);

    assert_eq!(3, stack.len());

    assert_eq!(Some(30), stack.pop());
    assert_eq!(Some(20), stack.pop());

    stack.push(100);

    assert_eq!(Some(100), stack.pop());
    assert_eq!(Some(10), stack.pop());

    assert_eq!(0, stack.len());

    assert_eq!(None, stack.pop());
    assert_eq!(None, stack.pop());

    assert_eq!(0, stack.len());
}

#[test]
fn test_peek() {
    let mut stack = OkStack::new();

    assert_eq!(None, stack.peek());

    stack.push(10);
    assert_eq!(10, *stack.peek().unwrap());

    stack.push(20);
    assert_eq!(20, *stack.peek().unwrap());

    stack.pop();
    assert_eq!(10, *stack.peek().unwrap());

    stack.pop();
    assert_eq!(None, stack.peek());
}

#[test]
fn test_iter() {
    let mut stack = OkStack::new();

    stack.push("hello");
    stack.push("world");
    stack.push("from");
    stack.push("rust");

    let mut into_iter = stack.into_iter();
    let mut as_vec = Vec::new();
    while let Some(value) = into_iter.next() {
        as_vec.push(value);
    }
    as_vec.reverse();

    assert_eq!("hello world from rust", as_vec.join(" "));

    let mut stack = OkStack::new();

    stack.push("again");
    stack.push("hello");

    let mut iter = stack.iter();
    let mut as_vec = Vec::new();
    while let Some(value) = iter.next() {
        as_vec.push(value);
    }

    assert_eq!("hello", *as_vec[0]);
    assert_eq!("again", *as_vec[1]);

    assert_eq!(2, stack.len());
    assert_eq!("hello", stack.pop().as_deref().unwrap());
    assert_eq!("again", stack.pop().as_deref().unwrap());
}

#[test]
fn test_iter_mut() {
    let mut stack = OkStack::new();

    stack.push(String::from("Hello everyone!"));
    stack.push(String::from("How are you,"));
    stack.push(String::from("fine, thank you"));

    let mut iter = stack.iter_mut();
    iter.next();
    iter.next();
    let mut count = 0;
    while let Some(val) = iter.next() {
        val.push_str(" Oh my gah!");
        count += 1;
    }
    assert_eq!(1, count);

    assert_eq!("fine, thank you", stack.pop().as_deref().unwrap());
    assert_eq!("How are you,", stack.pop().as_deref().unwrap());
    assert_eq!(
        "Hello everyone! Oh my gah!",
        stack.pop().as_deref().unwrap()
    );
}

#[test]
fn display_test() {
    let mut stack = OkStack::new();

    stack.push(0.10);
    stack.push(1.43);
    stack.push(3.14);

    assert_eq!("[3.14, 1.43, 0.1]", stack.to_string());

    stack.push(83.0);

    assert_eq!("[83, 3.14, 1.43, 0.1]", stack.to_string());

    stack.pop();
    stack.pop();

    assert_eq!("[1.43, 0.1]", stack.to_string());
}

#[test]
fn test_peek_mut() {
    let mut stack = OkStack::new();
    assert_eq!(None, stack.peek_mut());

    stack.push(100);
    assert_eq!(Some(&mut 100), stack.peek_mut());

    *stack.peek_mut().unwrap() = 99;

    assert_eq!(99, *stack.peek().unwrap());
}
