use dslab::link_list::List;

#[test]
fn link_list_test_push_and_pop() {
    let mut list = List::new();
    assert_eq!(None, list.pop());
    list.push(1);
    list.push(2);
    list.push(3);
    assert_eq!(Some(3), list.pop());
    assert_eq!(Some(2), list.pop());
    assert_eq!(Some(1), list.pop());
    assert_eq!(None, list.pop());
}

#[test]
fn test_into_iter() {
    let mut list = List::new();
    list.push(1);
    list.push(2);
    list.push(3);
    let mut into_iter = list.into_iter();
    assert_eq!(Some(3), into_iter.next());
    assert_eq!(Some(2), into_iter.next());
    assert_eq!(Some(1), into_iter.next());
    assert_eq!(None, into_iter.next());
}

#[test]
fn list_holds_strings() {
    let mut list = List::new();
    list.push(String::from("a"));
    list.push(String::from("b"));
    assert_eq!(Some(String::from("b")), list.pop());
    assert_eq!(Some(String::from("a")), list.pop());
    assert_eq!(None, list.pop());
}
