use xfast::Deque;

#[test]
fn basic_ops() {
    let mut list: Deque<i32> = Deque::new();
    assert_eq!(list.pop_front(), None);

    list.push_front(1);
    list.push_front(2);
    list.push_front(3);
    assert_eq!(list.pop_front(), Some(3));
    assert_eq!(list.pop_back(), Some(1));

    list.push_front(4);
    list.push_front(5);
    assert_eq!(list.pop_back(), Some(2));
    assert_eq!(list.pop_front(), Some(5));

    assert_eq!(list.pop_back(), Some(4));
    assert_eq!(list.pop_front(), None);
}

#[test]
fn iter() {
    let mut list: Deque<i32> = Deque::new();
    assert_eq!(list.pop_front(), None);

    list.push_front(1);
    list.push_front(2);
    list.push_front(3);

    let mut list_iter = list.iter();
    assert_eq!(list_iter.next(), Some(&3));
    assert_eq!(list_iter.next(), Some(&2));
    assert_eq!(list_iter.next(), Some(&1));
    assert_eq!(list_iter.next(), None);
}

#[test]
fn iter_mut() {
    let mut list: Deque<i32> = Deque::new();
    assert_eq!(list.pop_front(), None);

    list.push_front(1);
    list.push_front(2);
    list.push_front(3);

    let mut values = list.iter_mut();
    while let Some(val) = values.next() {
        *val += 1;
    }
    let mut list_iter = list.iter();
    assert_eq!(list_iter.next(), Some(&4));
    assert_eq!(list_iter.next(), Some(&3));
    assert_eq!(list_iter.next(), Some(&2));
}

#[test]
fn pop_back_on_empty() {
    let mut list: Deque<u8> = Deque::new();
    assert_eq!(list.pop_back(), None);
    list.push_front(7);
    assert_eq!(list.pop_back(), Some(7));
    assert_eq!(list.pop_back(), None);
    assert_eq!(list.pop_front(), None);
}
