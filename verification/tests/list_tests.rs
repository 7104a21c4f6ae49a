use art_index::list1;
use art_index::list2;

#[test]
fn list1_pop_empty() {
    let mut list = list1::List::<u8>::new();
    assert_eq!(list.pop(), None);
}

#[test]
fn list1_push_and_pop() {
    let mut list = list1::List::<u8>::new();
    list.push(1);
    list.push(2);
    list.push(3);
    assert_eq!(list.pop(), Some(3));
    assert_eq!(list.pop(), Some(2));
    assert_eq!(list.pop(), Some(1));
    assert_eq!(list.pop(), None);
}

fn init_some() -> list2::List<u8> {
    let mut list = list2::List::<u8>::new();
    list.push(1);
    list.push(2);
    list.push(3);
    list
}

#[test]
fn list2_pop_empty() {
    let mut list = list2::List::<u8>::new();
    assert_eq!(list.pop(), None);
}

#[test]
fn list2_push_and_pop() {
    let mut list = init_some();
    assert_eq!(list.pop(), Some(3));
    assert_eq!(list.pop(), Some(2));
    assert_eq!(list.pop(), Some(1));
    assert_eq!(list.pop(), None);
}

#[test]
fn peek() {
    let list = init_some();
    assert_eq!(list.peek(), Some(&3));
}

#[test]
fn peek_mut() {
    let mut list = init_some();

    list.peek_mut().map(|value| {
        *value = 4;
    });
    assert_eq!(list.peek(), Some(&4));
}
