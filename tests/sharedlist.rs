use statemachine::sharedlist::SharedList;

#[test]
fn push_then_convert_round_trips() {
    let mut list: SharedList<u32> = SharedList::new();
    let values = [4u32, 8, 15, 16, 23, 42];
    for v in values {
        list = list.push(v);
    }
    assert_eq!(list.len(), values.len());
    assert!(!list.is_empty());
    assert_eq!(list.to_vec(), values.to_vec());
}

#[test]
fn empty_list_converts_to_empty_vec() {
    let list: SharedList<u32> = SharedList::default();
    assert_eq!(list.len(), 0);
    assert!(list.is_empty());
    assert_eq!(list.to_vec(), Vec::<u32>::new());
}

#[test]
fn histories_share_their_base() {
    let base = SharedList::new().push(1u32).push(2).push(3);
    let a = base.push(10);
    let b = base.push(20);
    assert_eq!(a.to_vec(), vec![1, 2, 3, 10]);
    assert_eq!(b.to_vec(), vec![1, 2, 3, 20]);
    assert_eq!(base.to_vec(), vec![1, 2, 3]);
    assert_eq!(a.len(), 4);
    assert_eq!(b.len(), 4);
    assert_eq!(base.len(), 3);
}

#[test]
fn converts_into_vec_oldest_first() {
    let list = SharedList::new().push('a').push('b').push('c');
    let v: Vec<char> = list.into();
    assert_eq!(v, vec!['a', 'b', 'c']);
}
