use rayon_logs::list::AtomicLinkedList;

#[test]
fn push_front_test() {
    let mut list = AtomicLinkedList::new();
    list.push_front(1);
    list.push_front(2);
    list.push_front(3);
    assert!(list.iter().into_iter().eq(vec![3, 2, 1].iter()))
}
