use rayon_logs::list::AtomicLinkedList;
use rayon_logs::storage::{Storage, BLOCK_SIZE};

#[test]
fn list_pop_front_gives_last_pushed() {
    let mut list = AtomicLinkedList::new();
    list.push_front(1);
    list.push_front(2);
    assert_eq!(list.front(), Some(&2));
    assert_eq!(list.pop_front(), Some(2));
    assert_eq!(list.pop_front(), Some(1));
    assert_eq!(list.pop_front(), None);
}

#[test]
fn list_reset_empties() {
    let mut list = AtomicLinkedList::new();
    list.push_front(7);
    list.reset();
    assert!(list.iter().is_empty());
}

#[test]
fn storage_iterates_in_push_order() {
    let mut s = Storage::new();
    for i in 0..5u32 {
        s.push(i);
    }
    let v: Vec<u32> = s.iter().into_iter().copied().collect();
    assert_eq!(v, vec![0, 1, 2, 3, 4]);
}

#[test]
fn storage_keeps_order_across_blocks() {
    let mut s = Storage::new();
    let n = BLOCK_SIZE * 2 + 3;
    for i in 0..n {
        s.push(i);
    }
    let v: Vec<usize> = s.iter().into_iter().copied().collect();
    assert_eq!(v.len(), n);
    assert!(v.iter().enumerate().all(|(i, x)| i == *x));
}

#[test]
fn storage_reset_empties() {
    let mut s = Storage::new();
    s.push(1u8);
    s.reset();
    assert!(s.iter().is_empty());
    s.push(2u8);
    assert_eq!(s.iter(), vec![&2u8]);
}
