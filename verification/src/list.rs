//! A small singly linked list with pushes at the front, used to store the
//! blocks of a `Storage`.
use vstd::prelude::*;

verus! {

struct Node<T> {
    element: T,
    next: Option<Box<Node<T>>>,
}

/// A list where new elements go in front.
pub struct AtomicLinkedList<T> {
    head: Option<Box<Node<T>>>,
}

/// Elements reachable from a node, first one first.
spec fn nodes_view<T>(node: Option<Box<Node<T>>>) -> Seq<T>
    decreases node,
{
    match node {
        None => Seq::empty(),
        Some(n) => seq![n.element] + nodes_view(n.next),
    }
}

impl<T> View for AtomicLinkedList<T> {
    type V = Seq<T>;

    /// The elements, from the most recently pushed one to the oldest.
    closed spec fn view(&self) -> Seq<T> {
        nodes_view(self.head)
    }
}

impl<T> AtomicLinkedList<T> {
    /// An empty list.
    pub fn new() -> (list: Self)
        ensures
            list@ == Seq::<T>::empty(),
    {
        AtomicLinkedList { head: None }
    }

    /// Remove all elements.
    pub fn reset(&mut self)
        ensures
            final(self)@ == Seq::<T>::empty(),
    {
        self.head = None;
    }

    /// Put `elt` in front of the list.
    pub fn push_front(&mut self, elt: T)
        ensures
            final(self)@ == seq![elt] + old(self)@,
    {
        let next = self.head.take();
        self.head = Some(Box::new(Node { element: elt, next }));
    }

    /// Take the front element out of the list.
    pub fn pop_front(&mut self) -> (r: Option<T>)
        ensures
            old(self)@.len() == 0 ==> r is None && final(self)@ == old(self)@,
            old(self)@.len() > 0 ==> r == Some(old(self)@[0]) && final(self)@ == old(self)@.drop_first(),
    {
        match self.head.take() {
            None => None,
            Some(node) => {
                let node = *node;
                self.head = node.next;
                proof {
                    assert(old(self)@.drop_first() =~= nodes_view(self.head));
                }
                Some(node.element)
            },
        }
    }

    /// The front element, if any.
    pub fn front(&self) -> (r: Option<&T>)
        ensures
            self@.len() == 0 ==> r is None,
            self@.len() > 0 ==> r == Some(&self@[0]),
    {
        match &self.head {
            None => None,
            Some(node) => Some(&node.element),
        }
    }

    /// All elements, from the front to the back.
    pub fn iter(&self) -> (v: Vec<&T>)
        ensures
            v@.len() == self@.len(),
            forall|i: int| 0 <= i < v@.len() ==> *v@[i] == self@[i],
    {
        let mut v: Vec<&T> = Vec::new();
        let mut current: &Option<Box<Node<T>>> = &self.head;
        loop
            invariant
                v@.len() + nodes_view(*current).len() == self@.len(),
                forall|i: int| 0 <= i < v@.len() ==> *v@[i] == self@[i],
                forall|i: int|
                    0 <= i < nodes_view(*current).len() ==> nodes_view(*current)[i] == self@[v@.len() + i],
            decreases nodes_view(*current).len(),
        {
            match current {
                None => {
                    return v;
                },
                Some(node) => {
                    proof {
                        assert(nodes_view(*current)[0] == node.element);
                        assert forall|i: int| 0 <= i < nodes_view(node.next).len() implies nodes_view(
                            node.next,
                        )[i] == self@[v@.len() + 1 + i] by {
                            assert(nodes_view(node.next)[i] == nodes_view(*current)[i + 1]);
                        }
                    }
                    v.push(&node.element);
                    current = &node.next;
                },
            }
        }
    }
}

} // verus!
