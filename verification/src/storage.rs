//! A `Storage` with worst case O(1) insertions: elements go into blocks of
//! fixed capacity kept in a list, the newest block in front.
use crate::list::AtomicLinkedList;
use vstd::prelude::*;

verus! {

/// Capacity of a block.
pub const BLOCK_SIZE: usize = 10_000;

/// A contiguous memory block.
struct Block<T> {
    data: Vec<T>,
}

impl<T> Block<T> {
    /// Create a new block.
    fn new() -> (b: Self)
        ensures
            b.data@ == Seq::<T>::empty(),
    {
        Block { data: Vec::with_capacity(BLOCK_SIZE) }
    }

    /// Add given element to the block.
    fn push(&mut self, element: T)
        ensures
            final(self).data@ == old(self).data@.push(element),
    {
        self.data.push(element)
    }

    /// Is the block full.
    fn is_full(&self) -> (b: bool)
        ensures
            b == (self.data@.len() == BLOCK_SIZE),
    {
        self.data.len() == BLOCK_SIZE
    }
}

/// Elements of blocks stored newest first, oldest element first.
spec fn blocks_content<T>(blocks: Seq<Block<T>>) -> Seq<T>
    decreases blocks.len(),
{
    if blocks.len() == 0 {
        Seq::empty()
    } else {
        blocks_content(blocks.drop_first()) + blocks[0].data@
    }
}

/// Fast structure for pushing the logs of a thread.
pub struct Storage<T> {
    data: AtomicLinkedList<Block<T>>,
}

impl<T> View for Storage<T> {
    type V = Seq<T>;

    /// The stored elements, oldest first.
    closed spec fn view(&self) -> Seq<T> {
        blocks_content(self.data@)
    }
}

impl<T> Storage<T> {
    /// There is always a front block, no block goes over its capacity and
    /// only the front block may have room left.
    pub closed spec fn well_formed(&self) -> bool {
        &&& self.data@.len() > 0
        &&& forall|i: int| 0 <= i < self.data@.len() ==> (#[trigger] self.data@[i]).data@.len() <= BLOCK_SIZE
        &&& forall|i: int| 0 < i < self.data@.len() ==> (#[trigger] self.data@[i]).data@.len() == BLOCK_SIZE
    }

    /// Create a new, empty storage space.
    pub fn new() -> (s: Self)
        ensures
            s.well_formed(),
            s@ == Seq::<T>::empty(),
    {
        let first_block = Block::new();
        let mut list = AtomicLinkedList::new();
        list.push_front(first_block);
        let s = Storage { data: list };
        proof {
            reveal_with_fuel(blocks_content, 2);
            assert(s.data@.drop_first() =~= Seq::<Block<T>>::empty());
            assert(s@ =~= Seq::<T>::empty());
        }
        s
    }

    /// Add given element to the storage space.
    pub fn push(&mut self, element: T)
        requires
            old(self).well_formed(),
        ensures
            final(self).well_formed(),
            final(self)@ == old(self)@.push(element),
    {
        let ghost old_blocks = self.data@;
        let mut block = match self.data.pop_front() {
            Some(b) => b,
            None => Block::new(),
        };
        let full = block.is_full();
        if full {
            self.data.push_front(block);
            proof {
                assert(self.data@ =~= old_blocks);
            }
            block = Block::new();
        }
        let ghost rest = self.data@;
        let ghost before = block.data@;
        block.push(element);
        self.data.push_front(block);
        proof {
            assert(self.data@.drop_first() =~= rest);
            if full {
                assert(rest =~= old_blocks);
                assert(self@ =~= blocks_content(old_blocks).push(element));
            } else {
                assert(rest =~= old_blocks.drop_first());
                assert(self@ =~= blocks_content(old_blocks).push(element));
            }
        }
    }

    /// Destroy all elements.
    pub fn reset(&mut self)
        ensures
            final(self).well_formed(),
            final(self)@ == Seq::<T>::empty(),
    {
        self.data.reset();
        let first_block = Block::new();
        self.data.push_front(first_block);
        proof {
            reveal_with_fuel(blocks_content, 2);
            assert(self.data@.drop_first() =~= Seq::<Block<T>>::empty());
            assert(self@ =~= Seq::<T>::empty());
        }
    }

    /// All elements inside us, oldest first.
    pub fn iter(&self) -> (v: Vec<&T>)
        ensures
            v@.len() == self@.len(),
            forall|i: int| 0 <= i < v@.len() ==> *v@[i] == self@[i],
    {
        let blocks = self.data.iter();
        let mut v: Vec<&T> = Vec::new();
        let mut b = blocks.len();
        while b > 0
            invariant
                b <= blocks@.len(),
                blocks@.len() == self.data@.len(),
                forall|i: int| 0 <= i < blocks@.len() ==> *blocks@[i] == self.data@[i],
                v@.len() == blocks_content(self.data@.subrange(b as int, self.data@.len() as int)).len(),
                forall|i: int|
                    0 <= i < v@.len() ==> *v@[i] == blocks_content(
                        self.data@.subrange(b as int, self.data@.len() as int),
                    )[i],
            decreases b,
        {
            b = b - 1;
            let block: &Block<T> = blocks[b];
            let ghost tail = self.data@.subrange(b + 1, self.data@.len() as int);
            let ghost start = v@;
            assert(start.len() == blocks_content(tail).len());
            assert(forall|i: int| 0 <= i < start.len() ==> *start[i] == blocks_content(tail)[i]);
            assert(block.data@ == self.data@[b as int].data@);
            let mut j: usize = 0;
            while j < block.data.len()
                invariant
                    j <= block.data@.len(),
                    v@.len() == start.len() + j,
                    forall|i: int| 0 <= i < start.len() ==> v@[i] == start[i],
                    forall|i: int| 0 <= i < j ==> *v@[start.len() + i] == block.data@[i],
                decreases block.data@.len() - j,
            {
                v.push(&block.data[j]);
                j = j + 1;
            }
            proof {
                let here = self.data@.subrange(b as int, self.data@.len() as int);
                assert(here.drop_first() =~= tail);
                assert(here[0] == *blocks@[b as int]);
                assert(blocks_content(here) == blocks_content(tail) + here[0].data@);
                assert forall|i: int| 0 <= i < v@.len() implies *v@[i] == blocks_content(here)[i] by {
                    if i < start.len() {
                        assert(*v@[i] == *start[i]);
                    } else {
                        assert(*v@[i] == block.data@[i - start.len()]);
                        assert(blocks_content(here)[i] == here[0].data@[i - start.len()]);
                    }
                }
            }
        }
        proof {
            assert(self.data@.subrange(0, self.data@.len() as int) =~= self.data@);
        }
        v
    }
}

} // verus!
