//! The fork-join graph of a run as nested blocks: sequences of tasks and
//! blocks run one after the other, and parallel blocks whose sequences run
//! side by side. This is the structure that the graphical display lays out.
use crate::events::TaskId;
use crate::idle::{activity_before, lemma_stable_sorted_order, lemma_stable_sorted_perm, sort_by_start, stable_sorted, Activity};
use crate::runlog::RunLog;
use vstd::prelude::*;

verus! {

/// Index of a block.
pub type BlockId = usize;

/// A block of the fork-join graph.
#[derive(Debug, PartialEq, Eq)]
pub enum Block {
    /// A task, by index.
    Task(TaskId),
    /// Blocks that run one after the other.
    Sequence(Vec<BlockId>),
    /// Sequences that run side by side.
    Parallel(Vec<BlockId>),
}

/// The blocks that a block lists.
pub open spec fn inner(b: Block) -> Seq<BlockId> {
    match b {
        Block::Task(_) => Seq::empty(),
        Block::Sequence(v) => v@,
        Block::Parallel(v) => v@,
    }
}

/// Block `b` is listed by block `p` at position `j`.
pub open spec fn listed_at(g: Seq<Block>, b: int, p: int, j: int) -> bool {
    0 <= p < g.len() && 0 <= j < inner(g[p]).len() && inner(g[p])[j] == b
}

/// Block `b` is listed by some block.
pub open spec fn is_listed(g: Seq<Block>, b: int) -> bool {
    exists|p: int, j: int| #[trigger] listed_at(g, b, p, j)
}

/// `g` is a tree of blocks rooted at block 0, a sequence: each block lists
/// blocks created after it, every other block is listed exactly once, and
/// parallel blocks list sequences only.
pub open spec fn is_tree(g: Seq<Block>) -> bool {
    &&& g.len() > 0
    &&& g[0] is Sequence
    &&& forall|p: int, j: int|
        0 <= p < g.len() && 0 <= j < inner(g[p]).len() ==> p < #[trigger] inner(g[p])[j] < g.len()
    &&& forall|p: int, j: int|
        0 <= p < g.len() && g[p] is Parallel && 0 <= j < inner(g[p]).len() ==> g[#[trigger] inner(
            g[p],
        )[j] as int] is Sequence
    &&& forall|b: int| 1 <= b < g.len() ==> #[trigger] is_listed(g, b)
    &&& forall|b: int, p1: int, j1: int, p2: int, j2: int|
        #[trigger] listed_at(g, b, p1, j1) && #[trigger] listed_at(g, b, p2, j2) ==> p1 == p2 && j1 == j2
}

/// Each block lists blocks by increasing index, that is in the order they
/// were made.
pub open spec fn lists_increasing(g: Seq<Block>) -> bool {
    forall|p: int, j1: int, j2: int|
        0 <= p < g.len() && 0 <= j1 < j2 < inner(g[p]).len() ==> #[trigger] inner(g[p])[j1] < #[trigger] inner(
            g[p],
        )[j2]
}

/// A tree together with, for each block but the root, where it is listed.
pub open spec fn tree_with(g: Seq<Block>, parents: Seq<(int, int)>) -> bool {
    &&& g.len() > 0
    &&& g[0] is Sequence
    &&& parents.len() == g.len()
    &&& forall|p: int, j: int|
        0 <= p < g.len() && 0 <= j < inner(g[p]).len() ==> p < #[trigger] inner(g[p])[j] < g.len()
    &&& forall|p: int, j: int|
        0 <= p < g.len() && g[p] is Parallel && 0 <= j < inner(g[p]).len() ==> g[#[trigger] inner(
            g[p],
        )[j] as int] is Sequence
    &&& forall|b: int| 1 <= b < g.len() ==> listed_at(g, b, (#[trigger] parents[b]).0, parents[b].1)
    &&& forall|p: int, j: int|
        0 <= p < g.len() && 0 <= j < inner(g[p]).len() ==> parents[#[trigger] inner(g[p])[j] as int] == (p, j)
}

/// Knowing where each block is listed makes a tree.
proof fn lemma_tree_with(g: Seq<Block>, parents: Seq<(int, int)>)
    requires
        tree_with(g, parents),
    ensures
        is_tree(g),
{
    assert forall|b: int| 1 <= b < g.len() implies #[trigger] is_listed(g, b) by {
        assert(listed_at(g, b, parents[b].0, parents[b].1));
    }
    assert forall|b: int, p1: int, j1: int, p2: int, j2: int|
        #[trigger] listed_at(g, b, p1, j1) && #[trigger] listed_at(g, b, p2, j2) implies p1 == p2 && j1 == j2 by {
        assert(parents[inner(g[p1])[j1] as int] == (p1, j1));
        assert(parents[inner(g[p2])[j2] as int] == (p2, j2));
    }
}

/// Append `block` (which lists nothing) to the graph and list it at the end
/// of block `q`; return its index.
fn add_block(g: &mut Vec<Block>, q: BlockId, block: Block, Ghost(parents): Ghost<Seq<(int, int)>>) -> (r: (
    BlockId,
    Ghost<Seq<(int, int)>>,
))
    requires
        tree_with(old(g)@, parents),
        q < old(g)@.len(),
        old(g)@[q as int] is Sequence || (old(g)@[q as int] is Parallel && block is Sequence),
        inner(block).len() == 0,
        old(g)@.len() < usize::MAX,
    ensures
        r.0 == old(g)@.len(),
        final(g)@.len() == old(g)@.len() + 1,
        final(g)@[r.0 as int] == block,
        inner(final(g)@[q as int]) == inner(old(g)@[q as int]).push(r.0),
        final(g)@[q as int] is Sequence == old(g)@[q as int] is Sequence,
        final(g)@[q as int] is Parallel == old(g)@[q as int] is Parallel,
        forall|b: int| 0 <= b < old(g)@.len() && b != q ==> #[trigger] final(g)@[b] == old(g)@[b],
        tree_with(final(g)@, r.1@),
        r.1@ == parents.push((q as int, inner(old(g)@[q as int]).len() as int)),
{
    let id = g.len();
    g.push(block);
    let ghost mid = g@;
    let mut tmp = Block::Task(0);
    std::mem::swap(&mut tmp, &mut g[q]);
    let ghost m = inner(tmp).len() as int;
    let listed = match tmp {
        Block::Sequence(mut v) => {
            v.push(id);
            Block::Sequence(v)
        },
        Block::Parallel(mut v) => {
            v.push(id);
            Block::Parallel(v)
        },
        Block::Task(t) => Block::Task(t),
    };
    g.set(q, listed);
    let ghost new_parents = parents.push((q as int, m));
    proof {
        let o = old(g)@;
        let f = g@;
        assert(tmp == mid[q as int]);
        assert(mid[q as int] == o[q as int]);
        assert forall|p: int, j: int| 0 <= p < f.len() && 0 <= j < inner(f[p]).len() implies p < #[trigger] inner(
            f[p],
        )[j] < f.len() && new_parents[inner(f[p])[j] as int] == (p, j) by {
            if p == q {
                if j < m {
                    assert(inner(f[p])[j] == inner(o[p])[j]);
                } else {
                    assert(inner(f[p])[j] == id);
                }
            } else if p < o.len() {
                assert(f[p] == o[p]);
            } else {
                assert(f[p] == block);
            }
        }
        assert forall|p: int, j: int|
            0 <= p < f.len() && f[p] is Parallel && 0 <= j < inner(f[p]).len() implies f[#[trigger] inner(
            f[p],
        )[j] as int] is Sequence by {
            if p == q {
                if j < m {
                    assert(inner(f[p])[j] == inner(o[p])[j]);
                    assert(inner(o[p])[j] < o.len());
                    assert(f[inner(o[p])[j] as int] == o[inner(o[p])[j] as int]);
                }
            } else if p < o.len() {
                assert(f[p] == o[p]);
                assert(inner(o[p])[j] < o.len());
                assert(inner(o[p])[j] != q || o[q as int] is Sequence);
                if inner(o[p])[j] != q {
                    assert(f[inner(o[p])[j] as int] == o[inner(o[p])[j] as int]);
                }
            }
        }
        assert forall|b: int| 1 <= b < f.len() implies listed_at(f, b, (#[trigger] new_parents[b]).0, new_parents[b].1) by {
            if b < o.len() {
                let (p, j) = parents[b];
                assert(listed_at(o, b, p, j));
                if p == q {
                    assert(inner(f[p])[j] == inner(o[p])[j]);
                } else {
                    assert(f[p] == o[p]);
                }
            } else {
                assert(inner(f[q as int])[m] == id);
            }
        }
    }
    (id, Ghost(new_parents))
}

} // verus!

verus! {

/// The block `k` steps up from block `b` along `enclosing` (the root, block
/// 0, stays put).
pub open spec fn up(enclosing: Seq<BlockId>, b: int, k: nat) -> int
    decreases k,
{
    if k == 0 || b <= 0 {
        b
    } else {
        up(enclosing, enclosing[b] as int, (k - 1) as nat)
    }
}

/// Block `a` encloses block `b`: going up from `b` reaches `a`.
pub open spec fn encloses(enclosing: Seq<BlockId>, a: int, b: int) -> bool {
    exists|k: nat| #[trigger] up(enclosing, b, k) == a
}

/// Each block but the root is enclosed by an earlier block.
pub open spec fn enclosing_ok(enclosing: Seq<BlockId>) -> bool {
    forall|x: int| 1 <= x < enclosing.len() ==> #[trigger] enclosing[x] < x
}

proof fn lemma_up_step(enclosing: Seq<BlockId>, b: int, k: nat)
    ensures
        up(enclosing, b, k + 1) == up(enclosing, up(enclosing, b, k), 1),
    decreases k,
{
    if k > 0 && b > 0 {
        lemma_up_step(enclosing, enclosing[b] as int, (k - 1) as nat);
    }
}

proof fn lemma_up_bounds(enclosing: Seq<BlockId>, b: int, k: nat)
    requires
        enclosing_ok(enclosing),
        0 <= b < enclosing.len(),
    ensures
        0 <= up(enclosing, b, k) <= b,
    decreases k,
{
    if k > 0 && b > 0 {
        lemma_up_bounds(enclosing, enclosing[b] as int, (k - 1) as nat);
    }
}

proof fn lemma_up_add(enclosing: Seq<BlockId>, x: int, k1: nat, k2: nat)
    ensures
        up(enclosing, up(enclosing, x, k1), k2) == up(enclosing, x, k1 + k2),
    decreases k1,
{
    if k1 > 0 && x > 0 {
        lemma_up_add(enclosing, enclosing[x] as int, (k1 - 1) as nat, k2);
    } else if x <= 0 {
        assert(up(enclosing, x, k2) == x);
        assert(up(enclosing, x, k1 + k2) == x);
    }
}

/// What encloses a block encloses all it encloses.
proof fn lemma_encloses_trans(enclosing: Seq<BlockId>, a: int, b: int, x: int)
    requires
        encloses(enclosing, a, b),
        encloses(enclosing, b, x),
    ensures
        encloses(enclosing, a, x),
{
    let k1 = choose|k: nat| #[trigger] up(enclosing, x, k) == b;
    let k2 = choose|k: nat| #[trigger] up(enclosing, b, k) == a;
    lemma_up_add(enclosing, x, k1, k2);
}

/// Of two blocks that enclose the same block, the outer one encloses the
/// inner one.
proof fn lemma_encloses_chain(enclosing: Seq<BlockId>, a1: int, a2: int, x: int)
    requires
        enclosing_ok(enclosing),
        0 <= x < enclosing.len(),
        encloses(enclosing, a1, x),
        encloses(enclosing, a2, x),
        a1 <= a2,
    ensures
        encloses(enclosing, a1, a2),
{
    let k1 = choose|k: nat| #[trigger] up(enclosing, x, k) == a1;
    let k2 = choose|k: nat| #[trigger] up(enclosing, x, k) == a2;
    if k1 >= k2 {
        lemma_up_add(enclosing, x, k2, (k1 - k2) as nat);
    } else {
        lemma_up_add(enclosing, x, k1, (k2 - k1) as nat);
        lemma_up_bounds(enclosing, x, k1);
        lemma_up_bounds(enclosing, a1, (k2 - k1) as nat);
        assert(a1 == a2);
        assert(up(enclosing, a1, 0) == a2);
    }
}

/// Find the first (going up) block that encloses both `a` and `b`.
fn common_ancestor_block(enclosing: &Vec<BlockId>, a: BlockId, b: BlockId) -> (c: BlockId)
    requires
        enclosing_ok(enclosing@),
        a < enclosing@.len(),
        b < enclosing@.len(),
    ensures
        encloses(enclosing@, c as int, a as int),
        encloses(enclosing@, c as int, b as int),
        forall|d: int| encloses(enclosing@, d, a as int) && encloses(enclosing@, d, b as int) ==> d <= c,
{
    let ghost e = enclosing@;
    let mut x = a;
    let mut y = b;
    assert(up(e, a as int, 0) == a);
    assert(up(e, b as int, 0) == b);
    while x != y
        invariant
            e == enclosing@,
            enclosing_ok(e),
            x < e.len(),
            y < e.len(),
            a < e.len(),
            b < e.len(),
            encloses(e, x as int, a as int),
            encloses(e, y as int, b as int),
            forall|d: int|
                #![trigger encloses(e, d, a as int), encloses(e, d, b as int)]
                encloses(e, d, a as int) && encloses(e, d, b as int) ==> encloses(e, d, x as int) && encloses(
                    e,
                    d,
                    y as int,
                ),
        decreases x + y,
    {
        if x > y {
            let ghost old_x = x as int;
            x = enclosing[x];
            proof {
                let k = choose|k: nat| #[trigger] up(e, a as int, k) == old_x;
                lemma_up_step(e, a as int, k);
                reveal_with_fuel(up, 2);
                assert(up(e, a as int, k + 1) == x);
                assert forall|d: int| encloses(e, d, a as int) && encloses(e, d, b as int) implies encloses(e, d, x as int)
                    && encloses(e, d, y as int) by {
                    assert(encloses(e, d, old_x) && encloses(e, d, y as int));
                    let j = choose|j: nat| #[trigger] up(e, y as int, j) == d;
                    lemma_up_bounds(e, y as int, j);
                    let i = choose|i: nat| #[trigger] up(e, old_x, i) == d;
                    assert(i > 0);
                    assert(up(e, x as int, (i - 1) as nat) == d);
                }
            }
        } else {
            let ghost old_y = y as int;
            y = enclosing[y];
            proof {
                let k = choose|k: nat| #[trigger] up(e, b as int, k) == old_y;
                lemma_up_step(e, b as int, k);
                reveal_with_fuel(up, 2);
                assert(up(e, b as int, k + 1) == y);
                assert forall|d: int| encloses(e, d, a as int) && encloses(e, d, b as int) implies encloses(e, d, x as int)
                    && encloses(e, d, y as int) by {
                    assert(encloses(e, d, x as int) && encloses(e, d, old_y));
                    let j = choose|j: nat| #[trigger] up(e, x as int, j) == d;
                    lemma_up_bounds(e, x as int, j);
                    let i = choose|i: nat| #[trigger] up(e, old_y, i) == d;
                    assert(i > 0);
                    assert(up(e, y as int, (i - 1) as nat) == d);
                }
            }
        }
    }
    proof {
        assert forall|d: int| encloses(e, d, a as int) && encloses(e, d, b as int) implies d <= x by {
            assert(encloses(e, d, x as int));
            let j = choose|j: nat| #[trigger] up(e, x as int, j) == d;
            lemma_up_bounds(e, x as int, j);
        }
    }
    x
}

} // verus!

verus! {

/// Going up from a sequence only meets sequences.
proof fn lemma_up_sequence(g: Seq<Block>, e: Seq<BlockId>, b: int, k: nat)
    requires
        enclosing_ok(e),
        e.len() == g.len(),
        0 <= b < g.len(),
        g[b] is Sequence,
        g[0] is Sequence,
        forall|x: int| 1 <= x < g.len() && (#[trigger] g[x]) is Sequence ==> g[e[x] as int] is Sequence,
    ensures
        g[up(e, b, k)] is Sequence,
        0 <= up(e, b, k) <= b,
    decreases k,
{
    if k > 0 && b > 0 {
        lemma_up_sequence(g, e, e[b] as int, (k - 1) as nat);
    }
}

/// Why a run log cannot be laid out as nested blocks.
#[derive(Debug, Clone, Copy, PartialEq, Eq, Structural)]
pub enum GraphError {
    /// A task other than task 0 has no father.
    NotRoot,
    /// A task starts before one of its fathers.
    FatherNotPlaced,
    /// A subgraph ends in the outermost sequence.
    NoEnclosingBlock,
    /// A subgraph starts in a task with several fathers.
    SeveralFathersForSubgraph,
    /// There are more blocks than indices.
    TooManyBlocks,
}

/// Block `b` was made for task `t`: it is the task's block, its parallel
/// block, or its sequence made just before its block.
pub open spec fn made_for(
    seqs: Seq<BlockId>,
    task_block: Seq<int>,
    parallel: Seq<Option<BlockId>>,
    b: int,
    t: int,
) -> bool {
    ||| b == task_block[t]
    ||| parallel[t] is Some && b == parallel[t]->0
    ||| b == seqs[t] && b + 1 == task_block[t]
}

/// Block `b` was made for one of the first `n` tasks.
pub open spec fn made_by_task(
    seqs: Seq<BlockId>,
    task_block: Seq<int>,
    parallel: Seq<Option<BlockId>>,
    n: nat,
    b: int,
) -> bool {
    exists|t: int| 0 <= t < n && #[trigger] made_for(seqs, task_block, parallel, b, t)
}

/// Block `b` is task `t`.
pub open spec fn is_task_block(g: Seq<Block>, b: int, t: TaskId) -> bool {
    0 <= b < g.len() && g[b] == Block::Task(t)
}

/// Some block is task `t`.
pub open spec fn has_task(g: Seq<Block>, t: TaskId) -> bool {
    exists|b: int| #[trigger] is_task_block(g, b, t)
}

/// Each task of `0..n` is in exactly one block, and task blocks are tasks
/// of `0..n`.
pub open spec fn covers_tasks(g: Seq<Block>, n: nat) -> bool {
    &&& forall|t: TaskId| t < n ==> #[trigger] has_task(g, t)
    &&& forall|b: int| 0 <= b < g.len() && (#[trigger] g[b]) is Task ==> g[b]->Task_0 < n
    &&& forall|b1: int, b2: int, t: TaskId|
        #[trigger] is_task_block(g, b1, t) && #[trigger] is_task_block(g, b2, t) ==> b1 == b2
}

/// Where the sequence `s` of a task whose only father is `f` (with
/// `children` children) comes from: a new sequence listed in the father's
/// when the task starts a subgraph, the sequence enclosing the father's when
/// the father ends one, the father's own otherwise; a new sequence of the
/// father's parallel block when the father has several children.
pub open spec fn after_father_rule(
    new_block: int,
    parents: Seq<(int, int)>,
    enclosing: Seq<BlockId>,
    blocks: Seq<BlockId>,
    parallel: Seq<Option<BlockId>>,
    placed: Seq<bool>,
    children: int,
    starts: bool,
    ends: bool,
    f: TaskId,
    s: int,
) -> bool {
    let bf = blocks[f as int];
    &&& placed[f as int]
    &&& children == 1 && starts ==> s == new_block && parents[s].0 == bf
    &&& children == 1 && !starts && ends ==> bf != 0 && s == enclosing[bf as int]
    &&& children == 1 && !starts && !ends ==> s == bf
    &&& children != 1 ==> s == new_block && parallel[f as int] is Some && parents[s].0 == parallel[f as int]->0
}

/// `new` starts with `old`.
pub open spec fn extends<A>(old: Seq<A>, new: Seq<A>) -> bool {
    old.len() <= new.len() && forall|i: int| 0 <= i < old.len() ==> #[trigger] new[i] == old[i]
}

/// `s` is the first (going up) block that encloses the blocks of all the
/// `fathers`.
pub open spec fn common_enclosing(enclosing: Seq<BlockId>, s: int, fathers: Seq<TaskId>, blocks: Seq<BlockId>) -> bool {
    &&& encloses_all(enclosing, s, fathers, blocks)
    &&& forall|d: int| #[trigger] encloses_all(enclosing, d, fathers, blocks) ==> d <= s
}

/// Block `d` encloses the blocks of all the `fathers`.
pub open spec fn encloses_all(enclosing: Seq<BlockId>, d: int, fathers: Seq<TaskId>, blocks: Seq<BlockId>) -> bool {
    forall|i: int| 0 <= i < fathers.len() ==> encloses(enclosing, d, #[trigger] blocks[fathers[i] as int] as int)
}

/// The recorded enclosing sequence of sequence `x` is the block that lists
/// it, or the block that lists the parallel block that lists it.
pub open spec fn enclosing_matches(g: Seq<Block>, parents: Seq<(int, int)>, enclosing: Seq<BlockId>, x: int) -> bool {
    let p = parents[x].0;
    ||| g[p] is Sequence && enclosing[x] == p
    ||| g[p] is Parallel && enclosing[x] == parents[p].0
}

/// The state of the layout of tasks in blocks.
struct Layout {
    g: Vec<Block>,
    enclosing: Vec<BlockId>,
    placed: Vec<bool>,
    blocks: Vec<BlockId>,
    parallel: Vec<Option<BlockId>>,
    parents: Ghost<Seq<(int, int)>>,
    task_block: Ghost<Seq<int>>,
}

impl Layout {
    #[verifier::opaque]
    spec fn inv(&self, n: nat) -> bool {
        let g = self.g@;
        &&& tree_with(g, self.parents@)
        &&& lists_increasing(g)
        &&& enclosing_ok(self.enclosing@)
        &&& self.enclosing@.len() == g.len()
        &&& forall|x: int| 1 <= x < g.len() && (#[trigger] g[x]) is Sequence ==> g[self.enclosing@[x] as int] is Sequence
        &&& self.placed@.len() == n
        &&& self.blocks@.len() == n
        &&& self.parallel@.len() == n
        &&& self.task_block@.len() == n
        &&& forall|t: int|
            0 <= t < n && #[trigger] self.placed@[t] ==> self.blocks@[t] < g.len() && g[self.blocks@[t] as int] is Sequence
                && 0 <= self.task_block@[t] < g.len() && g[self.task_block@[t]] == Block::Task(t as TaskId)
        &&& forall|t: int|
            0 <= t < n && (#[trigger] self.parallel@[t]) is Some ==> self.parallel@[t]->0 < g.len()
                && g[self.parallel@[t]->0 as int] is Parallel
        &&& forall|b: int|
            0 <= b < g.len() && (#[trigger] g[b]) is Task ==> g[b]->Task_0 < n && self.placed@[g[b]->Task_0 as int]
                && self.task_block@[g[b]->Task_0 as int] == b
        &&& forall|x: int| 1 <= x < g.len() && (#[trigger] g[x]) is Sequence ==> enclosing_matches(g, self.parents@, self.enclosing@, x)
    }

    /// Add a block in block `q` (a sequence, or a parallel block if the
    /// new block is a sequence), enclosed by `enclosed_by`.
    fn add(&mut self, q: BlockId, block: Block, enclosed_by: BlockId, Ghost(n): Ghost<nat>) -> (r: Result<BlockId, GraphError>)
        requires
            old(self).inv(n),
            q < old(self).g@.len(),
            old(self).g@[q as int] is Sequence || (old(self).g@[q as int] is Parallel && block is Sequence),
            inner(block).len() == 0,
            block is Task ==> block->Task_0 < n && !old(self).placed@[block->Task_0 as int],
            enclosed_by < old(self).g@.len(),
            block is Sequence ==> old(self).g@[enclosed_by as int] is Sequence,
            block is Sequence ==> (old(self).g@[q as int] is Sequence && enclosed_by == q) || (old(self).g@[q as int] is Parallel
                && old(self).parents@[q as int].0 == enclosed_by),
        ensures
            r matches Ok(b) ==> b == old(self).g@.len() && final(self).g@.len() == b + 1 && final(self).g@[b as int]
                == block && final(self).enclosing@[b as int] == enclosed_by,
            r matches Ok(b) ==> forall|x: int| 0 <= x < old(self).g@.len() ==> (#[trigger] final(self).g@[x]) is Sequence
                == old(self).g@[x] is Sequence && final(self).g@[x] is Parallel == old(self).g@[x] is Parallel
                && final(self).g@[x] is Task == old(self).g@[x] is Task,
            final(self).placed@ == old(self).placed@,
            final(self).blocks@ == old(self).blocks@,
            final(self).parallel@ == old(self).parallel@,
            final(self).task_block@ == old(self).task_block@,
            final(self).g@.len() >= old(self).g@.len(),
            r matches Ok(b) ==> final(self).parents@ == old(self).parents@.push(
                (q as int, inner(old(self).g@[q as int]).len() as int),
            ),
            r matches Ok(b) ==> inner(final(self).g@[q as int]) == inner(old(self).g@[q as int]).push(b),
            extends(old(self).parents@, final(self).parents@),
            extends(old(self).enclosing@, final(self).enclosing@),
            r is Err ==> *final(self) == *old(self),
            r matches Err(e) ==> e == GraphError::TooManyBlocks,
            r is Err ==> old(self).g@.len() >= usize::MAX - 1,
            block is Task ==> final(self).inv_except_task(n, block->Task_0, r),
            !(block is Task) ==> final(self).inv(n),
    {
        reveal(Layout::inv);
        if self.g.len() >= usize::MAX - 1 {
            return Err(GraphError::TooManyBlocks);
        }
        let ghost old_g = self.g@;
        let (b, parents) = add_block(&mut self.g, q, block, self.parents);
        self.parents = parents;
        self.enclosing.push(enclosed_by);
        proof {
            let g = self.g@;
            assert forall|p: int, j1: int, j2: int|
                0 <= p < g.len() && 0 <= j1 < j2 < inner(g[p]).len() implies #[trigger] inner(g[p])[j1]
                < #[trigger] inner(g[p])[j2] by {
                if p == q {
                    assert(inner(g[p]) == inner(old_g[p]).push(b));
                    assert(inner(old_g[p])[j1] < old_g.len());
                    if j2 < inner(old_g[p]).len() {
                        assert(inner(old_g[p])[j1] < inner(old_g[p])[j2]);
                    }
                } else if p < old_g.len() {
                    assert(g[p] == old_g[p]);
                } else {
                    assert(g[p] == block);
                }
            }
            assert forall|x: int| 0 <= x < old_g.len() implies (#[trigger] g[x]) is Sequence == old_g[x] is Sequence
                && g[x] is Parallel == old_g[x] is Parallel && g[x] is Task == old_g[x] is Task by {
                if x != q {
                    assert(g[x] == old_g[x]);
                }
            }
            assert forall|x: int| 1 <= x < self.enclosing@.len() implies #[trigger] self.enclosing@[x] < x by {
                if x < old_g.len() {
                    assert(self.enclosing@[x] == old(self).enclosing@[x]);
                }
            }
            assert forall|x: int| 1 <= x < g.len() && (#[trigger] g[x]) is Sequence implies g[self.enclosing@[x] as int] is Sequence by {
                if x < old_g.len() {
                    assert(self.enclosing@[x] == old(self).enclosing@[x]);
                    assert(old_g[x] is Sequence);
                    assert(old_g[old(self).enclosing@[x] as int] is Sequence);
                }
            }
            assert forall|b2: int| 0 <= b2 < g.len() && (#[trigger] g[b2]) is Task && !(block is Task) implies g[b2]->Task_0 < n
                && self.placed@[g[b2]->Task_0 as int] && self.task_block@[g[b2]->Task_0 as int] == b2 by {
                assert(b2 != q);
                assert(b2 < old_g.len());
                assert(g[b2] == old_g[b2]);
            }
            assert forall|x: int| 1 <= x < g.len() && (#[trigger] g[x]) is Sequence implies enclosing_matches(
                g,
                self.parents@,
                self.enclosing@,
                x,
            ) by {
                if x < old_g.len() {
                    assert(old_g[x] is Sequence);
                    assert(enclosing_matches(old_g, old(self).parents@, old(self).enclosing@, x));
                    let p = old(self).parents@[x].0;
                    assert(self.parents@[x] == old(self).parents@[x]);
                    assert(self.enclosing@[x] == old(self).enclosing@[x]);
                    assert(0 <= p < old_g.len());
                    assert(g[p] is Sequence == old_g[p] is Sequence);
                    assert(g[p] is Parallel == old_g[p] is Parallel);
                    if old_g[p] is Parallel {
                        assert(self.parents@[p] == old(self).parents@[p]);
                    }
                } else {
                    assert(self.parents@[x] == (q as int, inner(old_g[q as int]).len() as int));
                    assert(g[q as int] is Sequence == old_g[q as int] is Sequence);
                    assert(g[q as int] is Parallel == old_g[q as int] is Parallel);
                    if old_g[q as int] is Parallel {
                        assert(self.parents@[q as int] == old(self).parents@[q as int]);
                    }
                }
            }
            assert forall|t: int| 0 <= t < n && #[trigger] self.placed@[t] implies self.blocks@[t] < g.len()
                && g[self.blocks@[t] as int] is Sequence && 0 <= self.task_block@[t] < g.len() && g[self.task_block@[t]]
                == Block::Task(t as TaskId) by {
                assert(old_g[self.task_block@[t]] is Task);
                assert(self.task_block@[t] != q);
                assert(g[self.task_block@[t]] == old_g[self.task_block@[t]]);
            }
        }
        Ok(b)
    }

    /// The invariant, but for task `t`'s new block, whose task is not yet
    /// marked as placed.
    spec fn inv_except_task(&self, n: nat, t: TaskId, r: Result<BlockId, GraphError>) -> bool {
        match r {
            Err(_) => true,
            Ok(b) => {
                let g = self.g@;
                &&& tree_with(g, self.parents@)
                &&& lists_increasing(g)
                &&& enclosing_ok(self.enclosing@)
                &&& self.enclosing@.len() == g.len()
                &&& forall|x: int| 1 <= x < g.len() && (#[trigger] g[x]) is Sequence ==> g[self.enclosing@[x] as int] is Sequence
                &&& self.placed@.len() == n
                &&& self.blocks@.len() == n
                &&& self.parallel@.len() == n
                &&& self.task_block@.len() == n
                &&& forall|u: int|
                    0 <= u < n && #[trigger] self.placed@[u] ==> self.blocks@[u] < g.len() && g[self.blocks@[u] as int] is Sequence
                        && 0 <= self.task_block@[u] < g.len() && g[self.task_block@[u]] == Block::Task(u as TaskId)
                &&& forall|u: int|
                    0 <= u < n && (#[trigger] self.parallel@[u]) is Some ==> self.parallel@[u]->0 < g.len()
                        && g[self.parallel@[u]->0 as int] is Parallel
                &&& forall|x: int|
                    0 <= x < g.len() && x != b && (#[trigger] g[x]) is Task ==> g[x]->Task_0 < n && self.placed@[g[x]->Task_0 as int]
                        && self.task_block@[g[x]->Task_0 as int] == x
                &&& forall|x: int| 1 <= x < g.len() && (#[trigger] g[x]) is Sequence ==> enclosing_matches(g, self.parents@, self.enclosing@, x)
                &&& b < g.len() && g[b as int] == Block::Task(t)
                &&& t < n && !self.placed@[t as int]
            },
        }
    }
}

} // verus!

verus! {

/// The activities that order tasks for the layout: each task's index and
/// start time.
pub open spec fn task_starts(log: &RunLog) -> Seq<Activity> {
    Seq::new(log.tasks_logs@.len(), |i: int| (i as TaskId, log.tasks_logs@[i].start_time, 0u64))
}

/// Task `a` is laid out before task `b`: it starts earlier, or at the same
/// time with a smaller index.
pub open spec fn starts_before(log: &RunLog, a: TaskId, b: TaskId) -> bool {
    let sa = log.tasks_logs@[a as int].start_time;
    let sb = log.tasks_logs@[b as int].start_time;
    sa < sb || (sa == sb && a < b)
}

/// Task `t` is among the tasks sorted by start time.
pub open spec fn sorted_has(log: &RunLog, t: int) -> bool {
    exists|k: int|
        0 <= k < stable_sorted(task_starts(log)).len() && (#[trigger] stable_sorted(task_starts(log))[k]).0 == t
}

/// Facts on the tasks sorted by start time: each task appears exactly once.
proof fn lemma_sorted_tasks(log: &RunLog)
    ensures
        stable_sorted(task_starts(log)).len() == log.tasks_logs@.len(),
        forall|k: int|
            0 <= k < stable_sorted(task_starts(log)).len() ==> (#[trigger] stable_sorted(task_starts(log))[k]).0
                < log.tasks_logs@.len(),
        forall|k1: int, k2: int|
            0 <= k1 < stable_sorted(task_starts(log)).len() && 0 <= k2 < stable_sorted(task_starts(log)).len()
                && k1 != k2 ==> (#[trigger] stable_sorted(task_starts(log))[k1]).0 != (
            #[trigger] stable_sorted(task_starts(log))[k2]).0,
        forall|t: int| 0 <= t < log.tasks_logs@.len() ==> #[trigger] sorted_has(log, t),
        forall|x: int, y: int|
            0 <= x < y < stable_sorted(task_starts(log)).len() ==> starts_before(
                log,
                (#[trigger] stable_sorted(task_starts(log))[x]).0,
                (#[trigger] stable_sorted(task_starts(log))[y]).0,
            ),
{
    broadcast use vstd::seq_lib::group_to_multiset_ensures;

    let a = task_starts(log);
    let s = stable_sorted(a);
    lemma_stable_sorted_perm(a);
    assert(log.tasks_logs.len() == log.tasks_logs@.len());
    assert forall|i: int| 0 <= i < a.len() implies (#[trigger] a[i]).0 == i by {}
    assert forall|i: int, j: int| 0 <= i < a.len() && 0 <= j < a.len() && i != j implies a[i] != a[j] by {
        assert(a[i].0 == i && a[j].0 == j);
    }
    assert(a.no_duplicates());
    a.lemma_multiset_has_no_duplicates();
    assert forall|x: Activity| s.to_multiset().count(x) <= 1 by {
        assert(a.to_multiset().count(x) <= 1);
    }
    s.lemma_multiset_has_no_duplicates_conv();
    assert forall|k: int| 0 <= k < s.len() implies (#[trigger] s[k]).0 < a.len() && s[k] == a[s[k].0 as int] by {
        assert(s.to_multiset().contains(s[k]));
        assert(a.to_multiset().contains(s[k]));
        let i = choose|i: int| 0 <= i < a.len() && a[i] == s[k];
        assert(a[i].0 == i);
    }
    assert forall|k1: int, k2: int|
        0 <= k1 < s.len() && 0 <= k2 < s.len() && k1 != k2 implies (#[trigger] s[k1]).0 != (#[trigger] s[k2]).0 by {
        if s[k1].0 == s[k2].0 {
            assert(s[k1] == a[s[k1].0 as int]);
            assert(s[k2] == a[s[k2].0 as int]);
        }
    }
    assert forall|t: int| 0 <= t < a.len() implies #[trigger] sorted_has(log, t) by {
        assert(a.to_multiset().contains(a[t]));
        assert(s.to_multiset().contains(a[t]));
        let k = choose|k: int| 0 <= k < s.len() && s[k] == a[t];
        assert(s[k].0 == t);
    }
    assert forall|i: int, j: int| 0 <= i < j < a.len() implies (#[trigger] a[i]).0 < (#[trigger] a[j]).0 by {}
    lemma_stable_sorted_order(a);
    assert forall|x: int, y: int| 0 <= x < y < s.len() implies starts_before(log, (#[trigger] s[x]).0, (#[trigger] s[y]).0) by {
        assert(activity_before(s[x], s[y]));
        assert(s[x] == a[s[x].0 as int]);
        assert(s[y] == a[s[y].0 as int]);
    }
}

} // verus!

verus! {

impl Layout {
    /// The sequence in which task `t` goes, given its fathers (each a task
    /// that lists it as child) and whether it starts a subgraph; a new
    /// sequence is made when `t` starts a subgraph or has brothers.
    #[verifier::rlimit(50)]
    fn sequence_for(
        &mut self,
        log: &RunLog,
        fathers: &Vec<TaskId>,
        starts: bool,
        ends: &Vec<bool>,
        t: TaskId,
        Ghost(n): Ghost<nat>,
    ) -> (r: Result<BlockId, GraphError>)
        requires
            old(self).inv(n),
            n == log.tasks_logs@.len(),
            ends@.len() == n,
            t < n,
            !old(self).placed@[t as int],
            forall|i: int| 0 <= i < fathers@.len() ==> #[trigger] fathers@[i] < n,
            forall|u: int|
                0 <= u < n && (#[trigger] old(self).parallel@[u]) is Some ==> old(self).parents@[old(
                    self,
                ).parallel@[u]->0 as int].0 == old(self).blocks@[u],
            forall|i: int|
                0 <= i < fathers@.len() && old(self).placed@[#[trigger] fathers@[i] as int] && log.tasks_logs@[fathers@[i] as int].children@.len()
                    != 1 ==> old(self).parallel@[fathers@[i] as int] is Some,
        ensures
            r matches Err(e) ==> (e == GraphError::NotRoot && fathers@.len() == 0 && t != 0) || (e
                == GraphError::FatherNotPlaced && exists|i: int|
                0 <= i < fathers@.len() && !old(self).placed@[#[trigger] fathers@[i] as int]) || (e
                == GraphError::NoEnclosingBlock && fathers@.len() == 1 && log.tasks_logs@[fathers@[0] as int].children@.len()
                == 1 && !starts && ends@[fathers@[0] as int]) || (e == GraphError::SeveralFathersForSubgraph
                && fathers@.len() > 1 && starts) || e == GraphError::TooManyBlocks,
            r matches Ok(s) ==> s < final(self).g@.len() && final(self).g@[s as int] is Sequence,
            r matches Ok(s) ==> final(self).g@.len() == old(self).g@.len() || s == old(self).g@.len(),
            r is Ok ==> final(self).g@.len() <= old(self).g@.len() + 1,
            r matches Err(GraphError::TooManyBlocks) ==> old(self).g@.len() >= usize::MAX - 1,
            final(self).inv(n),
            final(self).placed@ == old(self).placed@,
            final(self).blocks@ == old(self).blocks@,
            final(self).parallel@ == old(self).parallel@,
            final(self).task_block@ == old(self).task_block@,
            extends(old(self).parents@, final(self).parents@),
            extends(old(self).enclosing@, final(self).enclosing@),
            r matches Ok(s) ==> (fathers@.len() == 0 ==> t == 0 && s == 0),
            r matches Ok(s) ==> (fathers@.len() == 1 ==> after_father_rule(
                old(self).g@.len() as int,
                final(self).parents@,
                old(self).enclosing@,
                old(self).blocks@,
                old(self).parallel@,
                old(self).placed@,
                log.tasks_logs@[fathers@[0] as int].children@.len() as int,
                starts,
                ends@[fathers@[0] as int],
                fathers@[0],
                s as int,
            )),
            r matches Ok(s) ==> (fathers@.len() > 1 ==> !starts && common_enclosing(
                old(self).enclosing@,
                s as int,
                fathers@,
                old(self).blocks@,
            ) && forall|i: int| 0 <= i < fathers@.len() ==> old(self).placed@[#[trigger] fathers@[i] as int]),
    {
        reveal(Layout::inv);
        if fathers.len() == 0 {
            if t != 0 {
                return Err(GraphError::NotRoot);
            }
            return Ok(0);
        }
        if fathers.len() == 1 {
            return self.after_father(log, fathers[0], starts, ends, Ghost(n));
        }
        let c = self.first_common_enclosing(fathers, Ghost(n))?;
        if starts {
            return Err(GraphError::SeveralFathersForSubgraph);
        }
        Ok(c)
    }

    /// The sequence of a task whose only father is `f`.
    #[verifier::rlimit(30)]
    fn after_father(&mut self, log: &RunLog, f: TaskId, starts: bool, ends: &Vec<bool>, Ghost(n): Ghost<nat>) -> (r: Result<
        BlockId,
        GraphError,
    >)
        requires
            old(self).inv(n),
            n == log.tasks_logs@.len(),
            ends@.len() == n,
            f < n,
            old(self).parallel@[f as int] is Some ==> old(self).parents@[old(self).parallel@[f as int]->0 as int].0
                == old(self).blocks@[f as int],
            old(self).placed@[f as int] && log.tasks_logs@[f as int].children@.len() != 1 ==> old(
                self,
            ).parallel@[f as int] is Some,
        ensures
            r matches Err(e) ==> (e == GraphError::FatherNotPlaced && !old(self).placed@[f as int]) || (e
                == GraphError::NoEnclosingBlock && log.tasks_logs@[f as int].children@.len() == 1 && !starts
                && ends@[f as int]) || e == GraphError::TooManyBlocks,
            r matches Ok(s) ==> s < final(self).g@.len() && final(self).g@[s as int] is Sequence,
            r matches Ok(s) ==> final(self).g@.len() == old(self).g@.len() || s == old(self).g@.len(),
            r is Ok ==> final(self).g@.len() <= old(self).g@.len() + 1,
            r matches Err(GraphError::TooManyBlocks) ==> old(self).g@.len() >= usize::MAX - 1,
            final(self).inv(n),
            final(self).placed@ == old(self).placed@,
            final(self).blocks@ == old(self).blocks@,
            final(self).parallel@ == old(self).parallel@,
            final(self).task_block@ == old(self).task_block@,
            extends(old(self).parents@, final(self).parents@),
            extends(old(self).enclosing@, final(self).enclosing@),
            r matches Ok(s) ==> after_father_rule(
                old(self).g@.len() as int,
                final(self).parents@,
                old(self).enclosing@,
                old(self).blocks@,
                old(self).parallel@,
                old(self).placed@,
                log.tasks_logs@[f as int].children@.len() as int,
                starts,
                ends@[f as int],
                f,
                s as int,
            ),
    {
        reveal(Layout::inv);
        if !self.placed[f] {
            return Err(GraphError::FatherNotPlaced);
        }
        let fb = self.blocks[f];
        assert(self.placed@[f as int]);
        if log.tasks_logs[f].children.len() == 1 {
            if starts {
                let r = self.add(fb, Block::Sequence(Vec::new()), fb, Ghost(n));
                return r;
            } else if ends[f] {
                if fb == 0 {
                    return Err(GraphError::NoEnclosingBlock);
                }
                let s = self.enclosing[fb];
                return Ok(s);
            } else {
                return Ok(fb);
            }
        } else {
            let p = match self.parallel[f] {
                Some(p) => p,
                None => {
                    return Err(GraphError::FatherNotPlaced);
                },
            };
            let r = self.add(p, Block::Sequence(Vec::new()), fb, Ghost(n));
            return r;
        }
    }

    /// The first (going up) sequence that encloses the sequences of all the
    /// `fathers` (at least two, all placed).
    fn first_common_enclosing(&self, fathers: &Vec<TaskId>, Ghost(n): Ghost<nat>) -> (r: Result<BlockId, GraphError>)
        requires
            self.inv(n),
            fathers@.len() > 1,
            forall|i: int| 0 <= i < fathers@.len() ==> #[trigger] fathers@[i] < n,
        ensures
            r matches Err(e) ==> e == GraphError::FatherNotPlaced && exists|i: int|
                0 <= i < fathers@.len() && !self.placed@[#[trigger] fathers@[i] as int],
            r matches Ok(c) ==> c < self.g@.len() && self.g@[c as int] is Sequence && common_enclosing(
                self.enclosing@,
                c as int,
                fathers@,
                self.blocks@,
            ) && forall|i: int| 0 <= i < fathers@.len() ==> self.placed@[#[trigger] fathers@[i] as int],
    {
        reveal(Layout::inv);
        let f0 = fathers[0];
        if !self.placed[f0] {
            return Err(GraphError::FatherNotPlaced);
        }
        assert(self.placed@[f0 as int]);
        let ghost e = self.enclosing@;
        let ghost bl = self.blocks@;
        let mut c = self.blocks[f0];
        proof {
            assert(up(e, c as int, 0) == c);
            assert forall|d: int| #[trigger] encloses_all(e, d, fathers@.take(1), bl) implies d <= c by {
                assert(fathers@.take(1)[0] == f0);
                assert(encloses(e, d, bl[f0 as int] as int));
                let k = choose|k: nat| #[trigger] up(e, c as int, k) == d;
                lemma_up_bounds(e, c as int, k);
            }
            assert(encloses_all(e, c as int, fathers@.take(1), bl));
        }
        let mut i: usize = 1;
        while i < fathers.len()
            invariant
                self.inv(n),
                e == self.enclosing@,
                bl == self.blocks@,
                1 <= i <= fathers@.len(),
                forall|j: int| 0 <= j < fathers@.len() ==> #[trigger] fathers@[j] < n,
                forall|j: int| 0 <= j < i ==> self.placed@[#[trigger] fathers@[j] as int],
                c < self.g@.len(),
                self.g@[c as int] is Sequence,
                common_enclosing(e, c as int, fathers@.take(i as int), bl),
            decreases fathers@.len() - i,
        {
            proof {
                reveal(Layout::inv);
            }
            let f = fathers[i];
            if !self.placed[f] {
                return Err(GraphError::FatherNotPlaced);
            }
            assert(self.placed@[f as int]);
            let fb = self.blocks[f];
            let a = c;
            c = common_ancestor_block(&self.enclosing, a, fb);
            proof {
                let k = choose|k: nat| #[trigger] up(e, a as int, k) == c;
                lemma_up_sequence(self.g@, e, a as int, k);
                let pre = fathers@.take(i as int);
                let pre1 = fathers@.take(i + 1);
                assert forall|j: int| 0 <= j < pre1.len() implies encloses(e, c as int, #[trigger] bl[pre1[j] as int] as int) by {
                    if j < i {
                        assert(pre1[j] == pre[j]);
                        assert(encloses(e, a as int, bl[pre[j] as int] as int));
                        lemma_encloses_trans(e, c as int, a as int, bl[pre[j] as int] as int);
                    } else {
                        assert(pre1[j] == f);
                    }
                }
                assert forall|d: int| #[trigger] encloses_all(e, d, pre1, bl) implies d <= c by {
                    assert forall|j: int| 0 <= j < pre.len() implies encloses(e, d, #[trigger] bl[pre[j] as int] as int) by {
                        assert(pre1[j] == pre[j]);
                        assert(encloses(e, d, bl[pre1[j] as int] as int));
                    }
                    assert(encloses_all(e, d, pre, bl));
                    assert(d <= a);
                    assert(encloses(e, d, bl[pre1[0] as int] as int));
                    assert(encloses(e, a as int, bl[pre[0] as int] as int));
                    assert(pre1[0] == pre[0]);
                    lemma_encloses_chain(e, d, a as int, bl[pre[0] as int] as int);
                    assert(encloses(e, d, bl[pre1[i as int] as int] as int));
                    assert(pre1[i as int] == f);
                }
            }
            i = i + 1;
        }
        assert(fathers@.take(fathers@.len() as int) == fathers@);
        Ok(c)
    }
}

/// Number of times `c` occurs in `s`.
pub open spec fn occurrences(s: Seq<TaskId>, c: TaskId) -> nat
    decreases s.len(),
{
    if s.len() == 0 {
        0
    } else {
        occurrences(s.drop_last(), c) + if s.last() == c {
            1nat
        } else {
            0nat
        }
    }
}

/// The fathers of task `c` among tasks `0..k`: each task that lists `c`
/// as a child, by increasing index, once for each time it lists it.
pub open spec fn fathers_upto(log: &RunLog, c: TaskId, k: nat) -> Seq<TaskId>
    decreases k,
{
    if k == 0 {
        Seq::empty()
    } else {
        fathers_upto(log, c, (k - 1) as nat) + Seq::new(
            occurrences(log.tasks_logs@[k - 1].children@, c),
            |i: int| (k - 1) as TaskId,
        )
    }
}

/// The fathers of task `c`.
pub open spec fn fathers_of(log: &RunLog, c: TaskId) -> Seq<TaskId> {
    fathers_upto(log, c, log.tasks_logs@.len())
}

/// Task `t` starts a subgraph.
pub open spec fn starts_subgraph(log: &RunLog, t: TaskId) -> bool {
    exists|i: int| 0 <= i < log.subgraphs@.len() && #[trigger] log.subgraphs@[i].0 == t
}

/// Task `t` ends a subgraph.
pub open spec fn ends_subgraph(log: &RunLog, t: TaskId) -> bool {
    exists|i: int| 0 <= i < log.subgraphs@.len() && #[trigger] log.subgraphs@[i].1 == t
}

proof fn lemma_fathers_below(log: &RunLog, c: TaskId, k: nat)
    ensures
        forall|i: int| 0 <= i < fathers_upto(log, c, k).len() ==> #[trigger] fathers_upto(log, c, k)[i] < k,
    decreases k,
{
    if k > 0 {
        lemma_fathers_below(log, c, (k - 1) as nat);
        let a = fathers_upto(log, c, (k - 1) as nat);
        let b = Seq::new(occurrences(log.tasks_logs@[k - 1].children@, c), |i: int| (k - 1) as TaskId);
        assert(fathers_upto(log, c, k) == a + b);
        assert forall|i: int| 0 <= i < (a + b).len() implies #[trigger] (a + b)[i] < k by {
            if i >= a.len() {
                assert((a + b)[i] == b[i - a.len()]);
                assert(log.tasks_logs.len() == log.tasks_logs@.len());
            }
        }
    }
}

/// A father lists at least one child.
proof fn lemma_fathers_have_children(log: &RunLog, c: TaskId, k: nat)
    requires
        k <= log.tasks_logs@.len(),
    ensures
        forall|i: int|
            0 <= i < fathers_upto(log, c, k).len() ==> log.tasks_logs@[#[trigger] fathers_upto(log, c, k)[i] as int].children@.len()
                > 0,
    decreases k,
{
    if k > 0 {
        lemma_fathers_have_children(log, c, (k - 1) as nat);
        let a = fathers_upto(log, c, (k - 1) as nat);
        let cs = log.tasks_logs@[k - 1].children@;
        let b = Seq::new(occurrences(cs, c), |i: int| (k - 1) as TaskId);
        assert(fathers_upto(log, c, k) == a + b);
        assert forall|i: int| 0 <= i < (a + b).len() implies log.tasks_logs@[#[trigger] (a + b)[i] as int].children@.len()
            > 0 by {
            if i >= a.len() {
                assert((a + b)[i] == b[i - a.len()]);
                assert(log.tasks_logs.len() == log.tasks_logs@.len());
                assert(cs.len() > 0);
            } else {
                assert((a + b)[i] == a[i]);
            }
        }
    }
}

/// For each task, its fathers.
fn fathers_of_tasks(log: &RunLog) -> (fathers: Vec<Vec<TaskId>>)
    requires
        log.well_formed(),
    ensures
        fathers@.len() == log.tasks_logs@.len(),
        forall|c: int| 0 <= c < fathers@.len() ==> (#[trigger] fathers@[c])@ == fathers_of(log, c as TaskId),
        forall|c: int, i: int|
            0 <= c < fathers@.len() && 0 <= i < fathers@[c]@.len() ==> #[trigger] fathers@[c]@[i] < fathers@.len(),
{
    let n = log.tasks_logs.len();
    let mut fathers: Vec<Vec<TaskId>> = Vec::new();
    let mut k: usize = 0;
    while k < n
        invariant
            k <= n,
            fathers@.len() == k,
            forall|c: int| 0 <= c < k ==> (#[trigger] fathers@[c])@.len() == 0,
        decreases n - k,
    {
        fathers.push(Vec::new());
        k = k + 1;
    }
    assert forall|c: int| 0 <= c < n implies (#[trigger] fathers@[c])@ == fathers_upto(log, c as TaskId, 0) by {
        assert(fathers@[c]@ == Seq::<TaskId>::empty());
    }
    let mut t: usize = 0;
    while t < n
        invariant
            t <= n,
            n == log.tasks_logs@.len(),
            log.well_formed(),
            fathers@.len() == n,
            forall|c: int| 0 <= c < n ==> (#[trigger] fathers@[c])@ == fathers_upto(log, c as TaskId, t as nat),
            forall|c: int, i: int| 0 <= c < n && 0 <= i < fathers@[c]@.len() ==> #[trigger] fathers@[c]@[i] < t,
        decreases n - t,
    {
        let children = &log.tasks_logs[t].children;
        let ghost cs = children@;
        let mut j: usize = 0;
        assert forall|c: int| 0 <= c < n implies (#[trigger] fathers@[c])@ == fathers_upto(log, c as TaskId, t as nat)
            + Seq::new(occurrences(cs.take(0), c as TaskId), |i: int| t as TaskId) by {
            assert(cs.take(0).len() == 0);
            assert(fathers_upto(log, c as TaskId, t as nat) + Seq::new(0, |i: int| t as TaskId) == fathers_upto(
                log,
                c as TaskId,
                t as nat,
            ));
        }
        while j < children.len()
            invariant
                t < n,
                n == log.tasks_logs@.len(),
                log.well_formed(),
                *children == log.tasks_logs@[t as int].children,
                cs == children@,
                j <= children@.len(),
                fathers@.len() == n,
                forall|c: int|
                    0 <= c < n ==> (#[trigger] fathers@[c])@ == fathers_upto(log, c as TaskId, t as nat) + Seq::new(
                        occurrences(cs.take(j as int), c as TaskId),
                        |i: int| t as TaskId,
                    ),
                forall|c: int, i: int| 0 <= c < n && 0 <= i < fathers@[c]@.len() ==> #[trigger] fathers@[c]@[i] <= t,
            decreases children@.len() - j,
        {
            let c = children[j];
            assert(c == log.tasks_logs@[t as int].children@[j as int]);
            let ghost before = fathers@;
            let mut fs: Vec<TaskId> = Vec::new();
            std::mem::swap(&mut fs, &mut fathers[c]);
            fs.push(t);
            std::mem::swap(&mut fs, &mut fathers[c]);
            proof {
                assert(cs.take(j + 1).drop_last() == cs.take(j as int));
                assert(cs.take(j + 1).last() == c);
                assert forall|d: int| 0 <= d < n implies (#[trigger] fathers@[d])@ == fathers_upto(
                    log,
                    d as TaskId,
                    t as nat,
                ) + Seq::new(occurrences(cs.take(j + 1), d as TaskId), |i: int| t as TaskId) by {
                    let m = occurrences(cs.take(j as int), d as TaskId);
                    if d == c {
                        assert(Seq::new(m + 1, |i: int| t as TaskId) == Seq::new(m, |i: int| t as TaskId).push(t));
                        assert(fathers@[d]@ == before[d]@.push(t));
                    } else {
                        assert(fathers@[d] == before[d]);
                    }
                }
                assert forall|d: int, i: int| 0 <= d < n && 0 <= i < fathers@[d]@.len() implies #[trigger] fathers@[d]@[i]
                    <= t by {
                    if d == c {
                        assert(fathers@[d]@ == before[d]@.push(t));
                        if i < before[d]@.len() {
                            assert(fathers@[d]@[i] == before[d]@[i]);
                        }
                    } else {
                        assert(fathers@[d] == before[d]);
                    }
                }
            }
            j = j + 1;
        }
        proof {
            assert(cs.take(cs.len() as int) == cs);
        }
        t = t + 1;
    }
    fathers
}

/// For each task, whether it starts a subgraph and whether it ends one.
fn subgraph_flags(log: &RunLog) -> (r: (Vec<bool>, Vec<bool>))
    requires
        log.well_formed(),
    ensures
        r.0@.len() == log.tasks_logs@.len(),
        r.1@.len() == log.tasks_logs@.len(),
        forall|t: int| 0 <= t < log.tasks_logs@.len() ==> #[trigger] r.0@[t] == starts_subgraph(log, t as TaskId),
        forall|t: int| 0 <= t < log.tasks_logs@.len() ==> #[trigger] r.1@[t] == ends_subgraph(log, t as TaskId),
{
    let n = log.tasks_logs.len();
    let mut starts: Vec<bool> = Vec::new();
    let mut ends: Vec<bool> = Vec::new();
    let mut k: usize = 0;
    while k < n
        invariant
            k <= n,
            starts@.len() == k,
            ends@.len() == k,
            forall|t: int| 0 <= t < k ==> !(#[trigger] starts@[t]),
            forall|t: int| 0 <= t < k ==> !(#[trigger] ends@[t]),
        decreases n - k,
    {
        starts.push(false);
        ends.push(false);
        k = k + 1;
    }
    let mut i: usize = 0;
    while i < log.subgraphs.len()
        invariant
            n == log.tasks_logs@.len(),
            log.well_formed(),
            starts@.len() == n,
            ends@.len() == n,
            i <= log.subgraphs@.len(),
            forall|t: int|
                0 <= t < n ==> (#[trigger] starts@[t] <==> exists|h: int| 0 <= h < i && #[trigger] log.subgraphs@[h].0 == t),
            forall|t: int|
                0 <= t < n ==> (#[trigger] ends@[t] <==> exists|h: int| 0 <= h < i && #[trigger] log.subgraphs@[h].1 == t),
        decreases log.subgraphs@.len() - i,
    {
        let g = log.subgraphs[i];
        assert(g == log.subgraphs@[i as int]);
        starts.set(g.0, true);
        ends.set(g.1, true);
        proof {
            assert forall|t: int| 0 <= t < n implies (#[trigger] starts@[t] <==> exists|h: int|
                0 <= h < i + 1 && #[trigger] log.subgraphs@[h].0 == t) by {
                if t == g.0 {
                    assert(log.subgraphs@[i as int].0 == t);
                }
            }
            assert forall|t: int| 0 <= t < n implies (#[trigger] ends@[t] <==> exists|h: int|
                0 <= h < i + 1 && #[trigger] log.subgraphs@[h].1 == t) by {
                if t == g.1 {
                    assert(log.subgraphs@[i as int].1 == t);
                }
            }
        }
        i = i + 1;
    }
    (starts, ends)
}



/// What the sequence `s` of a task whose only father is `f` is, once laid
/// out (see `after_father_rule`).
pub open spec fn lasting_father_rule(
    parents: Seq<(int, int)>,
    enclosing: Seq<BlockId>,
    blocks: Seq<BlockId>,
    parallel: Seq<Option<BlockId>>,
    children: int,
    starts: bool,
    ends: bool,
    f: TaskId,
    s: int,
) -> bool {
    let bf = blocks[f as int];
    &&& children == 1 && starts ==> s >= 1 && parents[s].0 == bf
    &&& children == 1 && !starts && ends ==> bf != 0 && s == enclosing[bf as int]
    &&& children == 1 && !starts && !ends ==> s == bf
    &&& children != 1 ==> s >= 1 && parallel[f as int] is Some && parents[s].0 == parallel[f as int]->0
}

/// Task `t` is laid out by the rule, given where each block is listed
/// (`parents`), the sequence enclosing each sequence (`enclosing`), and
/// each task's sequence (`seqs`), block (`task_block`) and parallel block
/// (`parallel`): its block is listed in its sequence, followed at once by
/// its parallel block when it has several children; with no father it is
/// task 0 in the outermost sequence; with one father it goes after the
/// father as `lasting_father_rule` says; with several, it starts no
/// subgraph and goes in the first sequence that encloses all its fathers'.
pub open spec fn placed_by_rule(
    log: &RunLog,
    parents: Seq<(int, int)>,
    enclosing: Seq<BlockId>,
    seqs: Seq<BlockId>,
    task_block: Seq<int>,
    parallel: Seq<Option<BlockId>>,
    t: TaskId,
) -> bool {
    let fs = fathers_of(log, t);
    let s = seqs[t as int];
    let tb = task_block[t as int];
    let children = log.tasks_logs@[t as int].children@.len();
    &&& tb >= 1 && parents[tb].0 == s
    &&& (parallel[t as int] is Some <==> children > 1)
    &&& parallel[t as int] is Some ==> parents[parallel[t as int]->0 as int] == (s as int, parents[tb].1 + 1)
    &&& parallel[t as int] is Some ==> parallel[t as int]->0 == tb + 1
    &&& fs.len() == 1 && (log.tasks_logs@[fs[0] as int].children@.len() != 1 || starts_subgraph(log, t)) ==> s + 1 == tb
    &&& fs.len() == 0 ==> t == 0 && s == 0
    &&& fs.len() == 1 ==> lasting_father_rule(
        parents,
        enclosing,
        seqs,
        parallel,
        log.tasks_logs@[fs[0] as int].children@.len() as int,
        starts_subgraph(log, t),
        ends_subgraph(log, fs[0]),
        fs[0],
        s as int,
    )
    &&& fs.len() > 1 ==> !starts_subgraph(log, t) && common_enclosing(enclosing, s as int, fs, seqs)
}

/// `g` lays the tasks of `log` out by the rule, with the given witnesses
/// (see `placed_by_rule`): `parents` says where each block is listed, each
/// sequence but the root is enclosed by the sequence that lists it or
/// lists its parallel block, and each task has its block, its sequence and
/// its parallel block in `g`. Every block but the root was made for a task:
/// its block, its parallel block right after it, or its new sequence right
/// before it. Blocks are made in start order of their tasks and listed in
/// the order they were made, so the tasks of a sequence come in start order.
pub open spec fn laid_out_with(
    g: Seq<Block>,
    log: &RunLog,
    parents: Seq<(int, int)>,
    enclosing: Seq<BlockId>,
    seqs: Seq<BlockId>,
    task_block: Seq<int>,
    parallel: Seq<Option<BlockId>>,
) -> bool {
    let n = log.tasks_logs@.len();
    &&& tree_with(g, parents)
    &&& enclosing_ok(enclosing)
    &&& enclosing.len() == g.len()
    &&& forall|x: int| 1 <= x < g.len() && (#[trigger] g[x]) is Sequence ==> g[enclosing[x] as int] is Sequence
        && enclosing_matches(g, parents, enclosing, x)
    &&& seqs.len() == n
    &&& task_block.len() == n
    &&& parallel.len() == n
    &&& forall|t: int|
        0 <= t < n ==> #[trigger] seqs[t] < g.len() && g[seqs[t] as int] is Sequence && 0 <= task_block[t] < g.len()
            && g[task_block[t]] == Block::Task(t as TaskId)
    &&& forall|t: int|
        0 <= t < n && (#[trigger] parallel[t]) is Some ==> parallel[t]->0 < g.len() && g[parallel[t]->0 as int] is Parallel
    &&& forall|t: int| 0 <= t < n ==> #[trigger] placed_by_rule(log, parents, enclosing, seqs, task_block, parallel, t as TaskId)
    &&& lists_increasing(g)
    &&& forall|b: int| 1 <= b < g.len() ==> #[trigger] made_by_task(seqs, task_block, parallel, n, b)
    &&& forall|t: int, u: int|
        0 <= t < n && 0 <= u < n && starts_before(log, t as TaskId, u as TaskId) ==> #[trigger] task_block[t]
            < #[trigger] task_block[u]
    &&& forall|t: int, u: int|
        0 <= t < n && 0 <= u < n && starts_before(log, t as TaskId, u as TaskId) && parents[#[trigger] task_block[t]].0
            == parents[#[trigger] task_block[u]].0 ==> parents[task_block[t]].1 < parents[task_block[u]].1
}

/// `g` lays the tasks of `log` out by the rule (see `laid_out_with`).
pub open spec fn laid_out_by_rule(g: Seq<Block>, log: &RunLog) -> bool {
    exists|parents: Seq<(int, int)>, enclosing: Seq<BlockId>, seqs: Seq<BlockId>, task_block: Seq<int>, parallel: Seq<
        Option<BlockId>,
    >| #[trigger] laid_out_with(g, log, parents, enclosing, seqs, task_block, parallel)
}

proof fn lemma_up_extends(old: Seq<BlockId>, new: Seq<BlockId>, x: int, k: nat)
    requires
        extends(old, new),
        enclosing_ok(old),
        0 <= x < old.len(),
    ensures
        up(new, x, k) == up(old, x, k),
    decreases k,
{
    if k > 0 && x > 0 {
        assert(new[x] == old[x]);
        lemma_up_extends(old, new, old[x] as int, (k - 1) as nat);
    }
}

proof fn lemma_encloses_extends(old: Seq<BlockId>, new: Seq<BlockId>, a: int, x: int)
    requires
        extends(old, new),
        enclosing_ok(old),
        0 <= x < old.len(),
    ensures
        encloses(new, a, x) == encloses(old, a, x),
{
    if encloses(new, a, x) {
        let k = choose|k: nat| #[trigger] up(new, x, k) == a;
        lemma_up_extends(old, new, x, k);
    }
    if encloses(old, a, x) {
        let k = choose|k: nat| #[trigger] up(old, x, k) == a;
        lemma_up_extends(old, new, x, k);
    }
}

/// Which blocks enclose the sequences of some tasks does not change when
/// blocks are added.
proof fn lemma_common_enclosing_extends(
    e_old: Seq<BlockId>,
    e_new: Seq<BlockId>,
    bl_old: Seq<BlockId>,
    bl_new: Seq<BlockId>,
    fs: Seq<TaskId>,
    s: int,
)
    requires
        extends(e_old, e_new),
        enclosing_ok(e_old),
        forall|i: int|
            0 <= i < fs.len() ==> 0 <= #[trigger] fs[i] < bl_old.len() && fs[i] < bl_new.len() && bl_new[fs[i] as int]
                == bl_old[fs[i] as int] && bl_old[fs[i] as int] < e_old.len(),
    ensures
        common_enclosing(e_new, s, fs, bl_new) == common_enclosing(e_old, s, fs, bl_old),
{
    assert forall|d: int|
        #![trigger encloses_all(e_new, d, fs, bl_new)]
        #![trigger encloses_all(e_old, d, fs, bl_old)]
        encloses_all(e_new, d, fs, bl_new) == encloses_all(e_old, d, fs, bl_old) by {
        if encloses_all(e_new, d, fs, bl_new) {
            assert forall|i: int| 0 <= i < fs.len() implies encloses(e_old, d, #[trigger] bl_old[fs[i] as int] as int) by {
                assert(encloses(e_new, d, bl_new[fs[i] as int] as int));
                lemma_encloses_extends(e_old, e_new, d, bl_old[fs[i] as int] as int);
            }
        }
        if encloses_all(e_old, d, fs, bl_old) {
            assert forall|i: int| 0 <= i < fs.len() implies encloses(e_new, d, #[trigger] bl_new[fs[i] as int] as int) by {
                assert(encloses(e_old, d, bl_old[fs[i] as int] as int));
                lemma_encloses_extends(e_old, e_new, d, bl_old[fs[i] as int] as int);
            }
        }
    }
}

impl Layout {
    /// How task `t` was laid out: its fathers were laid out before it, and
    /// it was placed by the rule.
    #[verifier::opaque]
    spec fn rule(&self, log: &RunLog, t: TaskId) -> bool {
        let fs = fathers_of(log, t);
        &&& forall|i: int| 0 <= i < fs.len() ==> self.placed@[#[trigger] fs[i] as int]
        &&& placed_by_rule(log, self.parents@, self.enclosing@, self.blocks@, self.task_block@, self.parallel@, t)
    }

    /// Every placed task was laid out by the rule.
    spec fn all_rules(&self, log: &RunLog, n: nat) -> bool {
        forall|u: int| 0 <= u < n && #[trigger] self.placed@[u] ==> self.rule(log, u as TaskId)
    }

    /// Every block but the root was made for a placed task.
    spec fn blocks_made(&self, n: nat) -> bool {
        forall|b: int| 1 <= b < self.g@.len() ==> #[trigger] self.made_by_placed(n, b)
    }

    /// Block `b` was made for a placed task.
    spec fn made_by_placed(&self, n: nat, b: int) -> bool {
        exists|u: int|
            0 <= u < n && self.placed@[u] && #[trigger] made_for(self.blocks@, self.task_block@, self.parallel@, b, u)
    }

    /// Of two placed tasks, the one that starts before has the lower block.
    spec fn tasks_in_start_order(&self, log: &RunLog, n: nat) -> bool {
        forall|u: int, v: int|
            0 <= u < n && 0 <= v < n && #[trigger] self.placed@[u] && #[trigger] self.placed@[v] && starts_before(
                log,
                u as TaskId,
                v as TaskId,
            ) ==> self.task_block@[u] < self.task_block@[v]
    }

    /// Parallel blocks belong to placed tasks.
    spec fn parallel_placed(&self, n: nat) -> bool {
        forall|u: int| (0 <= u < n && (#[trigger] self.parallel@[u]) is Some) ==> self.placed@[u]
    }

    /// The rule holds of task `t` once it is laid out in the sequence that
    /// `sequence_for` chose.
    proof fn lemma_rule_new(
        &self,
        prev: Layout,
        mid_parents: Seq<(int, int)>,
        log: &RunLog,
        t: TaskId,
        n: nat,
        seq: BlockId,
        tb: int,
    )
        requires
            n == log.tasks_logs@.len(),
            t < n,
            prev.task_block@.len() == n,
            enclosing_ok(prev.enclosing@),
            prev.g@.len() >= 1,
            prev.placed@.len() == n,
            prev.blocks@.len() == n,
            prev.parallel@.len() == n,
            forall|v: int| 0 <= v < n && prev.placed@[v] ==> #[trigger] prev.blocks@[v] < prev.enclosing@.len(),
            !prev.placed@[t as int],
            prev.parallel@[t as int] is None,
            seq < mid_parents.len(),
            fathers_of(log, t).len() == 0 ==> t == 0 && seq == 0,
            fathers_of(log, t).len() == 1 ==> after_father_rule(
                prev.g@.len() as int,
                mid_parents,
                prev.enclosing@,
                prev.blocks@,
                prev.parallel@,
                prev.placed@,
                log.tasks_logs@[fathers_of(log, t)[0] as int].children@.len() as int,
                starts_subgraph(log, t),
                ends_subgraph(log, fathers_of(log, t)[0]),
                fathers_of(log, t)[0],
                seq as int,
            ),
            fathers_of(log, t).len() > 1 ==> !starts_subgraph(log, t) && common_enclosing(
                prev.enclosing@,
                seq as int,
                fathers_of(log, t),
                prev.blocks@,
            ) && forall|i: int| 0 <= i < fathers_of(log, t).len() ==> prev.placed@[#[trigger] fathers_of(log, t)[i] as int],
            extends(mid_parents, self.parents@),
            extends(prev.enclosing@, self.enclosing@),
            self.placed@ == prev.placed@.update(t as int, true),
            self.blocks@ == prev.blocks@.update(t as int, seq),
            self.task_block@ == prev.task_block@.update(t as int, tb),
            self.parallel@.len() == n,
            tb >= 1,
            self.parents@[tb].0 == seq,
            self.parallel@[t as int] is Some <==> log.tasks_logs@[t as int].children@.len() > 1,
            self.parallel@[t as int] is Some ==> self.parents@[self.parallel@[t as int]->0 as int] == (
                seq as int,
                self.parents@[tb].1 + 1,
            ),
            self.parallel@[t as int] is Some ==> self.parallel@[t as int]->0 == tb + 1,
            fathers_of(log, t).len() == 1 && (log.tasks_logs@[fathers_of(log, t)[0] as int].children@.len() != 1
                || starts_subgraph(log, t)) ==> seq + 1 == tb,
            forall|v: int| 0 <= v < n && v != t ==> #[trigger] self.parallel@[v] == prev.parallel@[v],
        ensures
            self.rule(log, t),
    {
        reveal(Layout::rule);
        let fs = fathers_of(log, t);
        lemma_fathers_below(log, t, n);
        assert(self.blocks@[t as int] == seq);
        assert(self.task_block@[t as int] == tb);
        if fs.len() == 1 {
            let f = fs[0];
            assert(prev.placed@[f as int]);
            assert(f != t);
            assert(self.blocks@[f as int] == prev.blocks@[f as int]);
            assert(self.parallel@[f as int] == prev.parallel@[f as int]);
            let bf = prev.blocks@[f as int];
            if bf != 0 {
                assert(self.enclosing@[bf as int] == prev.enclosing@[bf as int]);
            }
            assert(self.parents@[seq as int] == mid_parents[seq as int]);
        }
        if fs.len() > 1 {
            assert forall|i: int| 0 <= i < fs.len() implies 0 <= #[trigger] fs[i] < prev.blocks@.len() && fs[i]
                < self.blocks@.len() && self.blocks@[fs[i] as int] == prev.blocks@[fs[i] as int] && prev.blocks@[fs[i] as int]
                < prev.enclosing@.len() by {
                assert(prev.placed@[fs[i] as int]);
            }
            lemma_common_enclosing_extends(prev.enclosing@, self.enclosing@, prev.blocks@, self.blocks@, fs, seq as int);
        }
        assert forall|i: int| 0 <= i < fs.len() implies self.placed@[#[trigger] fs[i] as int] by {
            if fs.len() == 1 {
                assert(prev.placed@[fs[0] as int]);
            }
        }
    }

    /// The rule of a task laid out before still holds.
    proof fn lemma_rule_kept(&self, prev: Layout, log: &RunLog, u: TaskId, n: nat)
        requires
            prev.rule(log, u),
            n == log.tasks_logs@.len(),
            enclosing_ok(prev.enclosing@),
            forall|v: int| 0 <= v < n && prev.placed@[v] ==> #[trigger] prev.blocks@[v] < prev.enclosing@.len(),
            forall|v: int| 0 <= v < n && prev.placed@[v] ==> 0 <= #[trigger] prev.task_block@[v] < prev.parents@.len(),
            forall|v: int|
                0 <= v < n && prev.placed@[v] && (#[trigger] prev.parallel@[v]) is Some ==> prev.parallel@[v]->0
                    < prev.parents@.len(),
            prev.enclosing@.len() == prev.parents@.len(),
            forall|v: int| 0 <= v < n && prev.placed@[v] ==> #[trigger] prev.blocks@[v] < prev.parents@.len(),
            u < n,
            prev.placed@[u as int],
            prev.placed@.len() == n,
            self.placed@.len() == n,
            prev.blocks@.len() == n,
            self.blocks@.len() == n,
            extends(prev.parents@, self.parents@),
            extends(prev.enclosing@, self.enclosing@),
            forall|v: int| 0 <= v < n && prev.placed@[v] ==> #[trigger] self.placed@[v],
            forall|v: int| 0 <= v < n && prev.placed@[v] ==> #[trigger] self.blocks@[v] == prev.blocks@[v],
            forall|v: int| 0 <= v < n && prev.placed@[v] ==> #[trigger] self.task_block@[v] == prev.task_block@[v],
            forall|v: int| 0 <= v < n && prev.placed@[v] ==> #[trigger] self.parallel@[v] == prev.parallel@[v],
        ensures
            self.rule(log, u),
    {
        reveal(Layout::rule);
        let fs = fathers_of(log, u);
        lemma_fathers_below(log, u, log.tasks_logs@.len());
        let tb = prev.task_block@[u as int];
        assert(self.parents@[tb] == prev.parents@[tb]);
        if prev.parallel@[u as int] is Some {
            assert(self.parents@[prev.parallel@[u as int]->0 as int] == prev.parents@[prev.parallel@[u as int]->0 as int]);
        }
        assert forall|i: int| 0 <= i < fs.len() implies self.placed@[#[trigger] fs[i] as int] by {
            assert(prev.placed@[fs[i] as int]);
        }
        if fs.len() == 1 {
            let f = fs[0];
            assert(prev.placed@[f as int]);
            let bf = prev.blocks@[f as int];
            let s = prev.blocks@[u as int];
            if bf != 0 {
                assert(self.enclosing@[bf as int] == prev.enclosing@[bf as int]);
            }
            if s >= 1 {
                assert(self.parents@[s as int] == prev.parents@[s as int]);
            }
        }
        if fs.len() > 1 {
            assert forall|i: int| 0 <= i < fs.len() implies 0 <= #[trigger] fs[i] < prev.blocks@.len() && fs[i]
                < self.blocks@.len() && self.blocks@[fs[i] as int] == prev.blocks@[fs[i] as int] && prev.blocks@[fs[i] as int]
                < prev.enclosing@.len() by {
                assert(prev.placed@[fs[i] as int]);
            }
            lemma_common_enclosing_extends(prev.enclosing@, self.enclosing@, prev.blocks@, self.blocks@, fs, prev.blocks@[u as int] as int);
        }
    }

    /// What the laying out of one task needs to know of the invariant.
    proof fn lemma_inv_facts(&self, n: nat)
        requires
            self.inv(n),
        ensures
            enclosing_ok(self.enclosing@),
            lists_increasing(self.g@),
            self.g@.len() >= 1,
            self.enclosing@.len() == self.g@.len(),
            self.parents@.len() == self.g@.len(),
            self.placed@.len() == n,
            self.blocks@.len() == n,
            self.parallel@.len() == n,
            self.task_block@.len() == n,
            forall|v: int| 0 <= v < n && #[trigger] self.placed@[v] ==> self.blocks@[v] < self.g@.len(),
            forall|v: int| 0 <= v < n && #[trigger] self.placed@[v] ==> 0 <= self.task_block@[v] < self.g@.len(),
            forall|v: int| 0 <= v < n && (#[trigger] self.parallel@[v]) is Some ==> self.parallel@[v]->0 < self.g@.len(),
    {
        reveal(Layout::inv);
    }

    /// List task `t`'s block at the end of sequence `seq`.
    fn put_task(&mut self, seq: BlockId, t: TaskId, Ghost(n): Ghost<nat>) -> (r: Result<BlockId, GraphError>)
        requires
            old(self).inv(n),
            seq < old(self).g@.len(),
            old(self).g@[seq as int] is Sequence,
            t < n,
            !old(self).placed@[t as int],
        ensures
            r matches Err(e) ==> e == GraphError::TooManyBlocks,
            r is Err ==> old(self).g@.len() >= usize::MAX - 1,
            r is Ok ==> final(self).g@.len() == old(self).g@.len() + 1,
            r matches Ok(tb) ==> (final(self).inv(n) && tb == old(self).g@.len() && final(self).placed@ == old(
                self,
            ).placed@.update(t as int, true) && final(self).blocks@ == old(self).blocks@.update(t as int, seq)
                && final(self).task_block@ == old(self).task_block@.update(t as int, tb as int) && final(self).parallel@
                == old(self).parallel@ && final(self).parents@ == old(self).parents@.push(
                (seq as int, inner(old(self).g@[seq as int]).len() as int),
            ) && inner(final(self).g@[seq as int]) == inner(old(self).g@[seq as int]).push(tb) && final(self).g@.len() > seq && final(self).g@[seq as int] is Sequence && extends(
                old(self).enclosing@,
                final(self).enclosing@,
            )),
    {
        reveal(Layout::inv);
        let tb = self.add(seq, Block::Task(t), 0, Ghost(n))?;
        self.placed.set(t, true);
        self.blocks.set(t, seq);
        self.task_block = Ghost(self.task_block@.update(t as int, tb as int));
        proof {
            let g = self.g@;
            assert forall|x: int| 0 <= x < g.len() && (#[trigger] g[x]) is Task implies g[x]->Task_0 < n
                && self.placed@[g[x]->Task_0 as int] && self.task_block@[g[x]->Task_0 as int] == x by {
                if x != tb {
                    assert(g[x]->Task_0 != t);
                }
            }
        }
        Ok(tb)
    }

    /// List a parallel block for task `t`'s children at the end of
    /// sequence `seq`.
    fn put_parallel(&mut self, seq: BlockId, t: TaskId, Ghost(n): Ghost<nat>) -> (r: Result<BlockId, GraphError>)
        requires
            old(self).inv(n),
            seq < old(self).g@.len(),
            old(self).g@[seq as int] is Sequence,
            t < n,
        ensures
            r matches Err(e) ==> e == GraphError::TooManyBlocks,
            r is Err ==> old(self).g@.len() >= usize::MAX - 1,
            r is Ok ==> final(self).g@.len() == old(self).g@.len() + 1,
            r matches Ok(pb) ==> (final(self).inv(n) && pb == old(self).g@.len() && final(self).placed@ == old(
                self,
            ).placed@ && final(self).blocks@ == old(self).blocks@ && final(self).task_block@ == old(self).task_block@
                && final(self).parallel@ == old(self).parallel@.update(t as int, Some(pb)) && final(self).parents@
                == old(self).parents@.push((seq as int, inner(old(self).g@[seq as int]).len() as int)) && extends(
                old(self).enclosing@,
                final(self).enclosing@,
            )),
    {
        reveal(Layout::inv);
        let pb = self.add(seq, Block::Parallel(Vec::new()), 0, Ghost(n))?;
        self.parallel.set(t, Some(pb));
        Ok(pb)
    }

    /// Lay task `t` out after its `fathers`.
    #[verifier::rlimit(100)]
    fn place(
        &mut self,
        log: &RunLog,
        fathers: &Vec<TaskId>,
        starts: &Vec<bool>,
        ends: &Vec<bool>,
        t: TaskId,
        Ghost(n): Ghost<nat>,
    ) -> (r: Result<(), GraphError>)
        requires
            old(self).inv(n),
            old(self).all_rules(log, n),
            old(self).parallel_placed(n),
            old(self).tasks_in_start_order(log, n),
            old(self).blocks_made(n),
            forall|u: int| 0 <= u < n && #[trigger] old(self).placed@[u] ==> starts_before(log, u as TaskId, t),
            n == log.tasks_logs@.len(),
            t < n,
            !old(self).placed@[t as int],
            fathers@ == fathers_of(log, t),
            forall|i: int| 0 <= i < fathers@.len() ==> #[trigger] fathers@[i] < n,
            starts@.len() == n,
            ends@.len() == n,
            forall|u: int| 0 <= u < n ==> #[trigger] starts@[u] == starts_subgraph(log, u as TaskId),
            forall|u: int| 0 <= u < n ==> #[trigger] ends@[u] == ends_subgraph(log, u as TaskId),
        ensures
            r matches Ok(_) ==> (final(self).inv(n) && final(self).all_rules(log, n) && final(self).parallel_placed(n)
                && final(self).placed@ == old(self).placed@.update(t as int, true)),
            r is Ok ==> forall|i: int| 0 <= i < fathers@.len() ==> old(self).placed@[#[trigger] fathers@[i] as int],
            r is Ok ==> final(self).g@.len() <= old(self).g@.len() + 3,
            r is Ok ==> final(self).tasks_in_start_order(log, n),
            r is Ok ==> final(self).blocks_made(n),
            r matches Err(GraphError::TooManyBlocks) ==> old(self).g@.len() + 3 >= usize::MAX,
            r matches Err(e) ==> (e == GraphError::NotRoot && fathers@.len() == 0 && t != 0) || (e
                == GraphError::FatherNotPlaced && exists|i: int|
                0 <= i < fathers@.len() && !old(self).placed@[#[trigger] fathers@[i] as int]) || (e
                == GraphError::NoEnclosingBlock && fathers@.len() == 1 && log.tasks_logs@[fathers@[0] as int].children@.len()
                == 1 && !starts_subgraph(log, t) && ends_subgraph(log, fathers@[0])) || (e
                == GraphError::SeveralFathersForSubgraph && fathers@.len() > 1 && starts_subgraph(log, t)) || e
                == GraphError::TooManyBlocks,
    {
        let ghost prev = *self;
        proof {
            self.lemma_inv_facts(n);
            assert(log.tasks_logs.len() == n);
            assert forall|u: int| 0 <= u < n && (#[trigger] self.parallel@[u]) is Some implies self.parents@[
                self.parallel@[u]->0 as int
            ].0 == self.blocks@[u] by {
                reveal(Layout::rule);
                assert(self.placed@[u]);
                assert(self.rule(log, u as TaskId));
            }
            lemma_fathers_have_children(log, t, n);
            assert forall|i: int|
                0 <= i < fathers@.len() && self.placed@[#[trigger] fathers@[i] as int] && log.tasks_logs@[fathers@[i] as int].children@.len()
                    != 1 implies self.parallel@[fathers@[i] as int] is Some by {
                reveal(Layout::rule);
                assert(self.rule(log, fathers@[i]));
            }
        }
        let seq = self.sequence_for(log, fathers, starts[t], ends, t, Ghost(n))?;
        let ghost mid = *self;
        proof {
            self.lemma_inv_facts(n);
        }
        let tb = self.put_task(seq, t, Ghost(n))?;
        proof {
            assert forall|u: int, v: int|
                0 <= u < n && 0 <= v < n && #[trigger] self.placed@[u] && #[trigger] self.placed@[v] && starts_before(
                    log,
                    u as TaskId,
                    v as TaskId,
                ) implies self.task_block@[u] < self.task_block@[v] by {
                if u == t as int && v != t as int {
                    assert(prev.placed@[v]);
                    assert(starts_before(log, v as TaskId, t));
                } else if v == t as int && u != t as int {
                    assert(prev.placed@[u]);
                    assert(mid.placed@[u]);
                } else if u != t as int && v != t as int {
                    assert(prev.placed@[u] && prev.placed@[v]);
                }
            }
        }
        let ghost m = inner(mid.g@[seq as int]).len() as int;
        let ghost after_task = *self;
        if log.tasks_logs[t].children.len() > 1 {
            proof {
                self.lemma_inv_facts(n);
            }
            let pb = self.put_parallel(seq, t, Ghost(n))?;
            assert(self.parents@[pb as int] == (seq as int, m + 1));
            assert(pb == tb + 1);
        }
        proof {
            self.lemma_inv_facts(n);
            assert(self.parents@[tb as int] == after_task.parents@[tb as int]);
            assert(self.parents@[tb as int] == (seq as int, m));
            assert(self.parallel@[t as int] is Some ==> self.parents@[self.parallel@[t as int]->0 as int] == (
                seq as int,
                m + 1,
            ));
            assert forall|u: int| 0 <= u < n && (#[trigger] self.parallel@[u]) is Some implies self.placed@[u] by {
                if u != t {
                    assert(prev.parallel@[u] is Some);
                }
            }
            self.lemma_rule_new(prev, mid.parents@, log, t, n, seq, tb as int);
            assert forall|b: int| 1 <= b < self.g@.len() implies #[trigger] self.made_by_placed(n, b) by {
                if b < prev.g@.len() {
                    assert(prev.made_by_placed(n, b));
                    let u = choose|u: int|
                        0 <= u < n && prev.placed@[u] && #[trigger] made_for(
                            prev.blocks@,
                            prev.task_block@,
                            prev.parallel@,
                            b,
                            u,
                        );
                    assert(u != t);
                    assert(made_for(self.blocks@, self.task_block@, self.parallel@, b, u));
                } else {
                    assert(made_for(self.blocks@, self.task_block@, self.parallel@, b, t as int));
                }
            }
            assert forall|u: int| 0 <= u < n && #[trigger] self.placed@[u] implies self.rule(log, u as TaskId) by {
                if u != t {
                    assert(prev.placed@[u]);
                    assert(prev.rule(log, u as TaskId));
                    self.lemma_rule_kept(prev, log, u as TaskId, n);
                }
            }
        }
        Ok(())
    }
}

/// A father that is not laid out when its child is comes after the child.
proof fn lemma_father_after(log: &RunLog, sorted: Seq<Activity>, placed: Seq<bool>, k: int, t: TaskId, f: TaskId)
    requires
        sorted == stable_sorted(task_starts(log)),
        0 <= k < sorted.len(),
        sorted[k].0 == t,
        f < log.tasks_logs@.len(),
        !placed[f as int],
        sorted_has(log, f as int),
        forall|u: int|
            0 <= u < log.tasks_logs@.len() ==> (#[trigger] placed[u] <==> exists|x: int|
                0 <= x < k && #[trigger] sorted[x].0 == u),
        forall|x: int, y: int| 0 <= x < y < sorted.len() ==> starts_before(log, (#[trigger] sorted[x]).0, (#[trigger] sorted[y]).0),
    ensures
        !starts_before(log, f, t),
{
    let x = choose|x: int| 0 <= x < sorted.len() && (#[trigger] sorted[x]).0 == f;
    if x < k {
        assert(placed[f as int]);
    }
    if f != t {
        assert(x != k);
        assert(starts_before(log, sorted[k].0, sorted[x].0));
    }
}

/// Lay the tasks of `log` out as nested blocks: tasks are taken by
/// increasing start time (equal start times by index) and each goes in a
/// sequence: after its father's task when it has one father and no
/// brother (in a new nested sequence when it starts a subgraph, in the
/// sequence enclosing its father's when its father ends a subgraph), in a
/// new sequence of its father's parallel block when it has brothers, and in
/// the first sequence enclosing all its fathers' when it has several. A
/// task with several children is followed by a parallel block. The layout
/// fails when a task other than task 0 has no father, when a father is not
/// laid out before its child, when a subgraph ends in the outermost
/// sequence, when a task with several fathers starts a subgraph, or when
/// block indices run out.
pub fn create_graph(log: &RunLog) -> (r: Result<Vec<Block>, GraphError>)
    requires
        log.well_formed(),
    ensures
        r matches Ok(g) ==> is_tree(g@) && covers_tasks(g@, log.tasks_logs@.len() as nat) && laid_out_by_rule(g@, log),
        r is Ok ==> forall|t: int, i: int|
            0 <= t < log.tasks_logs@.len() && 0 <= i < fathers_of(log, t as TaskId).len() ==> starts_before(
                log,
                #[trigger] fathers_of(log, t as TaskId)[i],
                t as TaskId,
            ),
        r matches Err(GraphError::NotRoot) ==> exists|t: int|
            0 < t < log.tasks_logs@.len() && (#[trigger] fathers_of(log, t as TaskId)).len() == 0,
        r matches Err(GraphError::FatherNotPlaced) ==> exists|t: int, i: int|
            0 <= t < log.tasks_logs@.len() && 0 <= i < fathers_of(log, t as TaskId).len() && !starts_before(
                log,
                #[trigger] fathers_of(log, t as TaskId)[i],
                t as TaskId,
            ),
        r matches Err(GraphError::NoEnclosingBlock) ==> exists|t: int|
            0 <= t < log.tasks_logs@.len() && (#[trigger] fathers_of(log, t as TaskId)).len() == 1
                && log.tasks_logs@[fathers_of(log, t as TaskId)[0] as int].children@.len() == 1 && !starts_subgraph(
                log,
                t as TaskId,
            ) && ends_subgraph(log, fathers_of(log, t as TaskId)[0]),
        r matches Err(GraphError::TooManyBlocks) ==> 3 * log.tasks_logs@.len() + 1 >= usize::MAX,
        r matches Err(GraphError::SeveralFathersForSubgraph) ==> exists|t: int|
            0 <= t < log.tasks_logs@.len() && (#[trigger] fathers_of(log, t as TaskId)).len() > 1 && starts_subgraph(
                log,
                t as TaskId,
            ),
{
    reveal(Layout::inv);
    let n = log.tasks_logs.len();
    let ghost gn = n as nat;
    let fathers = fathers_of_tasks(log);
    let (starts, ends) = subgraph_flags(log);
    let mut acts: Vec<Activity> = Vec::new();
    let mut t: usize = 0;
    while t < n
        invariant
            t <= n,
            n == log.tasks_logs@.len(),
            acts@ == task_starts(log).take(t as int),
        decreases n - t,
    {
        acts.push((t, log.tasks_logs[t].start_time, 0));
        assert(acts@ == task_starts(log).take(t + 1));
        t = t + 1;
    }
    assert(acts@ == task_starts(log));
    let sorted = sort_by_start(acts);
    proof {
        lemma_sorted_tasks(log);
    }
    let mut placed: Vec<bool> = Vec::new();
    let mut blocks: Vec<BlockId> = Vec::new();
    let mut parallel: Vec<Option<BlockId>> = Vec::new();
    let mut k: usize = 0;
    while k < n
        invariant
            k <= n,
            placed@.len() == k,
            blocks@.len() == k,
            parallel@.len() == k,
            forall|u: int| 0 <= u < k ==> !(#[trigger] placed@[u]),
            forall|u: int| 0 <= u < k ==> (#[trigger] parallel@[u]) is None,
        decreases n - k,
    {
        placed.push(false);
        blocks.push(0);
        parallel.push(None);
        k = k + 1;
    }
    let mut root: Vec<Block> = Vec::new();
    root.push(Block::Sequence(Vec::new()));
    let mut enclosing: Vec<BlockId> = Vec::new();
    enclosing.push(0);
    let ghost p0 = seq![(0int, 0int)];
    let ghost tb0 = Seq::new(n as nat, |u: int| 0int);
    let mut lay = Layout {
        g: root,
        enclosing,
        placed,
        blocks,
        parallel,
        parents: Ghost(p0),
        task_block: Ghost(tb0),
    };
    proof {
        let g = lay.g@;
        assert(inner(g[0]).len() == 0);
        assert forall|b: int| 0 <= b < g.len() && (#[trigger] g[b]) is Task implies false by {
            assert(b == 0);
        }
    }
    assert(lay.inv(gn));
    assert(lay.all_rules(log, gn));
    assert(lay.parallel_placed(gn));
    assert(lay.tasks_in_start_order(log, gn));
    assert(lay.blocks_made(gn));
    let mut k: usize = 0;
    while k < n
        invariant
            k <= n,
            n == log.tasks_logs@.len(),
            gn == n,
            lay.inv(gn),
            lay.all_rules(log, gn),
            lay.parallel_placed(gn),
            lay.tasks_in_start_order(log, gn),
            lay.blocks_made(gn),
            lay.g@.len() <= 1 + 3 * k,
            sorted@ == stable_sorted(task_starts(log)),
            sorted@.len() == n,
            forall|x: int| 0 <= x < sorted@.len() ==> (#[trigger] sorted@[x]).0 < n,
            forall|k1: int, k2: int|
                0 <= k1 < sorted@.len() && 0 <= k2 < sorted@.len() && k1 != k2 ==> (#[trigger] sorted@[k1]).0 != (
                #[trigger] sorted@[k2]).0,
            forall|u: int| 0 <= u < n ==> #[trigger] sorted_has(log, u),
            fathers@.len() == n,
            forall|c: int| 0 <= c < n ==> (#[trigger] fathers@[c])@ == fathers_of(log, c as TaskId),
            forall|c: int, i: int| 0 <= c < n && 0 <= i < fathers@[c]@.len() ==> #[trigger] fathers@[c]@[i] < n,
            starts@.len() == n,
            ends@.len() == n,
            forall|u: int| 0 <= u < n ==> #[trigger] starts@[u] == starts_subgraph(log, u as TaskId),
            forall|u: int| 0 <= u < n ==> #[trigger] ends@[u] == ends_subgraph(log, u as TaskId),
            forall|u: int| 0 <= u < n ==> (#[trigger] lay.placed@[u] <==> exists|x: int| 0 <= x < k && #[trigger] sorted@[x].0 == u),
            forall|x: int, y: int|
                0 <= x < y < sorted@.len() ==> starts_before(log, (#[trigger] sorted@[x]).0, (#[trigger] sorted@[y]).0),
            forall|u: int, i: int|
                0 <= u < n && lay.placed@[u] && 0 <= i < fathers_of(log, u as TaskId).len() ==> starts_before(
                    log,
                    #[trigger] fathers_of(log, u as TaskId)[i],
                    u as TaskId,
                ),
        decreases n - k,
    {
        let t = sorted[k].0;
        proof {
            lay.lemma_inv_facts(gn);
            if lay.placed@[t as int] {
                let x = choose|x: int| 0 <= x < k && #[trigger] sorted@[x].0 == t;
                assert(sorted@[x].0 != sorted@[k as int].0);
            }
            assert(fathers@[t as int]@ == fathers_of(log, t));
        }
        assert(forall|i: int| 0 <= i < fathers@[t as int]@.len() ==> #[trigger] fathers@[t as int]@[i] < n);
        let ghost placed_before = lay.placed@;
        proof {
            assert forall|u: int| 0 <= u < n && #[trigger] lay.placed@[u] implies starts_before(log, u as TaskId, t) by {
                let x = choose|x: int| 0 <= x < k && #[trigger] sorted@[x].0 == u;
                assert(sorted@[k as int].0 == t);
            }
        }
        match lay.place(log, &fathers[t], &starts, &ends, t, Ghost(gn)) {
            Ok(()) => {},
            Err(e) => {
                proof {
                    let fs = fathers_of(log, t);
                    if e == GraphError::FatherNotPlaced {
                        let i = choose|i: int| 0 <= i < fs.len() && !placed_before[#[trigger] fs[i] as int];
                        lemma_father_after(log, sorted@, placed_before, k as int, t, fs[i]);
                        assert(!starts_before(log, fathers_of(log, t as int as TaskId)[i], t as int as TaskId));
                    }
                    if e == GraphError::NotRoot {
                        assert(fathers_of(log, t as int as TaskId).len() == 0);
                    }
                    if e == GraphError::NoEnclosingBlock {
                        assert(fathers_of(log, t as int as TaskId).len() == 1);
                    }
                    if e == GraphError::SeveralFathersForSubgraph {
                        assert(fathers_of(log, t as int as TaskId).len() > 1);
                    }
                }
                return Err(e);
            },
        }
        proof {
            let fs = fathers_of(log, t);
            assert forall|i: int| 0 <= i < fs.len() implies starts_before(log, #[trigger] fs[i], t) by {
                assert(placed_before[fs[i] as int]);
                let x = choose|x: int| 0 <= x < k && #[trigger] sorted@[x].0 == fs[i];
                assert(sorted@[k as int].0 == t);
            }
            assert forall|u: int, i: int|
                0 <= u < n && lay.placed@[u] && 0 <= i < fathers_of(log, u as TaskId).len() implies starts_before(
                log,
                #[trigger] fathers_of(log, u as TaskId)[i],
                u as TaskId,
            ) by {
                if u != t {
                    assert(placed_before[u]);
                }
            }
        }
        proof {
            assert forall|u: int| 0 <= u < n implies (#[trigger] lay.placed@[u] <==> exists|x: int|
                0 <= x < k + 1 && #[trigger] sorted@[x].0 == u) by {
                if u == t {
                    assert(sorted@[k as int].0 == u);
                }
            }
        }
        k = k + 1;
    }
    proof {
        let g = lay.g@;
        lemma_tree_with(g, lay.parents@);
        assert forall|u: TaskId| u < gn implies #[trigger] has_task(g, u) by {
            assert(sorted_has(log, u as int));
            let x = choose|x: int| 0 <= x < sorted@.len() && #[trigger] sorted@[x].0 == u;
            assert(lay.placed@[u as int]);
            assert(is_task_block(g, lay.task_block@[u as int], u));
        }
        assert forall|b1: int, b2: int, u: TaskId|
            #[trigger] is_task_block(g, b1, u) && #[trigger] is_task_block(g, b2, u) implies b1 == b2 by {
            assert(g[b1] is Task && g[b2] is Task);
        }
        assert forall|u: int| 0 <= u < gn implies #[trigger] placed_by_rule(
            log,
            lay.parents@,
            lay.enclosing@,
            lay.blocks@,
            lay.task_block@,
            lay.parallel@,
            u as TaskId,
        ) by {
            assert(sorted_has(log, u));
            let x = choose|x: int| 0 <= x < sorted@.len() && #[trigger] sorted@[x].0 == u;
            assert(lay.placed@[u]);
            assert(lay.rule(log, u as TaskId));
            reveal(Layout::rule);
        }
        assert forall|u: int| 0 <= u < gn implies #[trigger] lay.blocks@[u] < g.len() && g[lay.blocks@[u] as int] is Sequence
            && 0 <= lay.task_block@[u] < g.len() && g[lay.task_block@[u]] == Block::Task(u as TaskId) by {
            assert(sorted_has(log, u));
            let x = choose|x: int| 0 <= x < sorted@.len() && #[trigger] sorted@[x].0 == u;
            assert(lay.placed@[u]);
        }
        lay.lemma_inv_facts(gn);
        assert forall|b: int| 1 <= b < g.len() implies #[trigger] made_by_task(
            lay.blocks@,
            lay.task_block@,
            lay.parallel@,
            gn,
            b,
        ) by {
            assert(lay.made_by_placed(gn, b));
            let u = choose|u: int|
                0 <= u < gn && lay.placed@[u] && #[trigger] made_for(lay.blocks@, lay.task_block@, lay.parallel@, b, u);
            assert(made_for(lay.blocks@, lay.task_block@, lay.parallel@, b, u));
        }
        assert forall|t: int, u: int|
            0 <= t < gn && 0 <= u < gn && starts_before(log, t as TaskId, u as TaskId) implies #[trigger] lay.task_block@[t]
            < #[trigger] lay.task_block@[u] by {
            assert(sorted_has(log, t));
            let x = choose|x: int| 0 <= x < sorted@.len() && #[trigger] sorted@[x].0 == t;
            assert(sorted_has(log, u));
            let y = choose|y: int| 0 <= y < sorted@.len() && #[trigger] sorted@[y].0 == u;
            assert(lay.placed@[t] && lay.placed@[u]);
        }
        assert forall|t: int, u: int|
            0 <= t < gn && 0 <= u < gn && starts_before(log, t as TaskId, u as TaskId) && lay.parents@[
                #[trigger] lay.task_block@[t]
            ].0 == lay.parents@[#[trigger] lay.task_block@[u]].0 implies lay.parents@[lay.task_block@[t]].1
            < lay.parents@[lay.task_block@[u]].1 by {
            let bt = lay.task_block@[t];
            let bu = lay.task_block@[u];
            assert(bt < bu);
            assert(placed_by_rule(log, lay.parents@, lay.enclosing@, lay.blocks@, lay.task_block@, lay.parallel@, t as TaskId));
            assert(placed_by_rule(log, lay.parents@, lay.enclosing@, lay.blocks@, lay.task_block@, lay.parallel@, u as TaskId));
            assert(bt >= 1 && bu >= 1);
            let (p, jt) = lay.parents@[bt];
            let ju = lay.parents@[bu].1;
            assert(listed_at(g, bt, p, jt));
            assert(listed_at(g, bu, p, ju));
            if ju < jt {
                assert(inner(g[p])[ju] < inner(g[p])[jt]);
            }
        }
        assert(laid_out_with(g, log, lay.parents@, lay.enclosing@, lay.blocks@, lay.task_block@, lay.parallel@));
        assert forall|u: int, i: int| 0 <= u < gn && 0 <= i < fathers_of(log, u as TaskId).len() implies starts_before(
            log,
            #[trigger] fathers_of(log, u as TaskId)[i],
            u as TaskId,
        ) by {
            assert(sorted_has(log, u));
            let x = choose|x: int| 0 <= x < sorted@.len() && #[trigger] sorted@[x].0 == u;
            assert(lay.placed@[u]);
        }
    }
    Ok(lay.g)
}

} // verus!
