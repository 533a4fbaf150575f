//! Questions asked of a run log: which tasks a subgraph spans, how many
//! tasks and how much time each tag accounts for, and how tags are shared
//! between several logs.
use crate::codec::strings_view;
use crate::events::{SubGraphId, TaskId, TimeStamp};
use crate::runlog::{RunLog, TaskModel};
use vstd::prelude::*;

verus! {

/// Children of each task, by task index.
pub open spec fn children_of(log: &RunLog) -> Seq<Seq<TaskId>> {
    log.tasks_logs@.map_values(|t: crate::runlog::TaskLog| t.children@)
}

/// `p` goes from `start` along children links and never leaves `end`.
pub open spec fn is_walk(children: Seq<Seq<TaskId>>, start: TaskId, end: TaskId, p: Seq<TaskId>) -> bool {
    &&& p.len() > 0
    &&& p[0] == start
    &&& forall|i: int|
        0 <= i < p.len() - 1 ==> #[trigger] p[i] != end && p[i] < children.len()
            && children[p[i] as int].contains(p[i + 1])
}

/// Task `x` lies between `start` and `end`: some walk from `start` that
/// goes no further than `end` reaches it.
pub open spec fn between(children: Seq<Seq<TaskId>>, start: TaskId, end: TaskId, x: TaskId) -> bool {
    exists|p: Seq<TaskId>| #[trigger] is_walk(children, start, end, p) && p.last() == x
}

/// A walk extended by a child of its last task, which is not `end`.
proof fn lemma_walk_extend(children: Seq<Seq<TaskId>>, start: TaskId, end: TaskId, x: TaskId, c: TaskId)
    requires
        between(children, start, end, x),
        x != end,
        x < children.len(),
        children[x as int].contains(c),
    ensures
        between(children, start, end, c),
{
    let p = choose|p: Seq<TaskId>| #[trigger] is_walk(children, start, end, p) && p.last() == x;
    let q = p.push(c);
    assert forall|i: int| 0 <= i < q.len() - 1 implies #[trigger] q[i] != end && q[i] < children.len()
        && children[q[i] as int].contains(q[i + 1]) by {
        if i < p.len() - 1 {
            assert(q[i] == p[i] && q[i + 1] == p[i + 1]);
        } else {
            assert(q[i] == x && q[i + 1] == c);
        }
    }
    assert(is_walk(children, start, end, q));
}

/// Every task on a walk is in a set that holds `start` and, with each task
/// other than `end`, all its children.
proof fn lemma_walk_closed(
    children: Seq<Seq<TaskId>>,
    start: TaskId,
    end: TaskId,
    seen: Seq<bool>,
    p: Seq<TaskId>,
    i: int,
)
    requires
        is_walk(children, start, end, p),
        0 <= i < p.len(),
        seen.len() == children.len(),
        start < seen.len(),
        seen[start as int],
        forall|x: int, j: int|
            #![trigger children[x][j]]
            0 <= x < seen.len() && seen[x] && x != end && 0 <= j < children[x].len() ==> children[x][j]
                < seen.len() && seen[children[x][j] as int],
    ensures
        p[i] < seen.len(),
        seen[p[i] as int],
    decreases i,
{
    if i > 0 {
        lemma_walk_closed(children, start, end, seen, p, i - 1);
        let x = p[i - 1];
        assert(x != end && x < children.len() && children[x as int].contains(p[i]));
        let j = choose|j: int| 0 <= j < children[x as int].len() && children[x as int][j] == p[i];
        assert(children[x as int][j] < seen.len());
    }
}

impl RunLog {
    /// All tasks between `start` and `end` (both included), each once,
    /// `start` first: the tasks reached from `start` along children links
    /// without going past `end`.
    pub fn tasks_between(&self, start: TaskId, end: TaskId) -> (v: Vec<TaskId>)
        requires
            self.well_formed(),
            start < self.tasks_logs@.len(),
        ensures
            v@.len() > 0,
            v@[0] == start,
            v@.no_duplicates(),
            forall|x: TaskId| v@.contains(x) <==> between(children_of(self), start, end, x),
            forall|k: int| 0 <= k < v@.len() ==> v@[k] < self.tasks_logs@.len(),
    {
        let ghost children = children_of(self);
        let n = self.tasks_logs.len();
        let mut seen: Vec<bool> = Vec::new();
        let mut k: usize = 0;
        while k < n
            invariant
                k <= n,
                seen@.len() == k,
                forall|x: int| 0 <= x < k ==> !seen@[x],
            decreases n - k,
        {
            seen.push(false);
            k = k + 1;
        }
        let mut stack: Vec<TaskId> = Vec::new();
        stack.push(start);
        let mut result: Vec<TaskId> = Vec::new();
        proof {
            let p = seq![start];
            assert(is_walk(children, start, end, p));
        }
        loop
            invariant_except_break
                result@.len() == 0 ==> stack@ == seq![start],
            invariant
                n == self.tasks_logs@.len(),
                self.well_formed(),
                children == children_of(self),
                children.len() == n,
                start < n,
                seen@.len() == n,
                forall|j: int| 0 <= j < stack@.len() ==> #[trigger] stack@[j] < n,
                forall|j: int| 0 <= j < stack@.len() ==> between(children, start, end, #[trigger] stack@[j]),
                forall|j: int| 0 <= j < result@.len() ==> #[trigger] result@[j] < n,
                forall|j: int| 0 <= j < result@.len() ==> between(children, start, end, #[trigger] result@[j]),
                result@.no_duplicates(),
                forall|x: int| 0 <= x < n ==> (#[trigger] seen@[x] <==> result@.contains(x as TaskId)),
                result@.len() > 0 ==> result@[0] == start,
                forall|x: int, j: int|
                    #![trigger children[x][j]]
                    0 <= x < n && seen@[x] && x != end && 0 <= j < children[x].len() ==> seen@[children[x][j] as int]
                        || stack@.contains(children[x][j]),
            ensures
                result@.len() > 0,
                stack@.len() == 0,
            decreases n - result@.len(), stack@.len(),
        {
            let ghost old_stack = stack@;
            let ghost old_seen = seen@;
            let x = match stack.pop() {
                None => break,
                Some(x) => x,
            };
            let ghost popped = stack@;
            assert(old_stack == popped.push(x));
            if !seen[x] {
                let ghost before = result@;
                seen.set(x, true);
                result.push(x);
                proof {
                    assert(!before.contains(x));
                    assert(result@.no_duplicates()) by {
                        assert forall|a: int, b: int| 0 <= a < result@.len() && 0 <= b < result@.len() && a != b implies result@[a] != result@[b] by {
                            if a == before.len() {
                                assert(before.contains(result@[b]));
                            } else if b == before.len() {
                                assert(before.contains(result@[a]));
                            }
                        }
                    }
                    assert(result@ == before.push(x));
                    result@.unique_seq_to_set();
                    assert(result@.to_set().subset_of(Set::<TaskId>::range(0, n)));
                    vstd::set_lib::range_set_properties::<TaskId>(0, n);
                    vstd::set_lib::lemma_len_subset(result@.to_set(), Set::<TaskId>::range(0, n));
                    assert forall|y: int| 0 <= y < n implies (#[trigger] seen@[y] <==> result@.contains(y as TaskId)) by {
                        if y != x {
                            if result@.contains(y as TaskId) {
                                let w = choose|w: int| 0 <= w < result@.len() && result@[w] == y as TaskId;
                                assert(w < before.len());
                                assert(before[w] == y as TaskId);
                            }
                            if before.contains(y as TaskId) {
                                let w = choose|w: int| 0 <= w < before.len() && before[w] == y as TaskId;
                                assert(result@[w] == y as TaskId);
                            }
                        } else {
                            assert(result@[before.len() as int] == x);
                        }
                    }
                }
                if x != end {
                    let kids = &self.tasks_logs[x].children;
                    assert(kids@ == children[x as int]);
                    let mut j: usize = 0;
                    while j < kids.len()
                        invariant
                            j <= kids@.len(),
                            kids@ == children[x as int],
                            x < n,
                            x != end,
                            between(children, start, end, x),
                            n == self.tasks_logs@.len(),
                            self.well_formed(),
                            children == children_of(self),
                            children.len() == n,
                            seen@.len() == n,
                            forall|i: int| 0 <= i < popped.len() ==> stack@.contains(#[trigger] popped[i]),
                            forall|i: int| 0 <= i < stack@.len() ==> #[trigger] stack@[i] < n,
                            forall|i: int| 0 <= i < stack@.len() ==> between(children, start, end, #[trigger] stack@[i]),
                            forall|i: int| 0 <= i < j ==> seen@[kids@[i] as int] || stack@.contains(#[trigger] kids@[i]),
                        decreases kids@.len() - j,
                    {
                        let c = kids[j];
                        assert(c == self.tasks_logs@[x as int].children@[j as int]);
                        assert(c < n);
                        if !seen[c] {
                            let ghost s0 = stack@;
                            stack.push(c);
                            proof {
                                assert(children[x as int].contains(c));
                                lemma_walk_extend(children, start, end, x, c);
                                assert forall|i: int| 0 <= i < popped.len() implies stack@.contains(#[trigger] popped[i]) by {
                                    let w = choose|w: int| 0 <= w < s0.len() && s0[w] == popped[i];
                                    assert(stack@[w] == popped[i]);
                                }
                                assert forall|i: int| 0 <= i < j + 1 implies seen@[kids@[i] as int] || stack@.contains(#[trigger] kids@[i]) by {
                                    if i < j && !seen@[kids@[i] as int] {
                                        let w = choose|w: int| 0 <= w < s0.len() && s0[w] == kids@[i];
                                        assert(stack@[w] == kids@[i]);
                                    } else if i == j {
                                        assert(stack@[s0.len() as int] == c);
                                    }
                                }
                            }
                        }
                        j = j + 1;
                    }
                    assert(forall|i: int| 0 <= i < children[x as int].len() ==> seen@[children[x as int][i] as int]
                        || stack@.contains(#[trigger] children[x as int][i]));
                }
            }
            proof {
                assert forall|y: int, j: int|
                    #![trigger children[y][j]]
                    0 <= y < n && seen@[y] && y != end && 0 <= j < children[y].len() implies seen@[children[y][j] as int]
                        || stack@.contains(children[y][j]) by {
                    let c = children[y][j];
                    if y == x as int && !old_seen[y] {
                    } else {
                        assert(old_seen[y]);
                        assert(old_seen[c as int] || old_stack.contains(c));
                        if !old_seen[c as int] && c != x {
                            let w = choose|w: int| 0 <= w < old_stack.len() && old_stack[w] == c;
                            assert(w < popped.len());
                            assert(popped[w] == c);
                        }
                    }
                }
            }
        }
        proof {
            assert forall|y: TaskId| between(children, start, end, y) implies result@.contains(y) by {
                let p = choose|p: Seq<TaskId>| #[trigger] is_walk(children, start, end, p) && p.last() == y;
                assert(result@.contains(start));
                lemma_walk_closed(children, start, end, seen@, p, p.len() - 1);
            }
        }
        result
    }
}

} // verus!

verus! {

/// Task `x` belongs to subgraph `g`: it lies between its start and end tasks.
pub open spec fn in_subgraph(log: &RunLog, g: (TaskId, TaskId, SubGraphId, usize), x: TaskId) -> bool {
    between(children_of(log), g.0, g.1, x)
}

/// How much time task `x` ran.
pub open spec fn task_time(log: &RunLog, x: int) -> nat {
    (log.tasks_logs@[x].end_time - log.tasks_logs@[x].start_time) as nat
}

/// Number of tasks of `g` among tasks `0..k`.
pub open spec fn subgraph_count(log: &RunLog, g: (TaskId, TaskId, SubGraphId, usize), k: nat) -> nat
    decreases k,
{
    if k == 0 {
        0
    } else {
        subgraph_count(log, g, (k - 1) as nat) + if in_subgraph(log, g, (k - 1) as TaskId) {
            1nat
        } else {
            0nat
        }
    }
}

/// Total running time of the tasks of `g` among tasks `0..k`.
pub open spec fn subgraph_time(log: &RunLog, g: (TaskId, TaskId, SubGraphId, usize), k: nat) -> nat
    decreases k,
{
    if k == 0 {
        0
    } else {
        subgraph_time(log, g, (k - 1) as nat) + if in_subgraph(log, g, (k - 1) as TaskId) {
            task_time(log, k - 1)
        } else {
            0nat
        }
    }
}

/// Number of tasks in subgraph `g`.
pub open spec fn subgraph_size(log: &RunLog, g: (TaskId, TaskId, SubGraphId, usize)) -> nat {
    subgraph_count(log, g, log.tasks_logs@.len())
}

/// Total running time of the tasks of subgraph `g`.
pub open spec fn subgraph_duration(log: &RunLog, g: (TaskId, TaskId, SubGraphId, usize)) -> nat {
    subgraph_time(log, g, log.tasks_logs@.len())
}

proof fn lemma_subgraph_time_mono(log: &RunLog, g: (TaskId, TaskId, SubGraphId, usize), k: nat, n: nat)
    requires
        k <= n,
    ensures
        subgraph_time(log, g, k) <= subgraph_time(log, g, n),
        subgraph_count(log, g, k) <= subgraph_count(log, g, n),
        subgraph_count(log, g, k) <= k,
    decreases n,
{
    if k < n {
        lemma_subgraph_time_mono(log, g, k, (n - 1) as nat);
    } else if k > 0 {
        lemma_subgraph_time_mono(log, g, (k - 1) as nat, (k - 1) as nat);
    }
}

impl RunLog {
    /// For each task, whether it belongs to subgraph `g`.
    fn subgraph_members(&self, g: (TaskId, TaskId, SubGraphId, usize)) -> (m: Vec<bool>)
        requires
            self.well_formed(),
            g.0 < self.tasks_logs@.len(),
        ensures
            m@.len() == self.tasks_logs@.len(),
            forall|x: int| 0 <= x < m@.len() ==> #[trigger] m@[x] == in_subgraph(self, g, x as TaskId),
    {
        let v = self.tasks_between(g.0, g.1);
        let n = self.tasks_logs.len();
        let mut m: Vec<bool> = Vec::new();
        let mut k: usize = 0;
        while k < n
            invariant
                k <= n,
                m@.len() == k,
                forall|x: int| 0 <= x < k ==> !m@[x],
            decreases n - k,
        {
            m.push(false);
            k = k + 1;
        }
        let mut i: usize = 0;
        while i < v.len()
            invariant
                i <= v@.len(),
                m@.len() == n,
                n == self.tasks_logs@.len(),
                forall|k: int| 0 <= k < v@.len() ==> v@[k] < n,
                forall|x: int| 0 <= x < n ==> (#[trigger] m@[x] <==> v@.take(i as int).contains(x as TaskId)),
            decreases v@.len() - i,
        {
            let x = v[i];
            m.set(x, true);
            proof {
                assert forall|y: int| 0 <= y < n implies (#[trigger] m@[y] <==> v@.take(i + 1).contains(
                    y as TaskId,
                )) by {
                    let t0 = v@.take(i as int);
                    let t1 = v@.take(i + 1);
                    assert(t1 == t0.push(x));
                    if y != x {
                        if t1.contains(y as TaskId) {
                            let w = choose|w: int| 0 <= w < t1.len() && t1[w] == y as TaskId;
                            assert(w < i);
                            assert(t0[w] == y as TaskId);
                        }
                        if t0.contains(y as TaskId) {
                            let w = choose|w: int| 0 <= w < t0.len() && t0[w] == y as TaskId;
                            assert(t1[w] == y as TaskId);
                        }
                    } else {
                        assert(t1[i as int] == x);
                    }
                }
            }
            i = i + 1;
        }
        assert(v@.take(v@.len() as int) == v@);
        m
    }

    /// Number of tasks in subgraph `g`.
    pub fn subgraph_task_count(&self, g: (TaskId, TaskId, SubGraphId, usize)) -> (c: usize)
        requires
            self.well_formed(),
            g.0 < self.tasks_logs@.len(),
        ensures
            c == subgraph_size(self, g),
    {
        let m = self.subgraph_members(g);
        let n = self.tasks_logs.len();
        let mut c: usize = 0;
        let mut k: usize = 0;
        while k < n
            invariant
                k <= n,
                n == self.tasks_logs@.len(),
                m@.len() == n,
                forall|x: int| 0 <= x < n ==> #[trigger] m@[x] == in_subgraph(self, g, x as TaskId),
                c == subgraph_count(self, g, k as nat),
            decreases n - k,
        {
            proof {
                lemma_subgraph_time_mono(self, g, k as nat, k as nat);
            }
            if m[k] {
                c = c + 1;
            }
            k = k + 1;
        }
        c
    }

    /// Total running time of the tasks of subgraph `g`.
    pub fn subgraph_task_time(&self, g: (TaskId, TaskId, SubGraphId, usize)) -> (d: u64)
        requires
            self.well_formed(),
            g.0 < self.tasks_logs@.len(),
            subgraph_duration(self, g) <= u64::MAX,
        ensures
            d == subgraph_duration(self, g),
    {
        let m = self.subgraph_members(g);
        let n = self.tasks_logs.len();
        let mut d: u64 = 0;
        let mut k: usize = 0;
        while k < n
            invariant
                k <= n,
                n == self.tasks_logs@.len(),
                self.well_formed(),
                m@.len() == n,
                forall|x: int| 0 <= x < n ==> #[trigger] m@[x] == in_subgraph(self, g, x as TaskId),
                d == subgraph_time(self, g, k as nat),
                subgraph_duration(self, g) <= u64::MAX,
            decreases n - k,
        {
            proof {
                lemma_subgraph_time_mono(self, g, (k + 1) as nat, n as nat);
            }
            if m[k] {
                let t = self.tasks_logs[k].duration();
                d = d + t;
            }
            k = k + 1;
        }
        d
    }
}

} // verus!

verus! {

/// Number of tasks of the subgraphs tagged `t` among the first `j` subgraphs.
pub open spec fn tag_count(log: &RunLog, t: SubGraphId, j: nat) -> nat
    decreases j,
{
    if j == 0 {
        0
    } else {
        tag_count(log, t, (j - 1) as nat) + if log.subgraphs@[j - 1].2 == t {
            subgraph_size(log, log.subgraphs@[j - 1])
        } else {
            0nat
        }
    }
}

/// Recorded work of the subgraphs tagged `t` among the first `j` subgraphs.
pub open spec fn tag_work(log: &RunLog, t: SubGraphId, j: nat) -> nat
    decreases j,
{
    if j == 0 {
        0
    } else {
        tag_work(log, t, (j - 1) as nat) + if log.subgraphs@[j - 1].2 == t {
            log.subgraphs@[j - 1].3 as nat
        } else {
            0nat
        }
    }
}

/// Running time of the subgraphs tagged `t` among the first `j` subgraphs.
pub open spec fn tag_time(log: &RunLog, t: SubGraphId, j: nat) -> nat
    decreases j,
{
    if j == 0 {
        0
    } else {
        tag_time(log, t, (j - 1) as nat) + if log.subgraphs@[j - 1].2 == t {
            subgraph_duration(log, log.subgraphs@[j - 1])
        } else {
            0nat
        }
    }
}

/// One of the first `j` subgraphs is tagged `t`.
pub open spec fn tag_seen(log: &RunLog, t: SubGraphId, j: nat) -> bool
    decreases j,
{
    j > 0 && (tag_seen(log, t, (j - 1) as nat) || log.subgraphs@[j - 1].2 == t)
}

/// What `tag_totals` gives for tag `t`: nothing when no subgraph has the
/// tag, else the summed work and the summed running time of its subgraphs.
pub open spec fn tag_total(log: &RunLog, t: SubGraphId) -> Option<(usize, u64)> {
    let m = log.subgraphs@.len();
    if tag_seen(log, t, m) {
        Some((tag_work(log, t, m) as usize, tag_time(log, t, m) as u64))
    } else {
        None
    }
}

proof fn lemma_tag_mono(log: &RunLog, t: SubGraphId, j: nat, m: nat)
    requires
        j <= m,
    ensures
        tag_count(log, t, j) <= tag_count(log, t, m),
        tag_work(log, t, j) <= tag_work(log, t, m),
        tag_time(log, t, j) <= tag_time(log, t, m),
    decreases m,
{
    if j < m {
        lemma_tag_mono(log, t, j, (m - 1) as nat);
    }
}

impl RunLog {
    /// For each tag (by index), the number of tasks of the subgraphs that
    /// carry it.
    pub fn count_tasks(&self) -> (counts: Vec<usize>)
        requires
            self.well_formed(),
            forall|t: int|
                0 <= t < self.tags@.len() ==> #[trigger] tag_count(self, t as SubGraphId, self.subgraphs@.len())
                    <= usize::MAX,
        ensures
            counts@.len() == self.tags@.len(),
            forall|t: int|
                0 <= t < counts@.len() ==> #[trigger] counts@[t] == tag_count(
                    self,
                    t as SubGraphId,
                    self.subgraphs@.len(),
                ),
    {
        let tags_number = self.tags.len();
        let m = self.subgraphs.len();
        let mut counts: Vec<usize> = Vec::new();
        let mut k: usize = 0;
        while k < tags_number
            invariant
                k <= tags_number,
                counts@.len() == k,
                forall|t: int| 0 <= t < k ==> counts@[t] == 0,
            decreases tags_number - k,
        {
            counts.push(0);
            k = k + 1;
        }
        let mut i: usize = 0;
        while i < m
            invariant
                i <= m,
                m == self.subgraphs@.len(),
                tags_number == self.tags@.len(),
                self.well_formed(),
                counts@.len() == tags_number,
                forall|t: int|
                    0 <= t < self.tags@.len() ==> #[trigger] tag_count(self, t as SubGraphId, m as nat)
                        <= usize::MAX,
                forall|t: int| 0 <= t < tags_number ==> #[trigger] counts@[t] == tag_count(self, t as SubGraphId, i as nat),
            decreases m - i,
        {
            let g = self.subgraphs[i];
            assert(g == self.subgraphs@[i as int]);
            let c = self.subgraph_task_count(g);
            let t = g.2;
            proof {
                lemma_tag_mono(self, t, (i + 1) as nat, m as nat);
                assert(tag_count(self, t as int as SubGraphId, m as nat) <= usize::MAX);
            }
            let old = counts[t];
            counts.set(t, old + c);
            proof {
                assert forall|u: int| 0 <= u < tags_number implies #[trigger] counts@[u] == tag_count(
                    self,
                    u as SubGraphId,
                    (i + 1) as nat,
                ) by {
                    if u != t {
                        assert(self.subgraphs@[i as int].2 != u as SubGraphId);
                    }
                }
            }
            i = i + 1;
        }
        counts
    }

    /// For each tag (by index): `None` when no subgraph carries it, else
    /// the work recorded by its subgraphs and their running time, summed.
    pub fn tag_totals(&self) -> (totals: Vec<Option<(usize, u64)>>)
        requires
            self.well_formed(),
            forall|t: int|
                0 <= t < self.tags@.len() ==> #[trigger] tag_work(self, t as SubGraphId, self.subgraphs@.len())
                    <= usize::MAX && tag_time(self, t as SubGraphId, self.subgraphs@.len()) <= u64::MAX,
        ensures
            totals@.len() == self.tags@.len(),
            forall|t: int| 0 <= t < totals@.len() ==> #[trigger] totals@[t] == tag_total(self, t as SubGraphId),
    {
        let tags_number = self.tags.len();
        let m = self.subgraphs.len();
        let mut totals: Vec<Option<(usize, u64)>> = Vec::new();
        let mut k: usize = 0;
        while k < tags_number
            invariant
                k <= tags_number,
                totals@.len() == k,
                forall|t: int| 0 <= t < k ==> totals@[t] is None,
            decreases tags_number - k,
        {
            totals.push(None);
            k = k + 1;
        }
        let mut i: usize = 0;
        while i < m
            invariant
                i <= m,
                m == self.subgraphs@.len(),
                tags_number == self.tags@.len(),
                self.well_formed(),
                totals@.len() == tags_number,
                forall|t: int|
                    0 <= t < self.tags@.len() ==> #[trigger] tag_work(self, t as SubGraphId, m as nat) <= usize::MAX
                        && tag_time(self, t as SubGraphId, m as nat) <= u64::MAX,
                forall|t: int|
                    0 <= t < tags_number ==> #[trigger] totals@[t] == if tag_seen(self, t as SubGraphId, i as nat) {
                        Some(
                            (
                                tag_work(self, t as SubGraphId, i as nat) as usize,
                                tag_time(self, t as SubGraphId, i as nat) as u64,
                            ),
                        )
                    } else {
                        None
                    },
            decreases m - i,
        {
            let g = self.subgraphs[i];
            assert(g == self.subgraphs@[i as int]);
            let t = g.2;
            proof {
                lemma_tag_mono(self, t, (i + 1) as nat, m as nat);
                assert(tag_work(self, t as int as SubGraphId, m as nat) <= usize::MAX);
            }
            let d = self.subgraph_task_time(g);
            let ghost before = totals@;
            let entry = match totals[t] {
                None => (g.3, d),
                Some((w, dd)) => (w + g.3, dd + d),
            };
            totals.set(t, Some(entry));
            proof {
                assert forall|u: int| 0 <= u < tags_number implies #[trigger] totals@[u] == if tag_seen(
                    self,
                    u as SubGraphId,
                    (i + 1) as nat,
                ) {
                    Some(
                        (
                            tag_work(self, u as SubGraphId, (i + 1) as nat) as usize,
                            tag_time(self, u as SubGraphId, (i + 1) as nat) as u64,
                        ),
                    )
                } else {
                    None
                } by {
                    if u != t {
                        assert(self.subgraphs@[i as int].2 != u as SubGraphId);
                    } else {
                        assert(tag_work(self, t, (i + 1) as nat) == tag_work(self, t, i as nat) + g.3);
                        assert(tag_time(self, t, (i + 1) as nat) == tag_time(self, t, i as nat) + d);
                        assert(tag_seen(self, t, (i + 1) as nat));
                        if !tag_seen(self, t, i as nat) {
                            lemma_unseen_zero(self, t, i as nat);
                            assert(before[t as int] is None);
                            assert(entry == (g.3, d));
                        } else {
                            assert(before[t as int] == Some(
                                (tag_work(self, t, i as nat) as usize, tag_time(self, t, i as nat) as u64),
                            ));
                        }
                        assert(totals@[u] == Some(entry));
                    }
                }
            }
            i = i + 1;
        }
        totals
    }
}

/// Before a tag is seen, its sums are zero.
proof fn lemma_unseen_zero(log: &RunLog, t: SubGraphId, j: nat)
    requires
        !tag_seen(log, t, j),
    ensures
        tag_work(log, t, j) == 0,
        tag_time(log, t, j) == 0,
        tag_count(log, t, j) == 0,
    decreases j,
{
    if j > 0 {
        lemma_unseen_zero(log, t, (j - 1) as nat);
    }
}

} // verus!

verus! {

/// Among subgraphs `0..k`, the one that describes task `t` for tag `tag`:
/// the last of them with that tag that contains `t` (subgraphs come
/// outermost first, so it is the innermost), if any.
pub open spec fn describing_subgraph(log: &RunLog, t: TaskId, tag: SubGraphId, k: nat) -> Option<usize>
    decreases k,
{
    if k == 0 {
        None
    } else {
        let g = log.subgraphs@[k - 1];
        if g.2 == tag && in_subgraph(log, g, t) {
            Some((k - 1) as usize)
        } else {
            describing_subgraph(log, t, tag, (k - 1) as nat)
        }
    }
}

impl RunLog {
    /// For each task and each tag, the index of the subgraph that describes
    /// the task for that tag (see `describing_subgraph`).
    pub fn task_subgraphs(&self) -> (r: Vec<Vec<Option<usize>>>)
        requires
            self.well_formed(),
        ensures
            r@.len() == self.tasks_logs@.len(),
            forall|t: int| 0 <= t < r@.len() ==> (#[trigger] r@[t])@.len() == self.tags@.len(),
            forall|t: int, g: int|
                0 <= t < r@.len() && 0 <= g < self.tags@.len() ==> #[trigger] r@[t]@[g] == describing_subgraph(
                    self,
                    t as TaskId,
                    g as SubGraphId,
                    self.subgraphs@.len(),
                ),
    {
        let n = self.tasks_logs.len();
        let m = self.tags.len();
        let mut r: Vec<Vec<Option<usize>>> = Vec::new();
        let mut k: usize = 0;
        while k < n
            invariant
                k <= n,
                m == self.tags@.len(),
                r@.len() == k,
                forall|t: int| 0 <= t < k ==> (#[trigger] r@[t])@.len() == m,
                forall|t: int, g: int| 0 <= t < k && 0 <= g < m ==> #[trigger] r@[t]@[g] is None,
            decreases n - k,
        {
            let mut row: Vec<Option<usize>> = Vec::new();
            let mut j: usize = 0;
            while j < m
                invariant
                    j <= m,
                    row@.len() == j,
                    forall|g: int| 0 <= g < j ==> (#[trigger] row@[g]) is None,
                decreases m - j,
            {
                row.push(None);
                j = j + 1;
            }
            r.push(row);
            k = k + 1;
        }
        let mut i: usize = 0;
        while i < self.subgraphs.len()
            invariant
                self.well_formed(),
                n == self.tasks_logs@.len(),
                m == self.tags@.len(),
                i <= self.subgraphs@.len(),
                r@.len() == n,
                forall|t: int| 0 <= t < n ==> (#[trigger] r@[t])@.len() == m,
                forall|t: int, g: int|
                    0 <= t < n && 0 <= g < m ==> #[trigger] r@[t]@[g] == describing_subgraph(
                        self,
                        t as TaskId,
                        g as SubGraphId,
                        i as nat,
                    ),
            decreases self.subgraphs@.len() - i,
        {
            let g = self.subgraphs[i];
            assert(g == self.subgraphs@[i as int]);
            let members = self.subgraph_members(g);
            let mut t: usize = 0;
            while t < n
                invariant
                    self.well_formed(),
                    n == self.tasks_logs@.len(),
                    m == self.tags@.len(),
                    i < self.subgraphs@.len(),
                    g == self.subgraphs@[i as int],
                    g.2 < m,
                    t <= n,
                    members@.len() == n,
                    forall|x: int| 0 <= x < n ==> #[trigger] members@[x] == in_subgraph(self, g, x as TaskId),
                    r@.len() == n,
                    forall|u: int| 0 <= u < n ==> (#[trigger] r@[u])@.len() == m,
                    forall|u: int, h: int|
                        0 <= u < t && 0 <= h < m ==> #[trigger] r@[u]@[h] == describing_subgraph(
                            self,
                            u as TaskId,
                            h as SubGraphId,
                            (i + 1) as nat,
                        ),
                    forall|u: int, h: int|
                        t <= u < n && 0 <= h < m ==> #[trigger] r@[u]@[h] == describing_subgraph(
                            self,
                            u as TaskId,
                            h as SubGraphId,
                            i as nat,
                        ),
                decreases n - t,
            {
                let ghost before = r@;
                if members[t] {
                    let mut row: Vec<Option<usize>> = Vec::new();
                    std::mem::swap(&mut row, &mut r[t]);
                    row.set(g.2, Some(i));
                    std::mem::swap(&mut row, &mut r[t]);
                }
                proof {
                    assert forall|u: int, h: int|
                        0 <= u < t + 1 && 0 <= h < m implies #[trigger] r@[u]@[h] == describing_subgraph(
                        self,
                        u as TaskId,
                        h as SubGraphId,
                        (i + 1) as nat,
                    ) by {
                        if u < t {
                            assert(r@[u] == before[u]);
                        } else {
                            assert(members@[u] == in_subgraph(self, g, u as TaskId));
                        }
                    }
                    assert forall|u: int, h: int|
                        t + 1 <= u < n && 0 <= h < m implies #[trigger] r@[u]@[h] == describing_subgraph(
                        self,
                        u as TaskId,
                        h as SubGraphId,
                        i as nat,
                    ) by {
                        assert(r@[u] == before[u]);
                    }
                    assert forall|u: int| 0 <= u < n implies (#[trigger] r@[u])@.len() == m by {
                        if u != t {
                            assert(r@[u] == before[u]);
                        }
                    }
                }
                t = t + 1;
            }
            i = i + 1;
        }
        r
    }
}

} // verus!
