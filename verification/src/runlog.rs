//! Rebuilding the fork-join graph of tasks from the raw events of all
//! threads, merged by time.
use crate::codec::{strings_view, threads_view, RawLogs};
use crate::events::{event_time, RawEvent, SubGraphId, TaskId, ThreadId, TimeStamp};
use itertools::Itertools;
use std::collections::HashMap;
use vstd::prelude::*;

verus! {

broadcast use vstd::std_specs::hash::group_hash_axioms;

/// A task of the fork-join graph: a part of a rayon task that runs without
/// logged interruption.
#[derive(Debug, Clone)]
pub struct TaskLog {
    /// Starting time (in ns after the start of the run).
    pub start_time: TimeStamp,
    /// Ending time (in ns after the start of the run).
    pub end_time: TimeStamp,
    /// Id of the thread that ran the task.
    pub thread_id: ThreadId,
    /// Indices of the children tasks (when forking or joining).
    pub children: Vec<TaskId>,
}

/// What a task holds, as mathematical values.
pub struct TaskModel {
    pub start_time: TimeStamp,
    pub end_time: TimeStamp,
    pub thread_id: ThreadId,
    pub children: Seq<TaskId>,
}

impl View for TaskLog {
    type V = TaskModel;

    open spec fn view(&self) -> TaskModel {
        TaskModel {
            start_time: self.start_time,
            end_time: self.end_time,
            thread_id: self.thread_id,
            children: self.children@,
        }
    }
}

/// A task that nothing was recorded for yet.
pub open spec fn default_task() -> TaskModel {
    TaskModel { start_time: 0, end_time: 0, thread_id: 0, children: Seq::empty() }
}

impl TaskLog {
    /// A task with all times and ids at zero and no children.
    pub fn default() -> (t: TaskLog)
        ensures
            t@ == default_task(),
    {
        TaskLog { start_time: 0, end_time: 0, thread_id: 0, children: Vec::new() }
    }

    pub fn duration(&self) -> (d: TimeStamp)
        requires
            self.start_time <= self.end_time,
        ensures
            d == self.end_time - self.start_time,
    {
        self.end_time - self.start_time
    }
}

/// Why recorded events do not form a fork-join graph.
#[derive(Debug, Clone, Copy, PartialEq, Eq, Structural)]
pub enum ReplayError {
    /// A child is recorded while no task is active on its thread.
    ChildWithoutTask,
    /// A task ends while no task is active on its thread.
    EndWithoutTask,
    /// A subgraph is tagged while no task is active on its thread.
    TagWithoutTask,
    /// A subgraph ends that was not started on its thread.
    EndingNonStartedGraph,
    /// No task was recorded at all.
    NoTasks,
    /// A task ends before it starts.
    TaskEndsBeforeStart,
    /// A child or a subgraph refers to a task that never started.
    UnknownTask,
    /// A subgraph refers to a label that does not exist.
    UnknownTag,
}

/// Where the replay of events stands.
pub struct ReplayState {
    /// Tasks by id.
    pub tasks: Map<TaskId, TaskModel>,
    /// The active task of each thread.
    pub active: Map<ThreadId, TaskId>,
    /// For each thread, the stack of its open subgraphs (indices into `subgraphs`).
    pub open: Map<ThreadId, Seq<usize>>,
    /// Subgraphs: start task, end task, label, recorded size.
    pub subgraphs: Seq<(TaskId, TaskId, SubGraphId, usize)>,
}

pub open spec fn initial_state() -> ReplayState {
    ReplayState {
        tasks: Map::empty(),
        active: Map::empty(),
        open: Map::empty(),
        subgraphs: Seq::empty(),
    }
}

pub open spec fn task_or_default(tasks: Map<TaskId, TaskModel>, id: TaskId) -> TaskModel {
    if tasks.contains_key(id) {
        tasks[id]
    } else {
        default_task()
    }
}

pub open spec fn open_or_empty(open: Map<ThreadId, Seq<usize>>, thread: ThreadId) -> Seq<usize> {
    if open.contains_key(thread) {
        open[thread]
    } else {
        Seq::empty()
    }
}

/// Replay one event recorded by `thread`.
pub open spec fn replay_step(s0: ReplayState, thread: ThreadId, e: RawEvent<SubGraphId>) -> Result<
    ReplayState,
    ReplayError,
> {
    let s = s0;
    match e {
        RawEvent::Child(c) => {
            if s.active.contains_key(thread) {
                let f = s.active[thread];
                let t = task_or_default(s.tasks, f);
                Ok(
                    ReplayState {
                        tasks: s.tasks.insert(f, TaskModel { children: t.children.push(c), ..t }),
                        ..s
                    },
                )
            } else {
                Err(ReplayError::ChildWithoutTask)
            }
        },
        RawEvent::TaskEnd(time) => {
            if s.active.contains_key(thread) {
                let id = s.active[thread];
                let t = task_or_default(s.tasks, id);
                Ok(
                    ReplayState {
                        tasks: s.tasks.insert(id, TaskModel { end_time: time, ..t }),
                        active: s.active.remove(thread),
                        ..s
                    },
                )
            } else {
                Err(ReplayError::EndWithoutTask)
            }
        },
        RawEvent::TaskStart(id, time) => {
            let t = task_or_default(s.tasks, id);
            Ok(
                ReplayState {
                    tasks: s.tasks.insert(id, TaskModel { thread_id: thread, start_time: time, ..t }),
                    active: s.active.insert(thread, id),
                    ..s
                },
            )
        },
        RawEvent::SubgraphStart(label) => {
            if s.active.contains_key(thread) {
                let stack = open_or_empty(s.open, thread);
                Ok(
                    ReplayState {
                        open: s.open.insert(thread, stack.push(s.subgraphs.len() as usize)),
                        subgraphs: s.subgraphs.push((s.active[thread], 0, label, 0)),
                        ..s
                    },
                )
            } else {
                Err(ReplayError::TagWithoutTask)
            }
        },
        RawEvent::SubgraphEnd(_, amount) => {
            if s.active.contains_key(thread) {
                let stack = open_or_empty(s.open, thread);
                if stack.len() == 0 {
                    Err(ReplayError::EndingNonStartedGraph)
                } else {
                    let index = stack.last();
                    let g = s.subgraphs[index as int];
                    Ok(
                        ReplayState {
                            open: s.open.insert(thread, stack.drop_last()),
                            subgraphs: s.subgraphs.update(
                                index as int,
                                (g.0, s.active[thread], g.2, amount),
                            ),
                            ..s
                        },
                    )
                }
            } else {
                Err(ReplayError::TagWithoutTask)
            }
        },
    }
}

/// Open subgraphs form a stack: on a thread running a task, a subgraph
/// start followed by a subgraph end closes the subgraph just started,
/// giving it the running task as end task and the end's work, and leaves
/// the tasks and every thread's open subgraphs as they were (so an end
/// closes the innermost open subgraph, and nested subgraphs close from the
/// inside out).
pub proof fn lemma_subgraph_end_closes_last_start(
    s: ReplayState,
    thread: ThreadId,
    label: SubGraphId,
    end_label: SubGraphId,
    work: usize,
)
    requires
        s.active.contains_key(thread),
        s.subgraphs.len() < usize::MAX,
    ensures
        replay_step(s, thread, RawEvent::SubgraphStart(label)) is Ok,
        ({
            let s1 = replay_step(s, thread, RawEvent::SubgraphStart(label))->Ok_0;
            let r = replay_step(s1, thread, RawEvent::SubgraphEnd(end_label, work));
            &&& r is Ok
            &&& r->Ok_0.subgraphs == s.subgraphs.push((s.active[thread], s.active[thread], label, work))
            &&& r->Ok_0.tasks == s.tasks
            &&& r->Ok_0.active == s.active
            &&& forall|t: ThreadId| #[trigger] open_or_empty(r->Ok_0.open, t) == open_or_empty(s.open, t)
        }),
{
    let n = s.subgraphs.len();
    let a = s.active[thread];
    let stack = open_or_empty(s.open, thread);
    let s1 = replay_step(s, thread, RawEvent::SubgraphStart(label))->Ok_0;
    assert(s1.subgraphs == s.subgraphs.push((a, 0usize, label, 0usize)));
    assert(open_or_empty(s1.open, thread) == stack.push(n as usize));
    assert(stack.push(n as usize).drop_last() == stack);
    let r = replay_step(s1, thread, RawEvent::SubgraphEnd(end_label, work))->Ok_0;
    assert(r.subgraphs =~= s.subgraphs.push((a, a, label, work)));
    assert forall|t: ThreadId| #[trigger] open_or_empty(r.open, t) == open_or_empty(s.open, t) by {
        if t != thread {
            assert(open_or_empty(s1.open, t) == open_or_empty(s.open, t));
        }
    }
}

/// Nested subgraphs close from the inside out: on a thread running a task,
/// two subgraph starts then two subgraph ends give the inner subgraph the
/// first end's work and the outer one the second end's, and leave every
/// thread's open subgraphs as they were.
pub proof fn lemma_nested_subgraphs(
    s: ReplayState,
    thread: ThreadId,
    outer: SubGraphId,
    inner: SubGraphId,
    inner_work: usize,
    outer_work: usize,
)
    requires
        s.active.contains_key(thread),
        s.subgraphs.len() + 1 < usize::MAX,
    ensures
        ({
            let a = s.active[thread];
            let s1 = replay_step(s, thread, RawEvent::SubgraphStart(outer));
            let s2 = replay_step(s1->Ok_0, thread, RawEvent::SubgraphStart(inner));
            let s3 = replay_step(s2->Ok_0, thread, RawEvent::SubgraphEnd(inner, inner_work));
            let s4 = replay_step(s3->Ok_0, thread, RawEvent::SubgraphEnd(outer, outer_work));
            &&& s1 is Ok && s2 is Ok && s3 is Ok && s4 is Ok
            &&& s4->Ok_0.subgraphs == s.subgraphs.push((a, a, outer, outer_work)).push((a, a, inner, inner_work))
            &&& forall|t: ThreadId| #[trigger] open_or_empty(s4->Ok_0.open, t) == open_or_empty(s.open, t)
        }),
{
    let a = s.active[thread];
    let n = s.subgraphs.len();
    let stack = open_or_empty(s.open, thread);
    let s1 = replay_step(s, thread, RawEvent::SubgraphStart(outer))->Ok_0;
    assert(s1.subgraphs == s.subgraphs.push((a, 0usize, outer, 0usize)));
    assert(open_or_empty(s1.open, thread) == stack.push(n as usize));
    lemma_subgraph_end_closes_last_start(s1, thread, inner, inner, inner_work);
    let s3 = replay_step(replay_step(s1, thread, RawEvent::SubgraphStart(inner))->Ok_0, thread, RawEvent::SubgraphEnd(inner, inner_work))->Ok_0;
    assert(open_or_empty(s3.open, thread) == stack.push(n as usize));
    assert(s3.subgraphs == s1.subgraphs.push((a, a, inner, inner_work)));
    assert(s3.subgraphs[n as int] == (a, 0usize, outer, 0usize));
    assert(stack.push(n as usize).drop_last() == stack);
    let s4 = replay_step(s3, thread, RawEvent::SubgraphEnd(outer, outer_work))->Ok_0;
    assert(s4.subgraphs =~= s.subgraphs.push((a, a, outer, outer_work)).push((a, a, inner, inner_work)));
    assert forall|t: ThreadId| #[trigger] open_or_empty(s4.open, t) == open_or_empty(s.open, t) by {
        if t != thread {
            assert(open_or_empty(s3.open, t) == open_or_empty(s1.open, t));
            assert(open_or_empty(s1.open, t) == open_or_empty(s.open, t));
        }
    }
}

/// A thread's open subgraphs change only with its own subgraph events:
/// an event of another thread leaves them as they are, and a task start,
/// task end or child leaves every thread's open subgraphs, and every
/// subgraph, as they are.
pub proof fn lemma_open_subgraphs_per_thread(s: ReplayState, thread: ThreadId, e: RawEvent<SubGraphId>, t: ThreadId)
    ensures
        replay_step(s, thread, e) is Ok && t != thread ==> open_or_empty(replay_step(s, thread, e)->Ok_0.open, t)
            == open_or_empty(s.open, t),
        replay_step(s, thread, e) is Ok && !(e is SubgraphStart) && !(e is SubgraphEnd) ==> replay_step(
            s,
            thread,
            e,
        )->Ok_0.open == s.open && replay_step(s, thread, e)->Ok_0.subgraphs == s.subgraphs,
{
}

/// Replay events one after the other, stopping at the first error.
pub open spec fn replay_events(events: Seq<(ThreadId, RawEvent<SubGraphId>)>) -> Result<
    ReplayState,
    ReplayError,
>
    decreases events.len(),
{
    if events.len() == 0 {
        Ok(initial_state())
    } else {
        match replay_events(events.drop_last()) {
            Err(e) => Err(e),
            Ok(s) => replay_step(s, events.last().0, events.last().1),
        }
    }
}

/// The exec state of a replay.
struct Replay {
    tasks: HashMap<TaskId, TaskLog>,
    /// Ids of `tasks`, in the order they were first met.
    order: Vec<TaskId>,
    active: HashMap<ThreadId, TaskId>,
    open: HashMap<ThreadId, Vec<usize>>,
    subgraphs: Vec<(TaskId, TaskId, SubGraphId, usize)>,
}

impl Replay {
    spec fn model(&self) -> ReplayState {
        ReplayState {
            tasks: self.tasks@.map_values(|t: TaskLog| t@),
            active: self.active@,
            open: self.open@.map_values(|v: Vec<usize>| v@),
            subgraphs: self.subgraphs@,
        }
    }

    spec fn inv(&self) -> bool {
        &&& self.order@.no_duplicates()
        &&& self.order@.to_set() == self.tasks@.dom()
        &&& forall|t: ThreadId, j: int|
            #![trigger self.open@[t]@[j]]
            self.open@.contains_key(t) && 0 <= j < self.open@[t]@.len() ==> self.open@[t]@[j]
                < self.subgraphs@.len()
    }

    fn new() -> (r: Replay)
        ensures
            r.model() == initial_state(),
            r.inv(),
    {
        let r = Replay {
            tasks: HashMap::new(),
            order: Vec::new(),
            active: HashMap::new(),
            open: HashMap::new(),
            subgraphs: Vec::new(),
        };
        assert(r.model().tasks =~= Map::<TaskId, TaskModel>::empty());
        assert(r.model().open =~= Map::<ThreadId, Seq<usize>>::empty());
        assert(r.order@.to_set() =~= Set::<TaskId>::empty());
        r
    }

    /// Take task `id` out (a fresh one when it is unknown).
    fn take_task(&mut self, id: TaskId) -> (t: TaskLog)
        requires
            old(self).inv(),
        ensures
            t@ == task_or_default(old(self).model().tasks, id),
            final(self).tasks@ == old(self).tasks@.remove(id),
            final(self).order@.no_duplicates(),
            final(self).order@.to_set() == old(self).tasks@.dom().insert(id),
            final(self).active == old(self).active,
            final(self).open == old(self).open,
            final(self).subgraphs == old(self).subgraphs,
    {
        match self.tasks.remove(&id) {
            Some(t) => {
                assert(self.order@.to_set() =~= old(self).tasks@.dom().insert(id));
                t
            },
            None => {
                proof {
                    assert(!self.order@.contains(id)) by {
                        assert(!self.order@.to_set().contains(id));
                    }
                }
                self.order.push(id);
                proof {
                    assert(self.order@.no_duplicates()) by {
                        assert forall|a: int, b: int|
                            0 <= a < self.order@.len() && 0 <= b < self.order@.len() && a != b implies self.order@[a]
                            != self.order@[b] by {
                            if a == self.order@.len() - 1 {
                                assert(old(self).order@.contains(self.order@[b]));
                            } else if b == self.order@.len() - 1 {
                                assert(old(self).order@.contains(self.order@[a]));
                            }
                        }
                    }
                    assert(self.order@.to_set() =~= old(self).tasks@.dom().insert(id)) by {
                        assert forall|x: TaskId| self.order@.to_set().contains(x) implies old(self).tasks@.dom().insert(id).contains(x) by {
                            let j = choose|j: int| 0 <= j < self.order@.len() && self.order@[j] == x;
                            if j < old(self).order@.len() {
                                assert(old(self).order@.contains(x));
                            }
                        }
                        assert forall|x: TaskId| old(self).tasks@.dom().insert(id).contains(x) implies self.order@.to_set().contains(x) by {
                            if x != id {
                                assert(old(self).order@.to_set().contains(x));
                                let j = choose|j: int| 0 <= j < old(self).order@.len() && old(self).order@[j] == x;
                                assert(self.order@[j] == x);
                            } else {
                                assert(self.order@[self.order@.len() - 1] == x);
                            }
                        }
                    }
                }
                TaskLog::default()
            },
        }
    }

    /// Replay one event recorded by `thread`.
    fn step(&mut self, thread: ThreadId, e: RawEvent<SubGraphId>) -> (r: Result<(), ReplayError>)
        requires
            old(self).inv(),
        ensures
            match replay_step(old(self).model(), thread, e) {
                Ok(s) => r is Ok && final(self).model() == s && final(self).inv(),
                Err(err) => r == Err::<(), ReplayError>(err),
            },
    {
        let ghost s = old(self).model();
        assert(self.model() == s);
        match e {
            RawEvent::Child(c) => {
                let father = match self.active.get(&thread) {
                    Some(f) => *f,
                    None => return Err(ReplayError::ChildWithoutTask),
                };
                let mut t = self.take_task(father);
                t.children.push(c);
                self.tasks.insert(father, t);
                assert(self.model().tasks =~= s.tasks.insert(
                    father,
                    TaskModel { children: task_or_default(s.tasks, father).children.push(c), ..task_or_default(s.tasks, father) },
                ));
                assert(self.order@.to_set() == self.tasks@.dom());
                assert(self.inv());
            },
            RawEvent::TaskEnd(time) => {
                let id = match self.active.remove(&thread) {
                    Some(id) => id,
                    None => return Err(ReplayError::EndWithoutTask),
                };
                let mut t = self.take_task(id);
                t.end_time = time;
                self.tasks.insert(id, t);
                assert(self.model().tasks =~= s.tasks.insert(
                    id,
                    TaskModel { end_time: time, ..task_or_default(s.tasks, id) },
                ));
                assert(self.order@.to_set() == self.tasks@.dom());
                assert(self.inv());
            },
            RawEvent::TaskStart(id, time) => {
                let mut t = self.take_task(id);
                t.thread_id = thread;
                t.start_time = time;
                self.tasks.insert(id, t);
                self.active.insert(thread, id);
                assert(self.model().tasks =~= s.tasks.insert(
                    id,
                    TaskModel { thread_id: thread, start_time: time, ..task_or_default(s.tasks, id) },
                ));
                assert(self.order@.to_set() == self.tasks@.dom());
                assert(self.inv());
            },
            RawEvent::SubgraphStart(label) => {
                let active_task = match self.active.get(&thread) {
                    Some(a) => *a,
                    None => return Err(ReplayError::TagWithoutTask),
                };
                let mut stack = match self.open.remove(&thread) {
                    Some(v) => v,
                    None => Vec::new(),
                };
                assert(stack@ == open_or_empty(s.open, thread));
                stack.push(self.subgraphs.len());
                self.open.insert(thread, stack);
                self.subgraphs.push((active_task, 0, label, 0));
                assert(self.model().open =~= s.open.insert(
                    thread,
                    open_or_empty(s.open, thread).push(s.subgraphs.len() as usize),
                ));
                assert(self.order@.to_set() == self.tasks@.dom());
                assert(self.inv());
            },
            RawEvent::SubgraphEnd(_, amount) => {
                let active_task = match self.active.get(&thread) {
                    Some(a) => *a,
                    None => return Err(ReplayError::TagWithoutTask),
                };
                let mut stack = match self.open.remove(&thread) {
                    Some(v) => v,
                    None => Vec::new(),
                };
                assert(stack@ == open_or_empty(s.open, thread));
                let index = match stack.pop() {
                    Some(i) => i,
                    None => return Err(ReplayError::EndingNonStartedGraph),
                };
                let g = self.subgraphs[index];
                self.subgraphs.set(index, (g.0, active_task, g.2, amount));
                self.open.insert(thread, stack);
                assert(self.model().open =~= s.open.insert(
                    thread,
                    open_or_empty(s.open, thread).drop_last(),
                ));
                assert(self.order@.to_set() == self.tasks@.dom());
                assert(self.inv());
            },
        }
        assert(replay_step(old(self).model(), thread, e) is Ok);
        assert(self.model() == replay_step(old(self).model(), thread, e)->Ok_0);
        assert(self.inv());
        Ok(())
    }
}


/// A replay that failed stays failed whatever events come after.
proof fn lemma_replay_error_persists(events: Seq<(ThreadId, RawEvent<SubGraphId>)>, i: int, e: ReplayError)
    requires
        0 <= i <= events.len(),
        replay_events(events.take(i)) == Err::<ReplayState, ReplayError>(e),
    ensures
        replay_events(events) == Err::<ReplayState, ReplayError>(e),
    decreases events.len() - i,
{
    if i == events.len() {
        assert(events.take(i) =~= events);
    } else {
        assert(events.take(i + 1).drop_last() =~= events.take(i));
        lemma_replay_error_persists(events, i + 1, e);
    }
}

/// Replay events recorded by threads, merged in one sequence.
fn replay(merged: &Vec<(ThreadId, RawEvent<SubGraphId>)>) -> (r: Result<Replay, ReplayError>)
    ensures
        match replay_events(merged@) {
            Ok(s) => r is Ok && r->Ok_0.model() == s && r->Ok_0.inv(),
            Err(e) => r == Err::<Replay, ReplayError>(e),
        },
{
    let mut state = Replay::new();
    let mut i: usize = 0;
    assert(merged@.take(0) =~= Seq::<(ThreadId, RawEvent<SubGraphId>)>::empty());
    while i < merged.len()
        invariant
            i <= merged@.len(),
            replay_events(merged@.take(i as int)) == Ok::<ReplayState, ReplayError>(state.model()),
            state.inv(),
        decreases merged@.len() - i,
    {
        let (thread, e) = merged[i];
        proof {
            assert(merged@.take(i + 1).drop_last() =~= merged@.take(i as int));
            assert(merged@.take(i + 1).last() == merged@[i as int]);
        }
        match state.step(thread, e) {
            Ok(()) => {},
            Err(err) => {
                proof {
                    lemma_replay_error_persists(merged@, i + 1, err);
                }
                return Err(err);
            },
        }
        i = i + 1;
    }
    assert(merged@.take(merged@.len() as int) =~= merged@);
    Ok(state)
}

/// A task's new id: the number of task ids below its own.
pub open spec fn rank(keys: Set<TaskId>, k: TaskId) -> nat {
    keys.filter(|x: TaskId| x < k).len()
}

/// The task id whose new id is `i`.
pub open spec fn key_of_rank(keys: Set<TaskId>, i: int) -> TaskId {
    choose|k: TaskId| keys.contains(k) && rank(keys, k) == i
}

pub open spec fn is_min_start(tasks: Map<TaskId, TaskModel>, m: TimeStamp) -> bool {
    &&& exists|k: TaskId| tasks.contains_key(k) && tasks[k].start_time == m
    &&& forall|k: TaskId| tasks.contains_key(k) ==> m <= tasks[k].start_time
}

/// The earliest start time.
pub open spec fn min_start(tasks: Map<TaskId, TaskModel>) -> TimeStamp {
    choose|m: TimeStamp| is_min_start(tasks, m)
}

pub open spec fn is_max_end(tasks: Map<TaskId, TaskModel>, m: TimeStamp) -> bool {
    &&& exists|k: TaskId| tasks.contains_key(k) && tasks[k].end_time == m
    &&& forall|k: TaskId| tasks.contains_key(k) ==> tasks[k].end_time <= m
}

/// The latest end time.
pub open spec fn max_end(tasks: Map<TaskId, TaskModel>) -> TimeStamp {
    choose|m: TimeStamp| is_max_end(tasks, m)
}

/// No task ends before it starts.
pub open spec fn tasks_ordered(tasks: Map<TaskId, TaskModel>) -> bool {
    forall|k: TaskId| #[trigger] tasks.contains_key(k) ==> tasks[k].start_time <= tasks[k].end_time
}

/// Children and subgraphs only refer to tasks that exist.
pub open spec fn tasks_known(
    tasks: Map<TaskId, TaskModel>,
    subgraphs: Seq<(TaskId, TaskId, SubGraphId, usize)>,
) -> bool {
    &&& forall|k: TaskId, j: int|
        #![trigger tasks[k].children[j]]
        tasks.contains_key(k) && 0 <= j < tasks[k].children.len() ==> tasks.contains_key(
            tasks[k].children[j],
        )
    &&& forall|g: int| 0 <= g < subgraphs.len() ==> subgraph_known(tasks, #[trigger] subgraphs[g])
}

/// Both tasks of a subgraph exist.
pub open spec fn subgraph_known(tasks: Map<TaskId, TaskModel>, g: (TaskId, TaskId, SubGraphId, usize)) -> bool {
    tasks.contains_key(g.0) && tasks.contains_key(g.1)
}

/// Subgraphs only refer to labels that exist.
pub open spec fn tags_known(subgraphs: Seq<(TaskId, TaskId, SubGraphId, usize)>, n: nat) -> bool {
    forall|g: int| 0 <= g < subgraphs.len() ==> (#[trigger] subgraphs[g]).2 < n
}

/// A task with times counted from `origin` and children renumbered.
pub open spec fn renamed_task(t: TaskModel, keys: Set<TaskId>, origin: TimeStamp) -> TaskModel {
    TaskModel {
        start_time: (t.start_time - origin) as TimeStamp,
        end_time: (t.end_time - origin) as TimeStamp,
        thread_id: t.thread_id,
        children: t.children.map_values(|c: TaskId| rank(keys, c) as TaskId),
    }
}

/// A subgraph with its tasks renumbered.
pub open spec fn renamed_subgraph(g: (TaskId, TaskId, SubGraphId, usize), keys: Set<TaskId>) -> (
    TaskId,
    TaskId,
    SubGraphId,
    usize,
) {
    (rank(keys, g.0) as TaskId, rank(keys, g.1) as TaskId, g.2, g.3)
}

/// What a `RunLog` holds, as mathematical values.
pub struct RunLogModel {
    pub threads_number: nat,
    pub tasks: Seq<TaskModel>,
    pub duration: TimeStamp,
    pub tags: Seq<Seq<char>>,
    pub subgraphs: Seq<(TaskId, TaskId, SubGraphId, usize)>,
}

/// The run log that a finished replay gives: tasks renumbered by
/// increasing id from 0, times counted from the earliest start.
pub open spec fn finish_replay(s: ReplayState, tags: Seq<Seq<char>>, threads_number: nat) -> Result<
    RunLogModel,
    ReplayError,
> {
    let keys = s.tasks.dom();
    if keys == Set::<TaskId>::empty() {
        Err(ReplayError::NoTasks)
    } else if !tasks_ordered(s.tasks) {
        Err(ReplayError::TaskEndsBeforeStart)
    } else if !tasks_known(s.tasks, s.subgraphs) {
        Err(ReplayError::UnknownTask)
    } else if !tags_known(s.subgraphs, tags.len()) {
        Err(ReplayError::UnknownTag)
    } else {
        let origin = min_start(s.tasks);
        Ok(
            RunLogModel {
                threads_number,
                tasks: Seq::new(
                    keys.len(),
                    |i: int| renamed_task(s.tasks[key_of_rank(keys, i)], keys, origin),
                ),
                duration: (max_end(s.tasks) - origin) as TimeStamp,
                tags,
                subgraphs: s.subgraphs.map_values(
                    |g: (TaskId, TaskId, SubGraphId, usize)| renamed_subgraph(g, keys),
                ),
            },
        )
    }
}

/// The run log rebuilt from events merged by time.
pub open spec fn run_log_of(
    events: Seq<(ThreadId, RawEvent<SubGraphId>)>,
    tags: Seq<Seq<char>>,
    threads_number: nat,
) -> Result<RunLogModel, ReplayError> {
    match replay_events(events) {
        Err(e) => Err(e),
        Ok(s) => finish_replay(s, tags, threads_number),
    }
}

/// Logged information: tasks, threads number and run duration.
#[derive(Debug)]
pub struct RunLog {
    /// Total number of threads (some might be unused).
    pub threads_number: usize,
    /// Fork-join tasks; a task's index is its id.
    pub tasks_logs: Vec<TaskLog>,
    /// Total run time in nanoseconds.
    pub duration: TimeStamp,
    /// All strings used for tagging tasks.
    pub tags: Vec<String>,
    /// Subgraphs: start task, end task, tag index, recorded size.
    pub subgraphs: Vec<(TaskId, TaskId, SubGraphId, usize)>,
}

pub open spec fn tasks_view(v: Seq<TaskLog>) -> Seq<TaskModel> {
    v.map_values(|t: TaskLog| t@)
}

impl View for RunLog {
    type V = RunLogModel;

    open spec fn view(&self) -> RunLogModel {
        RunLogModel {
            threads_number: self.threads_number as nat,
            tasks: tasks_view(self.tasks_logs@),
            duration: self.duration,
            tags: strings_view(self.tags@),
            subgraphs: self.subgraphs@,
        }
    }
}

impl RunLog {
    /// Tasks end after they start, children and subgraphs refer to
    /// existing tasks and tags.
    pub open spec fn well_formed(&self) -> bool {
        &&& forall|i: int|
            0 <= i < self.tasks_logs@.len() ==> (#[trigger] self.tasks_logs@[i]).start_time
                <= self.tasks_logs@[i].end_time
        &&& forall|i: int, j: int|
            #![trigger self.tasks_logs@[i].children@[j]]
            0 <= i < self.tasks_logs@.len() && 0 <= j < self.tasks_logs@[i].children@.len()
                ==> self.tasks_logs@[i].children@[j] < self.tasks_logs@.len()
        &&& forall|g: int|
            0 <= g < self.subgraphs@.len() ==> (#[trigger] self.subgraphs@[g]).0
                < self.tasks_logs@.len() && self.subgraphs@[g].1 < self.tasks_logs@.len()
                && self.subgraphs@[g].2 < self.tags@.len()
    }
}

/// Times count from the earliest start: some task starts at 0, and every
/// task ends by the end of the run.
pub open spec fn times_from_start(l: RunLog) -> bool {
    &&& exists|i: int| 0 <= i < l.tasks_logs@.len() && #[trigger] l.tasks_logs@[i].start_time == 0
    &&& forall|i: int| 0 <= i < l.tasks_logs@.len() ==> #[trigger] l.tasks_logs@[i].end_time <= l.duration
}

/// A run log result taken by its view.
pub open spec fn run_log_result(r: Result<RunLog, ReplayError>) -> Result<RunLogModel, ReplayError> {
    match r {
        Ok(l) => Ok(l@),
        Err(e) => Err(e),
    }
}


/// Sorts task ids with `Itertools::sorted`: the claim is that the result is
/// in non-decreasing order and holds the same ids, as many times each.
#[verifier::external_body]
fn sorted_ids(ids: &Vec<TaskId>) -> (s: Vec<TaskId>)
    ensures
        forall|a: int, b: int| 0 <= a < b < s@.len() ==> s@[a] <= s@[b],
        s@.to_multiset() == ids@.to_multiset(),
{
    ids.iter().copied().sorted().collect()
}

/// A sorted reordering of distinct ids is strictly increasing and holds
/// the same ids.
proof fn lemma_sorted_distinct(s: Seq<TaskId>, v: Seq<TaskId>)
    requires
        forall|a: int, b: int| 0 <= a < b < s.len() ==> s[a] <= s[b],
        s.to_multiset() == v.to_multiset(),
        v.no_duplicates(),
    ensures
        forall|a: int, b: int| 0 <= a < b < s.len() ==> s[a] < s[b],
        s.to_set() == v.to_set(),
        s.len() == v.len(),
        s.no_duplicates(),
{
    broadcast use vstd::seq_lib::group_to_multiset_ensures;
    broadcast use vstd::multiset::group_multiset_axioms;

    v.lemma_multiset_has_no_duplicates();
    s.lemma_multiset_has_no_duplicates_conv();
    assert(s.to_multiset().len() == s.len());
    assert(v.to_multiset().len() == v.len());
    assert(s.to_set() =~= v.to_set()) by {
        assert forall|x: TaskId| s.to_set().contains(x) <==> v.to_set().contains(x) by {
            assert(s.contains(x) <==> s.to_multiset().contains(x));
            assert(v.contains(x) <==> v.to_multiset().contains(x));
        }
    }
}

/// In a strictly increasing listing of the ids, an id's rank is its index.
proof fn lemma_rank_sorted(s: Seq<TaskId>, keys: Set<TaskId>, i: int)
    requires
        forall|a: int, b: int| 0 <= a < b < s.len() ==> s[a] < s[b],
        s.to_set() == keys,
        0 <= i < s.len(),
    ensures
        rank(keys, s[i]) == i,
{
    let f = keys.filter(|x: TaskId| x < s[i]);
    let t = s.take(i);
    assert(f =~= t.to_set()) by {
        assert forall|x: TaskId| f.contains(x) implies t.to_set().contains(x) by {
            assert(s.to_set().contains(x));
            let j = choose|j: int| 0 <= j < s.len() && s[j] == x;
            if j >= i {
                if j > i {
                    assert(s[i] < s[j]);
                }
            }
            assert(t[j] == x);
        }
        assert forall|x: TaskId| t.to_set().contains(x) implies f.contains(x) by {
            let j = choose|j: int| 0 <= j < t.len() && t[j] == x;
            assert(s[j] == x);
            assert(s[j] < s[i]);
            assert(s.to_set().contains(x));
        }
    }
    assert(t.no_duplicates()) by {
        assert forall|a: int, b: int| 0 <= a < t.len() && 0 <= b < t.len() && a != b implies t[a] != t[b] by {
            assert(t[a] == s[a] && t[b] == s[b]);
            if a < b {
                assert(s[a] < s[b]);
            } else {
                assert(s[b] < s[a]);
            }
        }
    }
    t.unique_seq_to_set();
}

/// The id of rank `i` is the `i`-th of the strictly increasing listing.
proof fn lemma_key_of_rank(s: Seq<TaskId>, keys: Set<TaskId>, i: int)
    requires
        forall|a: int, b: int| 0 <= a < b < s.len() ==> s[a] < s[b],
        s.to_set() == keys,
        0 <= i < s.len(),
    ensures
        key_of_rank(keys, i) == s[i],
{
    lemma_rank_sorted(s, keys, i);
    assert(keys.contains(s[i]));
    let k = key_of_rank(keys, i);
    assert(keys.contains(k) && rank(keys, k) == i);
    let j = choose|j: int| 0 <= j < s.len() && s[j] == k;
    lemma_rank_sorted(s, keys, j);
}

/// Map each id of a strictly increasing listing to its index.
fn positions(sorted: &Vec<TaskId>) -> (ids: HashMap<TaskId, TaskId>)
    requires
        forall|a: int, b: int| 0 <= a < b < sorted@.len() ==> sorted@[a] < sorted@[b],
    ensures
        forall|j: int| 0 <= j < sorted@.len() ==> #[trigger] ids@.contains_key(sorted@[j]) && ids@[sorted@[j]] == j,
{
    let mut ids: HashMap<TaskId, TaskId> = HashMap::new();
    let mut i: usize = 0;
    while i < sorted.len()
        invariant
            i <= sorted@.len(),
            forall|a: int, b: int| 0 <= a < b < sorted@.len() ==> sorted@[a] < sorted@[b],
            forall|j: int| 0 <= j < i ==> #[trigger] ids@.contains_key(sorted@[j]) && ids@[sorted@[j]] == j,
        decreases sorted@.len() - i,
    {
        let ghost before = ids@;
        ids.insert(sorted[i], i);
        proof {
            assert forall|j: int| 0 <= j < i + 1 implies #[trigger] ids@.contains_key(sorted@[j])
                && ids@[sorted@[j]] == j by {
                if j < i {
                    assert(sorted@[j] < sorted@[i as int]);
                    assert(before.contains_key(sorted@[j]));
                }
            }
        }
        i = i + 1;
    }
    ids
}

impl Replay {
    /// Check the replayed tasks, then renumber them by increasing id.
    #[verifier::loop_isolation(false)]
    #[verifier::rlimit(40)]
    fn finish(self, tags: Vec<String>, threads_number: usize) -> (r: Result<RunLog, ReplayError>)
        requires
            self.inv(),
        ensures
            run_log_result(r) == finish_replay(self.model(), strings_view(tags@), threads_number as nat),
            r matches Ok(l) ==> l.well_formed() && times_from_start(l),
    {
        let ghost m = self.model().tasks;
        let ghost keys = m.dom();
        let ghost model = self.model();
        let Replay { tasks, order, active: _, open: _, subgraphs } = self;
        assert(keys == order@.to_set());
        let n = order.len();
        if n == 0 {
            assert(keys =~= Set::<TaskId>::empty());
            return Err(ReplayError::NoTasks);
        }
        assert(keys.contains(order@[0]));
        assert(keys != Set::<TaskId>::empty());
        // check times, find the earliest start and the latest end
        let first = tasks.get(&order[0]).unwrap();
        let mut min = first.start_time;
        let mut max = first.end_time;
        let ghost mut jmin: int = 0;
        let ghost mut jmax: int = 0;
        assert(m[order@[0]].start_time == min);
        assert(m[order@[0]].end_time == max);
        let mut i: usize = 0;
        while i < n
            invariant
                n == order@.len(),
                i <= n,
                keys == order@.to_set(),
                m == tasks@.map_values(|t: TaskLog| t@),
                0 < n,
                0 <= jmin < n && m[order@[jmin]].start_time == min,
                0 <= jmax < n && m[order@[jmax]].end_time == max,
                forall|j: int| 0 <= j < i ==> min <= #[trigger] m[order@[j]].start_time,
                forall|j: int| 0 <= j < i ==> #[trigger] m[order@[j]].end_time <= max,
                forall|j: int| 0 <= j < i ==> #[trigger] m[order@[j]].start_time <= m[order@[j]].end_time,
            decreases n - i,
        {
            assert(keys.contains(order@[i as int]));
            let t = tasks.get(&order[i]).unwrap();
            assert(m[order@[i as int]] == t@);
            if t.end_time < t.start_time {
                proof {
                    assert(m.contains_key(order@[i as int]));
                    assert(!tasks_ordered(m));
                }
                return Err(ReplayError::TaskEndsBeforeStart);
            }
            if t.start_time < min {
                min = t.start_time;
                proof {
                    jmin = i as int;
                }
            }
            if t.end_time > max {
                max = t.end_time;
                proof {
                    jmax = i as int;
                }
            }
            i = i + 1;
        }
        proof {
            assert forall|k: TaskId| m.contains_key(k) implies min <= m[k].start_time && m[k].end_time <= max
                && m[k].start_time <= m[k].end_time by {
                assert(order@.to_set().contains(k));
                let j = choose|j: int| 0 <= j < order@.len() && order@[j] == k;
                assert(min <= m[order@[j]].start_time);
            }
            assert(order@.to_set().contains(order@[jmin]));
            assert(order@.to_set().contains(order@[jmax]));
            assert(is_min_start(m, min));
            assert(is_max_end(m, max));
            assert(min_start(m) == min);
            assert(max_end(m) == max);
            assert(tasks_ordered(m));
        }
        // check that children and subgraphs refer to known tasks
        let mut i: usize = 0;
        while i < n
            invariant
                n == order@.len(),
                i <= n,
                keys == order@.to_set(),
                m == tasks@.map_values(|t: TaskLog| t@),
                forall|j: int, c: int|
                    #![trigger m[order@[j]].children[c]]
                    0 <= j < i && 0 <= c < m[order@[j]].children.len() ==> m.contains_key(
                        m[order@[j]].children[c],
                    ),
            decreases n - i,
        {
            assert(keys.contains(order@[i as int]));
            let t = tasks.get(&order[i]).unwrap();
            let mut c: usize = 0;
            while c < t.children.len()
                invariant
                    c <= t.children@.len(),
                    forall|d: int| 0 <= d < c ==> m.contains_key(#[trigger] t.children@[d]),
                decreases t.children@.len() - c,
            {
                if !tasks.contains_key(&t.children[c]) {
                    proof {
                        assert(m.contains_key(order@[i as int]));
                        assert(m[order@[i as int]].children[c as int] == t.children@[c as int]);
                        assert(!tasks_known(m, model.subgraphs));
                    }
                    return Err(ReplayError::UnknownTask);
                }
                c = c + 1;
            }
            assert(m[order@[i as int]].children == t.children@);
            i = i + 1;
        }
        let mut g: usize = 0;
        while g < subgraphs.len()
            invariant
                g <= subgraphs@.len(),
                m == tasks@.map_values(|t: TaskLog| t@),
                forall|h: int| 0 <= h < g ==> subgraph_known(m, #[trigger] subgraphs@[h]),
            decreases subgraphs@.len() - g,
        {
            if !tasks.contains_key(&subgraphs[g].0) || !tasks.contains_key(&subgraphs[g].1) {
                proof {
                    assert(!tasks_known(m, model.subgraphs));
                }
                return Err(ReplayError::UnknownTask);
            }
            assert(tasks@.contains_key(subgraphs@[g as int].0));
            assert(subgraph_known(m, subgraphs@[g as int]));
            g = g + 1;
        }
        proof {
            assert forall|k: TaskId, j: int|
                #![trigger m[k].children[j]]
                m.contains_key(k) && 0 <= j < m[k].children.len() implies m.contains_key(m[k].children[j]) by {
                assert(order@.to_set().contains(k));
                let x = choose|x: int| 0 <= x < order@.len() && order@[x] == k;
                assert(m[order@[x]].children[j] == m[k].children[j]);
            }
            assert(tasks_known(m, model.subgraphs));
        }
        // check that subgraphs refer to known tags
        let mut g: usize = 0;
        while g < subgraphs.len()
            invariant
                g <= subgraphs@.len(),
                forall|h: int| 0 <= h < g ==> (#[trigger] subgraphs@[h]).2 < tags@.len(),
            decreases subgraphs@.len() - g,
        {
            if subgraphs[g].2 >= tags.len() {
                proof {
                    assert(strings_view(tags@).len() == tags@.len());
                    assert(subgraphs@[g as int] == model.subgraphs[g as int]);
                    assert(!tags_known(model.subgraphs, strings_view(tags@).len()));
                }
                return Err(ReplayError::UnknownTag);
            }
            g = g + 1;
        }
        assert(strings_view(tags@).len() == tags@.len());
        assert(tags_known(model.subgraphs, strings_view(tags@).len()));
        // renumber tasks by increasing id
        let sorted = sorted_ids(&order);
        proof {
            lemma_sorted_distinct(sorted@, order@);
            order@.unique_seq_to_set();
        }
        let ids_changes = positions(&sorted);
        proof {
            assert forall|k: TaskId| #[trigger] keys.contains(k) implies ids_changes@.contains_key(k) && ids_changes@[k] == rank(keys, k) && rank(keys, k) < n by {
                assert(sorted@.to_set() == keys);
                assert(sorted@.to_set().contains(k));
                let j = choose|j: int| 0 <= j < sorted@.len() && sorted@[j] == k;
                assert(ids_changes@.contains_key(sorted@[j]));
                lemma_rank_sorted(sorted@, keys, j);
            }
        }
        let mut tasks_logs: Vec<TaskLog> = Vec::new();
        let mut i: usize = 0;
        while i < n
            invariant
                n == sorted@.len(),
                n == keys.len(),
                i <= n,
                keys == sorted@.to_set(),
                m == tasks@.map_values(|t: TaskLog| t@),
                forall|a: int, b: int| 0 <= a < b < sorted@.len() ==> sorted@[a] < sorted@[b],
                forall|k: TaskId| #[trigger] keys.contains(k) ==> ids_changes@.contains_key(k) && ids_changes@[k] == rank(keys, k) && rank(keys, k) < n,
                forall|k: TaskId| #[trigger] m.contains_key(k) ==> min <= m[k].start_time && m[k].start_time <= m[k].end_time,
                forall|k: TaskId| #[trigger] m.contains_key(k) ==> m[k].end_time <= max,
                tasks_known(m, model.subgraphs),
                tasks_logs@.len() == i,
                forall|j: int| 0 <= j < i ==> (#[trigger] tasks_logs@[j])@ == renamed_task(m[sorted@[j]], keys, min),
            decreases n - i,
        {
            assert(keys.contains(sorted@[i as int]));
            let t = tasks.get(&sorted[i]).unwrap();
            let ghost tm = m[sorted@[i as int]];
            assert(t@ == tm);
            let mut children: Vec<TaskId> = Vec::new();
            let mut c: usize = 0;
            while c < t.children.len()
                invariant
                    c <= t.children@.len(),
                    t.children@ == tm.children,
                    m.contains_key(sorted@[i as int]),
                    tm == m[sorted@[i as int]],
                    tasks_known(m, model.subgraphs),
                    forall|k: TaskId| #[trigger] keys.contains(k) ==> ids_changes@.contains_key(k) && ids_changes@[k] == rank(keys, k) && rank(keys, k) < n,
                    keys == m.dom(),
                    children@.len() == c,
                    forall|d: int| 0 <= d < c ==> children@[d] == rank(keys, #[trigger] tm.children[d]) as TaskId,
                decreases t.children@.len() - c,
            {
                let child = t.children[c];
                assert(tm.children[c as int] == child);
                assert(keys.contains(child));
                let renamed = *ids_changes.get(&child).unwrap();
                children.push(renamed);
                c = c + 1;
            }
            assert(children@ =~= tm.children.map_values(|c: TaskId| rank(keys, c) as TaskId));
            let task = TaskLog {
                start_time: t.start_time - min,
                end_time: t.end_time - min,
                thread_id: t.thread_id,
                children,
            };
            tasks_logs.push(task);
            i = i + 1;
        }
        let mut renamed_subgraphs: Vec<(TaskId, TaskId, SubGraphId, usize)> = Vec::new();
        let mut g: usize = 0;
        while g < subgraphs.len()
            invariant
                g <= subgraphs@.len(),
                subgraphs@ == model.subgraphs,
                keys == m.dom(),
                tasks_known(m, model.subgraphs),
                forall|k: TaskId| #[trigger] keys.contains(k) ==> ids_changes@.contains_key(k) && ids_changes@[k] == rank(keys, k) && rank(keys, k) < n,
                renamed_subgraphs@.len() == g,
                forall|h: int| 0 <= h < g ==> #[trigger] renamed_subgraphs@[h] == renamed_subgraph(subgraphs@[h], keys),
            decreases subgraphs@.len() - g,
        {
            let (start, end, tag, size) = subgraphs[g];
            assert(keys.contains(start) && keys.contains(end));
            let new_start = *ids_changes.get(&start).unwrap();
            let new_end = *ids_changes.get(&end).unwrap();
            renamed_subgraphs.push((new_start, new_end, tag, size));
            g = g + 1;
        }
        let log = RunLog {
            threads_number,
            tasks_logs,
            duration: max - min,
            tags,
            subgraphs: renamed_subgraphs,
        };
        proof {
            assert forall|i: int| 0 <= i < n implies key_of_rank(keys, i) == sorted@[i] by {
                lemma_key_of_rank(sorted@, keys, i);
            }
            assert(tasks_view(log.tasks_logs@) =~= Seq::new(
                keys.len(),
                |i: int| renamed_task(m[key_of_rank(keys, i)], keys, min),
            ));
            assert(log.subgraphs@ =~= model.subgraphs.map_values(
                |g: (TaskId, TaskId, SubGraphId, usize)| renamed_subgraph(g, keys),
            ));
            assert forall|i: int, j: int|
                #![trigger log.tasks_logs@[i].children@[j]]
                0 <= i < log.tasks_logs@.len() && 0 <= j < log.tasks_logs@[i].children@.len() implies log.tasks_logs@[i].children@[j]
                    < log.tasks_logs@.len() by {
                let k = sorted@[i];
                assert(keys.contains(k));
                assert(m[k].children[j] == m[k].children[j]);
                assert(keys.contains(m[k].children[j]));
            }
            assert forall|i: int| 0 <= i < log.tasks_logs@.len() implies (#[trigger] log.tasks_logs@[i]).start_time
                <= log.tasks_logs@[i].end_time by {
                assert(keys.contains(sorted@[i]));
            }
            assert(log.well_formed());
            let k0 = order@[jmin];
            assert(sorted@.to_set().contains(k0));
            let j0 = choose|j: int| 0 <= j < sorted@.len() && sorted@[j] == k0;
            assert(log.tasks_logs@[j0].start_time == 0);
            assert forall|i: int| 0 <= i < log.tasks_logs@.len() implies #[trigger] log.tasks_logs@[i].end_time
                <= log.duration by {
                assert(keys.contains(sorted@[i]));
            }
            assert(times_from_start(log));
        }
        Ok(log)
    }
}


/// Whether `a` happens strictly before `b`.
pub fn earlier(a: &(ThreadId, RawEvent<SubGraphId>), b: &(ThreadId, RawEvent<SubGraphId>)) -> (r: bool)
    ensures
        r == (event_time(a.1) < event_time(b.1)),
{
    a.1.time() < b.1.time()
}

/// The events of all threads, each tagged with its thread, as merged by
/// `itertools`' `kmerge_by` under `earlier`.
pub uninterp spec fn merged_by_time(threads: Seq<Seq<RawEvent<SubGraphId>>>) -> Seq<
    (ThreadId, RawEvent<SubGraphId>),
>;

/// Merges the events of all threads with `Itertools::kmerge_by`, each event
/// tagged with the index of its thread, comparing with `earlier`. The claim
/// is what `kmerge_by` does and documents: the result depends on the events
/// alone; it holds the events of every thread, each tagged with the
/// thread's index, in the thread's order, and nothing else; and when each
/// thread's events are in time order, so is the result.
#[verifier::external_body]
fn merge_by_time(threads: &Vec<Vec<RawEvent<SubGraphId>>>) -> (merged: Vec<
    (ThreadId, RawEvent<SubGraphId>),
>)
    ensures
        merged@ == merged_by_time(threads_view(threads@)),
        forall|k: int| 0 <= k < merged@.len() ==> (#[trigger] merged@[k]).0 < threads@.len(),
        forall|t: int|
            0 <= t < threads@.len() ==> merged@.filter(|e: (ThreadId, RawEvent<SubGraphId>)| e.0 == t)
                == (#[trigger] threads_view(threads@)[t]).map_values(
                |e: RawEvent<SubGraphId>| (t as ThreadId, e),
            ),
        (forall|t: int, i: int, j: int|
            0 <= t < threads@.len() && 0 <= i <= j < threads_view(threads@)[t].len() ==> event_time(
                #[trigger] threads_view(threads@)[t][i],
            ) <= event_time(#[trigger] threads_view(threads@)[t][j])) ==> forall|k: int, l: int|
            0 <= k <= l < merged@.len() ==> event_time((#[trigger] merged@[k]).1) <= event_time(
                (#[trigger] merged@[l]).1,
            ),
{
    threads.iter().enumerate().map(|(t, events)| events.iter().map(move |e| (t, *e))).kmerge_by(
        |a, b| earlier(a, b),
    ).collect()
}

impl RunLog {
    /// Rebuild the fork-join graph from events merged by time (each tagged
    /// with the thread that recorded it), with `tags` as subgraph labels, for
    /// a run of `threads_number` threads (some of which may have logged
    /// nothing).
    pub fn from_events(merged: &Vec<(ThreadId, RawEvent<SubGraphId>)>, tags: Vec<String>, threads_number: usize) -> (r:
        Result<RunLog, ReplayError>)
        ensures
            run_log_result(r) == run_log_of(merged@, strings_view(tags@), threads_number as nat),
            r matches Ok(l) ==> l.well_formed() && times_from_start(l),
    {
        let state = match replay(merged) {
            Ok(s) => s,
            Err(e) => return Err(e),
        };
        state.finish(tags, threads_number)
    }

    /// Create a real log from recorded events: merge the events of all
    /// threads by time and rebuild the fork-join graph. The run counts every
    /// thread that has a log, used or not.
    pub fn new(raw_logs: RawLogs) -> (r: Result<RunLog, ReplayError>)
        ensures
            run_log_result(r) == run_log_of(
                merged_by_time(raw_logs@.thread_events),
                raw_logs@.labels,
                raw_logs@.thread_events.len(),
            ),
            r matches Ok(l) ==> l.well_formed() && times_from_start(l),
    {
        let threads_number = raw_logs.thread_events.len();
        let merged = merge_by_time(&raw_logs.thread_events);
        RunLog::from_events(&merged, raw_logs.labels, threads_number)
    }
}

} // verus!
