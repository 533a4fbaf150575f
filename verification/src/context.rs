//! Where the threads of a pool record their events: one log per thread,
//! each behind its own lock, with the shared counters of task and iterator
//! ids and the instant that time stamps count from.
use crate::clock::{instant_now, now};
use crate::codec::encode_logs;
use crate::events::{RawEvent, TaskId, TimeStamp};
use crate::ids::next_task_id;
use crate::logging::{
    all_well_formed, child, end_subgraph, fork, gathered, start_subgraph, task_finish, task_start, JoinIds, ThreadLog,
};
use crate::runlog::{merged_by_time, run_log_of, run_log_result, times_from_start, ReplayError, RunLog};
use crate::storage::Storage;
use rayon::ThreadPool as RayonPool;
use std::sync::atomic::AtomicUsize;
use std::time::Instant;
use vstd::prelude::*;
use vstd::rwlock::{RwLock, RwLockPredicate, WriteHandle};

verus! {

/// What every log kept in a lock satisfies.
pub struct LogPredicate {}

impl RwLockPredicate<ThreadLog> for LogPredicate {
    open spec fn inv(self, v: ThreadLog) -> bool {
        v.well_formed()
    }
}

/// Calls `rayon::current_thread_index`: the index of the current thread in
/// its rayon pool, `None` outside of any pool. Nothing is claimed of it: it
/// depends on which thread makes the call.
#[verifier::external_body]
fn current_thread_index() -> Option<usize> {
    rayon::current_thread_index()
}

/// Calls `rayon::ThreadPool::current_thread_index`: the index of the current
/// thread in `pool`, `None` when it is not one of that pool's threads.
/// Nothing is claimed of it: it depends on which thread makes the call.
#[verifier::external_body]
fn pool_thread_index(pool: &RayonPool) -> Option<usize> {
    pool.current_thread_index()
}

/// The logs of the threads of a pool and the counters they share.
pub struct Recorder {
    /// Slot 0 is for threads outside the pool, slot `i + 1` for the pool's
    /// thread `i`.
    logs: Vec<RwLock<ThreadLog, LogPredicate>>,
    /// Next task id.
    ids: AtomicUsize,
    /// Next iterator id.
    iterators: AtomicUsize,
    /// Time stamps count nanoseconds from this instant.
    start: Instant,
    /// The pool whose threads log here; `None` for rayon's global pool.
    pool: Option<RayonPool>,
}

impl Recorder {
    #[verifier::type_invariant]
    spec fn locks_hold_logs(self) -> bool {
        &&& self.logs@.len() > 0
        &&& forall|i: int| 0 <= i < self.logs@.len() ==> (#[trigger] self.logs@[i]).pred() == (LogPredicate {})
    }

    /// Number of logs: one per thread of the pool, and one more for the
    /// threads outside of it.
    pub closed spec fn slots(&self) -> nat {
        self.logs@.len()
    }

    /// A recorder for a pool of `threads_number` threads. The calling
    /// thread's task 0 starts now; the next task id is 1.
    pub fn new(threads_number: usize) -> (r: Self)
        requires
            threads_number < usize::MAX,
        ensures
            r.slots() == threads_number + 1,
    {
        let start = instant_now();
        let mut logs: Vec<RwLock<ThreadLog, LogPredicate>> = Vec::new();
        let mut main_log: ThreadLog = Storage::new();
        let t = now(&start);
        main_log.push(RawEvent::TaskStart(0, t));
        logs.push(RwLock::new(main_log, Ghost(LogPredicate {})));
        let mut i: usize = 0;
        while i < threads_number
            invariant
                i <= threads_number,
                logs@.len() == i + 1,
                forall|k: int| 0 <= k < logs@.len() ==> (#[trigger] logs@[k]).pred() == (LogPredicate {}),
            decreases threads_number - i,
        {
            logs.push(RwLock::new(Storage::new(), Ghost(LogPredicate {})));
            i = i + 1;
        }
        Recorder { logs, ids: AtomicUsize::new(1), iterators: AtomicUsize::new(0), start, pool: None }
    }

    /// A recorder for `pool`, of `threads_number` threads (see `new`).
    pub(crate) fn for_pool(threads_number: usize, pool: RayonPool) -> (r: Self)
        requires
            threads_number < usize::MAX,
        ensures
            r.slots() == threads_number + 1,
            r.has_pool(),
    {
        let r = Recorder::new(threads_number);
        Recorder { logs: r.logs, ids: r.ids, iterators: r.iterators, start: r.start, pool: Some(pool) }
    }

    /// The recorder was made for a pool of its own.
    pub closed spec fn has_pool(&self) -> bool {
        self.pool is Some
    }

    /// The pool the recorder was made for.
    pub(crate) fn pool(&self) -> (p: &RayonPool)
        requires
            self.has_pool(),
    {
        self.pool.as_ref().unwrap()
    }

    /// The slot of the calling thread (slot 0 when it is not a thread of
    /// the pool this recorder was made for: its own pool, or rayon's global
    /// pool when it has none).
    fn slot(&self) -> (s: usize)
        ensures
            s < self.slots(),
    {
        proof {
            use_type_invariant(self);
        }
        let index = match &self.pool {
            Some(pool) => pool_thread_index(pool),
            None => current_thread_index(),
        };
        match index {
            Some(i) => {
                if i < self.logs.len() - 1 {
                    i + 1
                } else {
                    0
                }
            },
            None => 0,
        }
    }

    /// Get an id for a new task.
    pub fn next_task_id(&self) -> TaskId {
        next_task_id(&self.ids)
    }

    /// Get an id for a new iterator.
    pub fn next_iterator_id(&self) -> usize {
        crate::ids::next_iterator_id(&self.iterators)
    }

    /// Record, in the calling thread's log, the fork of the current task
    /// into two branches (see `logging::fork`).
    pub fn log_fork(&self) -> JoinIds {
        proof {
            use_type_invariant(self);
        }
        let s = self.slot();
        let (mut log, handle) = self.logs[s].acquire_write();
        let j = fork(&mut log, &self.ids, &self.start);
        handle.release_write(log);
        j
    }

    /// Record, in the calling thread's log, the start of task `id`.
    pub fn log_task_start(&self, id: TaskId) {
        proof {
            use_type_invariant(self);
        }
        let s = self.slot();
        let (mut log, handle) = self.logs[s].acquire_write();
        task_start(&mut log, id, &self.start);
        handle.release_write(log);
    }

    /// Record, in the calling thread's log, `id` as a child of the current
    /// task, which goes on.
    pub fn log_child(&self, id: TaskId) {
        proof {
            use_type_invariant(self);
        }
        let s = self.slot();
        let (mut log, handle) = self.logs[s].acquire_write();
        child(&mut log, id);
        handle.release_write(log);
    }

    /// Record, in the calling thread's log, the end of the current task,
    /// followed by `continuation`.
    pub fn log_task_finish(&self, continuation: TaskId) {
        proof {
            use_type_invariant(self);
        }
        let s = self.slot();
        let (mut log, handle) = self.logs[s].acquire_write();
        task_finish(&mut log, continuation, &self.start);
        handle.release_write(log);
    }

    /// Record, in the calling thread's log, the start of a subgraph tagged
    /// `tag` (see `logging::start_subgraph`).
    pub fn log_start_subgraph(&self, tag: &'static str) -> TaskId {
        proof {
            use_type_invariant(self);
        }
        let s = self.slot();
        let (mut log, handle) = self.logs[s].acquire_write();
        let id = start_subgraph(&mut log, &self.ids, &self.start, tag);
        handle.release_write(log);
        id
    }

    /// Record, in the calling thread's log, the end of the subgraph tagged
    /// `tag` with its measured value (see `logging::end_subgraph`).
    pub fn log_end_subgraph(&self, tag: &'static str, measured_value: usize) -> TaskId {
        proof {
            use_type_invariant(self);
        }
        let s = self.slot();
        let (mut log, handle) = self.logs[s].acquire_write();
        let id = end_subgraph(&mut log, &self.ids, &self.start, tag, measured_value);
        handle.release_write(log);
        id
    }

    /// Take every log out of its lock, in slot order.
    fn lock_all(&self) -> (r: (Vec<ThreadLog>, Vec<WriteHandle<'_, ThreadLog, LogPredicate>>))
        ensures
            r.0@.len() == self.slots(),
            r.1@.len() == self.slots(),
            all_well_formed(r.0@),
            forall|k: int| 0 <= k < r.1@.len() ==> (#[trigger] r.1@[k]).rwlock().pred() == (LogPredicate {}),
    {
        proof {
            use_type_invariant(self);
        }
        let mut values: Vec<ThreadLog> = Vec::new();
        let mut handles: Vec<WriteHandle<'_, ThreadLog, LogPredicate>> = Vec::new();
        let mut i: usize = 0;
        while i < self.logs.len()
            invariant
                i <= self.logs@.len(),
                values@.len() == i,
                handles@.len() == i,
                all_well_formed(values@),
                forall|k: int| 0 <= k < self.logs@.len() ==> (#[trigger] self.logs@[k]).pred() == (LogPredicate {}),
                forall|k: int| 0 <= k < i ==> (#[trigger] handles@[k]).rwlock().pred() == (LogPredicate {}),
            decreases self.logs@.len() - i,
        {
            let (v, h) = self.logs[i].acquire_write();
            values.push(v);
            handles.push(h);
            i = i + 1;
        }
        (values, handles)
    }

    /// Put every log back in its lock.
    fn unlock_all(&self, values: Vec<ThreadLog>, handles: Vec<WriteHandle<'_, ThreadLog, LogPredicate>>)
        requires
            values@.len() == handles@.len(),
            all_well_formed(values@),
            forall|k: int| 0 <= k < handles@.len() ==> (#[trigger] handles@[k]).rwlock().pred() == (LogPredicate {}),
    {
        let mut values = values;
        let mut handles = handles;
        while handles.len() > 0
            invariant
                values@.len() == handles@.len(),
                all_well_formed(values@),
                forall|k: int| 0 <= k < handles@.len() ==> (#[trigger] handles@[k]).rwlock().pred() == (LogPredicate {}),
            decreases handles@.len(),
        {
            let h = handles.pop().unwrap();
            let v = values.pop().unwrap();
            assert(v.well_formed());
            h.release_write(v);
        }
    }

    /// Erase all logs, then start a new task in the calling thread's log.
    pub fn reset(&self) {
        let current = self.slot();
        let (mut values, handles) = self.lock_all();
        crate::logging::reset(&mut values, current, &self.ids, &self.start);
        self.unlock_all(values, handles);
    }

    /// End the calling thread's task, then encode all logs in the log
    /// format and reset them.
    pub fn save_raw_logs(&self) -> (bytes: Vec<u8>)
        ensures
            exists|logs: Seq<ThreadLog>, current: int, t: TimeStamp|
                all_well_formed(logs) && logs.len() == self.slots() && 0 <= current < logs.len() && bytes@ == encode_logs(
                    #[trigger] gathered(logs, current, t, logs.len()),
                ),
    {
        let current = self.slot();
        let (mut values, handles) = self.lock_all();
        let n = values.len();
        let bytes = crate::logging::save_raw_logs(&mut values, current, n, &self.ids, &self.start);
        self.unlock_all(values, handles);
        bytes
    }

    /// End the calling thread's task, then encode all logs in the log
    /// format, keeping them (with the task's end): a save that fails can be
    /// tried again, and `reset` erases them once saved.
    pub fn gather_raw_logs(&self) -> (bytes: Vec<u8>)
        ensures
            exists|logs: Seq<ThreadLog>, current: int, t: TimeStamp|
                all_well_formed(logs) && logs.len() == self.slots() && 0 <= current < logs.len() && bytes@ == encode_logs(
                    #[trigger] gathered(logs, current, t, logs.len()),
                ),
    {
        let current = self.slot();
        let (mut values, handles) = self.lock_all();
        let n = values.len();
        let bytes = crate::logging::gather_raw_logs(&mut values, current, n, &self.start);
        self.unlock_all(values, handles);
        bytes
    }

    /// End the calling thread's task, then rebuild the fork-join graph of
    /// all logs and reset them.
    pub fn save_svg(&self) -> (r: Result<RunLog, ReplayError>)
        ensures
            exists|logs: Seq<ThreadLog>, current: int, t: TimeStamp|
                all_well_formed(logs) && logs.len() == self.slots() && 0 <= current < logs.len() && run_log_result(r) == run_log_of(
                    merged_by_time(#[trigger] gathered(logs, current, t, logs.len()).thread_events),
                    gathered(logs, current, t, logs.len()).labels,
                    gathered(logs, current, t, logs.len()).thread_events.len(),
                ),
            r matches Ok(l) ==> l.well_formed() && times_from_start(l),
    {
        let current = self.slot();
        let (mut values, handles) = self.lock_all();
        let n = values.len();
        let r = crate::logging::save_svg(&mut values, current, n, &self.ids, &self.start);
        self.unlock_all(values, handles);
        r
    }
}

} // verus!
