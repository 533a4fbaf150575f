//! Logging thread pools: a rayon pool together with the recorder that its
//! threads log into.
use crate::context::Recorder;
use crate::events::{TaskId, TimeStamp};
use crate::parallel::run_task;
use crate::logging::{all_well_formed, gathered, ThreadLog};
use crate::runlog::{merged_by_time, run_log_of, run_log_result, times_from_start, ReplayError, RunLog};
use rayon::ThreadPool as RayonPool;
use rayon::ThreadPoolBuildError;
use vstd::prelude::*;

verus! {

#[verifier::external_type_specification]
#[verifier::external_body]
pub struct ExRayonThreadPool(RayonPool);

#[verifier::external_type_specification]
#[verifier::external_body]
pub struct ExRayonThreadPoolBuildError(ThreadPoolBuildError);

/// Calls `rayon::ThreadPoolBuilder::new`, sets the number of threads wanted
/// with `num_threads` (0 for rayon's choice), calls `build`, and gives the
/// pool together with its `current_num_threads` and the number of threads
/// it was asked for. Whether the pool can be built depends on the system,
/// so success is not claimed; the claim is what rayon documents for
/// `num_threads`: a pool asked for a non-zero number of threads has at
/// most that many.
#[verifier::external_body]
fn rayon_build(threads_number: usize) -> (r: Result<(RayonPool, usize, usize), ThreadPoolBuildError>)
    ensures
        r matches Ok(built) ==> built.2 == threads_number && (threads_number > 0 ==> built.1 <= threads_number),
{
    match rayon::ThreadPoolBuilder::new().num_threads(threads_number).build() {
        Ok(pool) => {
            let n = pool.current_num_threads();
            Ok((pool, n, threads_number))
        },
        Err(e) => Err(e),
    }
}

/// Calls `rayon::ThreadPool::install` on a closure that runs `op` as task
/// `id` (see `run_task`). The claim is what rayon documents: the closure
/// runs in the pool and its result is returned.
#[verifier::external_body]
fn rayon_install<OP, R>(pool: &RayonPool, rec: &Recorder, id: TaskId, continuation: TaskId, op: OP) -> (r: R)
    where
        OP: FnOnce() -> R + Send,
        R: Send,
    requires
        op.requires(()),
    ensures
        op.ensures((), r),
{
    pool.install(|| run_task(rec, id, continuation, op))
}

/// Builds logging thread pools.
pub struct ThreadPoolBuilder {
    /// The number of threads asked for (0: rayon chooses).
    threads: usize,
}

impl ThreadPoolBuilder {
    /// The number of threads asked for (0 when rayon is left to choose).
    pub closed spec fn threads_wanted(&self) -> usize {
        self.threads
    }

    /// Creates a new builder, with rayon's defaults.
    pub fn new() -> (b: Self)
        ensures
            b.threads_wanted() == 0,
    {
        ThreadPoolBuilder { threads: 0 }
    }

    /// Set the number of threads wanted.
    pub fn num_threads(self, threads_number: usize) -> (b: Self)
        ensures
            b.threads_wanted() == threads_number,
    {
        ThreadPoolBuilder { threads: threads_number }
    }

    /// Build the pool, with the number of threads wanted (at most that
    /// many, as rayon documents, when it is not 0), one log for each of its
    /// threads and one for the threads outside of it.
    pub fn build(self) -> (r: Result<ThreadPool, ThreadPoolBuildError>)
        ensures
            r matches Ok(p) ==> p.recorder().slots() > 1,
            r matches Ok(p) ==> p.threads_asked() == self.threads_wanted(),
            r matches Ok(p) ==> (self.threads_wanted() > 0 ==> p.recorder().slots() <= self.threads_wanted() + 1),
    {
        with_recorder(rayon_build(self.threads))
    }
}

/// What `build` makes of what rayon's builder gave (a pool, its number of
/// threads and the number it was asked for): rayon's error as it is, or its
/// pool, keeping the number asked for, with a recorder that has one log for
/// each of the pool's threads (at least one) and one more.
fn with_recorder(built: Result<(RayonPool, usize, usize), ThreadPoolBuildError>) -> (r: Result<
    ThreadPool,
    ThreadPoolBuildError,
>)
    requires
        built matches Ok(b) ==> (b.2 > 0 ==> b.1 <= b.2),
    ensures
        r is Ok <==> built is Ok,
        r matches Ok(p) ==> p.recorder().slots() > 1,
        built matches Ok(b) ==> (r matches Ok(p) && p.threads_asked() == b.2 && (b.2 > 0 ==> p.recorder().slots()
            <= b.2 + 1)),
        built matches Ok(b) ==> (0 < b.1 < usize::MAX ==> (r matches Ok(p) && p.recorder().slots() == b.1 + 1)),
        built matches Err(e) ==> r == Err::<ThreadPool, ThreadPoolBuildError>(e),
{
    match built {
        Ok((pool, n, asked)) => {
            let threads = if n == 0 || n == usize::MAX {
                1
            } else {
                n
            };
            Ok(ThreadPool { recorder: Recorder::for_pool(threads, pool), asked: Ghost(asked) })
        },
        Err(e) => Err(e),
    }
}

/// A rayon pool whose threads log into a recorder (which holds the pool).
pub struct ThreadPool {
    recorder: Recorder,
    /// The number of threads rayon was asked for (0: rayon chose).
    asked: Ghost<usize>,
}

impl ThreadPool {
    #[verifier::type_invariant]
    spec fn recorder_has_pool(self) -> bool {
        self.recorder.has_pool()
    }

    /// The number of threads rayon was asked for (0 when rayon chose).
    pub closed spec fn threads_asked(&self) -> usize {
        self.asked@
    }

    /// The recorder that the pool's threads log into.
    pub closed spec fn recorder(&self) -> Recorder {
        self.recorder
    }

    /// The recorder that the pool's threads log into.
    pub fn logs(&self) -> (r: &Recorder)
        ensures
            *r == self.recorder(),
    {
        &self.recorder
    }

    /// Execute `op` in the pool, as a task of its own: the calling thread's
    /// task ends with it as child, and the calling thread continues in a new
    /// task once `op` is done.
    pub fn install<OP, R>(&self, op: OP) -> (r: R)
        where
            OP: FnOnce() -> R + Send,
            R: Send,
        requires
            op.requires(()),
        ensures
            op.ensures((), r),
    {
        let id = self.recorder.next_task_id();
        let continuation = self.recorder.next_task_id();
        self.recorder.log_task_finish(id);
        proof {
            use_type_invariant(self);
        }
        let r = rayon_install(self.recorder.pool(), &self.recorder, id, continuation, op);
        self.recorder.log_task_start(continuation);
        r
    }

    /// Execute `op` in the pool on fresh logs, as the only task after the
    /// calling thread's first one, and return its result together with the
    /// fork-join graph of the run.
    pub fn logging_install<OP, R>(&self, op: OP) -> (r: (R, Result<RunLog, ReplayError>))
        where
            OP: FnOnce() -> R + Send,
            R: Send,
        requires
            op.requires(()),
        ensures
            op.ensures((), r.0),
            r.1 matches Ok(l) ==> l.well_formed() && times_from_start(l),
            exists|logs: Seq<ThreadLog>, current: int, t: TimeStamp|
                all_well_formed(logs) && logs.len() == self.recorder().slots() && 0 <= current < logs.len()
                    && run_log_result(r.1) == run_log_of(
                    merged_by_time(#[trigger] gathered(logs, current, t, logs.len()).thread_events),
                    gathered(logs, current, t, logs.len()).labels,
                    gathered(logs, current, t, logs.len()).thread_events.len(),
                ),
    {
        self.recorder.reset();
        let r = self.install(op);
        let log = self.recorder.save_svg();
        (r, log)
    }
}

} // verus!
