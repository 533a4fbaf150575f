//! Logged fork-join parallelism: `join`, `join_context` and subgraphs run
//! the given closures and record, in the calling threads' logs, the tasks
//! that the fork-join graph is rebuilt from.
use crate::context::Recorder;
use crate::events::TaskId;
use rayon::FnContext;
use vstd::prelude::*;

verus! {

#[verifier::external_type_specification]
#[verifier::external_body]
pub struct ExFnContext(FnContext);

/// Run `op` as task `id` of the calling thread, then end the task with
/// `continuation` as the task that follows it.
pub fn run_task<OP, R>(rec: &Recorder, id: TaskId, continuation: TaskId, op: OP) -> (r: R)
    where
        OP: FnOnce() -> R,
    requires
        op.requires(()),
    ensures
        op.ensures((), r),
{
    rec.log_task_start(id);
    let r = op();
    rec.log_task_finish(continuation);
    r
}

/// Same as `run_task`, for a closure that takes rayon's context.
pub fn run_task_in_context<OP, R>(rec: &Recorder, id: TaskId, continuation: TaskId, op: OP, c: FnContext) -> (r: R)
    where
        OP: FnOnce(FnContext) -> R,
    requires
        op.requires((c,)),
    ensures
        op.ensures((c,), r),
{
    rec.log_task_start(id);
    let r = op(c);
    rec.log_task_finish(continuation);
    r
}

/// Calls `rayon::join` on two closures that run `oper_a` as task `left` and
/// `oper_b` as task `right` (see `run_task`). The claim is what rayon
/// documents: both closures run, and their results come back as a pair.
#[verifier::external_body]
fn rayon_join<A, B, RA, RB>(
    rec: &Recorder,
    left: TaskId,
    right: TaskId,
    continuation: TaskId,
    oper_a: A,
    oper_b: B,
) -> (r: (RA, RB))
    where
        A: FnOnce() -> RA + Send,
        B: FnOnce() -> RB + Send,
        RA: Send,
        RB: Send,
    requires
        oper_a.requires(()),
        oper_b.requires(()),
    ensures
        oper_a.ensures((), r.0),
        oper_b.ensures((), r.1),
{
    rayon::join(
        || run_task(rec, left, continuation, oper_a),
        || run_task(rec, right, continuation, oper_b),
    )
}

/// Calls `rayon::join_context` on two closures that run `oper_a` as task
/// `left` and `oper_b` as task `right` (see `run_task_in_context`). The
/// claim is what rayon documents: both closures run, each on a context that
/// rayon provides, and their results come back as a pair.
#[verifier::external_body]
fn rayon_join_context<A, B, RA, RB>(
    rec: &Recorder,
    left: TaskId,
    right: TaskId,
    continuation: TaskId,
    oper_a: A,
    oper_b: B,
) -> (r: (RA, RB))
    where
        A: FnOnce(FnContext) -> RA + Send,
        B: FnOnce(FnContext) -> RB + Send,
        RA: Send,
        RB: Send,
    requires
        forall|c: FnContext| oper_a.requires((c,)),
        forall|c: FnContext| oper_b.requires((c,)),
    ensures
        exists|c: FnContext| oper_a.ensures((c,), r.0),
        exists|c: FnContext| oper_b.ensures((c,), r.1),
{
    rayon::join_context(
        |c| run_task_in_context(rec, left, continuation, oper_a, c),
        |c| run_task_in_context(rec, right, continuation, oper_b, c),
    )
}

/// Takes two closures and potentially runs them in parallel, returning the
/// pair of their results. The current task ends with two children, one for
/// each closure; both are followed by a common continuation task, which the
/// calling thread starts once both closures are done.
pub fn join<A, B, RA, RB>(rec: &Recorder, oper_a: A, oper_b: B) -> (r: (RA, RB))
    where
        A: FnOnce() -> RA + Send,
        B: FnOnce() -> RB + Send,
        RA: Send,
        RB: Send,
    requires
        oper_a.requires(()),
        oper_b.requires(()),
    ensures
        oper_a.ensures((), r.0),
        oper_b.ensures((), r.1),
{
    let j = rec.log_fork();
    let r = rayon_join(rec, j.left, j.right, j.continuation, oper_a, oper_b);
    rec.log_task_start(j.continuation);
    r
}

/// Same as `join`, except that each closure gets rayon's context, which
/// tells whether it was stolen by another thread.
pub fn join_context<A, B, RA, RB>(rec: &Recorder, oper_a: A, oper_b: B) -> (r: (RA, RB))
    where
        A: FnOnce(FnContext) -> RA + Send,
        B: FnOnce(FnContext) -> RB + Send,
        RA: Send,
        RB: Send,
    requires
        forall|c: FnContext| oper_a.requires((c,)),
        forall|c: FnContext| oper_b.requires((c,)),
    ensures
        exists|c: FnContext| oper_a.ensures((c,), r.0),
        exists|c: FnContext| oper_b.ensures((c,), r.1),
{
    let j = rec.log_fork();
    let r = rayon_join_context(rec, j.left, j.right, j.continuation, oper_a, oper_b);
    rec.log_task_start(j.continuation);
    r
}

/// Tag all the tasks that `op` makes as one subgraph. `start` runs just
/// before the subgraph and `end`, on what `start` produced, just after it:
/// its result is recorded as the subgraph's measured value.
pub fn custom_subgraph<OP, R, START, END, S>(
    rec: &Recorder,
    tag: &'static str,
    start: START,
    end: END,
    op: OP,
) -> (r: R)
    where
        OP: FnOnce() -> R,
        START: FnOnce() -> S,
        END: FnOnce(S) -> usize,
    requires
        start.requires(()),
        forall|s: S| end.requires((s,)),
        op.requires(()),
    ensures
        op.ensures((), r),
{
    let s = start();
    rec.log_start_subgraph(tag);
    let r = op();
    let measured_value = end(s);
    rec.log_end_subgraph(tag, measured_value);
    r
}

/// Tag all the tasks that `op` makes as one subgraph, of algorithmic cost
/// `work_amount`. Subgraphs with the same tag can then be compared by speed.
pub fn subgraph<OP, R>(rec: &Recorder, work_type: &'static str, work_amount: usize, op: OP) -> (r: R)
    where
        OP: FnOnce() -> R,
    requires
        op.requires(()),
    ensures
        op.ensures((), r),
{
    custom_subgraph(rec, work_type, || (), |u: ()| work_amount, op)
}

} // verus!
