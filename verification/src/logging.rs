//! What each logged operation records: fresh task ids from a shared counter
//! and, in the recording thread's log, the events that rebuild the fork-join
//! graph afterwards.
use crate::clock::now;
use crate::codec::{encode_logs, LogsView, RawLogs};
use crate::events::{RawEvent, TaskId, ThreadId, TimeStamp};
use crate::recorder::{interned_threads, recorded_labels, recorded_view};
use crate::runlog::{merged_by_time, run_log_of, run_log_result, times_from_start, ReplayError, RunLog, RunLogModel};
use crate::storage::Storage;
use crate::ids::next_task_id;
use std::sync::atomic::AtomicUsize;
use std::time::Instant;
use vstd::prelude::*;

verus! {

/// The events recorded by one thread.
pub type ThreadLog = Storage<RawEvent<&'static str>>;

/// Stop the current task (virtually) and start a subgraph tagged `tag`,
/// run as a new task whose id is returned.
pub fn start_subgraph(log: &mut ThreadLog, ids: &AtomicUsize, start: &Instant, tag: &'static str) -> (id: TaskId)
    requires
        old(log).well_formed(),
    ensures
        final(log).well_formed(),
        exists|t1: TimeStamp, t2: TimeStamp|
            final(log)@ == old(log)@ + seq![
                RawEvent::Child(id),
                RawEvent::TaskEnd(t1),
                RawEvent::TaskStart(id, t2),
                RawEvent::SubgraphStart(tag),
            ],
{
    let id = next_task_id(ids);
    log.push(RawEvent::Child(id));
    let t1 = now(start);
    log.push(RawEvent::TaskEnd(t1));
    let t2 = now(start);
    log.push(RawEvent::TaskStart(id, t2));
    log.push(RawEvent::SubgraphStart(tag));
    assert(final(log)@ =~= old(log)@ + seq![
        RawEvent::Child(id),
        RawEvent::TaskEnd(t1),
        RawEvent::TaskStart(id, t2),
        RawEvent::SubgraphStart(tag),
    ]);
    id
}

/// End the subgraph tagged `tag` with its measured value, then stop the
/// current task (virtually) and continue in a new task whose id is returned.
pub fn end_subgraph(
    log: &mut ThreadLog,
    ids: &AtomicUsize,
    start: &Instant,
    tag: &'static str,
    measured_value: usize,
) -> (id: TaskId)
    requires
        old(log).well_formed(),
    ensures
        final(log).well_formed(),
        exists|t1: TimeStamp, t2: TimeStamp|
            final(log)@ == old(log)@ + seq![
                RawEvent::SubgraphEnd(tag, measured_value),
                RawEvent::Child(id),
                RawEvent::TaskEnd(t1),
                RawEvent::TaskStart(id, t2),
            ],
{
    let id = next_task_id(ids);
    log.push(RawEvent::SubgraphEnd(tag, measured_value));
    log.push(RawEvent::Child(id));
    let t1 = now(start);
    log.push(RawEvent::TaskEnd(t1));
    let t2 = now(start);
    log.push(RawEvent::TaskStart(id, t2));
    assert(final(log)@ =~= old(log)@ + seq![
        RawEvent::SubgraphEnd(tag, measured_value),
        RawEvent::Child(id),
        RawEvent::TaskEnd(t1),
        RawEvent::TaskStart(id, t2),
    ]);
    id
}

/// Ids of the tasks of a join: the two branches and the continuation.
pub struct JoinIds {
    pub left: TaskId,
    pub right: TaskId,
    pub continuation: TaskId,
}

/// Before a join: draw ids for both branches and the continuation, record
/// the current task's two children and end it.
pub fn fork(log: &mut ThreadLog, ids: &AtomicUsize, start: &Instant) -> (j: JoinIds)
    requires
        old(log).well_formed(),
    ensures
        final(log).well_formed(),
        exists|t: TimeStamp|
            final(log)@ == old(log)@ + seq![
                RawEvent::Child(j.left),
                RawEvent::Child(j.right),
                RawEvent::TaskEnd(t),
            ],
{
    let continuation = next_task_id(ids);
    let left = next_task_id(ids);
    let right = next_task_id(ids);
    log.push(RawEvent::Child(left));
    log.push(RawEvent::Child(right));
    let t = now(start);
    log.push(RawEvent::TaskEnd(t));
    assert(final(log)@ =~= old(log)@ + seq![
        RawEvent::Child(left),
        RawEvent::Child(right),
        RawEvent::TaskEnd(t),
    ]);
    let j = JoinIds { left, right, continuation };
    assert(final(log)@ == old(log)@ + seq![
        RawEvent::Child(j.left),
        RawEvent::Child(j.right),
        RawEvent::TaskEnd(t),
    ]);
    j
}

/// Record `id` as a child of the current task, which goes on.
pub fn child(log: &mut ThreadLog, id: TaskId)
    requires
        old(log).well_formed(),
    ensures
        final(log).well_formed(),
        final(log)@ == old(log)@.push(RawEvent::Child(id)),
{
    log.push(RawEvent::Child(id));
}

/// Start task `id` in the current thread.
pub fn task_start(log: &mut ThreadLog, id: TaskId, start: &Instant)
    requires
        old(log).well_formed(),
    ensures
        final(log).well_formed(),
        exists|t: TimeStamp| final(log)@ == old(log)@.push(RawEvent::TaskStart(id, t)),
{
    let t = now(start);
    log.push(RawEvent::TaskStart(id, t));
}

/// End the current task, recording `continuation` as the task that follows.
pub fn task_finish(log: &mut ThreadLog, continuation: TaskId, start: &Instant)
    requires
        old(log).well_formed(),
    ensures
        final(log).well_formed(),
        exists|t: TimeStamp|
            final(log)@ == old(log)@ + seq![RawEvent::Child(continuation), RawEvent::TaskEnd(t)],
{
    log.push(RawEvent::Child(continuation));
    let t = now(start);
    log.push(RawEvent::TaskEnd(t));
    assert(final(log)@ =~= old(log)@ + seq![RawEvent::Child(continuation), RawEvent::TaskEnd(t)]);
}

/// The logs of all threads are well formed.
pub open spec fn all_well_formed(logs: Seq<ThreadLog>) -> bool {
    forall|i: int| 0 <= i < logs.len() ==> (#[trigger] logs[i]).well_formed()
}

/// Erase all logs, then start a new task in the current thread's log
/// (`logs[current]`).
pub fn reset(logs: &mut Vec<ThreadLog>, current: ThreadId, ids: &AtomicUsize, start: &Instant)
    requires
        current < old(logs)@.len(),
    ensures
        final(logs)@.len() == old(logs)@.len(),
        all_well_formed(final(logs)@),
        forall|i: int| 0 <= i < final(logs)@.len() && i != current ==> (#[trigger] final(logs)@[i])@ == Seq::<
            RawEvent<&'static str>,
        >::empty(),
        exists|id: TaskId, t: TimeStamp| final(logs)@[current as int]@ == seq![RawEvent::<&'static str>::TaskStart(id, t)],
{
    let mut i: usize = 0;
    while i < logs.len()
        invariant
            i <= logs@.len(),
            logs@.len() == old(logs)@.len(),
            current < logs@.len(),
            forall|k: int| 0 <= k < i ==> (#[trigger] logs@[k]).well_formed() && logs@[k]@ == Seq::<
                RawEvent<&'static str>,
            >::empty(),
        decreases logs@.len() - i,
    {
        logs.set(i, Storage::new());
        i = i + 1;
    }
    let id = next_task_id(ids);
    let t = now(start);
    let mut log = Storage::new();
    log.push(RawEvent::TaskStart(id, t));
    logs.set(current, log);
    assert(final(logs)@[current as int]@ =~= seq![RawEvent::TaskStart(id, t)]);
}


/// The raw logs gathered from what each thread recorded.
pub open spec fn snapshot(views: Seq<Seq<RawEvent<&'static str>>>, threads_number: nat) -> LogsView {
    LogsView {
        thread_events: interned_threads(views, recorded_labels(views), threads_number),
        labels: recorded_labels(views),
    }
}

/// The raw logs gathered once the current thread's task ended at `t`.
pub open spec fn gathered(logs: Seq<ThreadLog>, current: int, t: TimeStamp, threads_number: nat) -> LogsView {
    snapshot(logs_views(logs).update(current, logs[current]@.push(RawEvent::TaskEnd(t))), threads_number)
}

pub open spec fn logs_views(logs: Seq<ThreadLog>) -> Seq<Seq<RawEvent<&'static str>>> {
    logs.map_values(|l: ThreadLog| l@)
}

/// End the current task, then gather all logs into raw logs.
fn end_and_gather(logs: &mut Vec<ThreadLog>, current: ThreadId, threads_number: usize, start: &Instant) -> (raw: RawLogs)
    requires
        current < old(logs)@.len(),
        all_well_formed(old(logs)@),
    ensures
        final(logs)@.len() == old(logs)@.len(),
        all_well_formed(final(logs)@),
        exists|t: TimeStamp|
            raw@ == gathered(old(logs)@, current as int, t, threads_number as nat) && logs_views(final(logs)@)
                == logs_views(old(logs)@).update(current as int, old(logs)@[current as int]@.push(RawEvent::TaskEnd(t))),
{
    let mut log = logs.remove(current);
    let t = now(start);
    log.push(RawEvent::TaskEnd(t));
    logs.insert(current, log);
    assert(logs_views(logs@) =~= logs_views(old(logs)@).update(
        current as int,
        old(logs)@[current as int]@.push(RawEvent::TaskEnd(t)),
    ));
    let mut refs: Vec<&ThreadLog> = Vec::new();
    let mut i: usize = 0;
    while i < logs.len()
        invariant
            i <= logs@.len(),
            refs@.len() == i,
            forall|k: int| 0 <= k < i ==> *refs@[k] == logs@[k],
        decreases logs@.len() - i,
    {
        refs.push(&logs[i]);
        i = i + 1;
    }
    let raw = RawLogs::new(&refs, threads_number);
    proof {
        let updated = logs_views(old(logs)@).update(
            current as int,
            old(logs)@[current as int]@.push(RawEvent::TaskEnd(t)),
        );
        assert(crate::recorder::recorded_view(refs@) =~= logs_views(logs@));
        assert(crate::recorder::recorded_view(refs@) == updated);
        assert(raw@ == gathered(old(logs)@, current as int, t, threads_number as nat));
    }
    raw
}

/// End the current task (`logs[current]` is the log of the calling
/// thread), then encode all logs in the log format; the logs are kept, with
/// the task's end.
pub fn gather_raw_logs(logs: &mut Vec<ThreadLog>, current: ThreadId, threads_number: usize, start: &Instant) -> (bytes:
    Vec<u8>)
    requires
        current < old(logs)@.len(),
        all_well_formed(old(logs)@),
    ensures
        final(logs)@.len() == old(logs)@.len(),
        all_well_formed(final(logs)@),
        exists|t: TimeStamp|
            bytes@ == encode_logs(gathered(old(logs)@, current as int, t, threads_number as nat)) && logs_views(
                final(logs)@,
            ) == logs_views(old(logs)@).update(current as int, old(logs)@[current as int]@.push(RawEvent::TaskEnd(t))),
{
    let raw = end_and_gather(logs, current, threads_number, start);
    let mut bytes: Vec<u8> = Vec::new();
    raw.save(&mut bytes);
    assert(bytes@ =~= encode_logs(raw@));
    bytes
}

/// Save the currently recorded raw logs in the log format, then reset the
/// logs (`logs[current]` is the log of the calling thread).
pub fn save_raw_logs(
    logs: &mut Vec<ThreadLog>,
    current: ThreadId,
    threads_number: usize,
    ids: &AtomicUsize,
    start: &Instant,
) -> (bytes: Vec<u8>)
    requires
        current < old(logs)@.len(),
        all_well_formed(old(logs)@),
    ensures
        exists|t: TimeStamp|
            bytes@ == encode_logs(
                gathered(old(logs)@, current as int, t, threads_number as nat),
            ),
        final(logs)@.len() == old(logs)@.len(),
        all_well_formed(final(logs)@),
        forall|i: int| 0 <= i < final(logs)@.len() && i != current ==> (#[trigger] final(logs)@[i])@ == Seq::<
            RawEvent<&'static str>,
        >::empty(),
        exists|id: TaskId, t: TimeStamp| final(logs)@[current as int]@ == seq![RawEvent::<&'static str>::TaskStart(id, t)],
{
    let raw = end_and_gather(logs, current, threads_number, start);
    let mut bytes: Vec<u8> = Vec::new();
    raw.save(&mut bytes);
    assert(bytes@ =~= encode_logs(raw@));
    reset(logs, current, ids, start);
    bytes
}

/// Rebuild the fork-join graph of the currently recorded logs (the graph
/// that the svg display shows), then reset the logs.
pub fn save_svg(
    logs: &mut Vec<ThreadLog>,
    current: ThreadId,
    threads_number: usize,
    ids: &AtomicUsize,
    start: &Instant,
) -> (r: Result<RunLog, ReplayError>)
    requires
        current < old(logs)@.len(),
        all_well_formed(old(logs)@),
    ensures
        exists|t: TimeStamp|
            run_log_result(r) == run_log_of(
                merged_by_time(#[trigger] gathered(old(logs)@, current as int, t, threads_number as nat).thread_events),
                gathered(old(logs)@, current as int, t, threads_number as nat).labels,
                gathered(old(logs)@, current as int, t, threads_number as nat).thread_events.len(),
            ),
        r matches Ok(l) ==> l.well_formed() && times_from_start(l),
        final(logs)@.len() == old(logs)@.len(),
        all_well_formed(final(logs)@),
        forall|i: int| 0 <= i < final(logs)@.len() && i != current ==> (#[trigger] final(logs)@[i])@ == Seq::<
            RawEvent<&'static str>,
        >::empty(),
        exists|id: TaskId, t: TimeStamp| final(logs)@[current as int]@ == seq![RawEvent::<&'static str>::TaskStart(id, t)],
{
    let raw = end_and_gather(logs, current, threads_number, start);
    let r = RunLog::new(raw);
    reset(logs, current, ids, start);
    r
}

} // verus!
