//! Idle periods of the threads of a run: replaying the tasks by increasing
//! start time, a thread is idle between the end of a task and the start of
//! its next one.
use crate::events::{ThreadId, TimeStamp};
use crate::runlog::TaskLog;
use vstd::prelude::*;

verus! {

/// A thread's activity: thread, start time, end time.
pub type Activity = (ThreadId, TimeStamp, TimeStamp);

/// Number of activities of `s` that start at `k` or before.
pub open spec fn count_le(s: Seq<Activity>, k: TimeStamp) -> nat
    decreases s.len(),
{
    if s.len() == 0 {
        0
    } else {
        count_le(s.drop_last(), k) + if s.last().1 <= k {
            1nat
        } else {
            0nat
        }
    }
}

/// `s` sorted by start time, equal start times kept in their order (a
/// stable sort): each activity is placed after all those, already placed,
/// that start at the same time or before.
pub open spec fn stable_sorted(s: Seq<Activity>) -> Seq<Activity>
    decreases s.len(),
{
    if s.len() == 0 {
        s
    } else {
        let r = stable_sorted(s.drop_last());
        r.insert(count_le(r, s.last().1) as int, s.last())
    }
}

/// Activities are in non-decreasing order of start time.
pub open spec fn sorted_by_start(s: Seq<Activity>) -> bool {
    forall|i: int, j: int| 0 <= i <= j < s.len() ==> s[i].1 <= s[j].1
}

/// In a sorted sequence, the activities that start at `k` or before are
/// the ones before the first that starts after `k`.
proof fn lemma_count_le_sorted(s: Seq<Activity>, k: TimeStamp, p: int)
    requires
        sorted_by_start(s),
        0 <= p <= s.len(),
        forall|i: int| 0 <= i < p ==> s[i].1 <= k,
        forall|i: int| p <= i < s.len() ==> s[i].1 > k,
    ensures
        count_le(s, k) == p,
    decreases s.len(),
{
    if s.len() > 0 {
        let d = s.drop_last();
        if s.last().1 <= k {
            assert(p == s.len());
            lemma_count_le_sorted(d, k, p - 1);
        } else {
            lemma_count_le_sorted(d, k, p);
        }
    }
}

/// Insert `x` into the sorted `r` after all activities that start at the
/// same time or before.
fn insert_stable(r: &mut Vec<Activity>, x: Activity)
    requires
        sorted_by_start(old(r)@),
    ensures
        final(r)@ == old(r)@.insert(count_le(old(r)@, x.1) as int, x),
        sorted_by_start(final(r)@),
{
    let mut lo: usize = 0;
    let mut hi: usize = r.len();
    while lo < hi
        invariant
            lo <= hi <= r@.len(),
            r@ == old(r)@,
            sorted_by_start(r@),
            forall|i: int| 0 <= i < lo ==> r@[i].1 <= x.1,
            forall|i: int| hi <= i < r@.len() ==> r@[i].1 > x.1,
        decreases hi - lo,
    {
        let mid = lo + (hi - lo) / 2;
        if r[mid].1 <= x.1 {
            lo = mid + 1;
        } else {
            hi = mid;
        }
    }
    proof {
        lemma_count_le_sorted(r@, x.1, lo as int);
    }
    let ghost before = r@;
    r.insert(lo, x);
    assert forall|i: int, j: int| 0 <= i <= j < r@.len() implies r@[i].1 <= r@[j].1 by {
        if i < lo && j > lo {
            assert(r@[i] == before[i] && r@[j] == before[j - 1]);
        }
    }
}

/// Sort activities by start time, keeping equal start times in order.
pub fn sort_by_start(s: Vec<Activity>) -> (r: Vec<Activity>)
    ensures
        r@ == stable_sorted(s@),
        sorted_by_start(r@),
{
    let mut r: Vec<Activity> = Vec::new();
    let mut i: usize = 0;
    while i < s.len()
        invariant
            i <= s@.len(),
            r@ == stable_sorted(s@.take(i as int)),
            sorted_by_start(r@),
        decreases s@.len() - i,
    {
        assert(s@.take(i + 1).drop_last() == s@.take(i as int));
        insert_stable(&mut r, s[i]);
        i = i + 1;
    }
    assert(s@.take(s@.len() as int) == s@);
    r
}

/// After replaying the first `k` activities from the last activity times
/// `initial` of each thread: the end of each thread's last activity, and
/// the idle periods found (thread, idle from, idle until).
pub open spec fn replay_idle(acts: Seq<Activity>, initial: Seq<TimeStamp>, k: nat) -> (Seq<TimeStamp>, Seq<Activity>)
    decreases k,
{
    if k == 0 {
        (initial, Seq::empty())
    } else {
        let (prev, periods) = replay_idle(acts, initial, (k - 1) as nat);
        let a = acts[k - 1];
        let p = prev[a.0 as int];
        (prev.update(a.0 as int, a.2), if a.1 > p {
            periods.push((a.0, p, a.1))
        } else {
            periods
        })
    }
}

/// The activities of a run: its tasks, then for each thread a last
/// activity at `last` so that idleness up to the end is counted.
pub open spec fn run_activities(tasks: Seq<TaskLog>, threads_number: nat, last: TimeStamp) -> Seq<Activity> {
    tasks.map_values(|t: TaskLog| (t.thread_id, t.start_time, t.end_time)) + Seq::new(
        threads_number,
        |i: int| (i as ThreadId, last, (last + 1) as TimeStamp),
    )
}

/// `m` is the earliest start time of the tasks.
pub open spec fn is_first_time(tasks: Seq<TaskLog>, m: TimeStamp) -> bool {
    &&& exists|i: int| 0 <= i < tasks.len() && #[trigger] tasks[i].start_time == m
    &&& forall|i: int| 0 <= i < tasks.len() ==> m <= #[trigger] tasks[i].start_time
}

/// `m` is the latest end time of the tasks.
pub open spec fn is_last_time(tasks: Seq<TaskLog>, m: TimeStamp) -> bool {
    &&& exists|i: int| 0 <= i < tasks.len() && #[trigger] tasks[i].end_time == m
    &&& forall|i: int| 0 <= i < tasks.len() ==> #[trigger] tasks[i].end_time <= m
}

/// The earliest start time of the tasks.
pub open spec fn first_time(tasks: Seq<TaskLog>) -> TimeStamp {
    choose|m: TimeStamp| is_first_time(tasks, m)
}

/// The latest end time of the tasks.
pub open spec fn last_time(tasks: Seq<TaskLog>) -> TimeStamp {
    choose|m: TimeStamp| is_last_time(tasks, m)
}

/// The idle periods of a run with `threads_number` threads: replaying its
/// activities by increasing start time from the earliest start.
pub open spec fn idle_periods_of(tasks: Seq<TaskLog>, threads_number: nat) -> Seq<Activity> {
    let acts = stable_sorted(run_activities(tasks, threads_number, last_time(tasks)));
    replay_idle(acts, Seq::new(threads_number, |i: int| first_time(tasks)), acts.len()).1
}

/// Total length of idle periods.
pub open spec fn periods_total(periods: Seq<Activity>) -> nat
    decreases periods.len(),
{
    if periods.len() == 0 {
        0
    } else {
        periods_total(periods.drop_last()) + (periods.last().2 - periods.last().1) as nat
    }
}

/// Sorting reorders the activities: it keeps each as many times.
pub proof fn lemma_stable_sorted_perm(s: Seq<Activity>)
    ensures
        stable_sorted(s).to_multiset() == s.to_multiset(),
        stable_sorted(s).len() == s.len(),
    decreases s.len(),
{
    broadcast use vstd::seq_lib::group_to_multiset_ensures;

    if s.len() > 0 {
        lemma_stable_sorted_perm(s.drop_last());
        let r = stable_sorted(s.drop_last());
        lemma_count_le_bound(r, s.last().1);
        assert(s == s.drop_last().push(s.last()));
    }
}

/// Activity `a` comes before activity `b`: it starts earlier, or at the
/// same time with a smaller first component.
pub open spec fn activity_before(a: Activity, b: Activity) -> bool {
    a.1 < b.1 || (a.1 == b.1 && a.0 < b.0)
}

/// In a sorted sequence, the activities that start at `k` or before come
/// first, and there are `count_le` of them.
proof fn lemma_count_le_partition(s: Seq<Activity>, k: TimeStamp)
    requires
        sorted_by_start(s),
    ensures
        count_le(s, k) <= s.len(),
        forall|i: int| 0 <= i < count_le(s, k) ==> (#[trigger] s[i]).1 <= k,
        forall|i: int| count_le(s, k) <= i < s.len() ==> (#[trigger] s[i]).1 > k,
    decreases s.len(),
{
    if s.len() > 0 {
        let d = s.drop_last();
        assert(sorted_by_start(d));
        lemma_count_le_partition(d, k);
        if s.last().1 <= k {
            assert forall|i: int| 0 <= i < s.len() implies (#[trigger] s[i]).1 <= k by {
                assert(s[i].1 <= s[s.len() - 1].1);
            }
            lemma_count_le_bound(d, k);
        } else {
            assert forall|i: int| count_le(s, k) <= i < s.len() implies (#[trigger] s[i]).1 > k by {
                if i < s.len() - 1 {
                    assert(s[i] == d[i]);
                }
            }
            assert forall|i: int| 0 <= i < count_le(s, k) implies (#[trigger] s[i]).1 <= k by {
                assert(s[i] == d[i]);
            }
        }
    }
}

/// Sorting activities whose first components increase orders them by
/// start time, and equal start times by first component.
pub proof fn lemma_stable_sorted_order(s: Seq<Activity>)
    requires
        forall|i: int, j: int| 0 <= i < j < s.len() ==> (#[trigger] s[i]).0 < (#[trigger] s[j]).0,
    ensures
        forall|x: int, y: int|
            0 <= x < y < stable_sorted(s).len() ==> activity_before(
                #[trigger] stable_sorted(s)[x],
                #[trigger] stable_sorted(s)[y],
            ),
    decreases s.len(),
{
    if s.len() > 0 {
        let d = s.drop_last();
        let e = s.last();
        assert forall|i: int, j: int| 0 <= i < j < d.len() implies (#[trigger] d[i]).0 < (#[trigger] d[j]).0 by {
            assert(d[i] == s[i] && d[j] == s[j]);
        }
        lemma_stable_sorted_order(d);
        assert forall|i: int| 0 <= i < d.len() implies (#[trigger] d[i]).0 < e.0 by {
            assert(d[i] == s[i]);
        }
        lemma_sorted_threads(d, e.0 as nat);
        let r = stable_sorted(d);
        assert(sorted_by_start(r)) by {
            assert forall|i: int, j: int| 0 <= i <= j < r.len() implies r[i].1 <= r[j].1 by {
                if i < j {
                    assert(activity_before(r[i], r[j]));
                }
            }
        }
        lemma_count_le_partition(r, e.1);
        let p = count_le(r, e.1) as int;
        let q = r.insert(p, e);
        assert(stable_sorted(s) == q);
        assert forall|x: int, y: int| 0 <= x < y < q.len() implies activity_before(#[trigger] q[x], #[trigger] q[y]) by {
            if y < p {
                assert(q[x] == r[x] && q[y] == r[y]);
            } else if y == p {
                assert(q[x] == r[x]);
                assert(r[x].0 < e.0);
            } else if x < p {
                assert(q[x] == r[x] && q[y] == r[y - 1]);
            } else if x == p {
                assert(q[y] == r[y - 1]);
            } else {
                assert(q[x] == r[x - 1] && q[y] == r[y - 1]);
            }
        }
    }
}

proof fn lemma_count_le_bound(s: Seq<Activity>, k: TimeStamp)
    ensures
        count_le(s, k) <= s.len(),
    decreases s.len(),
{
    if s.len() > 0 {
        lemma_count_le_bound(s.drop_last(), k);
    }
}

} // verus!

verus! {

/// Sorting keeps every activity on a thread below `n`.
proof fn lemma_sorted_threads(s: Seq<Activity>, n: nat)
    requires
        forall|i: int| 0 <= i < s.len() ==> (#[trigger] s[i]).0 < n,
    ensures
        stable_sorted(s).len() == s.len(),
        forall|i: int| 0 <= i < stable_sorted(s).len() ==> (#[trigger] stable_sorted(s)[i]).0 < n,
    decreases s.len(),
{
    if s.len() > 0 {
        let d = s.drop_last();
        assert forall|i: int| 0 <= i < d.len() implies (#[trigger] d[i]).0 < n by {
            assert(d[i] == s[i]);
        }
        lemma_sorted_threads(d, n);
        let r = stable_sorted(d);
        lemma_count_le_bound(r, s.last().1);
        let p = count_le(r, s.last().1) as int;
        let q = r.insert(p, s.last());
        assert forall|i: int| 0 <= i < q.len() implies (#[trigger] q[i]).0 < n by {
            if i < p {
                assert(q[i] == r[i]);
            } else if i > p {
                assert(q[i] == r[i - 1]);
            }
        }
    }
}

/// The earliest start and the latest end of non-empty tasks.
fn time_bounds(tasks: &Vec<TaskLog>) -> (r: (TimeStamp, TimeStamp))
    requires
        tasks@.len() > 0,
    ensures
        r.0 == first_time(tasks@),
        r.1 == last_time(tasks@),
{
    let mut first = tasks[0].start_time;
    let mut last = tasks[0].end_time;
    let mut i: usize = 1;
    let mut fi: usize = 0;
    let mut li: usize = 0;
    while i < tasks.len()
        invariant
            1 <= i <= tasks@.len(),
            fi < i,
            li < i,
            tasks@[fi as int].start_time == first,
            tasks@[li as int].end_time == last,
            forall|j: int| 0 <= j < i ==> first <= #[trigger] tasks@[j].start_time,
            forall|j: int| 0 <= j < i ==> #[trigger] tasks@[j].end_time <= last,
        decreases tasks@.len() - i,
    {
        if tasks[i].start_time < first {
            first = tasks[i].start_time;
            fi = i;
        }
        if tasks[i].end_time > last {
            last = tasks[i].end_time;
            li = i;
        }
        i = i + 1;
    }
    proof {
        let ts = tasks@;
        assert(is_first_time(ts, first));
        assert(is_last_time(ts, last));
        let c = first_time(ts);
        let j = choose|j: int| 0 <= j < ts.len() && #[trigger] ts[j].start_time == c;
        assert(first <= ts[j].start_time);
        assert(c <= ts[fi as int].start_time);
        let d = last_time(ts);
        let k = choose|k: int| 0 <= k < ts.len() && #[trigger] ts[k].end_time == d;
        assert(ts[k].end_time <= last);
        assert(ts[li as int].end_time <= d);
    }
    (first, last)
}

/// The idle periods of a run with `threads_number` threads: the tasks and,
/// for each thread, a last activity at the latest end time, replayed by
/// increasing start time (see `idle_periods_of`). Each period is a thread,
/// the end of its previous activity and the start of its next one.
pub fn idle_periods(tasks: &Vec<TaskLog>, threads_number: usize) -> (periods: Vec<Activity>)
    requires
        tasks@.len() > 0,
        last_time(tasks@) < u64::MAX,
        forall|i: int| 0 <= i < tasks@.len() ==> (#[trigger] tasks@[i]).thread_id < threads_number,
    ensures
        periods@ == idle_periods_of(tasks@, threads_number as nat),
{
    let (first, last) = time_bounds(tasks);
    let mut acts: Vec<Activity> = Vec::new();
    let mut i: usize = 0;
    while i < tasks.len()
        invariant
            i <= tasks@.len(),
            acts@ == tasks@.take(i as int).map_values(|t: TaskLog| (t.thread_id, t.start_time, t.end_time)),
        decreases tasks@.len() - i,
    {
        let t = &tasks[i];
        acts.push((t.thread_id, t.start_time, t.end_time));
        assert(tasks@.take(i + 1) == tasks@.take(i as int).push(tasks@[i as int]));
        i = i + 1;
    }
    assert(tasks@.take(tasks@.len() as int) == tasks@);
    let ghost mapped = acts@;
    let mut t: usize = 0;
    while t < threads_number
        invariant
            t <= threads_number,
            last < u64::MAX,
            acts@ == mapped + Seq::new(t as nat, |k: int| (k as ThreadId, last, (last + 1) as TimeStamp)),
        decreases threads_number - t,
    {
        acts.push((t, last, last + 1));
        assert(mapped + Seq::new((t + 1) as nat, |k: int| (k as ThreadId, last, (last + 1) as TimeStamp)) == (mapped
            + Seq::new(t as nat, |k: int| (k as ThreadId, last, (last + 1) as TimeStamp))).push(
            (t, last, (last + 1) as TimeStamp),
        ));
        t = t + 1;
    }
    assert(acts@ == run_activities(tasks@, threads_number as nat, last_time(tasks@)));
    proof {
        let s = acts@;
        assert forall|k: int| 0 <= k < s.len() implies (#[trigger] s[k]).0 < threads_number by {
            if k < tasks@.len() {
                assert(s[k] == mapped[k]);
                assert(tasks@[k].thread_id < threads_number);
            }
        }
        lemma_sorted_threads(s, threads_number as nat);
    }
    let sorted = sort_by_start(acts);
    let mut prev: Vec<TimeStamp> = Vec::new();
    let mut t: usize = 0;
    while t < threads_number
        invariant
            t <= threads_number,
            prev@ == Seq::new(t as nat, |k: int| first),
        decreases threads_number - t,
    {
        prev.push(first);
        assert(Seq::new((t + 1) as nat, |k: int| first) == Seq::new(t as nat, |k: int| first).push(first));
        t = t + 1;
    }
    let ghost initial = prev@;
    let mut periods: Vec<Activity> = Vec::new();
    let mut k: usize = 0;
    while k < sorted.len()
        invariant
            k <= sorted@.len(),
            forall|j: int| 0 <= j < sorted@.len() ==> (#[trigger] sorted@[j]).0 < threads_number,
            prev@.len() == threads_number,
            (prev@, periods@) == replay_idle(sorted@, initial, k as nat),
        decreases sorted@.len() - k,
    {
        let (thread, start, end) = sorted[k];
        let previous_end = prev[thread];
        if start > previous_end {
            periods.push((thread, previous_end, start));
        }
        prev.set(thread, end);
        k = k + 1;
    }
    assert(initial == Seq::new(threads_number as nat, |i: int| first_time(tasks@)));
    periods
}

/// An idle period ends after it starts.
proof fn lemma_periods_ordered(acts: Seq<Activity>, initial: Seq<TimeStamp>, k: nat)
    ensures
        forall|j: int|
            0 <= j < replay_idle(acts, initial, k).1.len() ==> (#[trigger] replay_idle(acts, initial, k).1[j]).1
                < replay_idle(acts, initial, k).1[j].2,
    decreases k,
{
    if k > 0 {
        lemma_periods_ordered(acts, initial, (k - 1) as nat);
        let (prev, periods) = replay_idle(acts, initial, (k - 1) as nat);
        let a = acts[k - 1];
        let p = prev[a.0 as int];
        if a.1 > p {
            let q = periods.push((a.0, p, a.1));
            assert forall|j: int| 0 <= j < q.len() implies (#[trigger] q[j]).1 < q[j].2 by {
                if j < periods.len() {
                    assert(q[j] == periods[j]);
                }
            }
        }
    }
}

proof fn lemma_periods_total_mono(periods: Seq<Activity>, k: int)
    requires
        0 <= k <= periods.len(),
    ensures
        periods_total(periods.take(k)) <= periods_total(periods),
    decreases periods.len(),
{
    if k < periods.len() {
        assert(periods.drop_last().take(k) == periods.take(k));
        lemma_periods_total_mono(periods.drop_last(), k);
    } else {
        assert(periods.take(k) == periods);
    }
}

/// Total time that the threads of a run with `threads_number` threads spent
/// idle.
pub fn idle_time(tasks: &Vec<TaskLog>, threads_number: usize) -> (total: u64)
    requires
        tasks@.len() > 0,
        last_time(tasks@) < u64::MAX,
        forall|i: int| 0 <= i < tasks@.len() ==> (#[trigger] tasks@[i]).thread_id < threads_number,
        periods_total(idle_periods_of(tasks@, threads_number as nat)) <= u64::MAX,
    ensures
        total == periods_total(idle_periods_of(tasks@, threads_number as nat)),
{
    let periods = idle_periods(tasks, threads_number);
    proof {
        let acts = stable_sorted(run_activities(tasks@, threads_number as nat, last_time(tasks@)));
        lemma_periods_ordered(acts, Seq::new(threads_number as nat, |i: int| first_time(tasks@)), acts.len());
    }
    let mut total: u64 = 0;
    let mut k: usize = 0;
    while k < periods.len()
        invariant
            k <= periods@.len(),
            periods_total(periods@) <= u64::MAX,
            total == periods_total(periods@.take(k as int)),
            forall|j: int| 0 <= j < periods@.len() ==> (#[trigger] periods@[j]).1 < periods@[j].2,
        decreases periods@.len() - k,
    {
        proof {
            lemma_periods_total_mono(periods@, k + 1);
            assert(periods@.take(k + 1).drop_last() == periods@.take(k as int));
        }
        let (_, from, until) = periods[k];
        total = total + (until - from);
        k = k + 1;
    }
    assert(periods@.take(periods@.len() as int) == periods@);
    total
}

} // verus!

verus! {

/// The earliest start and the latest end of some tasks are among their
/// times.
proof fn lemma_time_bounds(tasks: Seq<TaskLog>)
    requires
        tasks.len() > 0,
    ensures
        is_first_time(tasks, first_time(tasks)),
        is_last_time(tasks, last_time(tasks)),
    decreases tasks.len(),
{
    if tasks.len() == 1 {
        assert(is_first_time(tasks, tasks[0].start_time));
        assert(is_last_time(tasks, tasks[0].end_time));
    } else {
        let d = tasks.drop_last();
        lemma_time_bounds(d);
        let f = first_time(d);
        let l = last_time(d);
        let i = choose|i: int| 0 <= i < d.len() && #[trigger] d[i].start_time == f;
        let j = choose|j: int| 0 <= j < d.len() && #[trigger] d[j].end_time == l;
        assert(d[i] == tasks[i] && d[j] == tasks[j]);
        let t = tasks.last();
        assert forall|k: int| 0 <= k < tasks.len() implies #[trigger] tasks[k].start_time >= (if t.start_time < f {
            t.start_time
        } else {
            f
        }) by {
            if k < d.len() {
                assert(d[k] == tasks[k]);
            }
        }
        assert forall|k: int| 0 <= k < tasks.len() implies #[trigger] tasks[k].end_time <= (if t.end_time > l {
            t.end_time
        } else {
            l
        }) by {
            if k < d.len() {
                assert(d[k] == tasks[k]);
            }
        }
        if t.start_time < f {
            assert(is_first_time(tasks, t.start_time));
        } else {
            assert(is_first_time(tasks, f));
        }
        if t.end_time > l {
            assert(is_last_time(tasks, t.end_time));
        } else {
            assert(is_last_time(tasks, l));
        }
    }
}

/// Replaying more activities keeps the periods found so far.
proof fn lemma_periods_kept(acts: Seq<Activity>, initial: Seq<TimeStamp>, k: nat, m: nat)
    requires
        k <= m,
    ensures
        replay_idle(acts, initial, k).1.len() <= replay_idle(acts, initial, m).1.len(),
        forall|j: int|
            0 <= j < replay_idle(acts, initial, k).1.len() ==> #[trigger] replay_idle(acts, initial, m).1[j]
                == replay_idle(acts, initial, k).1[j],
    decreases m,
{
    if k < m {
        lemma_periods_kept(acts, initial, k, (m - 1) as nat);
    }
}

/// After replaying `k` activities, the time a thread was last busy until is
/// its initial time or the end of one of its replayed activities.
proof fn lemma_last_busy(acts: Seq<Activity>, initial: Seq<TimeStamp>, k: nat)
    requires
        k <= acts.len(),
        forall|y: int| 0 <= y < acts.len() ==> (#[trigger] acts[y]).0 < initial.len(),
    ensures
        replay_idle(acts, initial, k).0.len() == initial.len(),
        forall|i: int|
            0 <= i < initial.len() ==> #[trigger] replay_idle(acts, initial, k).0[i] == initial[i] || exists|y: int|
                0 <= y < k && (#[trigger] acts[y]).0 == i && replay_idle(acts, initial, k).0[i] == acts[y].2,
    decreases k,
{
    if k > 0 {
        lemma_last_busy(acts, initial, (k - 1) as nat);
        let prev = replay_idle(acts, initial, (k - 1) as nat).0;
        let a = acts[k - 1];
        assert forall|i: int| 0 <= i < initial.len() implies #[trigger] replay_idle(acts, initial, k).0[i] == initial[i]
            || exists|y: int| 0 <= y < k && (#[trigger] acts[y]).0 == i && replay_idle(acts, initial, k).0[i] == acts[y].2 by {
            if i == a.0 {
                assert(acts[k - 1].0 == i);
            } else {
                assert(replay_idle(acts, initial, k).0[i] == prev[i]);
                if prev[i] != initial[i] {
                    let y = choose|y: int| 0 <= y < k - 1 && (#[trigger] acts[y]).0 == i && prev[i] == acts[y].2;
                    assert(0 <= y < k && acts[y].0 == i);
                }
            }
        }
    }
}

/// Some position of `s` holds `e`, and none before it.
proof fn lemma_first_position_of<A>(s: Seq<A>, e: A)
    requires
        s.contains(e),
    ensures
        exists|x: int| 0 <= x < s.len() && s[x] == e && forall|y: int| 0 <= y < x ==> s[y] != e,
    decreases s.len(),
{
    let d = s.drop_last();
    if d.contains(e) {
        lemma_first_position_of(d, e);
        let x = choose|x: int| 0 <= x < d.len() && d[x] == e && forall|y: int| 0 <= y < x ==> d[y] != e;
        assert(s[x] == e);
        assert forall|y: int| 0 <= y < x implies s[y] != e by {
            assert(s[y] == d[y]);
        }
    } else {
        let x = s.len() - 1;
        assert(s[x] == e) by {
            let z = choose|z: int| 0 <= z < s.len() && s[z] == e;
            if z < x {
                assert(d[z] == e);
            }
        }
        assert forall|y: int| 0 <= y < x implies s[y] != e by {
            if s[y] == e {
                assert(d[y] == e);
            }
        }
    }
}

/// Thread `i` is idle until the end of the run: some idle period of it
/// ends at the latest end time, or one of its tasks ends then, or the run
/// lasts no time at all.
pub open spec fn idle_to_the_end(tasks: Seq<TaskLog>, threads_number: nat, i: int) -> bool {
    ||| exists|j: int|
        0 <= j < idle_periods_of(tasks, threads_number).len() && (#[trigger] idle_periods_of(tasks, threads_number)[j]).0
            == i && idle_periods_of(tasks, threads_number)[j].2 == last_time(tasks)
    ||| exists|k: int|
        0 <= k < tasks.len() && (#[trigger] tasks[k]).thread_id == i && tasks[k].end_time == last_time(tasks)
    ||| first_time(tasks) == last_time(tasks)
}

/// Every thread is idle until the end of the run: for each thread of the
/// run, some idle period of that thread ends at the latest end time, unless
/// one of its tasks ends then (or the run lasts no time at all); see
/// `idle_to_the_end`.
pub proof fn lemma_idle_until_the_end(tasks: Seq<TaskLog>, threads_number: nat)
    requires
        tasks.len() > 0,
        last_time(tasks) < u64::MAX,
        threads_number <= usize::MAX,
        forall|k: int| 0 <= k < tasks.len() ==> (#[trigger] tasks[k]).thread_id < threads_number,
        forall|k: int| 0 <= k < tasks.len() ==> (#[trigger] tasks[k]).start_time <= tasks[k].end_time,
    ensures
        forall|i: int| 0 <= i < threads_number ==> #[trigger] idle_to_the_end(tasks, threads_number, i),
{
    broadcast use vstd::seq_lib::group_to_multiset_ensures;

    lemma_time_bounds(tasks);
    let first = first_time(tasks);
    let last = last_time(tasks);
    let ra = run_activities(tasks, threads_number, last);
    let acts = stable_sorted(ra);
    let initial = Seq::new(threads_number, |i: int| first);
    lemma_stable_sorted_perm(ra);
    let m = tasks.len();
    assert forall|z: int| 0 <= z < ra.len() implies (#[trigger] ra[z]).0 < threads_number by {
        if z < m {
            assert(ra[z].0 == tasks[z].thread_id);
        }
    }
    assert forall|y: int| 0 <= y < acts.len() implies (#[trigger] acts[y]).0 < initial.len() by {
        assert(acts.to_multiset().contains(acts[y]));
        assert(ra.to_multiset().contains(acts[y]));
        let z = choose|z: int| 0 <= z < ra.len() && ra[z] == acts[y];
        assert(ra[z].0 < threads_number);
    }
    assert(first <= last) by {
        assert(first <= tasks[0].start_time);
        assert(tasks[0].end_time <= last);
    }
    assert forall|i: int| 0 <= i < threads_number implies #[trigger] idle_to_the_end(tasks, threads_number, i) by {
        let marker: Activity = (i as ThreadId, last, (last + 1) as TimeStamp);
        assert(ra[m + i] == marker);
        assert(ra.to_multiset().contains(marker));
        assert(acts.to_multiset().contains(marker));
        lemma_first_position_of(acts, marker);
        let x = choose|x: int| 0 <= x < acts.len() && acts[x] == marker && forall|y: int| 0 <= y < x ==> acts[y] != marker;
        lemma_last_busy(acts, initial, x as nat);
        let prev = replay_idle(acts, initial, x as nat).0;
        let p = prev[i];
        if p != first {
            let y = choose|y: int| 0 <= y < x && (#[trigger] acts[y]).0 == i && p == acts[y].2;
            assert(acts[y] != marker);
            assert(acts.to_multiset().contains(acts[y]));
            assert(ra.to_multiset().contains(acts[y]));
            let z = choose|z: int| 0 <= z < ra.len() && ra[z] == acts[y];
            if z >= m {
                assert(ra[z] == (((z - m) as ThreadId), last, (last + 1) as TimeStamp));
                assert(z - m == i);
            }
            assert(z < m);
            assert(ra[z] == (tasks[z].thread_id, tasks[z].start_time, tasks[z].end_time));
            assert(tasks[z].end_time <= last);
            if p == last {
                assert(tasks[z].thread_id == i && tasks[z].end_time == last);
            }
        }
        assert(p <= last);
        if p < last {
            let periods = replay_idle(acts, initial, (x + 1) as nat).1;
            assert(acts[x] == marker);
            assert(periods == replay_idle(acts, initial, x as nat).1.push((i as ThreadId, p, last)));
            let jj = replay_idle(acts, initial, x as nat).1.len() as int;
            lemma_periods_kept(acts, initial, (x + 1) as nat, acts.len());
            assert(idle_periods_of(tasks, threads_number) == replay_idle(acts, initial, acts.len()).1);
            assert(idle_periods_of(tasks, threads_number)[jj] == periods[jj]);
            assert(periods[jj] == (i as ThreadId, p, last));
            assert(idle_periods_of(tasks, threads_number)[jj].0 == i);
        } else if p == first {
            assert(first == last);
        }
    }
}

} // verus!
