//! Statistics over several runs of several algorithms: mean and median
//! times, idle times and task counts.
use crate::analysis::{tag_count, tag_time, tag_total, tag_work};
use crate::events::SubGraphId;
use crate::idle::{idle_periods_of, idle_time, last_time, periods_total, sort_by_start, stable_sorted, Activity};
use crate::runlog::{RunLog, TaskLog};
use vstd::prelude::*;

verus! {

/// Sum of the durations of `runs`.
pub open spec fn durations_sum(runs: Seq<RunLog>) -> nat
    decreases runs.len(),
{
    if runs.len() == 0 {
        0
    } else {
        durations_sum(runs.drop_last()) + runs.last().duration as nat
    }
}

/// Sum of the running times of `tasks`.
pub open spec fn tasks_time(tasks: Seq<TaskLog>) -> nat
    decreases tasks.len(),
{
    if tasks.len() == 0 {
        0
    } else {
        tasks_time(tasks.drop_last()) + (tasks.last().end_time - tasks.last().start_time) as nat
    }
}

/// Sum over `runs` of the running times of their tasks.
pub open spec fn activity_sum(runs: Seq<RunLog>) -> nat
    decreases runs.len(),
{
    if runs.len() == 0 {
        0
    } else {
        activity_sum(runs.drop_last()) + tasks_time(runs.last().tasks_logs@)
    }
}

/// Mean duration of the runs of an algorithm, over `runs_number` runs.
pub open spec fn total_time(runs: Seq<RunLog>, runs_number: nat) -> nat {
    durations_sum(runs) / runs_number
}

/// Mean idle time of the runs of an algorithm: the mean duration times the
/// number of threads, less the mean running time of the tasks.
pub open spec fn idle_time_mean(runs: Seq<RunLog>, threads_number: nat, runs_number: nat) -> int {
    total_time(runs, runs_number) * threads_number - (activity_sum(runs) / runs_number) as int
}

/// Statistics on the logs of several algorithms (`logs[a]` holds the runs of
/// algorithm `a`, by increasing duration).
pub struct Stats<'a> {
    pub logs: &'a Vec<Vec<RunLog>>,
    pub threads_number: usize,
    pub runs_number: usize,
}

proof fn lemma_durations_mono(runs: Seq<RunLog>, k: int)
    requires
        0 <= k <= runs.len(),
    ensures
        durations_sum(runs.take(k)) <= durations_sum(runs),
        activity_sum(runs.take(k)) <= activity_sum(runs),
    decreases runs.len(),
{
    if k < runs.len() {
        assert(runs.drop_last().take(k) == runs.take(k));
        lemma_durations_mono(runs.drop_last(), k);
    } else {
        assert(runs.take(k) == runs);
    }
}

proof fn lemma_tasks_time_mono(tasks: Seq<TaskLog>, k: int)
    requires
        0 <= k <= tasks.len(),
    ensures
        tasks_time(tasks.take(k)) <= tasks_time(tasks),
    decreases tasks.len(),
{
    if k < tasks.len() {
        assert(tasks.drop_last().take(k) == tasks.take(k));
        lemma_tasks_time_mono(tasks.drop_last(), k);
    } else {
        assert(tasks.take(k) == tasks);
    }
}

/// Sum of the durations of runs.
fn sum_durations(runs: &Vec<RunLog>) -> (s: u64)
    requires
        durations_sum(runs@) <= u64::MAX,
    ensures
        s == durations_sum(runs@),
{
    let mut s: u64 = 0;
    let mut i: usize = 0;
    while i < runs.len()
        invariant
            i <= runs@.len(),
            durations_sum(runs@) <= u64::MAX,
            s == durations_sum(runs@.take(i as int)),
        decreases runs@.len() - i,
    {
        proof {
            lemma_durations_mono(runs@, i + 1);
            assert(runs@.take(i + 1).drop_last() == runs@.take(i as int));
        }
        s = s + runs[i].duration;
        i = i + 1;
    }
    assert(runs@.take(runs@.len() as int) == runs@);
    s
}

/// Sum of the running times of tasks.
fn sum_tasks_time(tasks: &Vec<TaskLog>) -> (s: u64)
    requires
        tasks_time(tasks@) <= u64::MAX,
        forall|i: int| 0 <= i < tasks@.len() ==> (#[trigger] tasks@[i]).start_time <= tasks@[i].end_time,
    ensures
        s == tasks_time(tasks@),
{
    let mut s: u64 = 0;
    let mut i: usize = 0;
    while i < tasks.len()
        invariant
            i <= tasks@.len(),
            tasks_time(tasks@) <= u64::MAX,
            forall|i: int| 0 <= i < tasks@.len() ==> (#[trigger] tasks@[i]).start_time <= tasks@[i].end_time,
            s == tasks_time(tasks@.take(i as int)),
        decreases tasks@.len() - i,
    {
        proof {
            lemma_tasks_time_mono(tasks@, i + 1);
            assert(tasks@.take(i + 1).drop_last() == tasks@.take(i as int));
        }
        s = s + tasks[i].duration();
        i = i + 1;
    }
    assert(tasks@.take(tasks@.len() as int) == tasks@);
    s
}

/// Sum over runs of the running times of their tasks.
fn sum_activity(runs: &Vec<RunLog>) -> (s: u64)
    requires
        activity_sum(runs@) <= u64::MAX,
        forall|r: int| 0 <= r < runs@.len() ==> (#[trigger] runs@[r]).well_formed(),
    ensures
        s == activity_sum(runs@),
{
    let mut s: u64 = 0;
    let mut i: usize = 0;
    while i < runs.len()
        invariant
            i <= runs@.len(),
            activity_sum(runs@) <= u64::MAX,
            forall|r: int| 0 <= r < runs@.len() ==> (#[trigger] runs@[r]).well_formed(),
            s == activity_sum(runs@.take(i as int)),
        decreases runs@.len() - i,
    {
        proof {
            lemma_durations_mono(runs@, i + 1);
            assert(runs@.take(i + 1).drop_last() == runs@.take(i as int));
        }
        let run = &runs[i];
        assert(run.well_formed());
        let t = sum_tasks_time(&run.tasks_logs);
        s = s + t;
        i = i + 1;
    }
    assert(runs@.take(runs@.len() as int) == runs@);
    s
}

impl<'a> Stats<'a> {
    /// The index of the median run.
    pub open spec fn median(&self) -> int {
        (self.runs_number / 2) as int
    }

    /// Statistics on `logs`, each algorithm run `runs_number` times on
    /// `threads_number` threads.
    pub fn get_statistics(logs: &'a Vec<Vec<RunLog>>, threads_number: usize, runs_number: usize) -> (s: Self)
        ensures
            s.logs == logs,
            s.threads_number == threads_number,
            s.runs_number == runs_number,
    {
        Stats { logs, threads_number, runs_number }
    }

    /// For each algorithm, the mean duration of its runs.
    pub fn total_times(&self) -> (v: Vec<u64>)
        requires
            self.runs_number > 0,
            forall|a: int| 0 <= a < self.logs@.len() ==> durations_sum(#[trigger] self.logs@[a]@) <= u64::MAX,
        ensures
            v@.len() == self.logs@.len(),
            forall|a: int|
                0 <= a < v@.len() ==> #[trigger] v@[a] == total_time(self.logs@[a]@, self.runs_number as nat),
    {
        let mut v: Vec<u64> = Vec::new();
        let mut a: usize = 0;
        while a < self.logs.len()
            invariant
                a <= self.logs@.len(),
                self.runs_number > 0,
                forall|a: int| 0 <= a < self.logs@.len() ==> durations_sum(#[trigger] self.logs@[a]@) <= u64::MAX,
                v@.len() == a,
                forall|b: int| 0 <= b < a ==> #[trigger] v@[b] == total_time(self.logs@[b]@, self.runs_number as nat),
            decreases self.logs@.len() - a,
        {
            let s = sum_durations(&self.logs[a]);
            v.push(s / (self.runs_number as u64));
            a = a + 1;
        }
        v
    }

    /// For each algorithm, its mean idle time: the mean duration times the
    /// number of threads, less the mean running time of the tasks.
    pub fn idle_times(&self) -> (v: Vec<u64>)
        requires
            self.runs_number > 0,
            forall|a: int|
                0 <= a < self.logs@.len() ==> durations_sum(#[trigger] self.logs@[a]@) <= u64::MAX
                    && activity_sum(self.logs@[a]@) <= u64::MAX && 0 <= idle_time_mean(
                    self.logs@[a]@,
                    self.threads_number as nat,
                    self.runs_number as nat,
                ) && total_time(self.logs@[a]@, self.runs_number as nat) * self.threads_number <= u64::MAX,
            forall|a: int, r: int|
                0 <= a < self.logs@.len() && 0 <= r < self.logs@[a]@.len() ==> (#[trigger] self.logs@[a]@[r]).well_formed(),
        ensures
            v@.len() == self.logs@.len(),
            forall|a: int|
                0 <= a < v@.len() ==> #[trigger] v@[a] == idle_time_mean(
                    self.logs@[a]@,
                    self.threads_number as nat,
                    self.runs_number as nat,
                ),
    {
        let mut v: Vec<u64> = Vec::new();
        let mut a: usize = 0;
        while a < self.logs.len()
            invariant
                a <= self.logs@.len(),
                self.runs_number > 0,
                forall|a: int|
                    0 <= a < self.logs@.len() ==> durations_sum(#[trigger] self.logs@[a]@) <= u64::MAX
                        && activity_sum(self.logs@[a]@) <= u64::MAX && 0 <= idle_time_mean(
                        self.logs@[a]@,
                        self.threads_number as nat,
                        self.runs_number as nat,
                    ) && total_time(self.logs@[a]@, self.runs_number as nat) * self.threads_number <= u64::MAX,
                forall|a: int, r: int|
                    0 <= a < self.logs@.len() && 0 <= r < self.logs@[a]@.len() ==> (#[trigger] self.logs@[a]@[r]).well_formed(),
                v@.len() == a,
                forall|b: int|
                    0 <= b < a ==> #[trigger] v@[b] == idle_time_mean(
                        self.logs@[b]@,
                        self.threads_number as nat,
                        self.runs_number as nat,
                    ),
            decreases self.logs@.len() - a,
        {
            let runs = &self.logs[a];
            assert(forall|r: int| 0 <= r < runs@.len() ==> (#[trigger] runs@[r]).well_formed());
            let total = sum_durations(runs) / (self.runs_number as u64);
            let activity = sum_activity(runs) / (self.runs_number as u64);
            v.push(total * (self.threads_number as u64) - activity);
            a = a + 1;
        }
        v
    }

    /// For each algorithm, the duration of its median run.
    pub fn total_times_median(&self) -> (v: Vec<u64>)
        requires
            forall|a: int| 0 <= a < self.logs@.len() ==> self.runs_number / 2 < (#[trigger] self.logs@[a])@.len(),
        ensures
            v@.len() == self.logs@.len(),
            forall|a: int|
                0 <= a < v@.len() ==> #[trigger] v@[a] == self.logs@[a]@[self.median()].duration,
    {
        let median = self.runs_number / 2;
        let mut v: Vec<u64> = Vec::new();
        let mut a: usize = 0;
        while a < self.logs.len()
            invariant
                a <= self.logs@.len(),
                median == self.runs_number / 2,
                forall|a: int| 0 <= a < self.logs@.len() ==> median < (#[trigger] self.logs@[a])@.len(),
                v@.len() == a,
                forall|b: int| 0 <= b < a ==> #[trigger] v@[b] == self.logs@[b]@[median as int].duration,
            decreases self.logs@.len() - a,
        {
            v.push(self.logs[a][median].duration);
            a = a + 1;
        }
        v
    }

    /// For each algorithm, the area of the Gantt chart of its median run:
    /// its duration times the number of threads.
    pub fn unrolled_times_median(&self) -> (v: Vec<u64>)
        requires
            forall|a: int|
                0 <= a < self.logs@.len() ==> self.runs_number / 2 < (#[trigger] self.logs@[a])@.len()
                    && self.logs@[a]@[self.median()].duration * self.threads_number <= u64::MAX,
        ensures
            v@.len() == self.logs@.len(),
            forall|a: int|
                0 <= a < v@.len() ==> #[trigger] v@[a] == self.logs@[a]@[self.median()].duration
                    * self.threads_number,
    {
        let times = self.total_times_median();
        let mut v: Vec<u64> = Vec::new();
        let mut a: usize = 0;
        while a < times.len()
            invariant
                a <= times@.len(),
                times@.len() == self.logs@.len(),
                forall|a: int|
                    0 <= a < times@.len() ==> #[trigger] times@[a] == self.logs@[a]@[self.median()].duration,
                forall|a: int|
                    0 <= a < self.logs@.len() ==> self.runs_number / 2 < (#[trigger] self.logs@[a])@.len()
                        && self.logs@[a]@[self.median()].duration * self.threads_number <= u64::MAX,
                v@.len() == a,
                forall|b: int|
                    0 <= b < a ==> #[trigger] v@[b] == self.logs@[b]@[self.median()].duration
                        * self.threads_number,
            decreases times@.len() - a,
        {
            assert(times@[a as int] * self.threads_number <= u64::MAX);
            v.push(times[a] * (self.threads_number as u64));
            a = a + 1;
        }
        v
    }

    /// For each algorithm, the number of tasks of its median run.
    pub fn get_median_task_counts(&self) -> (v: Vec<usize>)
        requires
            forall|a: int| 0 <= a < self.logs@.len() ==> self.runs_number / 2 < (#[trigger] self.logs@[a])@.len(),
        ensures
            v@.len() == self.logs@.len(),
            forall|a: int|
                0 <= a < v@.len() ==> #[trigger] v@[a] == self.logs@[a]@[self.median()].tasks_logs@.len(),
    {
        let median = self.runs_number / 2;
        let mut v: Vec<usize> = Vec::new();
        let mut a: usize = 0;
        while a < self.logs.len()
            invariant
                a <= self.logs@.len(),
                median == self.runs_number / 2,
                forall|a: int| 0 <= a < self.logs@.len() ==> median < (#[trigger] self.logs@[a])@.len(),
                v@.len() == a,
                forall|b: int| 0 <= b < a ==> #[trigger] v@[b] == self.logs@[b]@[median as int].tasks_logs@.len(),
            decreases self.logs@.len() - a,
        {
            v.push(self.logs[a][median].tasks_logs.len());
            a = a + 1;
        }
        v
    }

    /// For each algorithm, the number of tasks of each tag (by index) in its
    /// median run.
    pub fn tasks_split_median(&self) -> (v: Vec<Vec<usize>>)
        requires
            forall|a: int| 0 <= a < self.logs@.len() ==> self.runs_number / 2 < (#[trigger] self.logs@[a])@.len(),
            forall|a: int|
                0 <= a < self.logs@.len() ==> (#[trigger] self.logs@[a])@[self.median()].well_formed(),
            forall|a: int, t: int|
                0 <= a < self.logs@.len() && 0 <= t < self.logs@[a]@[self.median()].tags@.len() ==> #[trigger] tag_count(
                    &self.logs@[a]@[self.median()],
                    t as usize,
                    self.logs@[a]@[self.median()].subgraphs@.len(),
                ) <= usize::MAX,
        ensures
            v@.len() == self.logs@.len(),
            forall|a: int|
                0 <= a < v@.len() ==> (#[trigger] v@[a])@.len() == self.logs@[a]@[self.median()].tags@.len(),
            forall|a: int, t: int|
                0 <= a < v@.len() && 0 <= t < v@[a]@.len() ==> #[trigger] v@[a]@[t] == tag_count(
                    &self.logs@[a]@[self.median()],
                    t as usize,
                    self.logs@[a]@[self.median()].subgraphs@.len(),
                ),
    {
        let median = self.runs_number / 2;
        let mut v: Vec<Vec<usize>> = Vec::new();
        let mut a: usize = 0;
        while a < self.logs.len()
            invariant
                a <= self.logs@.len(),
                median == self.runs_number / 2,
                forall|a: int| 0 <= a < self.logs@.len() ==> median < (#[trigger] self.logs@[a])@.len(),
                forall|a: int| 0 <= a < self.logs@.len() ==> (#[trigger] self.logs@[a])@[median as int].well_formed(),
                forall|a: int, t: int|
                    0 <= a < self.logs@.len() && 0 <= t < self.logs@[a]@[median as int].tags@.len() ==> #[trigger] tag_count(
                        &self.logs@[a]@[median as int],
                        t as usize,
                        self.logs@[a]@[median as int].subgraphs@.len(),
                    ) <= usize::MAX,
                v@.len() == a,
                forall|b: int|
                    0 <= b < a ==> (#[trigger] v@[b])@.len() == self.logs@[b]@[median as int].tags@.len(),
                forall|b: int, t: int|
                    0 <= b < a && 0 <= t < v@[b]@.len() ==> #[trigger] v@[b]@[t] == tag_count(
                        &self.logs@[b]@[median as int],
                        t as usize,
                        self.logs@[b]@[median as int].subgraphs@.len(),
                    ),
            decreases self.logs@.len() - a,
        {
            let run = &self.logs[a][median];
            assert(forall|t: int| 0 <= t < run.tags@.len() ==> #[trigger] tag_count(run, t as usize, run.subgraphs@.len()) <= usize::MAX);
            let counts = run.count_tasks();
            v.push(counts);
            a = a + 1;
        }
        v
    }

    /// For each algorithm, the idle time of its median run.
    pub fn idle_times_median(&self) -> (v: Vec<u64>)
        requires
            forall|a: int|
                0 <= a < self.logs@.len() ==> self.runs_number / 2 < (#[trigger] self.logs@[a])@.len() && median_idle_ok(
                    self.logs@[a]@[self.median()],
                    self.threads_number,
                ),
        ensures
            v@.len() == self.logs@.len(),
            forall|a: int|
                0 <= a < v@.len() ==> #[trigger] v@[a] == periods_total(
                    idle_periods_of(self.logs@[a]@[self.median()].tasks_logs@, self.threads_number as nat),
                ),
    {
        let median = self.runs_number / 2;
        let mut v: Vec<u64> = Vec::new();
        let mut a: usize = 0;
        while a < self.logs.len()
            invariant
                a <= self.logs@.len(),
                median == self.runs_number / 2,
                forall|a: int|
                    0 <= a < self.logs@.len() ==> median < (#[trigger] self.logs@[a])@.len() && median_idle_ok(
                        self.logs@[a]@[median as int],
                        self.threads_number,
                    ),
                v@.len() == a,
                forall|b: int|
                    0 <= b < a ==> #[trigger] v@[b] == periods_total(
                        idle_periods_of(self.logs@[b]@[median as int].tasks_logs@, self.threads_number as nat),
                    ),
            decreases self.logs@.len() - a,
        {
            let run = &self.logs[a][median];
            assert(median_idle_ok(*run, self.threads_number));
            v.push(idle_time(&run.tasks_logs, self.threads_number));
            a = a + 1;
        }
        v
    }
}

/// What computing the idle time of `run` on `threads_number` threads needs:
/// some task, a last end time below the largest time stamp, thread ids in
/// range and a total that fits.
pub open spec fn median_idle_ok(run: RunLog, threads_number: usize) -> bool {
    &&& run.tasks_logs@.len() > 0
    &&& last_time(run.tasks_logs@) < u64::MAX
    &&& forall|i: int| 0 <= i < run.tasks_logs@.len() ==> (#[trigger] run.tasks_logs@[i]).thread_id < threads_number
    &&& periods_total(idle_periods_of(run.tasks_logs@, threads_number as nat)) <= u64::MAX
}

} // verus!

verus! {

/// `run` can give its tag totals: it is well formed, and the work and the
/// running time of each tag fit in machine integers.
pub open spec fn totals_fit(run: RunLog) -> bool {
    &&& run.well_formed()
    &&& forall|t: int|
        0 <= t < run.tags@.len() ==> #[trigger] tag_work(&run, t as SubGraphId, run.subgraphs@.len()) <= usize::MAX
            && tag_time(&run, t as SubGraphId, run.subgraphs@.len()) <= u64::MAX
}

/// The work and running time of tag `g` in `run`, if some subgraph of the
/// run has it.
pub open spec fn run_tag_total(run: RunLog, g: SubGraphId) -> Option<(usize, u64)> {
    if g < run.tags@.len() {
        tag_total(&run, g)
    } else {
        None
    }
}

/// In run order, an entry (run index, running time, work) of tag `g` for
/// each of the first `k` runs in which the tag appears.
pub open spec fn tag_entries(runs: Seq<RunLog>, g: SubGraphId, k: nat) -> Seq<Activity>
    decreases k,
{
    if k == 0 {
        Seq::empty()
    } else {
        let prev = tag_entries(runs, g, (k - 1) as nat);
        match run_tag_total(runs[k - 1], g) {
            Some(t) => prev.push(((k - 1) as usize, t.1, t.0 as u64)),
            None => prev,
        }
    }
}

/// Sum of the running times of `entries`.
pub open spec fn entries_time(entries: Seq<Activity>) -> nat
    decreases entries.len(),
{
    if entries.len() == 0 {
        0
    } else {
        entries_time(entries.drop_last()) + entries.last().1 as nat
    }
}

impl<'a> Stats<'a> {
    /// For each algorithm and each of the first `tags_number` tags, the
    /// entries of the tag's runs (see `tag_entries`) by increasing running
    /// time, equal times in run order.
    pub fn tagged_stats(&self, tags_number: usize) -> (v: Vec<Vec<Vec<Activity>>>)
        requires
            forall|a: int, i: int|
                0 <= a < self.logs@.len() && 0 <= i < self.logs@[a]@.len() ==> totals_fit(
                    #[trigger] self.logs@[a]@[i],
                ),
        ensures
            v@.len() == self.logs@.len(),
            forall|a: int| 0 <= a < v@.len() ==> (#[trigger] v@[a])@.len() == tags_number,
            forall|a: int, g: int|
                0 <= a < v@.len() && 0 <= g < tags_number ==> #[trigger] v@[a]@[g]@ == stable_sorted(
                    tag_entries(self.logs@[a]@, g as SubGraphId, self.logs@[a]@.len()),
                ),
    {
        let mut v: Vec<Vec<Vec<Activity>>> = Vec::new();
        let mut a: usize = 0;
        while a < self.logs.len()
            invariant
                a <= self.logs@.len(),
                forall|a: int, i: int|
                    0 <= a < self.logs@.len() && 0 <= i < self.logs@[a]@.len() ==> totals_fit(
                        #[trigger] self.logs@[a]@[i],
                    ),
                v@.len() == a,
                forall|b: int| 0 <= b < a ==> (#[trigger] v@[b])@.len() == tags_number,
                forall|b: int, g: int|
                    0 <= b < a && 0 <= g < tags_number ==> #[trigger] v@[b]@[g]@ == stable_sorted(
                        tag_entries(self.logs@[b]@, g as SubGraphId, self.logs@[b]@.len()),
                    ),
            decreases self.logs@.len() - a,
        {
            let runs = &self.logs[a];
            let mut totals: Vec<Vec<Option<(usize, u64)>>> = Vec::new();
            let mut i: usize = 0;
            while i < runs.len()
                invariant
                    i <= runs@.len(),
                    forall|i: int| 0 <= i < runs@.len() ==> totals_fit(#[trigger] runs@[i]),
                    totals@.len() == i,
                    forall|j: int| 0 <= j < i ==> (#[trigger] totals@[j])@.len() == runs@[j].tags@.len(),
                    forall|j: int, g: int|
                        0 <= j < i && 0 <= g < runs@[j].tags@.len() ==> #[trigger] totals@[j]@[g] == tag_total(
                            &runs@[j],
                            g as SubGraphId,
                        ),
                decreases runs@.len() - i,
            {
                let run = &runs[i];
                assert(totals_fit(*run));
                totals.push(run.tag_totals());
                i = i + 1;
            }
            let mut row: Vec<Vec<Activity>> = Vec::new();
            let mut g: usize = 0;
            while g < tags_number
                invariant
                    g <= tags_number,
                    totals@.len() == runs@.len(),
                    forall|j: int| 0 <= j < runs@.len() ==> (#[trigger] totals@[j])@.len() == runs@[j].tags@.len(),
                    forall|j: int, h: int|
                        0 <= j < runs@.len() && 0 <= h < runs@[j].tags@.len() ==> #[trigger] totals@[j]@[h]
                            == tag_total(&runs@[j], h as SubGraphId),
                    row@.len() == g,
                    forall|h: int|
                        0 <= h < g ==> #[trigger] row@[h]@ == stable_sorted(
                            tag_entries(runs@, h as SubGraphId, runs@.len()),
                        ),
                decreases tags_number - g,
            {
                let mut entries: Vec<Activity> = Vec::new();
                let mut i: usize = 0;
                while i < runs.len()
                    invariant
                        i <= runs@.len(),
                        g < tags_number,
                        totals@.len() == runs@.len(),
                        forall|j: int| 0 <= j < runs@.len() ==> (#[trigger] totals@[j])@.len() == runs@[j].tags@.len(),
                        forall|j: int, h: int|
                            0 <= j < runs@.len() && 0 <= h < runs@[j].tags@.len() ==> #[trigger] totals@[j]@[h]
                                == tag_total(&runs@[j], h as SubGraphId),
                        entries@ == tag_entries(runs@, g as SubGraphId, i as nat),
                    decreases runs@.len() - i,
                {
                    if g < totals[i].len() {
                        if let Some((work, time)) = totals[i][g] {
                            entries.push((i, time, work as u64));
                        }
                    }
                    i = i + 1;
                }
                row.push(sort_by_start(entries));
                g = g + 1;
            }
            v.push(row);
            a = a + 1;
        }
        v
    }

    /// For each algorithm and tag, the mean running time of the tag over
    /// the runs, from the entries that `tagged_stats` gave.
    pub fn average_tagged_times(&self, tagged: &Vec<Vec<Vec<Activity>>>) -> (v: Vec<Vec<u64>>)
        requires
            self.runs_number > 0,
            forall|a: int, g: int|
                0 <= a < tagged@.len() && 0 <= g < tagged@[a]@.len() ==> entries_time(#[trigger] tagged@[a]@[g]@)
                    <= u64::MAX,
        ensures
            v@.len() == tagged@.len(),
            forall|a: int| 0 <= a < v@.len() ==> (#[trigger] v@[a])@.len() == tagged@[a]@.len(),
            forall|a: int, g: int|
                0 <= a < v@.len() && 0 <= g < v@[a]@.len() ==> #[trigger] v@[a]@[g] == entries_time(tagged@[a]@[g]@)
                    / self.runs_number as nat,
    {
        let mut v: Vec<Vec<u64>> = Vec::new();
        let mut a: usize = 0;
        while a < tagged.len()
            invariant
                a <= tagged@.len(),
                self.runs_number > 0,
                forall|a: int, g: int|
                    0 <= a < tagged@.len() && 0 <= g < tagged@[a]@.len() ==> entries_time(#[trigger] tagged@[a]@[g]@)
                        <= u64::MAX,
                v@.len() == a,
                forall|b: int| 0 <= b < a ==> (#[trigger] v@[b])@.len() == tagged@[b]@.len(),
                forall|b: int, g: int|
                    0 <= b < a && 0 <= g < v@[b]@.len() ==> #[trigger] v@[b]@[g] == entries_time(tagged@[b]@[g]@)
                        / self.runs_number as nat,
            decreases tagged@.len() - a,
        {
            let mut row: Vec<u64> = Vec::new();
            let mut g: usize = 0;
            while g < tagged[a].len()
                invariant
                    a < tagged@.len(),
                    g <= tagged@[a as int]@.len(),
                    self.runs_number > 0,
                    forall|a: int, g: int|
                        0 <= a < tagged@.len() && 0 <= g < tagged@[a]@.len() ==> entries_time(
                            #[trigger] tagged@[a]@[g]@,
                        ) <= u64::MAX,
                    row@.len() == g,
                    forall|h: int| 0 <= h < g ==> #[trigger] row@[h] == entries_time(tagged@[a as int]@[h]@) / self.runs_number as nat,
                decreases tagged@[a as int]@.len() - g,
            {
                let entries = &tagged[a][g];
                let mut sum: u64 = 0;
                let mut k: usize = 0;
                while k < entries.len()
                    invariant
                        k <= entries@.len(),
                        entries_time(entries@) <= u64::MAX,
                        sum == entries_time(entries@.take(k as int)),
                    decreases entries@.len() - k,
                {
                    proof {
                        assert(entries@.take(k + 1).drop_last() == entries@.take(k as int));
                        lemma_entries_time_prefix(entries@, (k + 1) as nat);
                    }
                    sum = sum + entries[k].1;
                    k = k + 1;
                }
                assert(entries@.take(entries@.len() as int) == entries@);
                row.push(sum / (self.runs_number as u64));
                g = g + 1;
            }
            v.push(row);
            a = a + 1;
        }
        v
    }

    /// For each algorithm and tag, the entry of the median run among those
    /// of the tag (`None` when the tag appears in no run), from the entries
    /// that `tagged_stats` gave.
    pub fn median_tagged_stats(&self, tagged: &Vec<Vec<Vec<Activity>>>) -> (v: Vec<Vec<Option<Activity>>>)
        requires
            forall|a: int, g: int|
                0 <= a < tagged@.len() && 0 <= g < tagged@[a]@.len() ==> (#[trigger] tagged@[a]@[g])@.len() == 0
                    || self.median() < tagged@[a]@[g]@.len(),
        ensures
            v@.len() == tagged@.len(),
            forall|a: int| 0 <= a < v@.len() ==> (#[trigger] v@[a])@.len() == tagged@[a]@.len(),
            forall|a: int, g: int|
                0 <= a < v@.len() && 0 <= g < v@[a]@.len() ==> #[trigger] v@[a]@[g] == if tagged@[a]@[g]@.len() == 0 {
                    None
                } else {
                    Some(tagged@[a]@[g]@[self.median()])
                },
    {
        let median = self.runs_number / 2;
        let mut v: Vec<Vec<Option<Activity>>> = Vec::new();
        let mut a: usize = 0;
        while a < tagged.len()
            invariant
                a <= tagged@.len(),
                median == self.median(),
                forall|a: int, g: int|
                    0 <= a < tagged@.len() && 0 <= g < tagged@[a]@.len() ==> (#[trigger] tagged@[a]@[g])@.len() == 0
                        || median < tagged@[a]@[g]@.len(),
                v@.len() == a,
                forall|b: int| 0 <= b < a ==> (#[trigger] v@[b])@.len() == tagged@[b]@.len(),
                forall|b: int, g: int|
                    0 <= b < a && 0 <= g < v@[b]@.len() ==> #[trigger] v@[b]@[g] == if tagged@[b]@[g]@.len() == 0 {
                        None
                    } else {
                        Some(tagged@[b]@[g]@[median as int])
                    },
            decreases tagged@.len() - a,
        {
            let mut row: Vec<Option<Activity>> = Vec::new();
            let mut g: usize = 0;
            while g < tagged[a].len()
                invariant
                    a < tagged@.len(),
                    g <= tagged@[a as int]@.len(),
                    forall|a: int, g: int|
                        0 <= a < tagged@.len() && 0 <= g < tagged@[a]@.len() ==> (#[trigger] tagged@[a]@[g])@.len()
                            == 0 || median < tagged@[a]@[g]@.len(),
                    row@.len() == g,
                    forall|h: int|
                        0 <= h < g ==> #[trigger] row@[h] == if tagged@[a as int]@[h]@.len() == 0 {
                            None
                        } else {
                            Some(tagged@[a as int]@[h]@[median as int])
                        },
                decreases tagged@[a as int]@.len() - g,
            {
                let entries = &tagged[a][g];
                if entries.len() == 0 {
                    row.push(None);
                } else {
                    row.push(Some(entries[median]));
                }
                g = g + 1;
            }
            v.push(row);
            a = a + 1;
        }
        v
    }
}

/// The running times of a prefix add up to the prefix of the sum.
proof fn lemma_entries_time_prefix(entries: Seq<Activity>, k: nat)
    requires
        k <= entries.len(),
    ensures
        entries_time(entries.take(k as int)) <= entries_time(entries),
    decreases entries.len(),
{
    if k < entries.len() {
        assert(entries.drop_last().take(k as int) == entries.take(k as int));
        lemma_entries_time_prefix(entries.drop_last(), k);
    } else {
        assert(entries.take(k as int) == entries);
    }
}

} // verus!
