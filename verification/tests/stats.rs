use rayon_logs::histogram::histogram_bars;
use rayon_logs::idle::{idle_periods, idle_time};
use rayon_logs::runlog::{RunLog, TaskLog};
use rayon_logs::stats::Stats;

fn task(start: u64, end: u64, thread: usize) -> TaskLog {
    TaskLog { start_time: start, end_time: end, thread_id: thread, children: vec![] }
}

#[test]
fn idle_periods_two_threads() {
    let tasks = vec![task(0, 10, 0), task(5, 8, 1), task(12, 20, 0)];
    assert_eq!(idle_periods(&tasks, 2), vec![(1, 0, 5), (0, 10, 12), (1, 8, 20)]);
    assert_eq!(idle_time(&tasks, 2), 5 + 2 + 12);
}

#[test]
fn idle_equal_starts_keep_order() {
    // two tasks of thread 0 starting at the same time: the first listed is
    // replayed first
    let tasks = vec![task(0, 4, 0), task(0, 2, 0), task(6, 9, 0)];
    assert_eq!(idle_periods(&tasks, 1), vec![(0, 2, 6)]);
    assert_eq!(idle_time(&tasks, 1), 4);
}

#[test]
fn idle_unused_thread() {
    let tasks = vec![task(3, 7, 0)];
    assert_eq!(idle_periods(&tasks, 2), vec![(1, 3, 7)]);
    assert_eq!(idle_time(&tasks, 2), 4);
}

fn run(duration: u64, tasks: Vec<TaskLog>) -> RunLog {
    RunLog { threads_number: 2, tasks_logs: tasks, duration, tags: vec![], subgraphs: vec![] }
}

fn experiments() -> Vec<Vec<RunLog>> {
    vec![
        vec![
            run(10, vec![task(0, 10, 0), task(0, 4, 1)]),
            run(12, vec![task(0, 12, 0), task(2, 8, 1)]),
            run(20, vec![task(0, 20, 0)]),
        ],
        vec![
            run(30, vec![task(0, 30, 0), task(0, 30, 1)]),
            run(31, vec![task(0, 31, 0), task(1, 31, 1)]),
            run(35, vec![task(0, 35, 0), task(0, 30, 1)]),
        ],
    ]
}

#[test]
fn mean_times() {
    let logs = experiments();
    let stats = Stats::get_statistics(&logs, 2, 3);
    assert_eq!(stats.total_times(), vec![42 / 3, 96 / 3]);
    // activity: 14 + 18 + 20 = 52 -> 17; 60 + 61 + 65 = 186 -> 62
    assert_eq!(stats.idle_times(), vec![14 * 2 - 17, 32 * 2 - 62]);
}

#[test]
fn median_times() {
    let logs = experiments();
    let stats = Stats::get_statistics(&logs, 2, 3);
    assert_eq!(stats.total_times_median(), vec![12, 31]);
    assert_eq!(stats.unrolled_times_median(), vec![24, 62]);
    assert_eq!(stats.get_median_task_counts(), vec![2, 2]);
    assert_eq!(stats.idle_times_median(), vec![2 + 4, 1]);
    assert_eq!(stats.tasks_split_median(), vec![Vec::<usize>::new(), vec![]]);
}

#[test]
fn histogram_two_rows() {
    let durations = vec![vec![10, 20, 30], vec![15, 40]];
    let (min, max, bars) = histogram_bars(&durations, 3);
    assert_eq!((min, max), (10, 40));
    assert_eq!(bars, vec![vec![1, 1, 1], vec![1, 0, 1]]);
}

#[test]
fn histogram_single_duration() {
    let durations = vec![vec![7, 7]];
    let (min, max, bars) = histogram_bars(&durations, 4);
    assert_eq!((min, max), (7, 7));
    assert_eq!(bars, vec![vec![2, 0, 0, 0]]);
}

fn tagged_run(durations: &[u64], works: &[usize], tag: usize) -> RunLog {
    // task 0 forks into one task per subgraph; subgraph i spans task i + 1
    let n = durations.len();
    let mut tasks = vec![TaskLog { start_time: 0, end_time: 1, thread_id: 0, children: (1..=n).collect() }];
    for &d in durations {
        tasks.push(TaskLog { start_time: 1, end_time: 1 + d, thread_id: 0, children: vec![] });
    }
    RunLog {
        threads_number: 1,
        tasks_logs: tasks,
        duration: 1 + durations.iter().max().copied().unwrap_or(0),
        tags: vec!["a".to_string(), "b".to_string()],
        subgraphs: (0..n).map(|i| (i + 1, i + 1, tag, works[i])).collect(),
    }
}

#[test]
fn tagged_statistics_by_time() {
    // one algorithm, three runs: tag 0 takes 9, 4 and 4 time units (the
    // last two sort in run order); tag 1 appears in no run
    let logs = vec![vec![
        tagged_run(&[5, 4], &[10, 20], 0),
        tagged_run(&[4], &[3], 0),
        tagged_run(&[4], &[7], 0),
    ]];
    let stats = Stats::get_statistics(&logs, 1, 3);
    let tagged = stats.tagged_stats(2);
    assert_eq!(tagged, vec![vec![vec![(1, 4, 3), (2, 4, 7), (0, 9, 30)], vec![]]]);
    assert_eq!(stats.average_tagged_times(&tagged), vec![vec![17 / 3, 0]]);
    assert_eq!(stats.median_tagged_stats(&tagged), vec![vec![Some((2, 4, 7)), None]]);
}

#[test]
fn histogram_unsorted_row() {
    // only the first and the last durations bound the row
    let durations = vec![vec![2, 9, 5, 10]];
    let (min, max, bars) = histogram_bars(&durations, 2);
    assert_eq!((min, max), (2, 10));
    assert_eq!(bars, vec![vec![2, 2]]);
}

#[test]
fn histogram_clamps_into_the_last_bar() {
    // 30 bars of width 1 between 0 and 59: 59 goes in the last bar
    let durations = vec![vec![0], vec![59]];
    let (min, max, bars) = histogram_bars(&durations, 30);
    assert_eq!((min, max), (0, 59));
    let mut first = vec![0; 30];
    first[0] = 1;
    let mut second = vec![0; 30];
    second[29] = 1;
    assert_eq!(bars, vec![first, second]);
}
