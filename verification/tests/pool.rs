use rayon_logs::builder::ThreadPoolBuilder;
use rayon_logs::codec::RawLogs;
use rayon_logs::context::Recorder;
use rayon_logs::parallel::{custom_subgraph, join, join_context, subgraph};

#[test]
fn join_returns_both_results() {
    let pool = ThreadPoolBuilder::new().num_threads(2).build().unwrap();
    let rec = pool.logs();
    let (a, b) = pool.install(|| join(rec, || 1 + 1, || "two"));
    assert_eq!((a, b), (2, "two"));
    let log = rec.save_svg().unwrap();
    // the first task, the installed task, both branches, their continuation
    // and the task that follows the installation
    assert_eq!(log.tasks_logs.len(), 6);
    assert!(log.tasks_logs.iter().all(|t| t.start_time <= t.end_time));
}

#[test]
fn join_context_returns_both_results() {
    let pool = ThreadPoolBuilder::new().num_threads(2).build().unwrap();
    let rec = pool.logs();
    let (a, b) = pool.install(|| join_context(rec, |_| 3, |_| 4));
    assert_eq!(a + b, 7);
    let log = rec.save_svg().unwrap();
    assert_eq!(log.tasks_logs.len(), 6);
}

#[test]
fn nested_joins_make_a_graph() {
    fn sum(rec: &Recorder, v: &[u64]) -> u64 {
        if v.len() <= 2 {
            v.iter().sum()
        } else {
            let (l, r) = v.split_at(v.len() / 2);
            let (a, b) = join(rec, || sum(rec, l), || sum(rec, r));
            a + b
        }
    }
    let pool = ThreadPoolBuilder::new().num_threads(3).build().unwrap();
    let rec = pool.logs();
    let v: Vec<u64> = (1..=16).collect();
    assert_eq!(pool.install(|| sum(rec, &v)), 136);
    let log = rec.save_svg().unwrap();
    // 7 joins, 3 tasks each, plus the first, installed and following tasks
    assert_eq!(log.tasks_logs.len(), 7 * 3 + 3);
    let between = log.tasks_between(0, log.tasks_logs.len() - 1);
    assert_eq!(between.len(), log.tasks_logs.len());
}

#[test]
fn subgraphs_are_recorded() {
    // one worker, so that both subgraphs are logged by the same thread and
    // their tags are numbered in the order they were first seen
    let pool = ThreadPoolBuilder::new().num_threads(1).build().unwrap();
    let rec = pool.logs();
    let r = pool.install(|| subgraph(rec, "work", 10, || 5));
    assert_eq!(r, 5);
    let r = pool.install(|| custom_subgraph(rec, "custom", || 3usize, |s| s * 2, || "done"));
    assert_eq!(r, "done");
    let log = rec.save_svg().unwrap();
    assert_eq!(log.tags, vec!["work".to_string(), "custom".to_string()]);
    let recorded: Vec<(usize, usize)> = log.subgraphs.iter().map(|g| (g.2, g.3)).collect();
    assert_eq!(recorded, vec![(0, 10), (1, 6)]);
    assert_eq!(log.count_tasks(), vec![1, 1]);
}

#[test]
fn raw_logs_are_saved_then_reset() {
    let pool = ThreadPoolBuilder::new().num_threads(2).build().unwrap();
    let rec = pool.logs();
    pool.install(|| join(rec, || (), || ()));
    let bytes = rec.save_raw_logs();
    let raw = RawLogs::load(&bytes).unwrap();
    assert_eq!(raw.thread_events.len(), 3);
    let events: usize = raw.thread_events.iter().map(|t| t.len()).sum();
    assert!(events > 0);
    // after saving, only the calling thread's new task is left
    let bytes = rec.save_raw_logs();
    let raw = RawLogs::load(&bytes).unwrap();
    let events: usize = raw.thread_events.iter().map(|t| t.len()).sum();
    assert_eq!(events, 2);
}

#[test]
fn reset_leaves_one_task() {
    let pool = ThreadPoolBuilder::new().num_threads(2).build().unwrap();
    let rec = pool.logs();
    pool.install(|| join(rec, || (), || ()));
    rec.reset();
    let log = rec.save_svg().unwrap();
    assert_eq!(log.tasks_logs.len(), 1);
}

#[test]
fn logging_install_gives_the_run() {
    let pool = ThreadPoolBuilder::new().num_threads(2).build().unwrap();
    let (r, log) = pool.logging_install(|| 40 + 2);
    assert_eq!(r, 42);
    let log = log.unwrap();
    assert_eq!(log.tasks_logs.len(), 3);
}

#[test]
fn ids_are_fresh() {
    let rec = Recorder::new(1);
    let a = rec.next_task_id();
    let b = rec.next_task_id();
    assert_eq!((a, b), (1, 2));
    assert_eq!(rec.next_iterator_id(), 0);
    assert_eq!(rec.next_iterator_id(), 1);
}

#[test]
fn one_join_makes_four_tasks() {
    let rec = Recorder::new(rayon::current_num_threads());
    join(&rec, || (), || ());
    let log = rec.save_svg().unwrap();
    // the code before the join, the two branches and the code after it
    assert_eq!(log.tasks_logs.len(), 4);
    assert_eq!(log.tasks_logs[0].children, vec![2, 3]);
    assert_eq!(log.tasks_logs[2].children, vec![1]);
    assert_eq!(log.tasks_logs[3].children, vec![1]);
    assert!(log.tasks_logs[1].children.is_empty());
}

#[test]
fn gathered_logs_are_kept_until_reset() {
    let pool = ThreadPoolBuilder::new().num_threads(2).build().unwrap();
    let rec = pool.logs();
    pool.install(|| join(rec, || (), || ()));
    let count = |bytes: &[u8]| -> usize {
        RawLogs::load(bytes).unwrap().thread_events.iter().map(|t| t.len()).sum()
    };
    let first = count(&rec.gather_raw_logs());
    // the logs are still there, with one more end of the calling task
    let second = count(&rec.gather_raw_logs());
    assert_eq!(second, first + 1);
    rec.reset();
    assert_eq!(count(&rec.gather_raw_logs()), 2);
}
