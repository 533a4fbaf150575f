use rayon_logs::events::RawEvent;
use rayon_logs::runlog::{RunLog, TaskLog};
use rayon_logs::tags::fuse_tags;

fn task(start: u64, end: u64, thread: usize, children: Vec<usize>) -> TaskLog {
    TaskLog { start_time: start, end_time: end, thread_id: thread, children }
}

/// 0 -> 1 -> {2, 3} -> 4 -> 5, with a subgraph tagged 0 from 1 to 4.
fn diamond() -> RunLog {
    RunLog {
        threads_number: 2,
        tasks_logs: vec![
            task(0, 5, 0, vec![1]),
            task(5, 10, 0, vec![2, 3]),
            task(10, 20, 0, vec![4]),
            task(11, 16, 1, vec![4]),
            task(20, 22, 0, vec![5]),
            task(22, 30, 0, vec![]),
        ],
        duration: 30,
        tags: vec!["work".to_string(), "idle".to_string()],
        subgraphs: vec![(1, 4, 0, 50), (2, 2, 0, 10)],
    }
}

#[test]
fn tasks_between_diamond() {
    let log = diamond();
    let mut v = log.tasks_between(1, 4);
    assert_eq!(v[0], 1);
    v.sort();
    assert_eq!(v, vec![1, 2, 3, 4]);
    assert_eq!(log.tasks_between(4, 4), vec![4]);
    let mut all = log.tasks_between(0, 5);
    all.sort();
    assert_eq!(all, vec![0, 1, 2, 3, 4, 5]);
}

#[test]
fn innermost_subgraph_describes_each_task() {
    let log = diamond();
    let d = log.task_subgraphs();
    // subgraph 1 (task 2 alone) comes after subgraph 0 and wins for task 2;
    // the other tag describes no task
    assert_eq!(
        d,
        vec![
            vec![None, None],
            vec![Some(0), None],
            vec![Some(1), None],
            vec![Some(0), None],
            vec![Some(0), None],
            vec![None, None],
        ]
    );
}

#[test]
fn subgraph_count_and_time() {
    let log = diamond();
    assert_eq!(log.subgraph_task_count((1, 4, 0, 50)), 4);
    assert_eq!(log.subgraph_task_time((1, 4, 0, 50)), 5 + 10 + 5 + 2);
    assert_eq!(log.subgraph_task_count((2, 2, 0, 10)), 1);
    assert_eq!(log.subgraph_task_time((2, 2, 0, 10)), 10);
}

#[test]
fn count_tasks_by_tag() {
    let log = diamond();
    assert_eq!(log.count_tasks(), vec![5, 0]);
}

#[test]
fn tag_totals_by_tag() {
    let log = diamond();
    assert_eq!(log.tag_totals(), vec![Some((60, 32)), None]);
}

fn tagged_log(tags: &[&str], subgraph_tags: &[usize]) -> RunLog {
    RunLog {
        threads_number: 1,
        tasks_logs: vec![task(0, 1, 0, vec![])],
        duration: 1,
        tags: tags.iter().map(|t| t.to_string()).collect(),
        subgraphs: subgraph_tags.iter().map(|t| (0, 0, *t, 1)).collect(),
    }
}

#[test]
fn scan_tags_adds_missing_in_order() {
    let log = tagged_log(&["b", "c", "a"], &[]);
    let mut registry = vec!["a".to_string()];
    log.scan_tags(&mut registry);
    assert_eq!(registry, vec!["a".to_string(), "b".to_string(), "c".to_string()]);
    log.scan_tags(&mut registry);
    assert_eq!(registry.len(), 3);
}

#[test]
fn update_tags_renumbers() {
    let mut log = tagged_log(&["b", "a"], &[0, 1, 0]);
    let registry = vec!["a".to_string(), "c".to_string(), "b".to_string()];
    log.update_tags(&registry);
    assert_eq!(log.tags, registry);
    let tags: Vec<usize> = log.subgraphs.iter().map(|g| g.2).collect();
    assert_eq!(tags, vec![2, 0, 2]);
}

#[test]
fn fuse_tags_across_logs() {
    let mut logs = vec![
        vec![tagged_log(&["x"], &[0]), tagged_log(&["y", "x"], &[0, 1])],
        vec![tagged_log(&["z", "y"], &[1, 0])],
    ];
    let tags = fuse_tags(&mut logs);
    assert_eq!(tags, vec!["x".to_string(), "y".to_string(), "z".to_string()]);
    for experiment in &logs {
        for log in experiment {
            assert_eq!(log.tags, tags);
        }
    }
    let names: Vec<&str> = logs[1][0].subgraphs.iter().map(|g| tags[g.2].as_str()).collect();
    assert_eq!(names, vec!["y", "z"]);
    let names: Vec<&str> = logs[0][1].subgraphs.iter().map(|g| tags[g.2].as_str()).collect();
    assert_eq!(names, vec!["y", "x"]);
}

#[test]
fn raw_event_time() {
    assert_eq!(RawEvent::<usize>::TaskStart(1, 9).time(), 9);
    assert_eq!(RawEvent::<usize>::TaskEnd(4).time(), 4);
    assert_eq!(RawEvent::<usize>::Child(4).time(), 0);
}
