use rayon_logs::codec::RawLogs;
use rayon_logs::events::RawEvent;
use rayon_logs::loader::{log2svg, LogError};
use rayon_logs::runlog::{ReplayError, RunLog, TaskLog};

fn two_threads() -> RawLogs {
    RawLogs {
        thread_events: vec![
            vec![
                RawEvent::TaskStart(0, 10),
                RawEvent::Child(1),
                RawEvent::Child(2),
                RawEvent::TaskEnd(20),
                RawEvent::TaskStart(1, 21),
                RawEvent::Child(3),
                RawEvent::TaskEnd(30),
                RawEvent::TaskStart(3, 40),
                RawEvent::TaskEnd(50),
            ],
            vec![RawEvent::TaskStart(2, 22), RawEvent::Child(3), RawEvent::TaskEnd(35)],
        ],
        labels: vec![],
    }
}

fn times(log: &RunLog) -> Vec<(u64, u64, usize, Vec<usize>)> {
    log.tasks_logs.iter().map(|t| (t.start_time, t.end_time, t.thread_id, t.children.clone())).collect()
}

#[test]
fn replay_two_threads() {
    let log = RunLog::new(two_threads()).unwrap();
    assert_eq!(log.threads_number, 2);
    assert_eq!(log.duration, 40);
    assert_eq!(
        times(&log),
        vec![(0, 10, 0, vec![1, 2]), (11, 20, 0, vec![3]), (12, 25, 1, vec![3]), (30, 40, 0, vec![])]
    );
    assert!(log.subgraphs.is_empty());
}

#[test]
fn unused_threads_count() {
    // threads 1 and 2 have logs but logged nothing
    let raw = RawLogs {
        thread_events: vec![vec![RawEvent::TaskStart(0, 0), RawEvent::TaskEnd(5)], vec![], vec![]],
        labels: vec![],
    };
    let log = RunLog::new(raw).unwrap();
    assert_eq!(log.threads_number, 3);
    assert_eq!(times(&log), vec![(0, 5, 0, vec![])]);
    assert_eq!(log.duration, 5);
}

#[test]
fn replay_renumbers_ids() {
    let merged = vec![
        (0, RawEvent::TaskStart(7, 100)),
        (0, RawEvent::Child(42)),
        (0, RawEvent::TaskEnd(110)),
        (0, RawEvent::TaskStart(42, 120)),
        (0, RawEvent::TaskEnd(130)),
    ];
    let log = RunLog::from_events(&merged, vec![], 1).unwrap();
    assert_eq!(times(&log), vec![(0, 10, 0, vec![1]), (20, 30, 0, vec![])]);
    assert_eq!(log.duration, 30);
}

#[test]
fn replay_subgraph() {
    let merged = vec![
        (0, RawEvent::TaskStart(0, 0)),
        (0, RawEvent::Child(1)),
        (0, RawEvent::TaskEnd(5)),
        (0, RawEvent::TaskStart(1, 5)),
        (0, RawEvent::SubgraphStart(0)),
        (0, RawEvent::Child(2)),
        (0, RawEvent::TaskEnd(10)),
        (0, RawEvent::TaskStart(2, 10)),
        (0, RawEvent::SubgraphEnd(0, 100)),
        (0, RawEvent::TaskEnd(20)),
    ];
    let log = RunLog::from_events(&merged, vec!["sort".to_string()], 1).unwrap();
    assert_eq!(log.subgraphs, vec![(1, 2, 0, 100)]);
    assert_eq!(log.tags, vec!["sort".to_string()]);
}

#[test]
fn replay_errors() {
    let child_first = vec![(0, RawEvent::Child(1))];
    assert_eq!(RunLog::from_events(&child_first, vec![], 1).err(), Some(ReplayError::ChildWithoutTask));
    let end_first = vec![(0, RawEvent::TaskEnd(1))];
    assert_eq!(RunLog::from_events(&end_first, vec![], 1).err(), Some(ReplayError::EndWithoutTask));
    let tag_first = vec![(0, RawEvent::SubgraphStart(0))];
    assert_eq!(RunLog::from_events(&tag_first, vec![], 1).err(), Some(ReplayError::TagWithoutTask));
    let end_graph = vec![(0, RawEvent::TaskStart(0, 1)), (0, RawEvent::SubgraphEnd(0, 3))];
    assert_eq!(RunLog::from_events(&end_graph, vec![], 1).err(), Some(ReplayError::EndingNonStartedGraph));
    assert_eq!(RunLog::from_events(&vec![], vec![], 1).err(), Some(ReplayError::NoTasks));
    let backwards = vec![(0, RawEvent::TaskStart(0, 10)), (0, RawEvent::TaskEnd(5))];
    assert_eq!(RunLog::from_events(&backwards, vec![], 1).err(), Some(ReplayError::TaskEndsBeforeStart));
    let unknown_child = vec![(0, RawEvent::TaskStart(0, 1)), (0, RawEvent::Child(9)), (0, RawEvent::TaskEnd(2))];
    assert_eq!(RunLog::from_events(&unknown_child, vec![], 1).err(), Some(ReplayError::UnknownTask));
    let unknown_tag = vec![
        (0, RawEvent::TaskStart(0, 1)),
        (0, RawEvent::SubgraphStart(3)),
        (0, RawEvent::SubgraphEnd(3, 1)),
        (0, RawEvent::TaskEnd(2)),
    ];
    assert_eq!(RunLog::from_events(&unknown_tag, vec![], 1).err(), Some(ReplayError::UnknownTag));
}

#[test]
fn log2svg_reads_and_replays() {
    let mut bytes = Vec::new();
    two_threads().save(&mut bytes);
    let log = log2svg(&bytes).unwrap();
    assert_eq!(log.tasks_logs.len(), 4);
    assert_eq!(log.duration, 40);
    assert_eq!(log2svg(&bytes[..3]).err(), Some(LogError::Load(rayon_logs::codec::LoadError::UnexpectedEof)));
    let mut empty = Vec::new();
    RawLogs { thread_events: vec![vec![]], labels: vec![] }.save(&mut empty);
    assert_eq!(log2svg(&empty).err(), Some(LogError::Replay(ReplayError::NoTasks)));
}

#[test]
fn task_duration_and_default() {
    let t = TaskLog { start_time: 3, end_time: 10, thread_id: 1, children: vec![] };
    assert_eq!(t.duration(), 7);
    let d = TaskLog::default();
    assert_eq!((d.start_time, d.end_time, d.thread_id, d.children.len()), (0, 0, 0, 0));
}
