use rayon_logs::graph::{create_graph, Block, GraphError};
use rayon_logs::runlog::{RunLog, TaskLog};

fn task(start: u64, end: u64, thread: usize, children: Vec<usize>) -> TaskLog {
    TaskLog { start_time: start, end_time: end, thread_id: thread, children }
}

fn log(tasks: Vec<TaskLog>, subgraphs: Vec<(usize, usize, usize, usize)>) -> RunLog {
    RunLog { threads_number: 2, tasks_logs: tasks, duration: 30, tags: vec!["t".to_string()], subgraphs }
}

#[test]
fn graph_of_a_join_in_a_subgraph() {
    let l = log(
        vec![
            task(0, 5, 0, vec![1]),
            task(5, 10, 0, vec![2, 3]),
            task(10, 20, 0, vec![4]),
            task(11, 16, 1, vec![4]),
            task(20, 22, 0, vec![5]),
            task(22, 30, 0, vec![]),
        ],
        vec![(1, 4, 0, 50)],
    );
    let g = create_graph(&l).unwrap();
    assert_eq!(
        g,
        vec![
            Block::Sequence(vec![1, 2, 10]),
            Block::Task(0),
            Block::Sequence(vec![3, 4, 9]),
            Block::Task(1),
            Block::Parallel(vec![5, 7]),
            Block::Sequence(vec![6]),
            Block::Task(2),
            Block::Sequence(vec![8]),
            Block::Task(3),
            Block::Task(4),
            Block::Task(5),
        ]
    );
}

#[test]
fn graph_of_a_diamond() {
    // one join: each branch in its own sequence of the parallel block that
    // follows task 0, and task 3 (two fathers) back in the outer sequence
    let l = log(
        vec![
            task(0, 1, 0, vec![1, 2]),
            task(1, 2, 0, vec![3]),
            task(1, 3, 0, vec![3]),
            task(3, 4, 0, vec![]),
        ],
        vec![],
    );
    let g = create_graph(&l).unwrap();
    assert_eq!(
        g,
        vec![
            Block::Sequence(vec![1, 2, 7]),
            Block::Task(0),
            Block::Parallel(vec![3, 5]),
            Block::Sequence(vec![4]),
            Block::Task(1),
            Block::Sequence(vec![6]),
            Block::Task(2),
            Block::Task(3),
        ]
    );
}

#[test]
fn graph_of_a_sequence() {
    let l = log(vec![task(0, 1, 0, vec![1]), task(1, 2, 0, vec![2]), task(2, 3, 0, vec![])], vec![]);
    let g = create_graph(&l).unwrap();
    assert_eq!(g, vec![Block::Sequence(vec![1, 2, 3]), Block::Task(0), Block::Task(1), Block::Task(2)]);
}

#[test]
fn graph_errors() {
    let orphan = log(vec![task(0, 1, 0, vec![]), task(2, 3, 0, vec![])], vec![]);
    assert_eq!(create_graph(&orphan), Err(GraphError::NotRoot));
    let late_father = log(vec![task(5, 6, 0, vec![1]), task(0, 1, 0, vec![])], vec![]);
    assert_eq!(create_graph(&late_father), Err(GraphError::FatherNotPlaced));
    let backwards = log(vec![task(5, 6, 0, vec![]), task(0, 1, 0, vec![0])], vec![]);
    assert_eq!(create_graph(&backwards), Err(GraphError::NotRoot));
    let two_fathers_subgraph = log(
        vec![task(0, 1, 0, vec![1, 2]), task(1, 2, 0, vec![3]), task(1, 2, 1, vec![3]), task(3, 4, 0, vec![])],
        vec![(3, 3, 0, 1)],
    );
    assert_eq!(create_graph(&two_fathers_subgraph), Err(GraphError::SeveralFathersForSubgraph));
    let outer_end = log(vec![task(0, 1, 0, vec![1]), task(1, 2, 0, vec![])], vec![(0, 0, 0, 1)]);
    assert_eq!(create_graph(&outer_end), Err(GraphError::NoEnclosingBlock));
}
