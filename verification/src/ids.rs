//! Fresh identifiers drawn from shared counters.
use crate::events::TaskId;
use std::sync::atomic::{AtomicUsize, Ordering};
use vstd::prelude::*;

verus! {

/// Get an id for a new task and increment the tasks counter.
pub fn next_task_id(counter: &AtomicUsize) -> TaskId {
    counter.fetch_add(1, Ordering::SeqCst)
}

/// Get an id for a new iterator and increment the iterators counter.
pub fn next_iterator_id(counter: &AtomicUsize) -> usize {
    counter.fetch_add(1, Ordering::SeqCst)
}

} // verus!
