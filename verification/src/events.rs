//! Raw events: very fast to record on a per thread basis and post-processed
//! after execution into a graph of tasks.
use vstd::prelude::*;

verus! {

/// Unique thread identifier.
pub type ThreadId = usize;
/// Unique subgraph (label) identifier.
pub type SubGraphId = usize;
/// Unique task identifier.
pub type TaskId = usize;
/// At which time (in nanoseconds) an event happens.
pub type TimeStamp = u64;

/// All kinds of raw events that can be logged.
/// It is generic because recorded logs carry label strings while reloaded
/// logs carry label indices.
#[derive(Debug, Clone, Copy, PartialEq, Eq, Structural)]
pub enum RawEvent<S> {
    /// A task starts.
    TaskStart(TaskId, TimeStamp),
    /// The active task ends.
    TaskEnd(TimeStamp),
    /// Direct link in the graph between the active task and the given one.
    Child(TaskId),
    /// Start a subgraph.
    SubgraphStart(S),
    /// End a subgraph and register a work amount.
    SubgraphEnd(S, usize),
}

/// Time carried by an event, zero for events that carry none.
pub open spec fn event_time<S>(e: RawEvent<S>) -> TimeStamp {
    match e {
        RawEvent::TaskStart(_, t) => t,
        RawEvent::TaskEnd(t) => t,
        _ => 0,
    }
}

impl<S> RawEvent<S> {
    /// Return the event's time, or 0 if it carries none.
    pub fn time(&self) -> (t: TimeStamp)
        ensures
            t == event_time(*self),
    {
        match self {
            RawEvent::TaskStart(_, t) => *t,
            RawEvent::TaskEnd(t) => *t,
            _ => 0,
        }
    }
}

} // verus!
