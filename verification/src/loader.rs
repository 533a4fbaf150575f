//! Turning the bytes of a log file into the run log that is displayed.
use crate::codec::{decode_logs, LoadError, RawLogs};
use crate::runlog::{merged_by_time, run_log_of, times_from_start, ReplayError, RunLog, RunLogModel};
use vstd::prelude::*;

verus! {

/// Why a log file could not be turned into a run log.
#[derive(Debug, Clone, Copy, PartialEq, Eq, Structural)]
pub enum LogError {
    /// The bytes are not a log.
    Load(LoadError),
    /// The events of the log do not form a fork-join graph.
    Replay(ReplayError),
}

/// The run log that the bytes of a log file give.
pub open spec fn log_of_bytes(bytes: Seq<u8>) -> Result<RunLogModel, LogError> {
    match decode_logs(bytes) {
        Err(e) => Err(LogError::Load(e)),
        Ok(l) => match run_log_of(merged_by_time(l.thread_events), l.labels, l.thread_events.len()) {
            Err(e) => Err(LogError::Replay(e)),
            Ok(r) => Ok(r),
        },
    }
}

pub open spec fn log_result(r: Result<RunLog, LogError>) -> Result<RunLogModel, LogError> {
    match r {
        Ok(l) => Ok(l@),
        Err(e) => Err(e),
    }
}

/// Convert the bytes of a log file into the run log that its svg file
/// displays.
pub fn log2svg(log_bytes: &[u8]) -> (r: Result<RunLog, LogError>)
    ensures
        log_result(r) == log_of_bytes(log_bytes@),
        r matches Ok(l) ==> l.well_formed() && times_from_start(l),
{
    let raw_logs = match RawLogs::load(log_bytes) {
        Ok(l) => l,
        Err(e) => return Err(LogError::Load(e)),
    };
    match RunLog::new(raw_logs) {
        Ok(l) => Ok(l),
        Err(e) => Err(LogError::Replay(e)),
    }
}

} // verus!
