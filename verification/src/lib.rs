//! Logging facilities to evaluate the performance of code parallelised with
//! rayon: raw per-thread events, their binary log format, and the fork-join
//! task graph that is rebuilt from them.
#![allow(unused_imports)]

pub mod events;
pub mod le;
pub mod codec;
pub mod list;
pub mod storage;
pub mod clock;
pub mod recorder;
pub mod ids;
pub mod logging;
pub mod runlog;
pub mod loader;
pub mod analysis;
pub mod tags;
pub mod context;
pub mod parallel;
pub mod builder;
pub mod idle;
pub mod stats;
pub mod histogram;
pub mod graph;
