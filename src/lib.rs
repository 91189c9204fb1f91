//! Enumerates every fixed-length word over an alphabet and drives a
//! bounded-concurrency fetch of one URL per word.
pub mod perms;
pub mod dispatch;
pub mod report;
