//! Merging of sorted streams, and the line handling of a remote command runner.
pub mod order;
pub mod merged_chan;
pub mod job;
