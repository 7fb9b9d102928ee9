//! Random samples of text records drawn from partitioned corpora.
//!
//! A corpus file is a run of length-prefixed frames, one per partition. The
//! `frame` module splits such a file into its payloads, `store` keeps the
//! decoded partitions together with their weights, and `sample` picks one
//! partition with probability proportional to its size and draws distinct
//! records from it.

pub mod frame;
pub mod sample;
pub mod store;
