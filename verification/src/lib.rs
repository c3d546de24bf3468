//! Per-key minimum, maximum and mean of fixed-point readings taken from
//! `key;reading` lines, computed chunk by chunk and merged exactly.

pub mod chunks;
pub mod codec;
pub mod engine;
pub mod records;
pub mod report;
pub mod stats;
pub mod summary;
