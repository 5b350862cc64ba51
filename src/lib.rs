//! Layout and redundancy planning for an offline, multi-volume backup with
//! pairwise XOR parity.

pub mod autofill;
pub mod block;
pub mod block_size;
pub mod consts;
pub mod disperse;
pub mod errors;
pub mod index;
pub mod medium;
pub mod path;
pub mod plan;
pub mod redundancy;
pub mod stats;
pub mod unit;
pub mod unitset;
