//! Citation bookkeeping: label sets and the in-memory range map.

pub mod idset;
pub mod rangemap;
pub mod token;
pub mod tree;
pub mod types;
