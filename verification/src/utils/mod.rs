//! Containers and the ordering vocabulary they are specified with.

pub mod hash_vec;
pub mod order;

pub use hash_vec::HashVec;
