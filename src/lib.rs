//! Integer core of a sub-linear neural-network trainer: winner-take-all hashing
//! of weight vectors, an LSH index of bounded FIFO buckets, and the selection of
//! the neurons that take part in a forward pass.

pub mod bucket;
pub mod densified_wta_hash;
pub mod desified_wta_hash;
pub mod hasher;
pub mod layer;
pub mod lsh;
pub mod network;
pub mod schedule;
pub mod wta_hash;
mod random;
