//! Diversity maximization: select, from a set of points in a metric space,
//! the k points that maximize the minimum pairwise distance among them
//! (the remote-edge objective), optionally after reducing the input to a
//! small representative subset (a coreset), sequentially or shard-by-shard
//! in parallel.
//!
//! Distances are carried as order-encoded `u64` values: any strictly
//! monotone encoding of the underlying dissimilarity (for example the bit
//! pattern of a non-negative 32-bit float) works, since the algorithms only
//! compare distances and never do arithmetic on them.

pub mod coreset;
pub mod diversity;
pub mod gmm;
pub mod metricdata;
