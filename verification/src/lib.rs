//! Chunked parallel benchmark kernels: a chunk partitioner and three payload
//! kernels (dense matrix multiplication, merge sort over sorted runs, and a
//! sieve of Eratosthenes), each with a full functional contract.
//!
//! The library holds the partition-execute-recombine logic; a thin harness
//! around it may run the per-chunk kernels on worker threads, time them, and
//! feed them generated inputs.

pub mod partition;
pub mod matrix;
pub mod sort;
pub mod sieve;
pub mod workers;
