//! A chunked object store over size-limited remote attachment endpoints.
//!
//! A source object is split into fixed-size chunks, the chunks are spread
//! round-robin over a pool of endpoints under a bounded number of in-flight
//! transfers, and each successful upload is recorded in a metadata ledger
//! with an idempotent, order-independent append. Retrieval looks the object
//! up in the ledger, checks that the recorded chunk indices are contiguous,
//! downloads the chunks concurrently, and reassembles the bytes in index
//! order whatever order the downloads finish in.
//!
//! This crate holds the verified engine: the splitter, the scheduling and
//! admission decisions, the ledger entry model, and the ordered reassembly.
//! The transports themselves (file system, upload endpoints, the ledger
//! store) are collaborators that the surrounding application drives.

pub mod chunks;
pub mod cli;
pub mod directory;
pub mod drive_config;
pub mod errors;
pub mod retrieve;
pub mod schedule;
