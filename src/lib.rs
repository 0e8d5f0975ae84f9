//! A log-structured key-value store in the Bitcask style: every change is
//! appended to numbered segment files, and an in-memory index maps each live
//! key to the position of its latest record.
//!
//! This crate holds the engine's logic as plain computations on bytes and
//! values: the record codec, the index, the planning of appends and segment
//! rotation, the replay of segments at recovery, write batches and the merge
//! scan. Reading and writing files is left to the caller, who hands segment
//! bytes in and writes out the bytes the engine plans.

pub mod batch;
pub mod data_file;
pub mod db;
pub mod errors;
pub mod index;
pub mod log_record;
pub mod merge;
pub mod option;
pub mod recovery;
pub mod varint;
