//! The configuration of the engine and of write batches.

use vstd::prelude::*;

use crate::errors::Errors;

verus! {

/// Which index the engine keeps.
#[derive(Debug, Clone, Copy, PartialEq, Eq, Structural)]
pub enum IndexType {
    BTree,
    SkipList,
    BPlusTree,
}

/// How a segment file is accessed.
#[derive(Debug, Clone, Copy, PartialEq, Eq, Structural)]
pub enum IOManagerType {
    StandardFileIO,
    MemoryMap,
}

/// The engine's configuration.
#[derive(Debug, Clone)]
pub struct Options {
    /// Directory holding all files of the store.
    pub dir_path: String,
    /// Largest size a segment may reach before a new one is started.
    pub data_file_size: u64,
    /// Sync after every append.
    pub sync_writes: bool,
    /// When above zero, sync once this many bytes were written since the last sync.
    pub bytes_per_sync: usize,
    pub index_type: IndexType,
    /// Scan the segments through a memory map when opening.
    pub mmap_at_startup: bool,
    /// Least share of reclaimable bytes for a merge to run, in thousandths
    /// (0 to 1000).
    pub file_merge_threshold: i32,
}

/// Default segment size: 256 MiB.
pub const DEFAULT_DATA_FILE_SIZE: u64 = 268435456;

/// Default merge threshold: six tenths.
pub const DEFAULT_MERGE_THRESHOLD: i32 = 600;

impl Options {
    /// The default configuration for a store in `dir_path`.
    pub fn with_dir(dir_path: String) -> (r: Options)
        ensures
            r.dir_path@ == dir_path@,
            r.data_file_size == DEFAULT_DATA_FILE_SIZE,
            !r.sync_writes,
            r.bytes_per_sync == 0,
            r.index_type == IndexType::BTree,
            r.mmap_at_startup,
            r.file_merge_threshold == DEFAULT_MERGE_THRESHOLD,
    {
        Options {
            dir_path,
            data_file_size: DEFAULT_DATA_FILE_SIZE,
            sync_writes: false,
            bytes_per_sync: 0,
            index_type: IndexType::BTree,
            mmap_at_startup: true,
            file_merge_threshold: DEFAULT_MERGE_THRESHOLD,
        }
    }
}

/// Options for iterating over the index.
pub struct IteratorOptions {
    /// Only keys that start with these bytes.
    pub prefix: Vec<u8>,
    /// From the largest key down.
    pub reverse: bool,
}

impl Default for IteratorOptions {
    fn default() -> (r: Self)
        ensures
            r.prefix@.len() == 0,
            !r.reverse,
    {
        IteratorOptions { prefix: Vec::new(), reverse: false }
    }
}

/// Options of a write batch.
pub struct WriteBatchOptions {
    /// Most distinct keys that one commit may carry.
    pub max_batch_num: usize,
    /// Sync the active segment when a commit has been written.
    pub sync_writes: bool,
}

/// Default batch limit.
pub const DEFAULT_MAX_BATCH_NUM: usize = 1000;

impl Default for WriteBatchOptions {
    fn default() -> (r: Self)
        ensures
            r.max_batch_num == DEFAULT_MAX_BATCH_NUM,
            r.sync_writes,
    {
        WriteBatchOptions { max_batch_num: DEFAULT_MAX_BATCH_NUM, sync_writes: true }
    }
}

/// The first rule of the configuration that `opts` breaks, if any.
pub open spec fn options_error(opts: Options) -> Option<Errors> {
    if opts.dir_path@.len() == 0 {
        Some(Errors::DirPathIsEmpty)
    } else if opts.data_file_size == 0 {
        Some(Errors::DataFileSizeTooSmall)
    } else if opts.file_merge_threshold < 0 || opts.file_merge_threshold > 1000 {
        Some(Errors::InvalidMergeThreshold)
    } else {
        None
    }
}

/// Checks the configuration: a directory must be named, segments must have
/// room, and the merge threshold must lie between 0 and 1000 thousandths.
pub fn check_options(opts: &Options) -> (r: Option<Errors>)
    ensures
        r == options_error(*opts),
{
    if opts.dir_path.as_str().unicode_len() == 0 {
        return Some(Errors::DirPathIsEmpty);
    }
    if opts.data_file_size == 0 {
        return Some(Errors::DataFileSizeTooSmall);
    }
    if opts.file_merge_threshold < 0 || opts.file_merge_threshold > 1000 {
        return Some(Errors::InvalidMergeThreshold);
    }
    None
}

} // verus!
