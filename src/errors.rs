//! The error taxonomy of the store.

use vstd::prelude::*;

verus! {

/// Every way an engine operation can fail.
#[derive(Debug, Clone, Copy, PartialEq, Eq, Structural)]
pub enum Errors {
    KeyIsEmpty,
    KeyNotFound,
    DataFileNotFound,
    DirPathIsEmpty,
    DataFileSizeTooSmall,
    InvalidMergeThreshold,
    FailedToCreateDatabaseDir,
    FailedToReadDatabaseDir,
    DatabaseDirectoryCorrupted,
    FailedToOpenDataFile,
    FailedToReadFromDataFile,
    FailedToWriteToDataFile,
    FailedToSyncDataFile,
    ReadDataFileEOF,
    InvalidLogRecordCrc,
    DatabaseIsUsing,
    UnableToUseWriteBatch,
    ExceedMaxBatchNum,
    MergeInProgress,
    MergeThresholdUnreached,
    MergeNoEnoughSpace,
    FailedToCopyDirectory,
}

pub type Result<T> = core::result::Result<T, Errors>;

} // verus!
