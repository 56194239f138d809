//! The error kinds of the storage engine.

use vstd::prelude::*;

verus! {

/// Every failure that the engine and its host distinguish.
#[derive(Debug, Clone, Copy, PartialEq, Eq, Structural)]
pub enum Errors {
    /// A positional read from a file failed.
    FileReadError,
    /// An append to a file failed.
    FileWriteError,
    /// Flushing a file to durable media failed.
    FileSyncError,
    /// A file could not be opened or created.
    FileOpenError,
    /// The key of an operation is empty.
    KeyIsEmpty,
    /// The key directory could not take an entry.
    IndexUpdateFailed,
    /// The key has no live value.
    KeyIsNotExist,
    /// A position names a segment that the engine does not hold.
    DataFileNotFound,
    /// The options name no database directory.
    DirIsNotExist,
    /// The options give a segment size of zero.
    DataFileIsEmpty,
    /// The database directory could not be created.
    FailToCreateDatabaseDir,
    /// The database directory could not be listed.
    FailToReadDatabasedir,
    /// A file of the database directory is malformed.
    DataDirectoryCorruped,
    /// A read reached the end of the log.
    ReadDataFileEOF,
    /// The checksum stored with a record does not match its bytes.
    WrongLogRecordCrc,
    /// A batch holds more writes than its options admit.
    ExceedMaxBatchNum,
    /// Another merge is running.
    MergingIsProgressing,
    /// Too little of the log is reclaimable for a merge.
    CanNotMerge,
    /// The disk has too little free space for a merge.
    NoEnoughDiskCapacity,
    /// Batches cannot be used with this index after an unclean restart.
    CanNotUseWriteBatch,
    /// Another process holds the database directory.
    DataBaseIsUsing,
    /// The merge ratio of the options lies outside `0..=1`.
    DataFileMergeRatioIsInvalid,
}

} // verus!
