//! The options of the engine, of its iterators and of its batches.

use crate::errors::Errors;
use vstd::string::StringExecFns;
use vstd::prelude::*;

verus! {

/// The key directory that an engine uses.
#[derive(Clone, Copy, Debug, PartialEq, Eq, Structural)]
pub enum IndexType {
    /// An ordered table in memory.
    BTree,
    /// A concurrent skip list in memory.
    SkipList,
    /// A B+ tree that its host keeps in a file of its own.
    BPlusTree,
}

/// How the files of a segment are read.
#[derive(Clone, Copy, Debug, PartialEq, Eq, Structural)]
pub enum IOType {
    /// Positional reads and appending writes.
    StandardIO,
    /// A read-only memory map, for the scan at start.
    MemoryMap,
}

/// A share of the log, as the fraction `numer / denom`.
#[derive(Clone, Copy, Debug, PartialEq, Eq, Structural)]
pub struct MergeRatio {
    pub numer: u32,
    pub denom: u32,
}

impl MergeRatio {
    /// The fraction is one, and lies between 0 and 1.
    pub open spec fn valid(self) -> bool {
        self.denom > 0 && self.numer <= self.denom
    }

    /// `reclaim / total` is at least the fraction.
    pub open spec fn reached_by(self, reclaim: nat, total: nat) -> bool {
        reclaim * self.denom >= self.numer * total
    }

    /// Whether `reclaim / total` is at least the fraction.
    pub fn is_reached(&self, reclaim: u64, total: u64) -> (b: bool)
        ensures
            b == self.reached_by(reclaim as nat, total as nat),
    {
        let denom: u128 = self.denom as u128;
        let numer: u128 = self.numer as u128;
        assert(reclaim * denom <= 0xffff_ffff_ffff_ffff * 0xffff_ffff) by (nonlinear_arith)
            requires
                reclaim <= 0xffff_ffff_ffff_ffff,
                denom <= 0xffff_ffff,
        ;
        assert(numer * total <= 0xffff_ffff * 0xffff_ffff_ffff_ffff) by (nonlinear_arith)
            requires
                total <= 0xffff_ffff_ffff_ffff,
                numer <= 0xffff_ffff,
        ;
        (reclaim as u128) * denom >= numer * (total as u128)
    }
}

/// The options of an engine.
#[derive(Clone, Debug)]
pub struct Options {
    /// The database directory.
    pub dir_path: String,
    /// The size in bytes that a segment may reach before the next is begun.
    pub data_file_size: u64,
    /// Whether every write is flushed to durable media.
    pub sync_writes: bool,
    /// The number of written bytes after which the log is flushed; 0 for never.
    pub bytes_per_sync: usize,
    /// The key directory to use.
    pub index_type: IndexType,
    /// Whether the scan at start reads through a memory map.
    pub mmap_at_startup: bool,
    /// The reclaimable share of the log from which a merge is accepted.
    pub data_file_merge_ratio: MergeRatio,
}

impl Default for Options {
    fn default() -> (opts: Options)
        ensures
            opts.dir_path@ == "/tmp/kv-data"@,
            opts.data_file_size == 256 * 1024 * 1024,
            !opts.sync_writes,
            opts.bytes_per_sync == 0,
            opts.index_type == IndexType::BTree,
            opts.mmap_at_startup,
            opts.data_file_merge_ratio == (MergeRatio { numer: 1, denom: 2 }),
            options_error(opts) is None,
    {
        let dir_path = String::from_str("/tmp/kv-data");
        proof {
            reveal_strlit("/tmp/kv-data");
        }
        Options {
            dir_path,
            data_file_size: 256 * 1024 * 1024,
            sync_writes: false,
            bytes_per_sync: 0,
            index_type: IndexType::BTree,
            mmap_at_startup: true,
            data_file_merge_ratio: MergeRatio { numer: 1, denom: 2 },
        }
    }
}

/// What is wrong with the options, if anything: no directory, a segment size
/// of zero, or a merge ratio outside `0..=1`, in this order.
pub open spec fn options_error(opts: Options) -> Option<Errors> {
    if opts.dir_path@.len() == 0 {
        Some(Errors::DirIsNotExist)
    } else if opts.data_file_size == 0 {
        Some(Errors::DataFileIsEmpty)
    } else if !opts.data_file_merge_ratio.valid() {
        Some(Errors::DataFileMergeRatioIsInvalid)
    } else {
        None
    }
}

/// Checks the options, and says what is wrong with them, if anything.
pub fn check_options(opts: &Options) -> (err: Option<Errors>)
    ensures
        err == options_error(*opts),
{
    if opts.dir_path.as_str().is_empty() {
        return Some(Errors::DirIsNotExist);
    }
    if opts.data_file_size == 0 {
        return Some(Errors::DataFileIsEmpty);
    }
    let ratio = opts.data_file_merge_ratio;
    if ratio.denom == 0 || ratio.numer > ratio.denom {
        return Some(Errors::DataFileMergeRatioIsInvalid);
    }
    None
}

/// The options of an iterator.
#[derive(Clone, Debug)]
pub struct IteratorOptions {
    /// Only keys that start with these bytes are visited.
    pub prefix: Vec<u8>,
    /// Whether the keys are visited in descending order.
    pub reverse: bool,
}

impl Default for IteratorOptions {
    fn default() -> (opts: IteratorOptions)
        ensures
            opts.prefix@.len() == 0,
            !opts.reverse,
    {
        IteratorOptions { prefix: Vec::new(), reverse: false }
    }
}

/// The options of a batch.
#[derive(Clone, Copy, Debug)]
pub struct WriteBatchOptions {
    /// The number of writes that a batch may hold.
    pub max_batch_num: usize,
    /// Whether the log is flushed when the batch is committed.
    pub sync_writes: bool,
}

impl Default for WriteBatchOptions {
    fn default() -> (opts: WriteBatchOptions)
        ensures
            opts.max_batch_num == 10000,
            opts.sync_writes,
    {
        WriteBatchOptions { max_batch_num: 10000, sync_writes: true }
    }
}

} // verus!
