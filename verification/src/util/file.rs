//! The size of a directory.

use crate::fio::{entry_pairs, total_size, FileEntry};
use crate::recovery::{add_clamped, clamp};
use vstd::prelude::*;

verus! {

/// The bytes that the files of a directory take together, or the largest
/// number of 64 bits where they take more.
pub fn dir_disk_size(files: &Vec<FileEntry>) -> (size: u64)
    ensures
        size == clamp(total_size(entry_pairs(files@)) as int),
{
    let ghost entries = entry_pairs(files@);
    let mut size: u64 = 0;
    let mut i: usize = 0;
    assert(entries.take(0) =~= Seq::empty());
    while i < files.len()
        invariant
            i <= files@.len(),
            entries == entry_pairs(files@),
            size == clamp(total_size(entries.take(i as int)) as int),
        decreases files@.len() - i,
    {
        proof {
            assert(entries.take(i + 1).drop_last() =~= entries.take(i as int));
            assert(entries.take(i + 1).last() == entries[i as int]);
        }
        size = add_clamped(size, files[i].data.len() as u64);
        i += 1;
    }
    assert(entries.take(i as int) =~= entries);
    size
}

} // verus!
