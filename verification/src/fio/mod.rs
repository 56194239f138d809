//! The files of a database directory, as the host hands them to the engine:
//! each with its name and the bytes that it holds.

use crate::index::{compare_keys, KeyOrder};
use vstd::prelude::*;

verus! {

/// A file of a directory: its name and its bytes.
#[derive(Debug)]
pub struct FileEntry {
    pub name: Vec<u8>,
    pub data: Vec<u8>,
}

/// The files as mathematical values: pairs of a name and the bytes.
pub open spec fn entry_pairs(files: Seq<FileEntry>) -> Seq<(Seq<u8>, Seq<u8>)> {
    Seq::new(files.len(), |i: int| (files[i].name@, files[i].data@))
}

/// The index of the first file from `from` on that has the name `name`, or
/// the number of files where there is none.
pub open spec fn first_named(entries: Seq<(Seq<u8>, Seq<u8>)>, name: Seq<u8>, from: int) -> int
    decreases entries.len() - from,
{
    if from >= entries.len() {
        entries.len() as int
    } else if entries[from].0 == name {
        from
    } else {
        first_named(entries, name, from + 1)
    }
}

/// The bytes of the first file that has the name `name`, if there is one.
pub open spec fn named(entries: Seq<(Seq<u8>, Seq<u8>)>, name: Seq<u8>) -> Option<Seq<u8>> {
    if first_named(entries, name, 0) < entries.len() {
        Some(entries[first_named(entries, name, 0)].1)
    } else {
        None
    }
}

/// Whether two names are the same.
pub fn same_name(a: &[u8], b: &[u8]) -> (same: bool)
    ensures
        same == (a@ == b@),
{
    match compare_keys(a, b) {
        KeyOrder::Same => true,
        _ => false,
    }
}

/// The index of the first file that has the name `name`, if there is one.
pub fn find_file(files: &Vec<FileEntry>, name: &[u8]) -> (res: Option<usize>)
    ensures
        match res {
            Some(i) => i < files@.len() && i == first_named(entry_pairs(files@), name@, 0),
            None => first_named(entry_pairs(files@), name@, 0) == files@.len(),
        },
        res is Some <==> named(entry_pairs(files@), name@) is Some,
{
    let ghost entries = entry_pairs(files@);
    let mut i: usize = 0;
    while i < files.len()
        invariant
            i <= files@.len(),
            entries == entry_pairs(files@),
            first_named(entries, name@, 0) == first_named(entries, name@, i as int),
        decreases files@.len() - i,
    {
        if same_name(files[i].name.as_slice(), name) {
            return Some(i);
        }
        i += 1;
    }
    None
}

/// The sum of the lengths of the files.
pub open spec fn total_size(entries: Seq<(Seq<u8>, Seq<u8>)>) -> nat
    decreases entries.len(),
{
    if entries.len() == 0 {
        0
    } else {
        total_size(entries.drop_last()) + entries.last().1.len()
    }
}

} // verus!
