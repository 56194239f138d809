//! Reading a database directory: which of its files are segments, and what
//! its marker files say.

use crate::data::data_file::{parse_data_file_name, segment_id, DataFile};
use crate::data::log_record::{decode_log_record, decode_record};
use crate::errors::Errors;
use crate::fio::{entry_pairs, FileEntry};
use crate::recovery::{ascending_ids, lemma_segment_at, lemma_segment_ids, segments_of};
use crate::util::decimal::{decimal_value, parse_decimal};
use vstd::prelude::*;

verus! {

/// The file at index `i` is the segment `id`.
pub open spec fn is_segment(entries: Seq<(Seq<u8>, Seq<u8>)>, i: int, id: u32) -> bool {
    0 <= i < entries.len() && segment_id(entries[i].0) == Some(Ok::<u32, Errors>(id))
}

/// The segments among the files of a directory, by id: the files whose
/// names end in `.data`, each with its bytes.
pub open spec fn loaded_segments(entries: Seq<(Seq<u8>, Seq<u8>)>) -> Map<u32, Seq<u8>> {
    Map::new(
        |id: u32| exists|i: int| #[trigger] is_segment(entries, i, id),
        |id: u32| entries[choose|i: int| #[trigger] is_segment(entries, i, id)].1,
    )
}

/// The file at index `i` has a name that ends in `.data` and names no segment.
pub open spec fn is_misnamed(entries: Seq<(Seq<u8>, Seq<u8>)>, i: int) -> bool {
    0 <= i < entries.len() && segment_id(entries[i].0) is Some && segment_id(entries[i].0)->0 is Err
}

/// The files of a directory cannot be loaded: one of them has a name that
/// ends in `.data` and names no segment, or two of them name the same
/// segment.
pub open spec fn load_error(entries: Seq<(Seq<u8>, Seq<u8>)>) -> bool {
    ||| exists|i: int| #[trigger] is_misnamed(entries, i)
    ||| exists|i: int, j: int, id: u32|
        i != j && #[trigger] is_segment(entries, i, id) && #[trigger] is_segment(entries, j, id)
}

/// Segments as they are loaded: whole, durable, and with the offset 0.
pub open spec fn fresh(files: Seq<DataFile>) -> bool {
    forall|j: int|
        0 <= j < files.len() ==> (#[trigger] files[j]).valid() && files[j].synced()
            == files[j].bytes().len() && files[j].offset() == 0
}

/// The segments among the files of a directory, ascending by id.
pub fn load_data_files(entries: Vec<FileEntry>) -> (res: Result<Vec<DataFile>, Errors>)
    ensures
        match res {
            Ok(files) => {
                &&& !load_error(entry_pairs(entries@))
                &&& ascending_ids(files@)
                &&& fresh(files@)
                &&& segments_of(files@) == loaded_segments(entry_pairs(entries@))
            },
            Err(e) => e == Errors::DataDirectoryCorruped && load_error(entry_pairs(entries@)),
        },
{
    let ghost all = entry_pairs(entries@);
    let mut rest = entries;
    assert(entry_pairs(rest@) =~= all.take(rest@.len() as int));
    let mut files: Vec<DataFile> = Vec::new();
    // For each segment loaded, the index of the file that it came from.
    let ghost mut source: Seq<int> = Seq::empty();
    while rest.len() > 0
        invariant
            all == entry_pairs(entries@),
            rest@.len() <= all.len(),
            entry_pairs(rest@) == all.take(rest@.len() as int),
            source.len() == files@.len(),
            ascending_ids(files@),
            fresh(files@),
            forall|j: int|
                0 <= j < files@.len() ==> rest@.len() <= #[trigger] source[j] < all.len()
                    && is_segment(all, source[j], files@[j].id()) && files@[j].bytes()
                    == all[source[j]].1,
            forall|k: int, id: u32|
                rest@.len() <= k && #[trigger] is_segment(all, k, id) ==> exists|j: int|
                    0 <= j < files@.len() && #[trigger] source[j] == k,
            forall|k: int| rest@.len() <= k < all.len() ==> !#[trigger] is_misnamed(all, k),
        decreases rest@.len(),
    {
        let ghost n = rest@.len() - 1;
        let ghost before = rest@;
        let entry = match rest.pop() {
            Some(entry) => entry,
            None => {
                return Err(Errors::DataDirectoryCorruped);
            },
        };
        proof {
            assert(entry_pairs(before)[n] == all.take(before.len() as int)[n]);
            assert(all[n] == (entry.name@, entry.data@));
            assert(entry_pairs(rest@) =~= all.take(rest@.len() as int)) by {
                assert forall|i: int| 0 <= i < rest@.len() implies entry_pairs(rest@)[i]
                    == all.take(rest@.len() as int)[i] by {
                    assert(entry_pairs(before)[i] == all.take(before.len() as int)[i]);
                }
            }
        }
        match parse_data_file_name(entry.name.as_slice()) {
            None => {
                proof {
                    assert forall|k: int, id: u32|
                        rest@.len() <= k && #[trigger] is_segment(all, k, id) implies exists|
                        j: int,
                    |
                        0 <= j < files@.len() && #[trigger] source[j] == k by {
                        assert(k != n);
                    }
                }
            },
            Some(Err(_)) => {
                proof {
                    assert(is_misnamed(all, n));
                    assert(load_error(all));
                }
                return Err(Errors::DataDirectoryCorruped);
            },
            Some(Ok(file_id)) => {
                assert(is_segment(all, n, file_id));
                let mut at: usize = 0;
                while at < files.len() && files[at].get_file_id() < file_id
                    invariant
                        at <= files@.len(),
                        forall|j: int| 0 <= j < at ==> (#[trigger] files@[j]).id() < file_id,
                    decreases files@.len() - at,
                {
                    at += 1;
                }
                if at < files.len() && files[at].get_file_id() == file_id {
                    proof {
                        assert(is_segment(all, source[at as int], file_id));
                        assert(source[at as int] != n);
                        assert(is_segment(all, n, file_id));
                        assert(load_error(all));
                    }
                    return Err(Errors::DataDirectoryCorruped);
                }
                let ghost old_files = files@;
                let ghost old_source = source;
                let file = DataFile::new(file_id, entry.data);
                files.insert(at, file);
                proof {
                    source = source.insert(at as int, n);
                    assert forall|a: int, b: int| 0 <= a < b < files@.len() implies (
                    #[trigger] files@[a]).id() < (#[trigger] files@[b]).id() by {
                        let a0 = if a < at {
                            a
                        } else {
                            a - 1
                        };
                        let b0 = if b < at {
                            b
                        } else {
                            b - 1
                        };
                        if a == at {
                            assert(files@[b] == old_files[b0]);
                            assert(old_files[at as int].id() <= old_files[b0].id()) by {
                                if b0 > at {
                                    assert(old_files[at as int].id() < old_files[b0].id());
                                }
                            }
                        } else if b == at {
                            assert(files@[a] == old_files[a0]);
                        } else {
                            assert(files@[a] == old_files[a0] && files@[b] == old_files[b0]);
                            assert(old_files[a0].id() < old_files[b0].id());
                        }
                    }
                    assert forall|j: int| 0 <= j < files@.len() implies rest@.len()
                        <= #[trigger] source[j] < all.len() && is_segment(
                        all,
                        source[j],
                        files@[j].id(),
                    ) && files@[j].bytes() == all[source[j]].1 && files@[j].valid()
                        && files@[j].synced() == files@[j].bytes().len() && files@[j].offset()
                        == 0 by {
                        if j < at {
                            assert(files@[j] == old_files[j] && source[j] == old_source[j]);
                        } else if j > at {
                            assert(files@[j] == old_files[j - 1] && source[j] == old_source[j - 1]);
                        }
                    }
                    assert forall|k: int, id: u32|
                        rest@.len() <= k && #[trigger] is_segment(all, k, id) implies exists|
                        j: int,
                    |
                        0 <= j < files@.len() && #[trigger] source[j] == k by {
                        if k == n {
                            assert(source[at as int] == k);
                        } else {
                            let j0 = choose|j: int|
                                0 <= j < old_files.len() && #[trigger] old_source[j] == k;
                            if j0 < at {
                                assert(source[j0] == k);
                            } else {
                                assert(source[j0 + 1] == k);
                            }
                        }
                    }
                }
            },
        }
    }
    proof {
        // Two files that name the same segment were loaded as one segment.
        assert forall|i: int, j: int, id: u32|
            #[trigger] is_segment(all, i, id) && #[trigger] is_segment(all, j, id) implies i
            == j by {
            let a = choose|a: int| 0 <= a < files@.len() && #[trigger] source[a] == i;
            let b = choose|b: int| 0 <= b < files@.len() && #[trigger] source[b] == j;
            if a < b {
                assert(files@[a].id() < files@[b].id());
            } else if b < a {
                assert(files@[b].id() < files@[a].id());
            }
        }
        let x = segments_of(files@);
        let y = loaded_segments(all);
        assert forall|id: u32| x.contains_key(id) <==> y.contains_key(id) by {
            lemma_segment_ids(files@, id);
            if x.contains_key(id) {
                let j = choose|j: int| 0 <= j < files@.len() && (#[trigger] files@[j]).id() == id;
                assert(is_segment(all, source[j], id));
            }
            if y.contains_key(id) {
                let k = choose|k: int| #[trigger] is_segment(all, k, id);
                let j = choose|j: int| 0 <= j < files@.len() && #[trigger] source[j] == k;
                assert(is_segment(all, source[j], files@[j].id()));
                assert(files@[j].id() == id);
            }
        }
        assert forall|id: u32| x.contains_key(id) implies x[id] == y[id] by {
            lemma_segment_ids(files@, id);
            let j = choose|j: int| 0 <= j < files@.len() && (#[trigger] files@[j]).id() == id;
            lemma_segment_at(files@, j);
            assert(is_segment(all, source[j], id));
            let k = choose|k: int| #[trigger] is_segment(all, k, id);
            assert(k == source[j]);
        }
        assert(x =~= y);
    }
    Ok(files)
}

/// What a marker file says: the number that the value of its first record
/// spells in decimal digits. A file without such a record is corrupt.
pub open spec fn marker_value(data: Seq<u8>) -> Result<nat, Errors> {
    match decode_record(data, 0) {
        Err(e) => if e == Errors::ReadDataFileEOF {
            Err(Errors::DataDirectoryCorruped)
        } else {
            Err(e)
        },
        Ok((rec, _)) => match decimal_value(rec.value) {
            Some(v) => if v <= u64::MAX {
                Ok(v)
            } else {
                Err(Errors::DataDirectoryCorruped)
            },
            None => Err(Errors::DataDirectoryCorruped),
        },
    }
}

/// What a marker file says.
pub fn read_marker(data: &[u8]) -> (res: Result<u64, Errors>)
    ensures
        match marker_value(data@) {
            Ok(v) => res == Ok::<u64, Errors>(v as u64),
            Err(e) => res == Err::<u64, Errors>(e),
        },
{
    let record = match decode_log_record(data, 0) {
        Ok(read) => read.record,
        Err(e) => {
            if e == Errors::ReadDataFileEOF {
                return Err(Errors::DataDirectoryCorruped);
            }
            return Err(e);
        },
    };
    match parse_decimal(record.value.as_slice()) {
        Some(v) => Ok(v),
        None => Err(Errors::DataDirectoryCorruped),
    }
}

} // verus!
