//! Merging: the live records of the sealed segments are written anew, into
//! segments of a directory beside the database directory, together with a
//! hint file that lists each key with the position of its record. When the
//! database is opened next, the merged segments take the place of the old
//! ones, and the directory is filled from the hint file.

use crate::batch::{lemma_parse_key, log_record_with_seq, parse_key, parse_log_record_key};
use crate::data::data_file::{data_file_suffix, hint_record, merge_finish_file_name, segment_id};
use crate::data::data_file::{parse_data_file_name, seq_no_file_name, DataFile};
use crate::data::log_record::{decode_log_record, decode_log_record_pos, decode_pos, decode_record};
use crate::data::log_record::{encode_pos, encode_record, encoded_size, lemma_decode_append};
use crate::data::log_record::{lemma_decode_appended, lemma_encoded_size, lemma_pos_roundtrip};
use crate::data::log_record::{lemma_parse_size, LogRecodPos, LogRecodType, LogRecord, LogRecordView};
use crate::db::{log_append, put_record, record_fits, Engine, LogState};
use crate::errors::Errors;
use crate::index::{copy_key, empty_directory, Index};
use crate::load::{marker_value, read_marker};
use crate::options::{IndexType, MergeRatio, Options};
use crate::recovery::{all_live, ascending_ids, clamp, extends, id_count, lemma_extends_transitive};
use crate::recovery::{lemma_live_extends, lemma_segment_at, lemma_segment_ids, live, segments_of, value_at};
use crate::util::decimal::{decimal, format_decimal, lemma_decimal_len, lemma_decimal_value};
use crate::index::Indexer;
use vstd::prelude::*;

verus! {

/// The ASCII bytes of `flock`, the name of the lock file.
pub open spec fn file_lock_name() -> Seq<u8> {
    seq![102u8, 108, 111, 99, 107]
}

/// The ASCII bytes of `merge-finshed`, the key of the record in the file
/// that marks a completed merge.
pub open spec fn merge_fin_key() -> Seq<u8> {
    seq![109u8, 101, 114, 103, 101, 45, 102, 105, 110, 115, 104, 101, 100]
}

/// The bytes `merge-finshed`.
pub fn merge_fin_key_bytes() -> (key: Vec<u8>)
    ensures
        key@ == merge_fin_key(),
{
    let key: Vec<u8> = vec![109u8, 101, 114, 103, 101, 45, 102, 105, 110, 115, 104, 101, 100];
    assert(key@ =~= merge_fin_key());
    key
}

/// Whether `name` ends with `suffix`.
pub fn ends_with(name: &[u8], suffix: &[u8]) -> (b: bool)
    ensures
        b == suffix@.is_suffix_of(name@),
{
    if suffix.len() > name.len() {
        return false;
    }
    let shift: usize = name.len() - suffix.len();
    let mut i: usize = 0;
    while i < suffix.len()
        invariant
            i <= suffix@.len() <= name@.len(),
            name@.len() == name.len(),
            shift == name@.len() - suffix@.len(),
            forall|j: int| 0 <= j < i ==> name@[shift + j] == suffix@[j],
        decreases suffix@.len() - i,
    {
        if name[shift + i] != suffix[i] {
            assert(name@.subrange(shift as int, name@.len() as int)[i as int] != suffix@[i as int]);
            return false;
        }
        i += 1;
    }
    assert(suffix@ =~= name@.subrange(shift as int, name@.len() as int));
    true
}

/// The state of the directory and the end of the hint log after the hint
/// records from `offset` on. Each record gives a key, and as its value the
/// position of the key's record; a position that does not hold a live
/// record of the key is corruption.
pub open spec fn hint_replay(
    index: Map<Seq<u8>, LogRecodPos>,
    segs: Map<u32, Seq<u8>>,
    hint: Seq<u8>,
    offset: nat,
) -> Result<(Map<Seq<u8>, LogRecodPos>, nat), Errors>
    decreases hint.len() - offset,
{
    match decode_record(hint, offset as int) {
        Err(e) => if e == Errors::ReadDataFileEOF {
            Ok((index, offset))
        } else {
            Err(e)
        },
        Ok((rec, size)) => if size == 0 || offset + size > hint.len() {
            Err(Errors::DataDirectoryCorruped)
        } else {
            match decode_pos(rec.value) {
                None => Err(Errors::DataDirectoryCorruped),
                Some(pos) => if !live(segs, rec.key, pos) {
                    Err(Errors::DataDirectoryCorruped)
                } else {
                    hint_replay(index.insert(rec.key, pos), segs, hint, offset + size)
                },
            }
        },
    }
}

/// Whether the record at `pos` is a live record of `key`.
pub fn is_live(files: &Vec<DataFile>, key: &[u8], pos: &LogRecodPos) -> (b: bool)
    requires
        ascending_ids(files@),
    ensures
        b == live(segments_of(files@), key@, *pos),
{
    if key.len() == 0 {
        return false;
    }
    let mut i: usize = 0;
    while i < files.len() && files[i].get_file_id() != pos.file_id
        invariant
            i <= files@.len(),
            forall|j: int| 0 <= j < i ==> (#[trigger] files@[j]).id() != pos.file_id,
        decreases files@.len() - i,
    {
        i += 1;
    }
    proof {
        lemma_segment_ids(files@, pos.file_id);
    }
    if i == files.len() {
        return false;
    }
    proof {
        lemma_segment_at(files@, i as int);
    }
    let read = match files[i].read_log_record(pos.offset) {
        Ok(read) => read,
        Err(_) => {
            return false;
        },
    };
    if read.size > u32::MAX as usize || read.size as u32 != pos.size {
        return false;
    }
    if read.record.rec_type != LogRecodType::NORMAL {
        return false;
    }
    match parse_log_record_key(read.record.key.as_slice()) {
        Some((real_key, _)) => crate::fio::same_name(real_key.as_slice(), key),
        None => false,
    }
}

/// Fills the directory from the hint file: each key gets the position that
/// its hint record gives.
pub fn load_index_from_hint_files(index: &mut Index, hint: &[u8], files: &Vec<DataFile>) -> (res:
    Result<(), Errors>)
    requires
        old(index).valid(),
        ascending_ids(files@),
        all_live(segments_of(files@), old(index).view()),
    ensures
        final(index).valid(),
        final(index).index_type() == old(index).index_type(),
        match hint_replay(old(index).view(), segments_of(files@), hint@, 0) {
            Ok((hinted, _)) => {
                &&& res is Ok
                &&& final(index).view() == hinted
                &&& all_live(segments_of(files@), hinted)
            },
            Err(e) => res is Err && res->Err_0 == e,
        },
{
    let ghost segs = segments_of(files@);
    let ghost start = index.view();
    let mut offset: u64 = 0;
    loop
        invariant
            index.valid(),
            index.index_type() == old(index).index_type(),
            ascending_ids(files@),
            segs == segments_of(files@),
            start == old(index).view(),
            offset <= hint@.len(),
            hint@.len() == hint.len(),
            all_live(segs, index.view()),
            hint_replay(start, segs, hint@, 0) == hint_replay(index.view(), segs, hint@, offset as nat),
        decreases hint@.len() - offset,
    {
        let read = match decode_log_record(hint, offset) {
            Ok(read) => read,
            Err(e) => {
                if e == Errors::ReadDataFileEOF {
                    return Ok(());
                }
                return Err(e);
            },
        };
        proof {
            lemma_parse_size(hint@.skip(offset as int));
        }
        let pos = match decode_log_record_pos(read.record.value.as_slice()) {
            Some(pos) => pos,
            None => {
                return Err(Errors::DataDirectoryCorruped);
            },
        };
        if !is_live(files, read.record.key.as_slice(), &pos) {
            return Err(Errors::DataDirectoryCorruped);
        }
        let ghost before = index.view();
        let ghost key = read.record.key@;
        index.put(read.record.key, pos);
        proof {
            crate::recovery::lemma_apply_keeps_live(segs, before, key, LogRecodType::NORMAL, pos);
        }
        offset = offset + read.size as u64;
    }
}

/// A file of a directory as a listing shows it: its name and its length.
#[derive(Debug)]
pub struct FileInfo {
    pub name: Vec<u8>,
    pub len: u64,
}

/// What is to be done with the files of a completed merge.
#[derive(Debug)]
pub struct MergeAdoption {
    /// The names of the files of the database directory that are deleted.
    pub remove: Vec<Vec<u8>>,
    /// The names of the files of the merge directory that are moved into the
    /// database directory.
    pub rename: Vec<Vec<u8>>,
}

/// The names as mathematical values.
pub open spec fn name_views(names: Seq<Vec<u8>>) -> Seq<Seq<u8>> {
    Seq::new(names.len(), |i: int| names[i]@)
}

/// The listing as mathematical values: pairs of a name and a length.
pub open spec fn info_views(infos: Seq<FileInfo>) -> Seq<(Seq<u8>, u64)> {
    Seq::new(infos.len(), |i: int| (infos[i].name@, infos[i].len))
}

/// Whether the merge directory holds the file that marks a completed merge.
pub open spec fn merge_finished(listing: Seq<(Seq<u8>, u64)>) -> bool {
    exists|i: int|
        0 <= i < listing.len() && merge_finish_file_name().is_suffix_of((#[trigger] listing[i]).0)
}

/// Whether `name` names a segment with an id under `watermark`.
pub open spec fn is_stale(name: Seq<u8>, watermark: u32) -> bool {
    match segment_id(name) {
        Some(Ok(id)) => id < watermark,
        _ => false,
    }
}

/// The names among `names` of the segments with an id under `watermark`, in
/// their order.
pub open spec fn stale_segments(names: Seq<Seq<u8>>, watermark: u32) -> Seq<Seq<u8>>
    decreases names.len(),
{
    if names.len() == 0 {
        Seq::empty()
    } else if is_stale(names.last(), watermark) {
        stale_segments(names.drop_last(), watermark).push(names.last())
    } else {
        stale_segments(names.drop_last(), watermark)
    }
}

/// Whether a file of the merge directory is moved into the database
/// directory: all are, but the file of the sequence number, the lock file
/// and segments without bytes.
pub open spec fn is_adopted(file: (Seq<u8>, u64)) -> bool {
    &&& !seq_no_file_name().is_suffix_of(file.0)
    &&& !file_lock_name().is_suffix_of(file.0)
    &&& !(data_file_suffix().is_suffix_of(file.0) && file.1 == 0)
}

/// The names of the files of the merge directory that are moved, in their order.
pub open spec fn adopted_files(listing: Seq<(Seq<u8>, u64)>) -> Seq<Seq<u8>>
    decreases listing.len(),
{
    if listing.len() == 0 {
        Seq::empty()
    } else if is_adopted(listing.last()) {
        adopted_files(listing.drop_last()).push(listing.last().0)
    } else {
        adopted_files(listing.drop_last())
    }
}

/// Decides what becomes of a merge directory when the database is opened.
///
/// `main_names` are the names of the files of the database directory,
/// `listing` the files of the merge directory, and `merge_fin` the bytes of
/// the file in it that marks a completed merge; they are read only where
/// the listing has such a file.
///
/// A merge directory without that file holds a merge that was not
/// completed: nothing is adopted, and `None` is returned. Else the file
/// gives the id of the first segment that was not merged: the segments of
/// the database directory with an id under it are deleted, and the files of
/// the merge directory are moved in.
pub fn load_merge_files(main_names: &Vec<Vec<u8>>, listing: &Vec<FileInfo>, merge_fin: &[u8]) -> (res:
    Result<Option<MergeAdoption>, Errors>)
    ensures
        if !merge_finished(info_views(listing@)) {
            res is Ok && res->Ok_0 is None
        } else {
            match marker_value(merge_fin@) {
                Err(e) => res is Err && res->Err_0 == e,
                Ok(watermark) => if watermark > u32::MAX {
                    res is Err && res->Err_0 == Errors::DataDirectoryCorruped
                } else {
                    &&& res is Ok
                    &&& res->Ok_0 is Some
                    &&& name_views((res->Ok_0->0).remove@) == stale_segments(
                        name_views(main_names@),
                        watermark as u32,
                    )
                    &&& name_views((res->Ok_0->0).rename@) == adopted_files(info_views(listing@))
                },
            }
        },
{
    let ghost infos = info_views(listing@);
    let finish_name = crate::data::data_file::merge_finish_file_name_bytes();
    let seq_name = crate::data::data_file::seq_no_file_name_bytes();
    let lock_name: Vec<u8> = vec![102u8, 108, 111, 99, 107];
    let data_suffix: Vec<u8> = vec![46u8, 100, 97, 116, 97];
    assert(lock_name@ =~= file_lock_name());
    assert(data_suffix@ =~= data_file_suffix());
    let mut rename: Vec<Vec<u8>> = Vec::new();
    let mut finished: bool = false;
    let mut i: usize = 0;
    assert(infos.take(0) =~= Seq::empty());
    assert(name_views(rename@) =~= Seq::<Seq<u8>>::empty());
    while i < listing.len()
        invariant
            i <= listing@.len(),
            infos == info_views(listing@),
            finish_name@ == merge_finish_file_name(),
            seq_name@ == seq_no_file_name(),
            lock_name@ == file_lock_name(),
            data_suffix@ == data_file_suffix(),
            finished == merge_finished(infos.take(i as int)),
            name_views(rename@) == adopted_files(infos.take(i as int)),
        decreases listing@.len() - i,
    {
        let file = &listing[i];
        let name = file.name.as_slice();
        proof {
            let now = infos.take(i + 1);
            assert(now.drop_last() =~= infos.take(i as int));
            assert(now.last() == infos[i as int]);
            assert(infos[i as int] == (file.name@, file.len));
            if merge_finished(infos.take(i as int)) {
                let j = choose|j: int|
                    0 <= j < infos.take(i as int).len() && merge_finish_file_name().is_suffix_of(
                        (#[trigger] infos.take(i as int)[j]).0,
                    );
                assert(now[j] == infos.take(i as int)[j]);
            }
            if merge_finished(now) {
                let j = choose|j: int|
                    0 <= j < now.len() && merge_finish_file_name().is_suffix_of((#[trigger] now[j]).0);
                if j < i {
                    assert(infos.take(i as int)[j] == now[j]);
                }
            }
            if merge_finish_file_name().is_suffix_of(file.name@) {
                assert(now[i as int].0 == file.name@);
            }
        }
        if ends_with(name, finish_name.as_slice()) {
            finished = true;
        }
        let skipped = ends_with(name, seq_name.as_slice()) || ends_with(name, lock_name.as_slice())
            || (ends_with(name, data_suffix.as_slice()) && file.len == 0);
        if !skipped {
            let ghost before = name_views(rename@);
            rename.push(copy_key(name));
            assert(name_views(rename@) =~= before.push(file.name@));
        }
        i += 1;
    }
    assert(infos.take(i as int) =~= infos);
    if !finished {
        return Ok(None);
    }
    let watermark: u32 = match read_marker(merge_fin) {
        Ok(v) => {
            if v > u32::MAX as u64 {
                return Err(Errors::DataDirectoryCorruped);
            }
            v as u32
        },
        Err(e) => {
            return Err(e);
        },
    };
    let ghost names = name_views(main_names@);
    let mut remove: Vec<Vec<u8>> = Vec::new();
    let mut k: usize = 0;
    assert(names.take(0) =~= Seq::empty());
    assert(name_views(remove@) =~= Seq::<Seq<u8>>::empty());
    while k < main_names.len()
        invariant
            k <= main_names@.len(),
            names == name_views(main_names@),
            name_views(remove@) == stale_segments(names.take(k as int), watermark),
        decreases main_names@.len() - k,
    {
        let name = main_names[k].as_slice();
        proof {
            let now = names.take(k + 1);
            assert(now.drop_last() =~= names.take(k as int));
            assert(now.last() == names[k as int]);
        }
        let stale = match parse_data_file_name(name) {
            Some(Ok(id)) => id < watermark,
            _ => false,
        };
        if stale {
            let ghost before = name_views(remove@);
            remove.push(copy_key(name));
            assert(name_views(remove@) =~= before.push(main_names@[k as int]@));
        }
        k += 1;
    }
    assert(names.take(k as int) =~= names);
    Ok(Some(MergeAdoption { remove, rename }))
}

/// Where a merge stands: the log of the merged segments, and the bytes of
/// the hint file.
pub struct MergeState {
    pub log: LogState,
    pub hint: Seq<u8>,
}

/// The merge before any record is read: one empty segment with the id 0,
/// and an empty hint file.
pub open spec fn merge_start() -> MergeState {
    MergeState {
        log: LogState {
            segments: Map::<u32, Seq<u8>>::empty().insert(0, Seq::empty()),
            active_id: 0,
            unsynced: 0,
            synced: 0,
        },
        hint: Seq::empty(),
    }
}

/// The options of the engine that writes the merged segments: those of an
/// engine by default, with the segment size of the engine that is merged.
pub open spec fn merge_options(opts: Options) -> Options {
    Options {
        dir_path: opts.dir_path,
        data_file_size: opts.data_file_size,
        sync_writes: false,
        bytes_per_sync: 0,
        index_type: IndexType::BTree,
        mmap_at_startup: true,
        data_file_merge_ratio: MergeRatio { numer: 1, denom: 2 },
    }
}

/// Whether the record of `key` at `offset` of the segment `file_id` is the
/// one that the directory points at.
pub open spec fn is_current(index: Map<Seq<u8>, LogRecodPos>, key: Seq<u8>, file_id: u32, offset: nat) -> bool {
    index.contains_key(key) && index[key].file_id == file_id && index[key].offset == offset
}

/// Whether the position `pos` comes before the offset `offset` of the
/// segment `file_id`, in the order in which a merge reads the records.
pub open spec fn stands_before(pos: LogRecodPos, file_id: u32, offset: nat) -> bool {
    pos.file_id < file_id || (pos.file_id == file_id && pos.offset < offset)
}

/// The record that a merge writes for a live record: the key behind the
/// sequence number 0, with the value and the type of the record.
pub open spec fn merged_record(key: Seq<u8>, rec: LogRecordView) -> LogRecordView {
    LogRecordView { key: put_record(key, rec.value).key, value: rec.value, rec_type: rec.rec_type }
}

/// The merge after the records of the segment `file_id` from `offset` on.
/// A record that the directory points at is written anew, and a hint record
/// with its new position is added to the hint file; all others are passed
/// over. A record that cannot be decoded, other than at the end of the log,
/// ends the merge with its error.
pub open spec fn merge_file(
    st: MergeState,
    index: Map<Seq<u8>, LogRecodPos>,
    opts: Options,
    file_id: u32,
    data: Seq<u8>,
    offset: nat,
) -> Result<MergeState, Errors>
    decreases data.len() - offset,
{
    match decode_record(data, offset as int) {
        Err(e) => if e == Errors::ReadDataFileEOF {
            Ok(st)
        } else {
            Err(e)
        },
        Ok((rec, size)) => if size == 0 || offset + size > data.len() {
            Err(Errors::DataDirectoryCorruped)
        } else {
            match parse_key(rec.key) {
                None => Err(Errors::DataDirectoryCorruped),
                Some((key, _)) => if !is_current(index, key, file_id, offset) {
                    merge_file(st, index, opts, file_id, data, offset + size)
                } else if key.len() == 0 || encoded_size(put_record(key, rec.value)) > u32::MAX {
                    Err(Errors::DataDirectoryCorruped)
                } else {
                    match log_append(st.log, opts, merged_record(key, rec)) {
                        None => Err(Errors::FileOpenError),
                        Some((log, pos)) => merge_file(
                            MergeState { log, hint: st.hint + encode_record(hint_record(key, pos)) },
                            index,
                            opts,
                            file_id,
                            data,
                            offset + size,
                        ),
                    }
                },
            }
        },
    }
}

/// The merge after the segments with an id under `upto`, in the order of
/// their ids.
pub open spec fn merge_segments(
    st: MergeState,
    index: Map<Seq<u8>, LogRecodPos>,
    opts: Options,
    segs: Map<u32, Seq<u8>>,
    upto: nat,
) -> Result<MergeState, Errors>
    decreases upto,
{
    if upto == 0 {
        Ok(st)
    } else {
        let id = (upto - 1) as u32;
        match merge_segments(st, index, opts, segs, (upto - 1) as nat) {
            Err(e) => Err(e),
            Ok(prev) => if segs.contains_key(id) {
                merge_file(prev, index, opts, id, segs[id], 0)
            } else {
                Ok(prev)
            },
        }
    }
}

/// Ids that name no segment leave the merge as it is.
pub proof fn lemma_merge_skip(
    st: MergeState,
    index: Map<Seq<u8>, LogRecodPos>,
    opts: Options,
    segs: Map<u32, Seq<u8>>,
    from: nat,
    upto: nat,
)
    requires
        from <= upto <= id_count(),
        forall|id: u32| from <= id < upto ==> !#[trigger] segs.contains_key(id),
    ensures
        merge_segments(st, index, opts, segs, upto) == merge_segments(st, index, opts, segs, from),
    decreases upto,
{
    if from < upto {
        lemma_merge_skip(st, index, opts, segs, from, (upto - 1) as nat);
        let id = (upto - 1) as u32;
        assert(!segs.contains_key(id));
    }
}

/// Once the merge of the first segments has failed, so has the merge of any
/// more of them, with the same error.
pub proof fn lemma_merge_fails(
    st: MergeState,
    index: Map<Seq<u8>, LogRecodPos>,
    opts: Options,
    segs: Map<u32, Seq<u8>>,
    from: nat,
    upto: nat,
)
    requires
        from <= upto,
        merge_segments(st, index, opts, segs, from) is Err,
    ensures
        merge_segments(st, index, opts, segs, upto) == merge_segments(st, index, opts, segs, from),
    decreases upto,
{
    if from < upto {
        lemma_merge_fails(st, index, opts, segs, from, (upto - 1) as nat);
    }
}

/// A hint record that is added to a hint file whose records were all read,
/// for a live record of a key, adds the key with its position to the
/// directory that the hint file gives.
pub proof fn lemma_hint_append(
    index: Map<Seq<u8>, LogRecodPos>,
    segs: Map<u32, Seq<u8>>,
    later: Map<u32, Seq<u8>>,
    hint: Seq<u8>,
    offset: nat,
    key: Seq<u8>,
    pos: LogRecodPos,
)
    requires
        offset <= hint.len(),
        hint_replay(index, segs, hint, offset) is Ok,
        (hint_replay(index, segs, hint, offset)->Ok_0).1 == hint.len(),
        extends(segs, later),
        live(later, key, pos),
        key.len() <= u32::MAX,
        pos.offset <= usize::MAX,
    ensures
        hint_replay(index, later, hint + encode_record(hint_record(key, pos)), offset) == Ok::<
            (Map<Seq<u8>, LogRecodPos>, nat),
            Errors,
        >(
            (
                (hint_replay(index, segs, hint, offset)->Ok_0).0.insert(key, pos),
                (hint.len() + encode_record(hint_record(key, pos)).len()) as nat,
            ),
        ),
    decreases hint.len() - offset,
{
    let rec = hint_record(key, pos);
    let enc = encode_record(rec);
    let longer = hint + enc;
    lemma_encoded_size(rec);
    crate::data::varint::lemma_varint_len(pos.file_id as nat);
    crate::data::varint::lemma_varint_len(pos.offset as nat);
    crate::data::varint::lemma_varint_len(pos.size as nat);
    match decode_record(hint, offset as int) {
        Err(e) => {
            assert(offset == hint.len());
            assert(longer =~= hint + enc + Seq::<u8>::empty());
            lemma_decode_appended(hint, rec, Seq::empty());
            assert(encode_pos(pos) + Seq::<u8>::empty() =~= encode_pos(pos));
            lemma_pos_roundtrip(pos, Seq::empty());
            assert(decode_record(longer, offset as int) == Ok::<(LogRecordView, nat), Errors>(
                (rec, encoded_size(rec)),
            ));
            assert(decode_pos(rec.value) == Some(pos));
            let end = (offset + encoded_size(rec)) as nat;
            assert(end == longer.len());
            assert(decode_record(longer, end as int) is Err);
            assert(hint_replay(index.insert(key, pos), later, longer, end) == Ok::<
                (Map<Seq<u8>, LogRecodPos>, nat),
                Errors,
            >((index.insert(key, pos), end)));
        },
        Ok((found, size)) => {
            lemma_parse_size(hint.skip(offset as int));
            lemma_decode_append(hint, enc, offset as int);
            let at = decode_pos(found.value)->0;
            lemma_live_extends(segs, later, found.key, at);
            lemma_hint_append(index.insert(found.key, at), segs, later, hint, offset + size, key, pos);
            assert(decode_record(longer, offset as int) == decode_record(hint, offset as int));
        },
    }
}

/// The directory that a hint file gives over some segments is the same over
/// segments that have grown.
pub proof fn lemma_hint_extends(
    index: Map<Seq<u8>, LogRecodPos>,
    segs: Map<u32, Seq<u8>>,
    later: Map<u32, Seq<u8>>,
    hint: Seq<u8>,
    offset: nat,
)
    requires
        hint_replay(index, segs, hint, offset) is Ok,
        extends(segs, later),
    ensures
        hint_replay(index, later, hint, offset) == hint_replay(index, segs, hint, offset),
    decreases hint.len() - offset,
{
    match decode_record(hint, offset as int) {
        Err(e) => {},
        Ok((found, size)) => {
            let at = decode_pos(found.value)->0;
            lemma_live_extends(segs, later, found.key, at);
            lemma_hint_extends(index.insert(found.key, at), segs, later, hint, offset + size);
        },
    }
}

/// The ASCII bytes of the key and the value of the record that marks a
/// completed merge: the value spells the id of the first segment that was
/// not merged.
pub open spec fn merge_fin_record(watermark: u32) -> LogRecordView {
    LogRecordView { key: merge_fin_key(), value: decimal(watermark as nat), rec_type: LogRecodType::NORMAL }
}

/// What a merge leaves for the merge directory.
pub struct MergeOutput {
    /// The merged segments, ascending by id.
    pub data_files: Vec<DataFile>,
    /// The bytes of the hint file.
    pub hint_file: Vec<u8>,
    /// The bytes of the file that marks the merge as completed.
    pub merge_fin_file: Vec<u8>,
}

/// The directory that the hint file of a merge gives over the merged
/// segments.
pub open spec fn merged_index(merged: MergeState) -> Map<Seq<u8>, LogRecodPos> {
    (hint_replay(empty_directory(), merged.log.segments, merged.hint, 0)->Ok_0).0
}

/// The merged store agrees with the store that was merged: every key that
/// the hint file gives is a key of the directory, and its merged record has
/// the value that the store has for it.
pub open spec fn merged_from(
    merged: Map<u32, Seq<u8>>,
    hinted: Map<Seq<u8>, LogRecodPos>,
    index: Map<Seq<u8>, LogRecodPos>,
    store: Map<Seq<u8>, Seq<u8>>,
) -> bool {
    forall|k: Seq<u8>| #[trigger]
        hinted.contains_key(k) ==> index.contains_key(k) && store.contains_key(k) && value_at(
            merged,
            hinted[k],
        ) == store[k]
}

/// Whether a merge is refused because too little of the log is
/// reclaimable: the share of the reclaimable bytes in the bytes on disk is
/// under the ratio of the options.
pub open spec fn merge_refused(engine: Engine) -> bool {
    !engine.options().data_file_merge_ratio.reached_by(
        engine.reclaim() as nat,
        clamp(engine.disk_bytes() as int) as nat,
    )
}

/// Whether the disk has too little free space for a merge: the bytes on disk
/// without the reclaimable ones are more than the free space.
pub open spec fn merge_lacks_space(engine: Engine, available_disk: u64) -> bool {
    clamp(engine.disk_bytes() as int) - engine.reclaim() > available_disk
}

/// Writes the record of a live key anew, to the merged segments.
#[verifier::rlimit(50)]
fn append_merged(merge_db: &mut Engine, key: &[u8], record: LogRecord) -> (res: Result<
    LogRecodPos,
    Errors,
>)
    requires
        old(merge_db).valid(),
        key@.len() > 0,
        encoded_size(put_record(key@, record@.value)) <= u32::MAX,
        record@.rec_type == LogRecodType::NORMAL,
    ensures
        final(merge_db).valid(),
        final(merge_db).options() == old(merge_db).options(),
        match log_append(old(merge_db).log_state(), old(merge_db).options(), merged_record(key@, record@)) {
            None => res is Err && res->Err_0 == Errors::FileOpenError,
            Some((log, pos)) => {
                &&& res == Ok::<LogRecodPos, Errors>(pos)
                &&& final(merge_db).log_state() == log
                &&& extends(old(merge_db).segments(), final(merge_db).segments())
                &&& live(final(merge_db).segments(), key@, pos)
                &&& value_at(final(merge_db).segments(), pos) == record@.value
                &&& pos.offset <= usize::MAX
                &&& key@.len() <= u32::MAX
            },
        },
{
    proof {
        lemma_parse_key(key@, 0);
        merge_db.lemma_valid();
    }
    let rewritten = LogRecord {
        key: log_record_with_seq(copy_key(key), 0),
        value: record.value,
        rec_type: record.rec_type,
    };
    assert(rewritten@ == merged_record(key@, record@));
    merge_db.append_log_record(&rewritten)
}

/// Adds the hint record of `key` with the position `pos` to the hint file.
fn append_hint(hint_file: &mut Vec<u8>, key: Vec<u8>, pos: LogRecodPos)
    requires
        pos.offset <= usize::MAX,
    ensures
        final(hint_file)@ == old(hint_file)@ + encode_record(hint_record(key@, pos)),
{
    let hint = LogRecord { key, value: pos.encode(), rec_type: LogRecodType::NORMAL };
    let enc = hint.encode();
    hint_file.extend_from_slice(enc.as_slice());
}

/// A key that is merged, with the value that the store has for it, keeps the
/// merged store in agreement with the store.
pub proof fn lemma_merged_insert(
    segs: Map<u32, Seq<u8>>,
    later: Map<u32, Seq<u8>>,
    hinted: Map<Seq<u8>, LogRecodPos>,
    index: Map<Seq<u8>, LogRecodPos>,
    store: Map<Seq<u8>, Seq<u8>>,
    key: Seq<u8>,
    pos: LogRecodPos,
)
    requires
        merged_from(segs, hinted, index, store),
        all_live(segs, hinted),
        extends(segs, later),
        index.contains_key(key),
        store.contains_key(key),
        value_at(later, pos) == store[key],
    ensures
        merged_from(later, hinted.insert(key, pos), index, store),
{
    let after = hinted.insert(key, pos);
    assert forall|k: Seq<u8>| #[trigger] after.contains_key(k) implies index.contains_key(k)
        && store.contains_key(k) && value_at(later, after[k]) == store[k] by {
        if k != key {
            assert(hinted.contains_key(k));
            lemma_live_extends(segs, later, k, hinted[k]);
        }
    }
}

/// Every key of the directory that a hint file gives, on top of a directory
/// of live records, points at a live record.
pub proof fn lemma_hint_all_live(
    index: Map<Seq<u8>, LogRecodPos>,
    segs: Map<u32, Seq<u8>>,
    hint: Seq<u8>,
    offset: nat,
)
    requires
        hint_replay(index, segs, hint, offset) is Ok,
        all_live(segs, index),
    ensures
        all_live(segs, (hint_replay(index, segs, hint, offset)->Ok_0).0),
    decreases hint.len() - offset,
{
    match decode_record(hint, offset as int) {
        Err(e) => {},
        Ok((found, size)) => {
            let at = decode_pos(found.value)->0;
            crate::recovery::lemma_apply_keeps_live(segs, index, found.key, LogRecodType::NORMAL, at);
            lemma_hint_all_live(index.insert(found.key, at), segs, hint, offset + size);
        },
    }
}

/// Reads the records of `data_file`, a sealed segment of `source`, and
/// writes those that the directory of `source` points at anew.
#[verifier::rlimit(50)]
fn merge_data_file(
    source: &Engine,
    merge_db: &mut Engine,
    hint_file: &mut Vec<u8>,
    count: &mut usize,
    data_file: &DataFile,
    Ghost(hinted): Ghost<Map<Seq<u8>, LogRecodPos>>,
) -> (res: Result<Ghost<Map<Seq<u8>, LogRecodPos>>, Errors>)
    requires
        source.valid(),
        old(merge_db).valid(),
        data_file.valid(),
        source.index().dom().finite(),
        source.index().dom().len() <= usize::MAX,
        hinted.dom().finite(),
        *old(count) == hinted.dom().len(),
        forall|k: Seq<u8>| #[trigger] hinted.contains_key(k) ==> source.index()[k].file_id < data_file.id(),
        source.segments().contains_pair(data_file.id(), data_file.bytes()),
        hint_replay(empty_directory(), old(merge_db).segments(), old(hint_file)@, 0) == Ok::<
            (Map<Seq<u8>, LogRecodPos>, nat),
            Errors,
        >((hinted, old(hint_file)@.len())),
        merged_from(old(merge_db).segments(), hinted, source.index(), source.view()),
    ensures
        final(merge_db).valid(),
        final(merge_db).options() == old(merge_db).options(),
        match merge_file(
            (MergeState { log: old(merge_db).log_state(), hint: old(hint_file)@ }),
            source.index(),
            old(merge_db).options(),
            data_file.id(),
            data_file.bytes(),
            0,
        ) {
            Err(e) => res is Err && res->Err_0 == e,
            Ok(merged) => {
                &&& res is Ok
                &&& merged == (MergeState { log: final(merge_db).log_state(), hint: final(hint_file)@ })
                &&& hint_replay(empty_directory(), final(merge_db).segments(), final(hint_file)@, 0)
                    == Ok::<(Map<Seq<u8>, LogRecodPos>, nat), Errors>(
                    (res->Ok_0@, final(hint_file)@.len()),
                )
                &&& merged_from(final(merge_db).segments(), res->Ok_0@, source.index(), source.view())
                &&& res->Ok_0@.dom().finite()
                &&& *final(count) == res->Ok_0@.dom().len()
                &&& forall|k: Seq<u8>| #[trigger]
                    res->Ok_0@.contains_key(k) ==> source.index()[k].file_id <= data_file.id()
            },
        },
{
    let ghost index0 = source.index();
    let ghost store0 = source.view();
    let ghost segs0 = source.segments();
    let ghost opts = merge_db.options();
    let ghost before = MergeState { log: merge_db.log_state(), hint: hint_file@ };
    let ghost mut hinted = hinted;
    let ghost data = data_file.bytes();
    let file_id = data_file.get_file_id();
    let mut offset: u64 = 0;
    proof {
        data_file.lemma_valid();
        source.lemma_valid();
    }
    loop
        invariant
            source.valid(),
            source.index() == index0,
            source.view() == store0,
            source.segments() == segs0,
            all_live(segs0, index0),
            segs0.contains_pair(file_id, data),
            data == data_file.bytes(),
            file_id == data_file.id(),
            data.len() <= usize::MAX,
            offset <= data.len(),
            merge_db.valid(),
            merge_db.options() == opts,
            opts == old(merge_db).options(),
            before == (MergeState { log: old(merge_db).log_state(), hint: old(hint_file)@ }),
            merge_file(before, index0, opts, file_id, data, 0) == merge_file(
                (MergeState { log: merge_db.log_state(), hint: hint_file@ }),
                index0,
                opts,
                file_id,
                data,
                offset as nat,
            ),
            hint_replay(empty_directory(), merge_db.segments(), hint_file@, 0) == Ok::<
                (Map<Seq<u8>, LogRecodPos>, nat),
                Errors,
            >((hinted, hint_file@.len())),
            merged_from(merge_db.segments(), hinted, index0, store0),
            index0.dom().finite(),
            index0.dom().len() <= usize::MAX,
            hinted.dom().finite(),
            *count == hinted.dom().len(),
            forall|k: Seq<u8>| #[trigger]
                hinted.contains_key(k) ==> stands_before(index0[k], file_id, offset as nat),
        decreases data.len() - offset,
    {
        let read = match data_file.read_log_record(offset) {
            Ok(read) => read,
            Err(e) => {
                if e == Errors::ReadDataFileEOF {
                    return Ok(Ghost(hinted));
                }
                return Err(e);
            },
        };
        let size = read.size;
        let record = read.record;
        proof {
            lemma_parse_size(data.skip(offset as int));
        }
        let real_key = match parse_log_record_key(record.key.as_slice()) {
            Some((real_key, _)) => real_key,
            None => {
                return Err(Errors::DataDirectoryCorruped);
            },
        };
        let current = match source.get_position(real_key.as_slice()) {
            Some(pos) => pos.file_id == file_id && pos.offset == offset,
            None => false,
        };
        if current {
            if real_key.len() == 0 || !record_fits(real_key.as_slice(), record.value.as_slice()) {
                return Err(Errors::DataDirectoryCorruped);
            }
            let ghost key = real_key@;
            let ghost old_segs = merge_db.segments();
            proof {
                assert(index0.contains_key(key));
                assert(live(segs0, key, index0[key]));
                assert(store0[key] == record.value@);
            }
            let ghost old_hint = hint_file@;
            proof {
                lemma_hint_all_live(empty_directory(), old_segs, old_hint, 0);
            }
            let pos = match append_merged(merge_db, real_key.as_slice(), record) {
                Ok(pos) => pos,
                Err(e) => {
                    return Err(e);
                },
            };
            append_hint(hint_file, real_key, pos);
            proof {
                lemma_hint_append(empty_directory(), old_segs, merge_db.segments(), old_hint, 0, key, pos);
                lemma_merged_insert(old_segs, merge_db.segments(), hinted, index0, store0, key, pos);
                assert(!hinted.contains_key(key)) by {
                    if hinted.contains_key(key) {
                        assert(stands_before(index0[key], file_id, offset as nat));
                    }
                }
                let grown = hinted.insert(key, pos);
                assert(grown.dom() =~= hinted.dom().insert(key));
                assert(grown.dom().subset_of(index0.dom())) by {
                    assert forall|k: Seq<u8>| grown.dom().contains(k) implies index0.dom().contains(k) by {
                        assert(grown.contains_key(k));
                    }
                }
                vstd::set_lib::lemma_len_subset(grown.dom(), index0.dom());
                hinted = grown;
            }
            *count = *count + 1;
        }
        offset = offset + size as u64;
    }
}

/// With a merge ratio of 0 no merge is refused for its ratio; with a merge
/// ratio of 1 every merge is, but that of a log whose bytes are all
/// reclaimable.
pub proof fn lemma_merge_ratio_bounds(engine: Engine)
    requires
        engine.options().data_file_merge_ratio.valid(),
    ensures
        engine.options().data_file_merge_ratio.numer == 0 ==> !merge_refused(engine),
        engine.options().data_file_merge_ratio.numer == engine.options().data_file_merge_ratio.denom
            ==> (merge_refused(engine) <==> engine.reclaim() < clamp(engine.disk_bytes() as int)),
{
    let ratio = engine.options().data_file_merge_ratio;
    let reclaim = engine.reclaim() as nat;
    let total = clamp(engine.disk_bytes() as int) as nat;
    if ratio.numer == 0 {
        assert(ratio.numer * total == 0) by (nonlinear_arith)
            requires
                ratio.numer == 0,
        ;
        assert(reclaim * ratio.denom >= 0) by (nonlinear_arith);
    }
    if ratio.numer == ratio.denom {
        let d = ratio.denom as nat;
        assert(reclaim * d >= d * total <==> reclaim >= total) by (nonlinear_arith)
            requires
                d > 0,
        ;
    }
}

impl Engine {
    /// Merges the sealed segments.
    ///
    /// An engine without records is left as it is, and `None` is returned.
    /// A merge is refused where too little of the log is reclaimable, and
    /// where the disk, of which `available_disk` bytes are free, has too
    /// little space. Else the active segment is sealed, and the records of
    /// the sealed segments that the directory points at are written to new
    /// segments, with a hint file that gives each key its new position, and
    /// a file that marks the merge as completed and gives the id of the
    /// first segment that was not merged. A merge that has not found the
    /// record of every key of the directory in the sealed segments fails:
    /// the merged store is the store that was merged.
    #[verifier::rlimit(100)]
    pub fn merge(&mut self, available_disk: u64) -> (res: Result<Option<MergeOutput>, Errors>)
        requires
            old(self).valid(),
        ensures
            final(self).valid(),
            final(self).index() == old(self).index(),
            final(self).view() == old(self).view(),
            final(self).reclaim() == old(self).reclaim(),
            final(self).seq() == old(self).seq(),
            final(self).options() == old(self).options(),
            final(self).same_markers(*old(self)),
            old(self).recoverable() ==> final(self).recoverable(),
            if old(self).is_empty() {
                res is Ok && res->Ok_0 is None && *final(self) == *old(self)
            } else if merge_refused(*old(self)) {
                res is Err && res->Err_0 == Errors::CanNotMerge && *final(self) == *old(self)
            } else if merge_lacks_space(*old(self), available_disk) {
                res is Err && res->Err_0 == Errors::NoEnoughDiskCapacity && *final(self) == *old(self)
            } else if old(self).active_id() == u32::MAX {
                res is Err && res->Err_0 == Errors::FileOpenError && *final(self) == *old(self)
            } else {
                &&& final(self).active_id() == old(self).active_id() + 1
                &&& final(self).active_len() == 0
                &&& final(self).segments() == old(self).segments().insert(
                    (old(self).active_id() + 1) as u32,
                    Seq::empty(),
                )
                &&& match merge_segments(
                    merge_start(),
                    old(self).index(),
                    merge_options(old(self).options()),
                    old(self).segments(),
                    (old(self).active_id() + 1) as nat,
                ) {
                    Err(e) => res is Err && res->Err_0 == e,
                    Ok(merged) => {
                        &&& hint_replay(empty_directory(), merged.log.segments, merged.hint, 0) is Ok
                        &&& merged_from(
                            merged.log.segments,
                            merged_index(merged),
                            old(self).index(),
                            old(self).view(),
                        )
                        &&& if merged_index(merged).dom().len() != old(self).index().dom().len() {
                            res is Err && res->Err_0 == Errors::DataDirectoryCorruped
                        } else {
                            &&& res is Ok
                            &&& res->Ok_0 is Some
                            &&& ascending_ids((res->Ok_0->0).data_files@)
                            &&& segments_of((res->Ok_0->0).data_files@) == merged.log.segments
                            &&& (res->Ok_0->0).hint_file@ == merged.hint
                            &&& (res->Ok_0->0).merge_fin_file@ == encode_record(
                                merge_fin_record(final(self).active_id()),
                            )
                            &&& marker_value((res->Ok_0->0).merge_fin_file@) == Ok::<nat, Errors>(
                                final(self).active_id() as nat,
                            )
                            &&& crate::recovery::store_view(merged.log.segments, merged_index(merged))
                                == old(self).view()
                        }
                    },
                }
            },
    {
        if self.is_empty_engine() {
            return Ok(None);
        }
        let reclaim_size = self.reclaim_size();
        let total_size = self.disk_size();
        let ratio = self.get_options().data_file_merge_ratio;
        if !ratio.is_reached(reclaim_size, total_size) {
            return Err(Errors::CanNotMerge);
        }
        if total_size > reclaim_size && total_size - reclaim_size > available_disk {
            return Err(Errors::NoEnoughDiskCapacity);
        }
        let ghost segs0 = self.segments();
        let ghost index0 = self.index();
        let ghost store0 = self.view();
        proof {
            self.lemma_valid();
        }
        if let Err(e) = self.rotate_merge_file() {
            return Err(e);
        }
        let options = self.get_options();
        let merge_opts = Options {
            dir_path: options.dir_path.clone(),
            data_file_size: options.data_file_size,
            sync_writes: false,
            bytes_per_sync: 0,
            index_type: IndexType::BTree,
            mmap_at_startup: true,
            data_file_merge_ratio: MergeRatio { numer: 1, denom: 2 },
        };
        assert(merge_opts == merge_options(self.options()));
        let expected: usize = match self.list_keys() {
            Ok(keys) => keys.len(),
            Err(e) => {
                return Err(e);
            },
        };
        let mut count: usize = 0;
        let mut merge_db = Engine::new_empty(merge_opts);
        let mut hint_file: Vec<u8> = Vec::new();
        let ghost start = merge_start();
        let ghost mut hinted: Map<Seq<u8>, LogRecodPos> = empty_directory();
        proof {
            self.lemma_valid();
            merge_db.lemma_valid();
            lemma_extends_transitive(merge_db.segments(), merge_db.segments(), merge_db.segments());
        }
        let merge_files = self.older_files();
        let ghost files = merge_files@;
        let ghost mut done: nat = 0;
        let mut i: usize = 0;
        while i < merge_files.len()
            invariant
                i <= files.len(),
                files == merge_files@,
                ascending_ids(files),
                forall|j: int| 0 <= j < files.len() ==> (#[trigger] files[j]).valid(),
                segments_of(files) == segs0,
                self.valid(),
                self.index() == index0,
                self.view() == store0,
                index0 == old(self).index(),
                store0 == old(self).view(),
                segs0 == old(self).segments(),
                self.reclaim() == old(self).reclaim(),
                self.seq() == old(self).seq(),
                self.options() == old(self).options(),
                self.same_markers(*old(self)),
                old(self).recoverable() ==> self.recoverable(),
                self.active_id() == old(self).active_id() + 1,
                self.active_len() == 0,
                !old(self).is_empty(),
                !merge_refused(*old(self)),
                !merge_lacks_space(*old(self), available_disk),
                self.segments() == segs0.insert(self.active_id(), Seq::empty()),
                !segs0.contains_key(self.active_id()),
                merge_db.valid(),
                merge_db.options() == merge_opts,
                merge_opts == merge_options(self.options()),
                start == merge_start(),
                done <= self.active_id(),
                forall|j: int| 0 <= j < i ==> (#[trigger] files[j]).id() < done,
                forall|j: int| i <= j < files.len() ==> (#[trigger] files[j]).id() >= done,
                merge_segments(start, index0, merge_opts, segs0, done) == Ok::<MergeState, Errors>(
                    MergeState { log: merge_db.log_state(), hint: hint_file@ },
                ),
                hint_replay(empty_directory(), merge_db.segments(), hint_file@, 0) == Ok::<
                    (Map<Seq<u8>, LogRecodPos>, nat),
                    Errors,
                >((hinted, hint_file@.len())),
                merged_from(merge_db.segments(), hinted, index0, store0),
                index0.dom().finite(),
                index0.dom().len() == expected,
                hinted.dom().finite(),
                count == hinted.dom().len(),
                forall|k: Seq<u8>| #[trigger] hinted.contains_key(k) ==> index0[k].file_id < done,
            decreases files.len() - i,
        {
            let data_file = &merge_files[i];
            let ghost file_id = data_file.id();
            proof {
                lemma_segment_at(files, i as int);
                crate::recovery::lemma_no_segment_between(files, i as int, done, file_id as nat);
                lemma_merge_skip(start, index0, merge_opts, segs0, done, file_id as nat);
                assert(file_id < self.active_id()) by {
                    assert(segs0.contains_key(file_id));
                    assert(self.segments().contains_key(file_id));
                    self.lemma_valid();
                }
                assert forall|j: int| i + 1 <= j < files.len() implies (#[trigger] files[j]).id()
                    >= file_id + 1 by {
                    assert(files[i as int].id() < files[j].id());
                }
                assert(merge_segments(start, index0, merge_opts, segs0, (file_id + 1) as nat)
                    == merge_file(
                    MergeState { log: merge_db.log_state(), hint: hint_file@ },
                    index0,
                    merge_opts,
                    file_id,
                    data_file.bytes(),
                    0,
                ));
            }
            match merge_data_file(self, &mut merge_db, &mut hint_file, &mut count, data_file, Ghost(hinted)) {
                Ok(now) => {
                    proof {
                        hinted = now@;
                    }
                },
                Err(e) => {
                    proof {
                        lemma_merge_fails(
                            start,
                            index0,
                            merge_opts,
                            segs0,
                            (file_id + 1) as nat,
                            self.active_id() as nat,
                        );
                    }
                    return Err(e);
                },
            }
            proof {
                done = (file_id + 1) as nat;
            }
            i += 1;
        }
        proof {
            assert forall|id: u32| done <= id < self.active_id() implies !#[trigger] segs0.contains_key(
                id,
            ) by {
                if segs0.contains_key(id) {
                    lemma_segment_ids(files, id);
                    let j = choose|j: int| 0 <= j < files.len() && (#[trigger] files[j]).id() == id;
                    assert(files[j].id() < done);
                }
            }
            lemma_merge_skip(start, index0, merge_opts, segs0, done, self.active_id() as nat);
        }
        if count != expected {
            return Err(Errors::DataDirectoryCorruped);
        }
        proof {
            assert(hinted.dom().subset_of(index0.dom())) by {
                assert forall|k: Seq<u8>| hinted.dom().contains(k) implies index0.dom().contains(k) by {
                    assert(hinted.contains_key(k));
                }
            }
            vstd::set_lib::lemma_subset_equality(hinted.dom(), index0.dom());
            assert(crate::recovery::store_view(merge_db.segments(), hinted) =~= store0) by {
                assert forall|k: Seq<u8>| index0.contains_key(k) implies hinted.contains_key(k) by {
                    assert(index0.dom().contains(k));
                }
            }
        }
        let watermark = self.active_file_id();
        let fin_record = LogRecord {
            key: merge_fin_key_bytes(),
            value: format_decimal(watermark as u64),
            rec_type: LogRecodType::NORMAL,
        };
        proof {
            let rec = merge_fin_record(watermark);
            assert(fin_record@ == rec);
            lemma_decimal_value(watermark as nat);
            lemma_decimal_len(watermark as nat);
            crate::data::log_record::lemma_parse_encoded(rec, Seq::empty());
            assert(encode_record(rec) + Seq::<u8>::empty() =~= encode_record(rec));
            assert(encode_record(rec).skip(0) =~= encode_record(rec));
            lemma_encoded_size(rec);
        }
        let merge_fin_file = fin_record.encode();
        let _ = merge_db.sync();
        let data_files = merge_db.into_files();
        Ok(Some(MergeOutput { data_files, hint_file, merge_fin_file }))
    }
}

/// The file that marks a completed merge says the id that it was written with.
pub proof fn lemma_merge_fin_marker(watermark: u32)
    ensures
        marker_value(encode_record(merge_fin_record(watermark))) == Ok::<nat, Errors>(watermark as nat),
{
    let rec = merge_fin_record(watermark);
    lemma_decimal_value(watermark as nat);
    lemma_decimal_len(watermark as nat);
    crate::data::log_record::lemma_parse_encoded(rec, Seq::empty());
    assert(encode_record(rec) + Seq::<u8>::empty() =~= encode_record(rec));
    assert(encode_record(rec).skip(0) =~= encode_record(rec));
    lemma_encoded_size(rec);
}

/// Opening a database after a merge gives the store that was merged: where
/// the directory holds the merged segments, the hint file and the marker of
/// the merge, and beside them only the empty segment that was begun when
/// the merge started, the engine that is opened has the directory of the
/// hint file, and its store is the merged store.
pub proof fn lemma_open_after_merge(
    opts: Options,
    entries: Seq<(Seq<u8>, Seq<u8>)>,
    merged: MergeState,
    watermark: u32,
)
    requires
        crate::options::options_error(opts) is None,
        !crate::load::load_error(entries),
        crate::fio::named(entries, merge_finish_file_name()) == Some(
            encode_record(merge_fin_record(watermark)),
        ),
        crate::fio::named(entries, crate::data::data_file::hint_file_name()) == Some(merged.hint),
        crate::fio::named(entries, seq_no_file_name()) is None,
        crate::load::loaded_segments(entries) == merged.log.segments.insert(watermark, Seq::empty()),
        forall|id: u32| #[trigger] merged.log.segments.contains_key(id) ==> id < watermark,
        hint_replay(empty_directory(), merged.log.segments, merged.hint, 0) is Ok,
    ensures
        crate::db::recover(opts, entries) is Ok,
        (crate::db::recover(opts, entries)->Ok_0).index == merged_index(merged),
        crate::recovery::store_view(
            (crate::db::recover(opts, entries)->Ok_0).segments,
            (crate::db::recover(opts, entries)->Ok_0).index,
        ) == crate::recovery::store_view(merged.log.segments, merged_index(merged)),
{
    let inner = merged.log.segments;
    let segs = inner.insert(watermark, Seq::empty());
    let hinted = merged_index(merged);
    lemma_merge_fin_marker(watermark);
    assert(segs.contains_key(watermark));
    assert(crate::db::open_segments(segs, watermark) == segs);
    assert(extends(inner, segs)) by {
        assert forall|id: u32| #[trigger] inner.contains_key(id) implies segs.contains_key(id)
            && inner[id].is_prefix_of(segs[id]) by {
            assert(inner[id] =~= segs[id].subrange(0, inner[id].len() as int));
        }
    }
    lemma_hint_extends(empty_directory(), inner, segs, merged.hint, 0);
    lemma_hint_all_live(empty_directory(), inner, merged.hint, 0);
    crate::recovery::lemma_store_extends(inner, segs, hinted);
    let st0 = crate::recovery::initial_state(hinted);
    assert forall|id: u32| #[trigger] segs.contains_key(id) implies id <= watermark by {
        if id != watermark {
            assert(inner.contains_key(id));
        }
    }
    crate::recovery::lemma_replay_last(st0, segs, watermark, watermark);
    crate::recovery::lemma_replay_skip(st0, segs, watermark, 0, watermark as nat);
    assert(decode_record(Seq::<u8>::empty(), 0) is Err);
    assert(crate::recovery::replay_file(st0, watermark, Seq::<u8>::empty(), 0) == Ok::<
        crate::recovery::ReplayState,
        Errors,
    >(crate::recovery::with_end(st0, 0)));
    assert(crate::db::is_last_segment(segs, watermark));
    crate::db::lemma_last_segment(segs, watermark);
}

} // verus!
