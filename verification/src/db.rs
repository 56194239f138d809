//! The engine: the segments of the log, of which one is active and takes the
//! appends, and the key directory over them.
//!
//! The engine holds the files of its database directory as bytes. Its host
//! keeps the files on disk in step with them: what the engine appends, the
//! host appends; what the engine marks as durable, the host flushes.

use crate::batch::{key_with_seq, lemma_parse_key, log_record_with_seq, NON_TRANSACTION_SEQ_NO};
use crate::data::data_file::DataFile;
use crate::data::log_record::{decodable, decode_record, encode_record, encoded_size};
use crate::data::log_record::{lemma_decode_appended, lemma_encoded_size};
use crate::data::log_record::{LogRecodPos, LogRecodType, LogRecord, LogRecordView};
use crate::errors::Errors;
use crate::data::data_file::{hint_file_name, merge_finish_file_name, seq_no_file_name};
use crate::fio::{entry_pairs, find_file, named, FileEntry};
use crate::index::{copy_key, empty_directory, keyed, lemma_lists_len, lists, new_indexer, Index};
use crate::load::{fresh, load_data_files, load_error, loaded_segments, marker_value, read_marker};
use crate::merge::{hint_replay, load_index_from_hint_files};
use crate::index::{walk_of, IndexCursor};
use crate::options::{check_options, options_error, IteratorOptions, Options};
use crate::data::log_record::TransactionRecord;
use crate::recovery::{apply_all, apply_pending, pending_live, pending_views};
use crate::recovery::{initial_state, load_index_from_data_files, replay_all};
use crate::recovery::{lemma_replay_all_append, lemma_replay_all_rotate, lemma_step_end, pending_bounded};
use crate::recovery::{replay_step, with_end, ReplayState};
use crate::util::decimal::{decimal, format_decimal, lemma_decimal_value};
use crate::recovery::{add_clamped, all_live, ascending_ids, clamp, extends, live, reclaimed_by};
use crate::recovery::{lemma_all_live_extends, lemma_live_extends, lemma_segment_at, lemma_segment_ids};
use crate::recovery::{lemma_segments_push, lemma_segments_update, segments_of, store_view};
use crate::index::{IndexIterator, Indexer};
use vstd::prelude::*;

verus! {

/// The storage engine.
pub struct Engine {
    pub(crate) options: Options,
    pub(crate) active_file: DataFile,
    pub(crate) older_files: Vec<DataFile>,
    pub(crate) index: Index,
    pub(crate) seq_no: usize,
    pub(crate) seq_file_exist: bool,
    pub(crate) is_initial: bool,
    pub(crate) bytes_write: usize,
    pub(crate) reclaim_size: u64,
    pub(crate) hint_file: Option<Vec<u8>>,
    pub(crate) merge_fin_file: Option<Vec<u8>>,
    pub(crate) seq_no_file: Option<Vec<u8>>,
}

/// Figures of an engine.
#[derive(Debug, Clone, Copy, PartialEq, Eq, Structural)]
pub struct Stat {
    /// The number of keys in the directory.
    pub key_num: usize,
    /// The number of segments.
    pub data_file_num: usize,
    /// The bytes that a merge would reclaim.
    pub reclaim_size: u64,
    /// The bytes that the files of the engine take.
    pub disk_size: u64,
}

/// The record that `put` writes: the key behind the sequence number 0.
pub open spec fn put_record(key: Seq<u8>, value: Seq<u8>) -> LogRecordView {
    LogRecordView { key: key_with_seq(key, 0), value, rec_type: LogRecodType::NORMAL }
}

/// The record that `delete` writes: the key behind the sequence number 0,
/// without a value.
pub open spec fn delete_record(key: Seq<u8>) -> LogRecordView {
    LogRecordView { key: key_with_seq(key, 0), value: Seq::empty(), rec_type: LogRecodType::DELETED }
}

/// A record whose encoded length a position can hold, and whose key is not empty.
pub open spec fn fits(rec: LogRecordView) -> bool {
    encoded_size(rec) <= u32::MAX && rec.key.len() > 0
}

/// What a read at `pos` gives: the value of the record there; an error
/// where the engine has no such segment, where no record is decoded there,
/// and where the record is a deletion.
pub open spec fn read_at(segs: Map<u32, Seq<u8>>, pos: LogRecodPos) -> Result<Seq<u8>, Errors> {
    if !segs.contains_key(pos.file_id) {
        Err(Errors::DataFileNotFound)
    } else {
        match decode_record(segs[pos.file_id], pos.offset as int) {
            Err(e) => Err(e),
            Ok((rec, _)) => if rec.rec_type == LogRecodType::DELETED {
                Err(Errors::KeyIsNotExist)
            } else {
                Ok(rec.value)
            },
        }
    }
}

/// Whether the record that `put` writes for `key` and `value` has a length
/// that a position can hold.
pub fn record_fits(key: &[u8], value: &[u8]) -> (b: bool)
    ensures
        b == (encoded_size(put_record(key@, value@)) <= u32::MAX),
{
    let limit: usize = u32::MAX as usize;
    if key.len() >= limit || value.len() > limit {
        proof {
            lemma_parse_key(key@, 0);
        }
        return false;
    }
    proof {
        lemma_parse_key(key@, 0);
        crate::data::varint::lemma_varint_len(0);
        crate::data::varint::lemma_varint_len((key@.len() + 1) as nat);
        crate::data::varint::lemma_varint_len(value@.len());
        assert(key_with_seq(key@, 0).len() == key@.len() + 1);
    }
    let key_len: u64 = key.len() as u64 + 1;
    let value_len: u64 = value.len() as u64;
    let size: u64 = 1 + crate::data::varint::length_delimiter_len(key.len() + 1) as u64
        + crate::data::varint::length_delimiter_len(value.len()) as u64 + key_len + value_len + 4;
    size <= u32::MAX as u64
}

/// The sum of two counts, stopping at the largest number of the machine's word.
pub fn add_usize_clamped(a: usize, b: usize) -> (sum: usize)
    ensures
        sum == (if a + b > usize::MAX {
            usize::MAX as int
        } else {
            a + b
        }),
{
    if a > usize::MAX - b {
        usize::MAX
    } else {
        a + b
    }
}

/// The ASCII bytes of `seq.no`, the key of the record that keeps the
/// sequence number.
pub open spec fn seq_no_key() -> Seq<u8> {
    seq![115u8, 101, 113, 46, 110, 111]
}

/// The record that keeps the sequence number `seq`: its value spells the
/// number in decimal digits.
pub open spec fn seq_no_record(seq: nat) -> LogRecordView {
    LogRecordView { key: seq_no_key(), value: decimal(seq), rec_type: LogRecodType::NORMAL }
}

/// The id of the first segment that recovery reads: what the file that
/// marks a completed merge says, or 0 without such a file.
pub open spec fn first_segment(merge_fin: Option<Seq<u8>>) -> Result<u32, Errors> {
    match merge_fin {
        None => Ok(0),
        Some(data) => match marker_value(data) {
            Err(e) => Err(e),
            Ok(v) => if v > u32::MAX {
                Err(Errors::DataDirectoryCorruped)
            } else {
                Ok(v as u32)
            },
        },
    }
}

/// The id of the first segment that recovery reads in a directory.
pub open spec fn watermark_of(entries: Seq<(Seq<u8>, Seq<u8>)>) -> Result<u32, Errors> {
    first_segment(named(entries, merge_finish_file_name()))
}

/// The sequence number that the directory keeps in a file: what that file
/// says, or 0 without such a file.
pub open spec fn stored_seq(entries: Seq<(Seq<u8>, Seq<u8>)>) -> Result<nat, Errors> {
    match named(entries, seq_no_file_name()) {
        None => Ok(0),
        Some(data) => match marker_value(data) {
            Err(e) => Err(e),
            Ok(v) => if v > usize::MAX {
                Err(Errors::DataDirectoryCorruped)
            } else {
                Ok(v)
            },
        },
    }
}

/// The segments of an engine that is opened on the segments `loaded`: these,
/// and a new, empty one with the id `first` where none of them has an id of
/// `first` or more.
pub open spec fn open_segments(loaded: Map<u32, Seq<u8>>, first: u32) -> Map<u32, Seq<u8>> {
    if exists|id: u32| #[trigger] loaded.contains_key(id) && id >= first {
        loaded
    } else {
        loaded.insert(first, Seq::empty())
    }
}

/// The directory that a hint file gives over the segments `segs`; the empty
/// one without such a file.
pub open spec fn hinted_from(hint: Option<Seq<u8>>, segs: Map<u32, Seq<u8>>) -> Result<
    Map<Seq<u8>, LogRecodPos>,
    Errors,
> {
    match hint {
        None => Ok(empty_directory()),
        Some(hint) => match hint_replay(empty_directory(), segs, hint, 0) {
            Ok((index, _)) => Ok(index),
            Err(e) => Err(e),
        },
    }
}

/// The directory that the hint file of a directory gives.
pub open spec fn hinted(entries: Seq<(Seq<u8>, Seq<u8>)>, segs: Map<u32, Seq<u8>>) -> Result<
    Map<Seq<u8>, LogRecodPos>,
    Errors,
> {
    hinted_from(named(entries, hint_file_name()), segs)
}

/// What recovery finds in the segments `segs`, with the hint file and the
/// merge marker that are given.
pub open spec fn replay_of(segs: Map<u32, Seq<u8>>, hint: Option<Seq<u8>>, merge_fin: Option<Seq<u8>>) -> Result<
    ReplayState,
    Errors,
> {
    match first_segment(merge_fin) {
        Err(e) => Err(e),
        Ok(first) => match hinted_from(hint, segs) {
            Err(e) => Err(e),
            Ok(start) => replay_all(initial_state(start), segs, first),
        },
    }
}

/// The directory that a hint file gives stays the same when segments grow
/// and new ones are added.
pub proof fn lemma_hinted_extends(hint: Option<Seq<u8>>, segs: Map<u32, Seq<u8>>, later: Map<u32, Seq<u8>>)
    requires
        hinted_from(hint, segs) is Ok,
        extends(segs, later),
    ensures
        hinted_from(hint, later) == hinted_from(hint, segs),
{
    if hint is Some {
        crate::merge::lemma_hint_extends(empty_directory(), segs, later, hint->0, 0);
    }
}

/// Whether `id` is the largest id of a segment.
pub open spec fn is_last_segment(segs: Map<u32, Seq<u8>>, id: u32) -> bool {
    segs.contains_key(id) && forall|other: u32| #[trigger] segs.contains_key(other) ==> other <= id
}

/// The largest id of a segment.
pub open spec fn last_segment(segs: Map<u32, Seq<u8>>) -> u32 {
    choose|id: u32| is_last_segment(segs, id)
}

/// What opening a directory recovers.
pub struct Recovery {
    /// The segments, by id.
    pub segments: Map<u32, Seq<u8>>,
    /// The key directory.
    pub index: Map<Seq<u8>, LogRecodPos>,
    /// The sequence number of the batch committed last.
    pub seq: nat,
    /// The bytes of the records that later ones made obsolete.
    pub reclaim: nat,
}

/// Opening the directory with the files `entries`.
///
/// The options are checked; the marker files are read; the segments are
/// loaded; the directory is filled from the hint file, and from the
/// segments with the id that the merge marker gives or a larger one. The
/// log of the last segment must end where the segment ends: bytes behind it
/// that are no record are corruption.
pub open spec fn recover(opts: Options, entries: Seq<(Seq<u8>, Seq<u8>)>) -> Result<Recovery, Errors> {
    if options_error(opts) is Some {
        Err(options_error(opts)->0)
    } else {
        match watermark_of(entries) {
            Err(e) => Err(e),
            Ok(first) => match stored_seq(entries) {
                Err(e) => Err(e),
                Ok(stored) => if load_error(entries) {
                    Err(Errors::DataDirectoryCorruped)
                } else {
                    let segs = open_segments(loaded_segments(entries), first);
                    match hinted(entries, segs) {
                        Err(e) => Err(e),
                        Ok(start) => match replay_all(initial_state(start), segs, first) {
                            Err(e) => Err(e),
                            Ok(st) => if st.end != segs[last_segment(segs)].len() {
                                Err(Errors::DataDirectoryCorruped)
                            } else {
                                Ok(
                                    Recovery {
                                        segments: segs,
                                        index: st.index,
                                        seq: if st.max_seq > stored {
                                            st.max_seq
                                        } else {
                                            stored
                                        },
                                        reclaim: st.reclaim,
                                    },
                                )
                            },
                        },
                    }
                },
            },
        }
    }
}

/// The id that is the largest of the segments is their last.
pub proof fn lemma_last_segment(segs: Map<u32, Seq<u8>>, id: u32)
    requires
        is_last_segment(segs, id),
    ensures
        last_segment(segs) == id,
{
    let chosen = last_segment(segs);
    assert(is_last_segment(segs, chosen));
    assert(segs.contains_key(chosen));
    assert(segs.contains_key(id));
}

/// The file that keeps a number says that number.
pub proof fn lemma_seq_no_marker(seq: nat)
    requires
        seq <= u64::MAX,
    ensures
        marker_value(encode_record(seq_no_record(seq))) == Ok::<nat, Errors>(seq),
{
    let rec = seq_no_record(seq);
    lemma_decimal_value(seq);
    crate::util::decimal::lemma_decimal_len(seq);
    crate::data::log_record::lemma_parse_encoded(rec, Seq::empty());
    assert(encode_record(rec) + Seq::<u8>::empty() =~= encode_record(rec));
    assert(encode_record(rec).skip(0) =~= encode_record(rec));
    lemma_encoded_size(rec);
}

/// The files `entries` are the files of the engine: its segments, each
/// under its name, and beside them its hint file, its merge marker and its
/// file with the sequence number, as far as it has them.
pub open spec fn persists(entries: Seq<(Seq<u8>, Seq<u8>)>, engine: Engine) -> bool {
    &&& !load_error(entries)
    &&& loaded_segments(entries) == engine.segments()
    &&& named(entries, hint_file_name()) == engine.hint_bytes()
    &&& named(entries, merge_finish_file_name()) == engine.merge_fin_bytes()
    &&& named(entries, seq_no_file_name()) == engine.seq_no_bytes()
}

/// Closing and opening again is the identity on what an engine holds: an
/// engine that is opened on the files of one that was closed has the same
/// segments, the same directory, the same store, the same sequence number
/// and the same count of reclaimable bytes.
pub proof fn lemma_close_open(engine: Engine, entries: Seq<(Seq<u8>, Seq<u8>)>)
    requires
        engine.valid(),
        engine.recoverable(),
        persists(entries, engine),
        engine.seq_no_bytes() == Some(encode_record(seq_no_record(engine.seq() as nat))),
    ensures
        recover(engine.options(), entries) is Ok,
        (recover(engine.options(), entries)->Ok_0).segments == engine.segments(),
        (recover(engine.options(), entries)->Ok_0).index == engine.index(),
        store_view(
            (recover(engine.options(), entries)->Ok_0).segments,
            (recover(engine.options(), entries)->Ok_0).index,
        ) == engine@,
        (recover(engine.options(), entries)->Ok_0).seq == engine.seq(),
        clamp((recover(engine.options(), entries)->Ok_0).reclaim as int) == engine.reclaim(),
{
    engine.lemma_valid();
    let segs = engine.segments();
    let first = first_segment(engine.merge_fin_bytes())->Ok_0;
    lemma_seq_no_marker(engine.seq() as nat);
    assert(segs.contains_key(engine.active_id()) && engine.active_id() >= first);
    assert(open_segments(loaded_segments(entries), first) == segs);
    assert(is_last_segment(segs, engine.active_id()));
    lemma_last_segment(segs, engine.active_id());
}

/// Opening an empty directory gives an engine without records: one empty
/// segment with the id 0, an empty directory, and the sequence number 0.
pub proof fn lemma_open_empty(opts: Options)
    requires
        options_error(opts) is None,
    ensures
        recover(opts, Seq::empty()) == Ok::<Recovery, Errors>(
            Recovery {
                segments: Map::<u32, Seq<u8>>::empty().insert(0, Seq::empty()),
                index: empty_directory(),
                seq: 0,
                reclaim: 0,
            },
        ),
{
    let entries: Seq<(Seq<u8>, Seq<u8>)> = Seq::empty();
    let loaded = loaded_segments(entries);
    assert(loaded =~= Map::<u32, Seq<u8>>::empty());
    let segs = Map::<u32, Seq<u8>>::empty().insert(0, Seq::empty());
    assert(open_segments(loaded, 0) == segs);
    let st0 = initial_state(empty_directory());
    crate::recovery::lemma_replay_last(st0, segs, 0, 0);
    assert(decode_record(Seq::<u8>::empty(), 0) is Err);
    assert(crate::recovery::replay_file(st0, 0, Seq::<u8>::empty(), 0) == Ok::<ReplayState, Errors>(
        with_end(st0, 0),
    ));
    assert(is_last_segment(segs, 0));
    lemma_last_segment(segs, 0);
}

/// The bytes that the segments take together.
pub open spec fn total_bytes(files: Seq<DataFile>) -> nat
    decreases files.len(),
{
    if files.len() == 0 {
        0
    } else {
        total_bytes(files.drop_last()) + files.last().bytes().len()
    }
}

/// The length of a file that may be missing.
pub open spec fn optional_len(file: Option<Vec<u8>>) -> nat {
    match file {
        Some(data) => data@.len(),
        None => 0,
    }
}

/// The length of a file that may be missing.
pub fn optional_size(file: &Option<Vec<u8>>) -> (size: u64)
    ensures
        size == optional_len(*file),
{
    match file {
        Some(data) => data.len() as u64,
        None => 0,
    }
}

/// The log of an engine: the segments, which of them is active, and the
/// state of the flushing.
pub struct LogState {
    /// The bytes of the segments, by id.
    pub segments: Map<u32, Seq<u8>>,
    /// The id of the active segment.
    pub active_id: u32,
    /// The bytes written since the log was flushed last.
    pub unsynced: usize,
    /// The number of bytes of the active segment that are durable.
    pub synced: nat,
}

/// The log after the append of `rec`, and the position of the record;
/// `None` where a new segment is to be begun and there is no id left for it.
///
/// A record that would end behind the size of a segment begins a new
/// segment. The log is flushed where every write is to be flushed, and
/// where a threshold is set and the bytes written since the last flush
/// reach it.
pub open spec fn log_append(st: LogState, opts: Options, rec: LogRecordView) -> Option<
    (LogState, LogRecodPos),
> {
    let len = encoded_size(rec);
    let rotate = st.segments[st.active_id].len() + len > opts.data_file_size;
    if rotate && st.active_id == u32::MAX {
        None
    } else {
        let id = if rotate {
            (st.active_id + 1) as u32
        } else {
            st.active_id
        };
        let before: Seq<u8> = if rotate {
            Seq::empty()
        } else {
            st.segments[st.active_id]
        };
        let sync = opts.sync_writes || (opts.bytes_per_sync > 0 && st.unsynced + len
            >= opts.bytes_per_sync);
        Some(
            (
                LogState {
                    segments: st.segments.insert(id, before + encode_record(rec)),
                    active_id: id,
                    unsynced: if sync {
                        0
                    } else if st.unsynced + len > usize::MAX {
                        usize::MAX
                    } else {
                        (st.unsynced + len) as usize
                    },
                    synced: if sync {
                        before.len() + len
                    } else if rotate {
                        0
                    } else {
                        st.synced
                    },
                },
                LogRecodPos { file_id: id, offset: before.len() as u64, size: len as u32 },
            ),
        )
    }
}

/// What the marker files of a directory say, and the bytes of those that
/// the engine keeps.
pub struct Markers {
    /// The id of the first segment that recovery reads.
    pub first: u32,
    /// The sequence number that the directory keeps in a file.
    pub stored: usize,
    /// Whether the directory holds a file with the sequence number.
    pub seq_file_exist: bool,
    /// The bytes of the hint file.
    pub hint_file: Option<Vec<u8>>,
    /// The bytes of the file that marks a completed merge.
    pub merge_fin_file: Option<Vec<u8>>,
}

/// The bytes of a file that may be missing, as a mathematical value.
pub open spec fn optional_bytes(file: Option<Vec<u8>>) -> Option<Seq<u8>> {
    match file {
        Some(data) => Some(data@),
        None => None,
    }
}

/// Reads the marker files of a directory.
pub fn read_markers(entries: &Vec<FileEntry>) -> (res: Result<Markers, Errors>)
    ensures
        match watermark_of(entry_pairs(entries@)) {
            Err(e) => res is Err && res->Err_0 == e,
            Ok(first) => match stored_seq(entry_pairs(entries@)) {
                Err(e) => res is Err && res->Err_0 == e,
                Ok(stored) => {
                    &&& res is Ok
                    &&& res->Ok_0.first == first
                    &&& res->Ok_0.stored == stored
                    &&& res->Ok_0.seq_file_exist == (named(entry_pairs(entries@), seq_no_file_name())
                        is Some)
                    &&& optional_bytes(res->Ok_0.hint_file) == named(
                        entry_pairs(entries@),
                        hint_file_name(),
                    )
                    &&& optional_bytes(res->Ok_0.merge_fin_file) == named(
                        entry_pairs(entries@),
                        merge_finish_file_name(),
                    )
                },
            },
        },
{
    let ghost all = entry_pairs(entries@);
    let merge_fin_name = crate::data::data_file::merge_finish_file_name_bytes();
    let seq_name = crate::data::data_file::seq_no_file_name_bytes();
    let hint_name = crate::data::data_file::hint_file_name_bytes();
    let mut merge_fin_file: Option<Vec<u8>> = None;
    let mut first: u32 = 0;
    if let Some(i) = find_file(entries, merge_fin_name.as_slice()) {
        assert(all[i as int] == (entries@[i as int].name@, entries@[i as int].data@));
        let v = match read_marker(entries[i].data.as_slice()) {
            Ok(v) => v,
            Err(e) => {
                return Err(e);
            },
        };
        if v > u32::MAX as u64 {
            return Err(Errors::DataDirectoryCorruped);
        }
        first = v as u32;
        merge_fin_file = Some(copy_key(entries[i].data.as_slice()));
    }
    let mut seq_file_exist = false;
    let mut stored: usize = 0;
    if let Some(i) = find_file(entries, seq_name.as_slice()) {
        assert(all[i as int] == (entries@[i as int].name@, entries@[i as int].data@));
        let v = match read_marker(entries[i].data.as_slice()) {
            Ok(v) => v,
            Err(e) => {
                return Err(e);
            },
        };
        if v > usize::MAX as u64 {
            return Err(Errors::DataDirectoryCorruped);
        }
        stored = v as usize;
        seq_file_exist = true;
    }
    let mut hint_file: Option<Vec<u8>> = None;
    if let Some(i) = find_file(entries, hint_name.as_slice()) {
        assert(all[i as int] == (entries@[i as int].name@, entries@[i as int].data@));
        hint_file = Some(copy_key(entries[i].data.as_slice()));
    }
    Ok(Markers { first, stored, seq_file_exist, hint_file, merge_fin_file })
}

/// The segments of an engine that is opened on the segments `files`: these,
/// and a new, empty one with the id `first` where none of them has an id of
/// `first` or more.
pub fn with_active(files: Vec<DataFile>, first: u32) -> (out: Vec<DataFile>)
    requires
        ascending_ids(files@),
        fresh(files@),
    ensures
        ascending_ids(out@),
        fresh(out@),
        out@.len() >= 1,
        segments_of(out@) == open_segments(segments_of(files@), first),
        is_last_segment(segments_of(out@), out@[out@.len() - 1].id()),
        last_segment(segments_of(out@)) == out@[out@.len() - 1].id(),
        out@[out@.len() - 1].id() >= first,
{
    let ghost loaded = segments_of(files@);
    let mut files = files;
    let needs_new = files.len() == 0 || files[files.len() - 1].get_file_id() < first;
    proof {
        if needs_new {
            assert forall|id: u32| #[trigger] loaded.contains_key(id) implies id < first by {
                lemma_segment_ids(files@, id);
                let j = choose|j: int| 0 <= j < files@.len() && (#[trigger] files@[j]).id() == id;
                if j < files@.len() - 1 {
                    assert(files@[j].id() < files@[files@.len() - 1].id());
                }
            }
        } else {
            lemma_segment_at(files@, files@.len() - 1);
            assert(loaded.contains_key(files@[files@.len() - 1].id()));
        }
    }
    if needs_new {
        let ghost before = files@;
        let file = DataFile::new(first, Vec::new());
        proof {
            assert forall|i: int| 0 <= i < before.len() implies (#[trigger] before[i]).id()
                < file.id() by {
                lemma_segment_at(before, i);
            }
            lemma_segments_push(before, file);
        }
        files.push(file);
    }
    proof {
        let segs = segments_of(files@);
        let last = files@[files@.len() - 1];
        lemma_segment_at(files@, files@.len() - 1);
        assert forall|other: u32| #[trigger] segs.contains_key(other) implies other <= last.id() by {
            lemma_segment_ids(files@, other);
            let j = choose|j: int| 0 <= j < files@.len() && (#[trigger] files@[j]).id() == other;
            if j < files@.len() - 1 {
                assert(files@[j].id() < files@[files@.len() - 1].id());
            }
        }
        lemma_last_segment(segs, last.id());
    }
    files
}

impl View for Engine {
    type V = Map<Seq<u8>, Seq<u8>>;

    /// The store: each key of the directory with the value of its record.
    open spec fn view(&self) -> Map<Seq<u8>, Seq<u8>> {
        store_view(self.segments(), self.index())
    }
}

impl Engine {
    /// The active segment.
    pub closed spec fn active(&self) -> DataFile {
        self.active_file
    }

    /// The sealed segments, ascending by id.
    pub closed spec fn sealed(&self) -> Seq<DataFile> {
        self.older_files@
    }

    /// The segments, ascending by id; the active one is the last.
    pub closed spec fn files(&self) -> Seq<DataFile> {
        self.older_files@.push(self.active_file)
    }

    /// The bytes of the segments, by id.
    pub closed spec fn segments(&self) -> Map<u32, Seq<u8>> {
        segments_of(self.files())
    }

    /// The key directory.
    pub closed spec fn index(&self) -> Map<Seq<u8>, LogRecodPos> {
        self.index.view()
    }

    /// The id of the active segment.
    pub closed spec fn active_id(&self) -> u32 {
        self.active_file.id()
    }

    /// The length of the active segment.
    pub closed spec fn active_len(&self) -> nat {
        self.active_file.bytes().len()
    }

    /// The number of bytes of the active segment that are durable.
    pub closed spec fn active_synced(&self) -> nat {
        self.active_file.synced()
    }

    /// The bytes written since the log was flushed last.
    pub closed spec fn unsynced(&self) -> usize {
        self.bytes_write
    }

    /// The bytes that a merge would reclaim.
    pub closed spec fn reclaim(&self) -> u64 {
        self.reclaim_size
    }

    /// The sequence number of the batch committed last.
    pub closed spec fn seq(&self) -> usize {
        self.seq_no
    }

    /// The options that the engine was opened with.
    pub closed spec fn options(&self) -> Options {
        self.options
    }

    /// The invariant of the engine: the options are sound; the ids of the
    /// segments ascend, and the active one has the largest; every sealed
    /// segment is durable; and every entry of the directory points at a live
    /// record of its key.
    pub closed spec fn valid(&self) -> bool {
        &&& options_error(self.options) is None
        &&& self.active_file.valid()
        &&& self.active_file.offset() == self.active_file.bytes().len()
        &&& forall|i: int|
            0 <= i < self.older_files@.len() ==> (#[trigger] self.older_files@[i]).valid()
                && self.older_files@[i].synced() == self.older_files@[i].bytes().len()
        &&& ascending_ids(self.files())
        &&& self.index.valid()
        &&& self.index.index_type() == self.options.index_type
        &&& all_live(self.segments(), self.index.view())
    }

    /// What the invariant says to the outside.
    pub proof fn lemma_valid(&self)
        requires
            self.valid(),
        ensures
            options_error(self.options()) is None,
            all_live(self.segments(), self.index()),
            self.segments().contains_key(self.active_id()),
            self.segments()[self.active_id()].len() == self.active_len(),
            self.active_synced() <= self.active_len() <= usize::MAX,
            forall|id: u32| #[trigger] self.segments().contains_key(id) ==> id <= self.active_id(),
            self.files() == self.sealed().push(self.active()),
            self.segments() == segments_of(self.files()),
            ascending_ids(self.files()),
            self.active().id() == self.active_id(),
            self.active().bytes().len() == self.active_len(),
            forall|i: int| 0 <= i < self.sealed().len() ==> (#[trigger] self.sealed()[i]).valid(),
    {
        let files = self.files();
        let last = files.len() - 1;
        assert(files[last] == self.active_file);
        lemma_segment_at(files, last);
        self.active_file.lemma_valid();
        assert forall|id: u32| #[trigger] self.segments().contains_key(id) implies id
            <= self.active_id() by {
            lemma_segment_ids(files, id);
            let i = choose|i: int| 0 <= i < files.len() && (#[trigger] files[i]).id() == id;
            if i < last {
                assert(files[i].id() < files[last].id());
            }
        }
    }

    /// What recovery finds in the files of the engine.
    pub open spec fn replayed(&self) -> Result<ReplayState, Errors> {
        replay_of(self.segments(), self.hint_bytes(), self.merge_fin_bytes())
    }

    /// The engine is what recovery finds in its files: the directory is the
    /// one that recovery builds, the log of the active segment ends where
    /// the segment ends, no sequence number in the log is beyond that of the
    /// engine, and the reclaimable bytes are those that recovery counts.
    pub open spec fn recoverable(&self) -> bool {
        &&& self.replayed() is Ok
        &&& first_segment(self.merge_fin_bytes())->Ok_0 <= self.active_id()
        &&& (self.replayed()->Ok_0).index == self.index()
        &&& (self.replayed()->Ok_0).end == self.active_len()
        &&& (self.replayed()->Ok_0).max_seq <= self.seq()
        &&& clamp((self.replayed()->Ok_0).reclaim as int) == self.reclaim()
        &&& pending_bounded(self.replayed()->Ok_0)
    }

    /// What recovery finds after an append: the record takes effect behind
    /// all others.
    pub proof fn lemma_replayed_append(before: Engine, after: Engine, rec: LogRecordView)
        requires
            before.valid(),
            before.replayed() is Ok,
            first_segment(before.merge_fin_bytes())->Ok_0 <= before.active_id(),
            (before.replayed()->Ok_0).end == before.active_len(),
            !before.append_fails(rec),
            after.after_append(before, rec),
            decodable(rec),
        ensures
            first_segment(after.merge_fin_bytes())->Ok_0 <= after.active_id(),
            after.replayed() == (match replay_step(
                before.replayed()->Ok_0,
                before.append_pos(rec).file_id,
                before.append_pos(rec).offset as nat,
                rec,
                encoded_size(rec),
            ) {
                Ok(next) => Ok(with_end(next, after.active_len())),
                Err(e) => Err(e),
            }),
    {
        before.lemma_valid();
        let segs = before.segments();
        let later = after.segments();
        let first = first_segment(before.merge_fin_bytes())->Ok_0;
        let start = hinted_from(before.hint_bytes(), segs)->Ok_0;
        let st0 = initial_state(start);
        let st = before.replayed()->Ok_0;
        let id = before.active_id();
        let size = encoded_size(rec);
        lemma_encoded_size(rec);
        assert(extends(segs, later)) by {
            assert forall|k: u32| #[trigger] segs.contains_key(k) implies later.contains_key(k)
                && segs[k].is_prefix_of(later[k]) by {
                assert(segs[k] =~= later[k].subrange(0, segs[k].len() as int));
            }
        }
        lemma_hinted_extends(before.hint_bytes(), segs, later);
        if before.rotates(size) {
            let next_id = (id + 1) as u32;
            let mid = segs.insert(next_id, Seq::empty());
            lemma_replay_all_rotate(st0, segs, first, id);
            assert(mid.contains_key(next_id));
            assert forall|k: u32| #[trigger] mid.contains_key(k) implies k <= next_id by {
                if k != next_id {
                    assert(segs.contains_key(k));
                }
            }
            lemma_replay_all_append(st0, mid, first, next_id, rec);
            assert(later =~= mid.insert(next_id, mid[next_id] + encode_record(rec))) by {
                assert(Seq::<u8>::empty() + encode_record(rec) =~= encode_record(rec));
            }
            lemma_step_end(st, 0, next_id, 0, rec, size);
        } else {
            lemma_replay_all_append(st0, segs, first, id, rec);
        }
    }

    /// What recovery finds after the active segment is sealed and a new,
    /// empty one is begun: the same, with the log of the last segment ending
    /// at 0.
    pub proof fn lemma_replayed_rotate(before: Engine, after: Engine)
        requires
            before.valid(),
            before.recoverable(),
            before.active_id() < u32::MAX,
            after.segments() == before.segments().insert((before.active_id() + 1) as u32, Seq::empty()),
            after.active_id() == before.active_id() + 1,
            after.active_len() == 0,
            after.index() == before.index(),
            after.seq() == before.seq(),
            after.reclaim() == before.reclaim(),
            after.same_markers(before),
        ensures
            after.recoverable(),
    {
        before.lemma_valid();
        let segs = before.segments();
        let later = after.segments();
        let first = first_segment(before.merge_fin_bytes())->Ok_0;
        let start = hinted_from(before.hint_bytes(), segs)->Ok_0;
        assert(extends(segs, later)) by {
            assert forall|k: u32| #[trigger] segs.contains_key(k) implies later.contains_key(k)
                && segs[k].is_prefix_of(later[k]) by {
                assert(segs[k] =~= later[k].subrange(0, segs[k].len() as int));
            }
        }
        lemma_hinted_extends(before.hint_bytes(), segs, later);
        lemma_replay_all_rotate(initial_state(start), segs, first, before.active_id());
    }

    /// The log of the engine.
    pub open spec fn log_state(&self) -> LogState {
        LogState {
            segments: self.segments(),
            active_id: self.active_id(),
            unsynced: self.unsynced(),
            synced: self.active_synced(),
        }
    }

    /// The files beside the segments, and what was found when the engine was
    /// opened, are as they are in `before`.
    pub open spec fn same_markers(&self, before: Engine) -> bool {
        &&& self.hint_bytes() == before.hint_bytes()
        &&& self.merge_fin_bytes() == before.merge_fin_bytes()
        &&& self.seq_no_bytes() == before.seq_no_bytes()
        &&& self.initial() == before.initial()
        &&& self.seq_file_existed() == before.seq_file_existed()
    }

    /// Whether a record of `len` bytes makes the engine begin a new segment:
    /// it does where the record would end behind the size of a segment.
    pub open spec fn rotates(&self, len: nat) -> bool {
        self.active_len() + len > self.options().data_file_size
    }

    /// Whether the append of `rec` fails: it does where a new segment is to
    /// be begun and there is no id left for it.
    pub open spec fn append_fails(&self, rec: LogRecordView) -> bool {
        self.rotates(encoded_size(rec)) && self.active_id() == u32::MAX
    }

    /// The position that the append of `rec` gives it.
    pub open spec fn append_pos(&self, rec: LogRecordView) -> LogRecodPos {
        if self.rotates(encoded_size(rec)) {
            LogRecodPos {
                file_id: (self.active_id() + 1) as u32,
                offset: 0,
                size: encoded_size(rec) as u32,
            }
        } else {
            LogRecodPos {
                file_id: self.active_id(),
                offset: self.active_len() as u64,
                size: encoded_size(rec) as u32,
            }
        }
    }

    /// The segments after the append of `rec`.
    pub open spec fn appended(&self, rec: LogRecordView) -> Map<u32, Seq<u8>> {
        if self.rotates(encoded_size(rec)) {
            self.segments().insert((self.active_id() + 1) as u32, encode_record(rec))
        } else {
            self.segments().insert(
                self.active_id(),
                self.segments()[self.active_id()] + encode_record(rec),
            )
        }
    }

    /// Whether the log is flushed after `len` more bytes: always where every
    /// write is to be flushed, and else where a threshold is set and the
    /// bytes written since the last flush reach it.
    pub open spec fn syncs_after(&self, len: nat) -> bool {
        self.options().sync_writes || (self.options().bytes_per_sync > 0 && self.unsynced() + len
            >= self.options().bytes_per_sync)
    }

    /// What an append of `rec` to the engine `before` leaves, beside the
    /// directory: the segments with the record, the active segment and its
    /// length, and the state of the flushing.
    pub open spec fn after_append(&self, before: Engine, rec: LogRecordView) -> bool {
        let len = encoded_size(rec);
        &&& self.segments() == before.appended(rec)
        &&& self.active_id() == before.append_pos(rec).file_id
        &&& self.active_len() == before.append_pos(rec).offset + len
        &&& self.options() == before.options()
        &&& self.seq() == before.seq()
        &&& self.same_markers(before)
        &&& self.unsynced() == (if before.syncs_after(len) {
            0
        } else if before.unsynced() + len > usize::MAX {
            usize::MAX as int
        } else {
            before.unsynced() + len
        })
        &&& self.active_synced() == (if before.syncs_after(len) {
            self.active_len()
        } else if before.rotates(len) {
            0
        } else {
            before.active_synced()
        })
    }

    /// Whether the directory was empty when the engine was opened.
    pub closed spec fn initial(&self) -> bool {
        self.is_initial
    }

    /// Whether the directory held a file with the sequence number when the
    /// engine was opened.
    pub closed spec fn seq_file_existed(&self) -> bool {
        self.seq_file_exist
    }

    /// The bytes of the hint file, if the directory holds one.
    pub closed spec fn hint_bytes(&self) -> Option<Seq<u8>> {
        match self.hint_file {
            Some(data) => Some(data@),
            None => None,
        }
    }

    /// The bytes of the file that marks a completed merge, if the directory
    /// holds one.
    pub closed spec fn merge_fin_bytes(&self) -> Option<Seq<u8>> {
        match self.merge_fin_file {
            Some(data) => Some(data@),
            None => None,
        }
    }

    /// The bytes of the file with the sequence number, if the directory
    /// holds one.
    pub closed spec fn seq_no_bytes(&self) -> Option<Seq<u8>> {
        match self.seq_no_file {
            Some(data) => Some(data@),
            None => None,
        }
    }

    /// The bytes that the files of the engine take together.
    pub closed spec fn disk_bytes(&self) -> nat {
        total_bytes(self.files()) + optional_len(self.hint_file) + optional_len(self.merge_fin_file)
            + optional_len(self.seq_no_file)
    }

    /// Opens the engine on the files of a database directory.
    #[verifier::rlimit(50)]
    pub fn open(opts: Options, entries: Vec<FileEntry>) -> (res: Result<Engine, Errors>)
        ensures
            match recover(opts, entry_pairs(entries@)) {
                Err(e) => res is Err && res->Err_0 == e,
                Ok(found) => {
                    &&& res is Ok
                    &&& res->Ok_0.valid()
                    &&& res->Ok_0.recoverable()
                    &&& res->Ok_0.options() == opts
                    &&& res->Ok_0.segments() == found.segments
                    &&& res->Ok_0.index() == found.index
                    &&& res->Ok_0.seq() == found.seq
                    &&& res->Ok_0.reclaim() == clamp(found.reclaim as int)
                    &&& res->Ok_0.unsynced() == 0
                    &&& res->Ok_0.active_synced() == res->Ok_0.active_len()
                    &&& res->Ok_0.initial() == (entries@.len() == 0)
                    &&& res->Ok_0.seq_file_existed() == (named(
                        entry_pairs(entries@),
                        seq_no_file_name(),
                    ) is Some)
                    &&& res->Ok_0.hint_bytes() == named(entry_pairs(entries@), hint_file_name())
                    &&& res->Ok_0.merge_fin_bytes() == named(
                        entry_pairs(entries@),
                        merge_finish_file_name(),
                    )
                    &&& res->Ok_0.seq_no_bytes() is None
                },
            },
    {
        if let Some(e) = check_options(&opts) {
            return Err(e);
        }
        let ghost all = entry_pairs(entries@);
        let is_initial = entries.len() == 0;
        let markers = match read_markers(&entries) {
            Ok(markers) => markers,
            Err(e) => {
                return Err(e);
            },
        };
        let first = markers.first;
        let files = match load_data_files(entries) {
            Ok(files) => files,
            Err(e) => {
                return Err(e);
            },
        };
        let ghost segs = open_segments(loaded_segments(all), first);
        let mut files = with_active(files, first);
        let ghost last = files@[files@.len() - 1];
        let mut index = new_indexer(opts.index_type);
        assert(all_live(segs, index.view()));
        match &markers.hint_file {
            Some(hint) => {
                if let Err(e) = load_index_from_hint_files(&mut index, hint.as_slice(), &files) {
                    return Err(e);
                }
            },
            None => {},
        }
        let found = match load_index_from_data_files(&mut index, &files, first) {
            Ok(found) => found,
            Err(e) => {
                return Err(e);
            },
        };
        let ghost all_files = files@;
        let mut active_file = match files.pop() {
            Some(file) => file,
            None => {
                return Err(Errors::DataDirectoryCorruped);
            },
        };
        proof {
            lemma_segment_at(all_files, all_files.len() - 1);
        }
        if found.end != active_file.file_size() {
            return Err(Errors::DataDirectoryCorruped);
        }
        active_file.set_write_off(active_file.file_size());
        let seq_no = if found.max_seq > markers.stored {
            found.max_seq
        } else {
            markers.stored
        };
        let engine = Engine {
            options: opts,
            active_file,
            older_files: files,
            index,
            seq_no,
            seq_file_exist: markers.seq_file_exist,
            is_initial,
            bytes_write: 0,
            reclaim_size: found.reclaim,
            hint_file: markers.hint_file,
            merge_fin_file: markers.merge_fin_file,
            seq_no_file: None,
        };
        proof {
            let n = all_files.len() - 1;
            assert(engine.files() =~= all_files.update(n, engine.active_file));
            lemma_segments_update(all_files, n, engine.active_file);
            assert(engine.segments() =~= segs);
            assert forall|i: int| 0 <= i < engine.older_files@.len() implies (
            #[trigger] engine.older_files@[i]).valid() && engine.older_files@[i].synced()
                == engine.older_files@[i].bytes().len() by {
                assert(engine.older_files@[i] == all_files[i]);
            }
            let start = hinted(all, segs)->Ok_0;
            crate::recovery::lemma_segments_bounded(
                initial_state(start),
                segs,
                first,
                crate::recovery::id_count(),
            );
            assert(engine.hint_bytes() == named(all, hint_file_name()));
            assert(engine.merge_fin_bytes() == named(all, merge_finish_file_name()));
        }
        Ok(engine)
    }

    /// Keeps the sequence number in its file, and marks everything that the
    /// active segment holds as durable.
    pub fn close(&mut self) -> (res: Result<(), Errors>)
        requires
            old(self).valid(),
        ensures
            res is Ok,
            final(self).valid(),
            final(self).segments() == old(self).segments(),
            final(self).index() == old(self).index(),
            final(self).view() == old(self).view(),
            final(self).seq() == old(self).seq(),
            final(self).reclaim() == old(self).reclaim(),
            final(self).options() == old(self).options(),
            final(self).active_id() == old(self).active_id(),
            final(self).active_len() == old(self).active_len(),
            final(self).active_synced() == old(self).active_len(),
            final(self).hint_bytes() == old(self).hint_bytes(),
            final(self).merge_fin_bytes() == old(self).merge_fin_bytes(),
            final(self).initial() == old(self).initial(),
            final(self).seq_file_existed() == old(self).seq_file_existed(),
            final(self).seq_no_bytes() == Some(encode_record(seq_no_record(old(self).seq() as nat))),
            marker_value(final(self).seq_no_bytes()->0) == Ok::<nat, Errors>(old(self).seq() as nat),
            old(self).recoverable() ==> final(self).recoverable(),
    {
        let key: Vec<u8> = vec![115u8, 101, 113, 46, 110, 111];
        assert(key@ =~= seq_no_key());
        let record = LogRecord {
            key,
            value: format_decimal(self.seq_no as u64),
            rec_type: LogRecodType::NORMAL,
        };
        proof {
            let rec = seq_no_record(self.seq_no as nat);
            assert(record@ == rec);
            lemma_decimal_value(self.seq_no as nat);
            crate::util::decimal::lemma_decimal_len(self.seq_no as nat);
            crate::data::log_record::lemma_parse_encoded(rec, Seq::empty());
            assert(encode_record(rec) + Seq::<u8>::empty() =~= encode_record(rec));
            assert(encode_record(rec).skip(0) =~= encode_record(rec));
            lemma_encoded_size(rec);
        }
        self.seq_no_file = Some(record.encode());
        self.sync()
    }

    /// The keys of the engine, ascending.
    pub fn list_keys(&self) -> (res: Result<Vec<Vec<u8>>, Errors>)
        requires
            self.valid(),
        ensures
            res is Ok,
            lists(keyed(res->Ok_0@, self.index()), self.index()),
            res->Ok_0@.len() == self.index().dom().len(),
            self.index().dom().finite(),
    {
        let keys = self.index.list_keys();
        proof {
            lemma_lists_len(keyed(keys@, self.index.view()), self.index.view());
        }
        Ok(keys)
    }

    /// The figures of the engine.
    pub fn stat(&self) -> (res: Result<Stat, Errors>)
        requires
            self.valid(),
        ensures
            res is Ok,
            res->Ok_0.key_num == self.index().dom().len(),
            res->Ok_0.data_file_num == (if self.sealed().len() < usize::MAX {
                self.sealed().len() + 1
            } else {
                usize::MAX as nat
            }),
            res->Ok_0.reclaim_size == self.reclaim(),
            res->Ok_0.disk_size == clamp(self.disk_bytes() as int),
    {
        let keys = self.index.list_keys();
        proof {
            lemma_lists_len(keyed(keys@, self.index.view()), self.index.view());
        }
        let size = self.disk_size();
        let data_file_num = add_usize_clamped(self.older_files.len(), 1);
        Ok(Stat { key_num: keys.len(), data_file_num, reclaim_size: self.reclaim_size, disk_size: size })
    }

    /// Whether the directory was empty when the engine was opened.
    pub fn is_initial(&self) -> (b: bool)
        ensures
            b == self.initial(),
    {
        self.is_initial
    }

    /// Whether the directory held a file with the sequence number when the
    /// engine was opened.
    pub fn seq_file_exist(&self) -> (b: bool)
        ensures
            b == self.seq_file_existed(),
    {
        self.seq_file_exist
    }

    /// Whether the directory has an entry for `key`.
    pub fn has_key(&self, key: &[u8]) -> (b: bool)
        requires
            self.valid(),
        ensures
            b == self.index().contains_key(key@),
    {
        self.index.get(key).is_some()
    }

    /// Begins a batch: the sequence number advances by one, and is returned.
    pub(crate) fn advance_seq(&mut self) -> (seq: usize)
        requires
            old(self).valid(),
            old(self).seq() < usize::MAX,
        ensures
            final(self).valid(),
            seq == old(self).seq() + 1,
            final(self).seq() == seq,
            final(self).log_state() == old(self).log_state(),
            final(self).index() == old(self).index(),
            final(self).reclaim() == old(self).reclaim(),
            final(self).options() == old(self).options(),
            final(self).same_markers(*old(self)),
    {
        self.seq_no = self.seq_no + 1;
        self.seq_no
    }

    /// Ends a batch: its records take effect on the directory, in their order.
    pub(crate) fn apply_records(&mut self, records: &Vec<TransactionRecord>)
        requires
            old(self).valid(),
            pending_live(old(self).segments(), pending_views(records@)),
        ensures
            final(self).valid(),
            final(self).index() == apply_all(
                old(self).index(),
                old(self).reclaim() as nat,
                pending_views(records@),
            ).0,
            final(self).reclaim() == clamp(
                apply_all(old(self).index(), old(self).reclaim() as nat, pending_views(records@)).1 as int,
            ),
            final(self).seq() == old(self).seq(),
            final(self).log_state() == old(self).log_state(),
            final(self).options() == old(self).options(),
            final(self).same_markers(*old(self)),
    {
        let ghost segs = self.segments();
        let mut reclaim = self.reclaim_size;
        apply_pending(&mut self.index, &mut reclaim, records, Ghost(segs), Ghost(self.reclaim_size as nat));
        self.reclaim_size = reclaim;
    }

    /// A cursor over a snapshot of the key directory, before its first entry.
    pub fn index_cursor(&self, options: IteratorOptions) -> (it: IndexCursor)
        requires
            self.valid(),
        ensures
            it.valid(),
            it.position() == 0,
            it.prefix() == options.prefix@,
            it.reverse() == options.reverse,
            walk_of(it.items(), self.index(), options.reverse),
    {
        self.index.iterator(options)
    }

    /// The bytes of the hint file, if the directory holds one.
    pub fn hint_file(&self) -> (file: &Option<Vec<u8>>)
        ensures
            optional_bytes(*file) == self.hint_bytes(),
    {
        &self.hint_file
    }

    /// The bytes of the file that marks a completed merge, if the directory
    /// holds one.
    pub fn merge_fin_file(&self) -> (file: &Option<Vec<u8>>)
        ensures
            optional_bytes(*file) == self.merge_fin_bytes(),
    {
        &self.merge_fin_file
    }

    /// The bytes of the file with the sequence number, if the directory
    /// holds one.
    pub fn seq_no_file(&self) -> (file: &Option<Vec<u8>>)
        ensures
            optional_bytes(*file) == self.seq_no_bytes(),
    {
        &self.seq_no_file
    }

    /// The position that the directory has for `key`.
    pub fn get_position(&self, key: &[u8]) -> (pos: Option<LogRecodPos>)
        requires
            self.valid(),
        ensures
            pos == (if self.index().contains_key(key@) {
                Some(self.index()[key@])
            } else {
                None
            }),
    {
        self.index.get(key)
    }

    /// An engine without records: one empty segment with the id 0, and an
    /// empty directory.
    pub(crate) fn new_empty(opts: Options) -> (engine: Engine)
        requires
            options_error(opts) is None,
        ensures
            engine.valid(),
            engine.options() == opts,
            engine.index() == empty_directory(),
            engine.log_state() == (LogState {
                segments: Map::<u32, Seq<u8>>::empty().insert(0, Seq::empty()),
                active_id: 0,
                unsynced: 0,
                synced: 0,
            }),
            engine.sealed().len() == 0,
            engine.seq() == 0,
            engine.reclaim() == 0,
    {
        let index = new_indexer(opts.index_type);
        let engine = Engine {
            options: opts,
            active_file: DataFile::new(0, Vec::new()),
            older_files: Vec::new(),
            index,
            seq_no: 0,
            seq_file_exist: false,
            is_initial: true,
            bytes_write: 0,
            reclaim_size: 0,
            hint_file: None,
            merge_fin_file: None,
            seq_no_file: None,
        };
        proof {
            let none: Seq<DataFile> = Seq::empty();
            lemma_segments_push(none, engine.active_file);
            assert(engine.files() =~= none.push(engine.active_file));
            assert(segments_of(none) =~= Map::<u32, Seq<u8>>::empty());
        }
        engine
    }

    /// The segments of the engine, ascending by id; the active one is the last.
    pub fn into_files(self) -> (files: Vec<DataFile>)
        requires
            self.valid(),
        ensures
            files@ == self.files(),
            ascending_ids(files@),
            segments_of(files@) == self.segments(),
    {
        let mut files = self.older_files;
        files.push(self.active_file);
        files
    }

    /// Whether the engine holds no record: no sealed segment, and nothing in
    /// the active one.
    pub open spec fn is_empty(&self) -> bool {
        self.active_len() == 0 && self.sealed().len() == 0
    }

    /// Whether the engine holds no record.
    pub fn is_empty_engine(&self) -> (b: bool)
        requires
            self.valid(),
        ensures
            b == self.is_empty(),
    {
        self.active_file.get_write_off() == 0 && self.older_files.len() == 0
    }

    /// The bytes that the files of the engine take together, or the largest
    /// number of 64 bits where they take more.
    pub fn disk_size(&self) -> (size: u64)
        requires
            self.valid(),
        ensures
            size == clamp(self.disk_bytes() as int),
    {
        let ghost files = self.files();
        let mut size: u64 = 0;
        let mut i: usize = 0;
        assert(files.take(0) =~= Seq::empty());
        while i < self.older_files.len()
            invariant
                i <= self.older_files@.len(),
                files == self.files(),
                size == clamp(total_bytes(files.take(i as int)) as int),
            decreases self.older_files@.len() - i,
        {
            proof {
                assert(files.take(i + 1).drop_last() =~= files.take(i as int));
                assert(files.take(i + 1).last() == self.older_files@[i as int]);
            }
            size = add_clamped(size, self.older_files[i].file_size());
            i += 1;
        }
        proof {
            assert(files.take(i + 1) =~= files);
            assert(files.drop_last() =~= files.take(i as int));
        }
        size = add_clamped(size, self.active_file.file_size());
        size = add_clamped(size, optional_size(&self.hint_file));
        size = add_clamped(size, optional_size(&self.merge_fin_file));
        size = add_clamped(size, optional_size(&self.seq_no_file));
        size
    }

    /// Seals the active segment for a merge: it is flushed, and a new, empty
    /// segment with the next id becomes the active one. This fails where
    /// there is no id left for it.
    pub fn rotate_merge_file(&mut self) -> (res: Result<(), Errors>)
        requires
            old(self).valid(),
        ensures
            final(self).valid(),
            final(self).index() == old(self).index(),
            final(self).view() == old(self).view(),
            final(self).reclaim() == old(self).reclaim(),
            final(self).seq() == old(self).seq(),
            final(self).options() == old(self).options(),
            final(self).same_markers(*old(self)),
            old(self).recoverable() ==> final(self).recoverable(),
            if old(self).active_id() == u32::MAX {
                res is Err && res->Err_0 == Errors::FileOpenError && *final(self) == *old(self)
            } else {
                &&& res is Ok
                &&& final(self).active_id() == old(self).active_id() + 1
                &&& final(self).active_len() == 0
                &&& final(self).active_synced() == 0
                &&& final(self).unsynced() == old(self).unsynced()
                &&& final(self).segments() == old(self).segments().insert(
                    (old(self).active_id() + 1) as u32,
                    Seq::empty(),
                )
                &&& !old(self).segments().contains_key((old(self).active_id() + 1) as u32)
                &&& segments_of(final(self).sealed()) == old(self).segments()
                &&& ascending_ids(final(self).sealed())
                &&& extends(old(self).segments(), final(self).segments())
            },
    {
        let ghost files0 = self.files();
        let ghost segs0 = self.segments();
        let current_id = self.active_file.get_file_id();
        if current_id == u32::MAX {
            return Err(Errors::FileOpenError);
        }
        proof {
            self.lemma_valid();
        }
        let _ = self.active_file.sync();
        let mut sealed = DataFile::new(current_id + 1, Vec::new());
        core::mem::swap(&mut self.active_file, &mut sealed);
        self.older_files.push(sealed);
        proof {
            let last = files0.len() - 1;
            let mid = files0.update(last, sealed);
            lemma_segments_update(files0, last, sealed);
            lemma_segment_at(files0, last);
            assert(segments_of(mid) =~= segs0);
            assert(self.older_files@ =~= mid);
            assert(self.files() =~= mid.push(self.active_file));
            assert forall|i: int| 0 <= i < mid.len() implies (#[trigger] mid[i]).id()
                < self.active_file.id() by {
                if i < last {
                    assert(files0[i].id() < files0[last].id());
                }
            }
            lemma_segments_push(mid, self.active_file);
            assert(extends(segs0, self.segments())) by {
                assert forall|id: u32| #[trigger] segs0.contains_key(id) implies self.segments().contains_key(
                    id,
                ) && segs0[id].is_prefix_of(self.segments()[id]) by {
                    assert(segs0[id] =~= self.segments()[id].subrange(0, segs0[id].len() as int));
                }
            }
            lemma_all_live_extends(segs0, self.segments(), self.index.view());
            crate::recovery::lemma_store_extends(segs0, self.segments(), self.index.view());
            if old(self).recoverable() {
                Engine::lemma_replayed_rotate(*old(self), *self);
            }
        }
        Ok(())
    }

    /// The id of the active segment.
    pub fn active_file_id(&self) -> (id: u32)
        ensures
            id == self.active_id(),
    {
        self.active_file.get_file_id()
    }

    /// The active segment.
    pub fn active_file(&self) -> (file: &DataFile)
        ensures
            *file == self.active(),
            file.id() == self.active_id(),
            file.bytes().len() == self.active_len(),
            file.synced() == self.active_synced(),
    {
        &self.active_file
    }

    /// The sealed segments, ascending by id.
    pub fn older_files(&self) -> (files: &Vec<DataFile>)
        ensures
            files@ == self.sealed(),
            files@.push(self.active()) == self.files(),
    {
        &self.older_files
    }

    /// The sequence number of the batch committed last.
    pub fn seq_no(&self) -> (seq: usize)
        ensures
            seq == self.seq(),
    {
        self.seq_no
    }

    /// The bytes that a merge would reclaim.
    pub fn reclaim_size(&self) -> (size: u64)
        ensures
            size == self.reclaim(),
    {
        self.reclaim_size
    }

    /// The options that the engine was opened with.
    pub fn get_options(&self) -> (options: &Options)
        ensures
            *options == self.options(),
    {
        &self.options
    }

    /// The segment with the id `file_id`, if the engine has it.
    pub fn find_file(&self, file_id: u32) -> (file: Option<&DataFile>)
        requires
            self.valid(),
        ensures
            match file {
                Some(f) => f.id() == file_id && self.segments().contains_pair(file_id, f.bytes()),
                None => !self.segments().contains_key(file_id),
            },
    {
        let ghost files = self.files();
        if self.active_file.get_file_id() == file_id {
            proof {
                assert(files[files.len() - 1] == self.active_file);
                lemma_segment_at(files, files.len() - 1);
            }
            return Some(&self.active_file);
        }
        let mut i: usize = 0;
        while i < self.older_files.len()
            invariant
                i <= self.older_files@.len(),
                files == self.files(),
                ascending_ids(files),
                forall|j: int| 0 <= j < i ==> (#[trigger] self.older_files@[j]).id() != file_id,
            decreases self.older_files@.len() - i,
        {
            if self.older_files[i].get_file_id() == file_id {
                proof {
                    assert(files[i as int] == self.older_files@[i as int]);
                    lemma_segment_at(files, i as int);
                }
                return Some(&self.older_files[i]);
            }
            i += 1;
        }
        proof {
            lemma_segment_ids(files, file_id);
            if self.segments().contains_key(file_id) {
                let j = choose|j: int| 0 <= j < files.len() && (#[trigger] files[j]).id() == file_id;
                if j < self.older_files@.len() {
                    assert(files[j] == self.older_files@[j]);
                }
            }
        }
        None
    }

    /// Marks everything that the active segment holds as durable.
    pub fn sync(&mut self) -> (res: Result<(), Errors>)
        requires
            old(self).valid(),
        ensures
            res is Ok,
            final(self).valid(),
            final(self).segments() == old(self).segments(),
            final(self).index() == old(self).index(),
            final(self).view() == old(self).view(),
            final(self).active_id() == old(self).active_id(),
            final(self).active_len() == old(self).active_len(),
            final(self).active_synced() == old(self).active_len(),
            final(self).unsynced() == old(self).unsynced(),
            final(self).reclaim() == old(self).reclaim(),
            final(self).seq() == old(self).seq(),
            final(self).options() == old(self).options(),
            final(self).same_markers(*old(self)),
            old(self).recoverable() ==> final(self).recoverable(),
    {
        let ghost before = self.files();
        let _ = self.active_file.sync();
        proof {
            let last = before.len() - 1;
            assert(self.files() =~= before.update(last, self.active_file));
            lemma_segments_update(before, last, self.active_file);
            lemma_segment_at(before, last);
            assert(self.segments() =~= old(self).segments());
        }
        Ok(())
    }

    /// The value of the record at `log_record_pos`.
    pub fn get_value_by_position(&self, log_record_pos: &LogRecodPos) -> (res: Result<
        Vec<u8>,
        Errors,
    >)
        requires
            self.valid(),
        ensures
            match read_at(self.segments(), *log_record_pos) {
                Ok(value) => res is Ok && res->Ok_0@ == value,
                Err(e) => res is Err && res->Err_0 == e,
            },
    {
        let file = match self.find_file(log_record_pos.file_id) {
            Some(file) => file,
            None => {
                return Err(Errors::DataFileNotFound);
            },
        };
        let record = match file.read_log_record(log_record_pos.offset) {
            Ok(read) => read.record,
            Err(e) => {
                return Err(e);
            },
        };
        if record.rec_type == LogRecodType::DELETED {
            return Err(Errors::KeyIsNotExist);
        }
        Ok(record.value)
    }

    /// The value of `key`. An empty key is refused; a key without an entry
    /// in the directory does not exist.
    pub fn get(&self, key: Vec<u8>) -> (res: Result<Vec<u8>, Errors>)
        requires
            self.valid(),
        ensures
            if key@.len() == 0 {
                res is Err && res->Err_0 == Errors::KeyIsEmpty
            } else if !self@.contains_key(key@) {
                res is Err && res->Err_0 == Errors::KeyIsNotExist
            } else {
                res is Ok && res->Ok_0@ == self@[key@]
            },
    {
        if key.len() == 0 {
            return Err(Errors::KeyIsEmpty);
        }
        let pos = match self.index.get(key.as_slice()) {
            Some(pos) => pos,
            None => {
                return Err(Errors::KeyIsNotExist);
            },
        };
        assert(self.index.view().contains_key(key@));
        assert(live(self.segments(), key@, pos));
        self.get_value_by_position(&pos)
    }

    /// Appends `log_record` to the log, and returns its position. Where the
    /// record would end behind the size of a segment, the active segment is
    /// flushed and sealed, and the record begins a new one.
    pub(crate) fn append_log_record(&mut self, log_record: &LogRecord) -> (res: Result<
        LogRecodPos,
        Errors,
    >)
        requires
            old(self).valid(),
            fits(log_record@),
        ensures
            final(self).valid(),
            final(self).index() == old(self).index(),
            final(self).reclaim() == old(self).reclaim(),
            old(self).append_fails(log_record@) <==> log_append(
                old(self).log_state(),
                old(self).options(),
                log_record@,
            ) is None,
            if old(self).append_fails(log_record@) {
                res is Err && res->Err_0 == Errors::FileOpenError && *final(self) == *old(self)
            } else {
                &&& res == Ok::<LogRecodPos, Errors>(old(self).append_pos(log_record@))
                &&& log_append(old(self).log_state(), old(self).options(), log_record@) == Some(
                    (final(self).log_state(), old(self).append_pos(log_record@)),
                )
                &&& final(self).after_append(*old(self), log_record@)
                &&& extends(old(self).segments(), final(self).segments())
                &&& decode_record(
                    final(self).segments()[old(self).append_pos(log_record@).file_id],
                    old(self).append_pos(log_record@).offset as int,
                ) == Ok::<(LogRecordView, nat), Errors>((log_record@, encoded_size(log_record@)))
            },
    {
        let enc_record = log_record.encode();
        let record_len: u64 = enc_record.len() as u64;
        let ghost rec = log_record@;
        let ghost files0 = self.files();
        let ghost segs0 = self.segments();
        proof {
            lemma_encoded_size(rec);
            self.lemma_valid();
            crate::data::varint::lemma_varint_len(rec.key.len());
            crate::data::varint::lemma_varint_len(rec.value.len());
        }
        let limit: u64 = self.options.data_file_size;
        let offset: u64 = self.active_file.get_write_off();
        let rotate: bool = offset > limit || record_len > limit - offset;
        if rotate {
            let current_id = self.active_file.get_file_id();
            if current_id == u32::MAX {
                return Err(Errors::FileOpenError);
            }
            let _ = self.active_file.sync();
            let mut sealed = DataFile::new(current_id + 1, Vec::new());
            core::mem::swap(&mut self.active_file, &mut sealed);
            self.older_files.push(sealed);
            proof {
                let last = files0.len() - 1;
                let mid = files0.update(last, sealed);
                lemma_segments_update(files0, last, sealed);
                lemma_segment_at(files0, last);
                assert(segments_of(mid) =~= segs0);
                assert(self.files() =~= mid.push(self.active_file));
                assert forall|i: int| 0 <= i < mid.len() implies (#[trigger] mid[i]).id()
                    < self.active_file.id() by {
                    if i < last {
                        assert(files0[i].id() < files0[last].id());
                    }
                }
                lemma_segments_push(mid, self.active_file);
            }
        }
        let ghost files1 = self.files();
        let ghost segs1 = self.segments();
        let write_off: u64 = self.active_file.get_write_off();
        let file_id: u32 = self.active_file.get_file_id();
        let _ = self.active_file.write(enc_record.as_slice());
        let total: usize = add_usize_clamped(self.bytes_write, enc_record.len());
        let mut need_sync: bool = self.options.sync_writes;
        if !need_sync && self.options.bytes_per_sync > 0 && total >= self.options.bytes_per_sync {
            need_sync = true;
        }
        if need_sync {
            let _ = self.active_file.sync();
            self.bytes_write = 0;
        } else {
            self.bytes_write = total;
        }
        proof {
            let last = files1.len() - 1;
            assert(self.files() =~= files1.update(last, self.active_file));
            lemma_segments_update(files1, last, self.active_file);
            lemma_segment_at(files1, last);
            assert(self.segments() =~= old(self).appended(rec));
            assert(extends(segs0, self.segments())) by {
                assert forall|id: u32| #[trigger] segs0.contains_key(id) implies self.segments().contains_key(
                    id,
                ) && segs0[id].is_prefix_of(self.segments()[id]) by {
                    if !rotate && id == file_id {
                        assert(segs0[id] =~= self.segments()[id].subrange(0, segs0[id].len() as int));
                    } else {
                        assert(segs0[id] =~= self.segments()[id].subrange(0, segs0[id].len() as int));
                    }
                }
            }
            lemma_all_live_extends(segs0, self.segments(), self.index.view());
            let prefix: Seq<u8> = if rotate {
                Seq::empty()
            } else {
                segs0[file_id]
            };
            assert(self.segments()[file_id] =~= prefix + encode_record(rec) + Seq::<u8>::empty());
            lemma_decode_appended(prefix, rec, Seq::empty());
        }
        Ok(LogRecodPos { file_id, offset: write_off, size: enc_record.len() as u32 })
    }

    /// Sets the value of `key`. An empty key is refused.
    pub fn put(&mut self, key: Vec<u8>, value: Vec<u8>) -> (res: Result<(), Errors>)
        requires
            old(self).valid(),
            encoded_size(put_record(key@, value@)) <= u32::MAX,
        ensures
            final(self).valid(),
            old(self).recoverable() ==> final(self).recoverable(),
            if key@.len() == 0 {
                res is Err && res->Err_0 == Errors::KeyIsEmpty && *final(self) == *old(self)
            } else if old(self).append_fails(put_record(key@, value@)) {
                res is Err && res->Err_0 == Errors::FileOpenError && *final(self) == *old(self)
            } else {
                &&& res is Ok
                &&& final(self).after_append(*old(self), put_record(key@, value@))
                &&& final(self).index() == old(self).index().insert(
                    key@,
                    old(self).append_pos(put_record(key@, value@)),
                )
                &&& final(self).view() == old(self).view().insert(key@, value@)
                &&& final(self).reclaim() == clamp(
                    old(self).reclaim() + reclaimed_by(
                        old(self).index(),
                        key@,
                        LogRecodType::NORMAL,
                        old(self).append_pos(put_record(key@, value@)),
                    ),
                )
            },
    {
        if key.len() == 0 {
            return Err(Errors::KeyIsEmpty);
        }
        let ghost k = key@;
        let ghost rec = put_record(key@, value@);
        let ghost segs0 = self.segments();
        let ghost index0 = self.index.view();
        proof {
            lemma_parse_key(k, 0);
            self.lemma_valid();
        }
        let record = LogRecord {
            key: log_record_with_seq(crate::index::copy_key(key.as_slice()), NON_TRANSACTION_SEQ_NO),
            value,
            rec_type: LogRecodType::NORMAL,
        };
        let pos = match self.append_log_record(&record) {
            Ok(pos) => pos,
            Err(e) => {
                return Err(e);
            },
        };
        let ghost segs1 = self.segments();
        let ghost mid = *self;
        if let Some(old_pos) = self.index.put(key, pos) {
            self.reclaim_size = add_clamped(self.reclaim_size, old_pos.size as u64);
        }
        proof {
            if old(self).recoverable() {
                crate::data::varint::lemma_varint_len(rec.key.len());
                crate::data::varint::lemma_varint_len(rec.value.len());
                Engine::lemma_replayed_append(*old(self), mid, rec);
                assert(self.replayed() == mid.replayed());
            }
            assert(live(segs1, k, pos));
            crate::recovery::lemma_apply_keeps_live(segs1, index0, k, LogRecodType::NORMAL, pos);
            assert(self.segments() == segs1);
            let a = self.view();
            let b = old(self).view().insert(k, value@);
            assert forall|q: Seq<u8>| a.contains_key(q) implies a[q] == b[q] by {
                if q != k {
                    assert(index0.contains_key(q));
                    lemma_live_extends(segs0, segs1, q, index0[q]);
                }
            }
            assert(a =~= b);
        }
        Ok(())
    }

    /// Removes `key`. An empty key is refused; for a key without an entry in
    /// the directory nothing is written.
    pub fn delete(&mut self, key: Vec<u8>) -> (res: Result<(), Errors>)
        requires
            old(self).valid(),
            encoded_size(delete_record(key@)) <= u32::MAX,
        ensures
            final(self).valid(),
            old(self).recoverable() ==> final(self).recoverable(),
            if key@.len() == 0 {
                res is Err && res->Err_0 == Errors::KeyIsEmpty && *final(self) == *old(self)
            } else if !old(self).index().contains_key(key@) {
                res is Ok && *final(self) == *old(self)
            } else if old(self).append_fails(delete_record(key@)) {
                res is Err && res->Err_0 == Errors::FileOpenError && *final(self) == *old(self)
            } else {
                &&& res is Ok
                &&& final(self).after_append(*old(self), delete_record(key@))
                &&& final(self).index() == old(self).index().remove(key@)
                &&& final(self).view() == old(self).view().remove(key@)
                &&& final(self).reclaim() == clamp(
                    old(self).reclaim() + reclaimed_by(
                        old(self).index(),
                        key@,
                        LogRecodType::DELETED,
                        old(self).append_pos(delete_record(key@)),
                    ),
                )
            },
    {
        if key.len() == 0 {
            return Err(Errors::KeyIsEmpty);
        }
        if self.index.get(key.as_slice()).is_none() {
            return Ok(());
        }
        let ghost k = key@;
        let ghost segs0 = self.segments();
        let ghost index0 = self.index.view();
        proof {
            lemma_parse_key(k, 0);
            self.lemma_valid();
        }
        let record = LogRecord {
            key: log_record_with_seq(crate::index::copy_key(key.as_slice()), NON_TRANSACTION_SEQ_NO),
            value: Vec::new(),
            rec_type: LogRecodType::DELETED,
        };
        assert(record@ == delete_record(k));
        let pos = match self.append_log_record(&record) {
            Ok(pos) => pos,
            Err(e) => {
                return Err(e);
            },
        };
        let ghost segs1 = self.segments();
        let ghost mid = *self;
        let mut size: u64 = pos.size as u64;
        if let Some(old_pos) = self.index.delete(key.as_slice()) {
            size = size + old_pos.size as u64;
        }
        self.reclaim_size = add_clamped(self.reclaim_size, size);
        proof {
            if old(self).recoverable() {
                let rec = delete_record(k);
                crate::data::varint::lemma_varint_len(rec.key.len());
                crate::data::varint::lemma_varint_len(rec.value.len());
                Engine::lemma_replayed_append(*old(self), mid, rec);
                assert(self.replayed() == mid.replayed());
            }
            crate::recovery::lemma_apply_keeps_live(segs1, index0, k, LogRecodType::DELETED, pos);
            assert(self.segments() == segs1);
            let a = self.view();
            let b = old(self).view().remove(k);
            assert forall|q: Seq<u8>| a.contains_key(q) implies a[q] == b[q] by {
                assert(index0.contains_key(q));
                lemma_live_extends(segs0, segs1, q, index0[q]);
            }
            assert(a =~= b);
        }
        Ok(())
    }
}

} // verus!
