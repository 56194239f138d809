//! Recovery: the key directory is rebuilt by reading the segments in the
//! order of their ids, each from its first byte to the end of its log.
//!
//! A record with the sequence number 0 takes effect where it stands. A record
//! of a batch waits until the record that ends its batch is read, and takes
//! effect there, together with the others of its batch and in their order; a
//! batch whose end is never read has no effect. A record that cannot be
//! decoded, other than at the end of the log, ends the recovery with its
//! error.

use crate::batch::{parse_key, parse_log_record_key};
use crate::data::data_file::DataFile;
use crate::data::log_record::{decodable, encode_record, encoded_size, lemma_decode_appended};
use crate::data::log_record::{lemma_encoded_size};
use crate::data::log_record::{decode_record, lemma_decode_append, lemma_parse_size};
use crate::data::log_record::{LogRecodPos, LogRecodType, LogRecord, LogRecordView, TransactionRecord};
use crate::errors::Errors;
use crate::index::{copy_key, Index};
use std::collections::HashMap;
use crate::index::Indexer;
use vstd::prelude::*;

verus! {

broadcast use vstd::std_specs::hash::group_hash_axioms;

/// The ids of the segments strictly ascend.
pub open spec fn ascending_ids(files: Seq<DataFile>) -> bool {
    forall|i: int, j: int| 0 <= i < j < files.len() ==> (#[trigger] files[i]).id() < (#[trigger] files[j]).id()
}

/// The bytes of the segments, by id.
pub open spec fn segments_of(files: Seq<DataFile>) -> Map<u32, Seq<u8>> {
    Map::new(
        |id: u32| exists|i: int| 0 <= i < files.len() && (#[trigger] files[i]).id() == id,
        |id: u32| files[choose|i: int| 0 <= i < files.len() && (#[trigger] files[i]).id() == id].bytes(),
    )
}

/// Each segment stands in the map of segments under its id.
pub proof fn lemma_segment_at(files: Seq<DataFile>, i: int)
    requires
        ascending_ids(files),
        0 <= i < files.len(),
    ensures
        segments_of(files).contains_pair(files[i].id(), files[i].bytes()),
{
    let id = files[i].id();
    assert(0 <= i < files.len() && files[i].id() == id);
    assert forall|j: int| 0 <= j < files.len() && (#[trigger] files[j]).id() == id implies j == i by {
        if j < i {
            assert(files[j].id() < files[i].id());
        } else if i < j {
            assert(files[i].id() < files[j].id());
        }
    }
}

/// The map of segments has the ids of the segments as its keys.
pub proof fn lemma_segment_ids(files: Seq<DataFile>, id: u32)
    ensures
        segments_of(files).contains_key(id) <==> exists|i: int|
            0 <= i < files.len() && (#[trigger] files[i]).id() == id,
{
}

/// A segment that grows or changes under the same id changes its entry in
/// the map of segments, and no other.
pub proof fn lemma_segments_update(files: Seq<DataFile>, i: int, file: DataFile)
    requires
        ascending_ids(files),
        0 <= i < files.len(),
        file.id() == files[i].id(),
    ensures
        ascending_ids(files.update(i, file)),
        segments_of(files.update(i, file)) == segments_of(files).insert(file.id(), file.bytes()),
{
    let after = files.update(i, file);
    assert forall|a: int, b: int| 0 <= a < b < after.len() implies (#[trigger] after[a]).id() < (
    #[trigger] after[b]).id() by {
        assert(files[a].id() < files[b].id());
    }
    let x = segments_of(after);
    let y = segments_of(files).insert(file.id(), file.bytes());
    assert forall|id: u32| x.contains_key(id) <==> y.contains_key(id) by {
        if x.contains_key(id) {
            let j = choose|j: int| 0 <= j < after.len() && (#[trigger] after[j]).id() == id;
            assert(files[j].id() == id);
        }
        if y.contains_key(id) && id != file.id() {
            let j = choose|j: int| 0 <= j < files.len() && (#[trigger] files[j]).id() == id;
            assert(after[j].id() == id);
        }
        if id == file.id() {
            assert(after[i].id() == id);
        }
    }
    assert forall|id: u32| x.contains_key(id) implies x[id] == y[id] by {
        let j = choose|j: int| 0 <= j < after.len() && (#[trigger] after[j]).id() == id;
        lemma_segment_at(after, j);
        if j != i {
            assert(after[j] == files[j]);
            lemma_segment_at(files, j);
            assert(files[j].id() != files[i].id()) by {
                if j < i {
                    assert(files[j].id() < files[i].id());
                } else {
                    assert(files[i].id() < files[j].id());
                }
            }
        }
    }
    assert(x =~= y);
}

/// A segment that is added behind the others, with a larger id, adds its
/// entry to the map of segments.
pub proof fn lemma_segments_push(files: Seq<DataFile>, file: DataFile)
    requires
        ascending_ids(files),
        forall|i: int| 0 <= i < files.len() ==> (#[trigger] files[i]).id() < file.id(),
    ensures
        ascending_ids(files.push(file)),
        !segments_of(files).contains_key(file.id()),
        segments_of(files.push(file)) == segments_of(files).insert(file.id(), file.bytes()),
{
    let after = files.push(file);
    assert forall|a: int, b: int| 0 <= a < b < after.len() implies (#[trigger] after[a]).id() < (
    #[trigger] after[b]).id() by {
        if b < files.len() {
            assert(files[a].id() < files[b].id());
        } else {
            assert(after[a] == files[a]);
        }
    }
    let x = segments_of(after);
    let y = segments_of(files).insert(file.id(), file.bytes());
    assert forall|id: u32| x.contains_key(id) <==> y.contains_key(id) by {
        if x.contains_key(id) {
            let j = choose|j: int| 0 <= j < after.len() && (#[trigger] after[j]).id() == id;
            if j < files.len() {
                assert(files[j].id() == id);
            }
        }
        if y.contains_key(id) && id != file.id() {
            let j = choose|j: int| 0 <= j < files.len() && (#[trigger] files[j]).id() == id;
            assert(after[j].id() == id);
        }
        if id == file.id() {
            assert(after[files.len() as int].id() == id);
        }
    }
    assert forall|id: u32| x.contains_key(id) implies x[id] == y[id] by {
        let j = choose|j: int| 0 <= j < after.len() && (#[trigger] after[j]).id() == id;
        lemma_segment_at(after, j);
        if j < files.len() {
            assert(after[j] == files[j]);
            lemma_segment_at(files, j);
        }
    }
    assert(x =~= y);
    if segments_of(files).contains_key(file.id()) {
        let j = choose|j: int| 0 <= j < files.len() && (#[trigger] files[j]).id() == file.id();
        assert(files[j].id() < file.id());
    }
}

/// The record at `pos` is a live record of `key`: the key is not empty, the
/// record is decoded there with the length that `pos` gives, it has the type
/// NORMAL, and its key is `key` behind a sequence number.
pub open spec fn live(segs: Map<u32, Seq<u8>>, key: Seq<u8>, pos: LogRecodPos) -> bool {
    &&& key.len() > 0
    &&& segs.contains_key(pos.file_id)
    &&& match decode_record(segs[pos.file_id], pos.offset as int) {
        Ok((rec, size)) => {
            &&& size == pos.size
            &&& rec.rec_type == LogRecodType::NORMAL
            &&& match parse_key(rec.key) {
                Some((k, _)) => k == key,
                None => false,
            }
        },
        Err(_) => false,
    }
}

/// The value of the record at `pos`.
pub open spec fn value_at(segs: Map<u32, Seq<u8>>, pos: LogRecodPos) -> Seq<u8> {
    (decode_record(segs[pos.file_id], pos.offset as int)->Ok_0).0.value
}

/// The store that a directory stands for: each key with the value of the
/// record at its position.
pub open spec fn store_view(segs: Map<u32, Seq<u8>>, index: Map<Seq<u8>, LogRecodPos>) -> Map<
    Seq<u8>,
    Seq<u8>,
> {
    Map::new(|k: Seq<u8>| index.contains_key(k), |k: Seq<u8>| value_at(segs, index[k]))
}

/// Every entry of the directory points at a live record of its key.
pub open spec fn all_live(segs: Map<u32, Seq<u8>>, index: Map<Seq<u8>, LogRecodPos>) -> bool {
    forall|k: Seq<u8>| #[trigger] index.contains_key(k) ==> live(segs, k, index[k])
}

/// `later` holds every segment of `earlier`, each with the same bytes and
/// possibly more behind them.
pub open spec fn extends(earlier: Map<u32, Seq<u8>>, later: Map<u32, Seq<u8>>) -> bool {
    forall|id: u32| #[trigger]
        earlier.contains_key(id) ==> later.contains_key(id) && earlier[id].is_prefix_of(later[id])
}

/// A live record stays live when segments grow and new ones are added.
pub proof fn lemma_live_extends(
    earlier: Map<u32, Seq<u8>>,
    later: Map<u32, Seq<u8>>,
    key: Seq<u8>,
    pos: LogRecodPos,
)
    requires
        extends(earlier, later),
        live(earlier, key, pos),
    ensures
        live(later, key, pos),
        value_at(later, pos) == value_at(earlier, pos),
{
    assert(earlier.contains_key(pos.file_id));
    let a = earlier[pos.file_id];
    let b = later[pos.file_id];
    let more = b.skip(a.len() as int);
    assert(b =~= a + more);
    lemma_decode_append(a, more, pos.offset as int);
}

/// A directory of live records stays one when segments grow and new ones are added.
pub proof fn lemma_all_live_extends(
    earlier: Map<u32, Seq<u8>>,
    later: Map<u32, Seq<u8>>,
    index: Map<Seq<u8>, LogRecodPos>,
)
    requires
        extends(earlier, later),
        all_live(earlier, index),
    ensures
        all_live(later, index),
{
    assert forall|k: Seq<u8>| #[trigger] index.contains_key(k) implies live(later, k, index[k]) by {
        lemma_live_extends(earlier, later, k, index[k]);
    }
}

/// The store of a directory of live records stays the same when segments
/// grow and new ones are added.
pub proof fn lemma_store_extends(
    earlier: Map<u32, Seq<u8>>,
    later: Map<u32, Seq<u8>>,
    index: Map<Seq<u8>, LogRecodPos>,
)
    requires
        extends(earlier, later),
        all_live(earlier, index),
    ensures
        store_view(later, index) == store_view(earlier, index),
{
    assert forall|k: Seq<u8>| #[trigger] index.contains_key(k) implies value_at(later, index[k])
        == value_at(earlier, index[k]) by {
        lemma_live_extends(earlier, later, k, index[k]);
    }
    assert(store_view(later, index) =~= store_view(earlier, index));
}

/// Growing is transitive, and every map of segments extends itself.
pub proof fn lemma_extends_transitive(a: Map<u32, Seq<u8>>, b: Map<u32, Seq<u8>>, c: Map<u32, Seq<u8>>)
    requires
        extends(a, b),
        extends(b, c),
    ensures
        extends(a, c),
        extends(a, a),
{
    assert forall|id: u32| #[trigger] a.contains_key(id) implies c.contains_key(id)
        && a[id].is_prefix_of(c[id]) by {
        assert(b.contains_key(id));
        assert(a[id] =~= c[id].subrange(0, a[id].len() as int)) by {
            assert(a[id] =~= b[id].subrange(0, a[id].len() as int));
            assert(b[id] =~= c[id].subrange(0, b[id].len() as int));
        }
    }
    assert forall|id: u32| #[trigger] a.contains_key(id) implies a[id].is_prefix_of(a[id]) by {
        assert(a[id] =~= a[id].subrange(0, a[id].len() as int));
    }
}

/// The store after the writes of a batch take effect, in their order: a
/// record of the type NORMAL sets the value of its key, a deletion removes
/// the key.
pub open spec fn apply_writes(store: Map<Seq<u8>, Seq<u8>>, recs: Seq<LogRecordView>) -> Map<
    Seq<u8>,
    Seq<u8>,
>
    decreases recs.len(),
{
    if recs.len() == 0 {
        store
    } else {
        let r = recs[0];
        let next = match r.rec_type {
            LogRecodType::NORMAL => store.insert(r.key, r.value),
            LogRecodType::DELETED => store.remove(r.key),
            LogRecodType::TXNFINSHED => store,
        };
        apply_writes(next, recs.drop_first())
    }
}

/// The records `recs` stand at the positions that `placed` gives them: each
/// `placed[i]` has the key and the type of `recs[i]`, and where the type is
/// NORMAL, its position holds a live record of the key with the value of
/// `recs[i]`.
pub open spec fn placed_at(segs: Map<u32, Seq<u8>>, recs: Seq<LogRecordView>, placed: Seq<PendingView>) -> bool {
    &&& recs.len() == placed.len()
    &&& forall|i: int|
        0 <= i < recs.len() ==> (#[trigger] placed[i]).key == recs[i].key && placed[i].rec_type
            == recs[i].rec_type && (recs[i].rec_type == LogRecodType::NORMAL ==> live(
            segs,
            recs[i].key,
            placed[i].pos,
        ) && value_at(segs, placed[i].pos) == recs[i].value)
}

/// The records of a batch that take effect on the directory change the
/// store as the writes of the batch say.
pub proof fn lemma_apply_all_store(
    segs: Map<u32, Seq<u8>>,
    index: Map<Seq<u8>, LogRecodPos>,
    reclaim: nat,
    recs: Seq<LogRecordView>,
    placed: Seq<PendingView>,
)
    requires
        placed_at(segs, recs, placed),
    ensures
        store_view(segs, apply_all(index, reclaim, placed).0) == apply_writes(
            store_view(segs, index),
            recs,
        ),
    decreases recs.len(),
{
    if recs.len() > 0 {
        let r = recs[0];
        let p = placed[0];
        let next = apply_record(index, p.key, p.rec_type, p.pos);
        assert(placed_at(segs, recs.drop_first(), placed.drop_first())) by {
            assert forall|i: int| 0 <= i < recs.drop_first().len() implies (
            #[trigger] placed.drop_first()[i]).key == recs.drop_first()[i].key by {
                assert(placed.drop_first()[i] == placed[i + 1]);
                assert(recs.drop_first()[i] == recs[i + 1]);
            }
            assert forall|i: int| 0 <= i < recs.drop_first().len() implies (
            #[trigger] placed.drop_first()[i]).key == recs.drop_first()[i].key
                && placed.drop_first()[i].rec_type == recs.drop_first()[i].rec_type && (
            recs.drop_first()[i].rec_type == LogRecodType::NORMAL ==> live(
                segs,
                recs.drop_first()[i].key,
                placed.drop_first()[i].pos,
            ) && value_at(segs, placed.drop_first()[i].pos) == recs.drop_first()[i].value) by {
                assert(placed.drop_first()[i] == placed[i + 1]);
                assert(recs.drop_first()[i] == recs[i + 1]);
            }
        }
        lemma_apply_all_store(
            segs,
            next,
            reclaim + reclaimed_by(index, p.key, p.rec_type, p.pos),
            recs.drop_first(),
            placed.drop_first(),
        );
        let store = store_view(segs, index);
        let stepped = match r.rec_type {
            LogRecodType::NORMAL => store.insert(r.key, r.value),
            LogRecodType::DELETED => store.remove(r.key),
            LogRecodType::TXNFINSHED => store,
        };
        assert(store_view(segs, next) =~= stepped);
    }
}

/// A record of a batch that waits for the end of its batch.
pub struct PendingView {
    pub key: Seq<u8>,
    pub rec_type: LogRecodType,
    pub pos: LogRecodPos,
}

/// What recovery knows after some records.
pub struct ReplayState {
    /// The key directory.
    pub index: Map<Seq<u8>, LogRecodPos>,
    /// The records of the batches whose end was not read yet, by sequence number.
    pub pending: Map<usize, Seq<PendingView>>,
    /// The largest sequence number read.
    pub max_seq: nat,
    /// The bytes of the records that later ones made obsolete.
    pub reclaim: nat,
    /// The offset at which the log of the segment read last ended.
    pub end: nat,
}

/// The state before any record is read, with the directory `index`.
pub open spec fn initial_state(index: Map<Seq<u8>, LogRecodPos>) -> ReplayState {
    ReplayState { index, pending: Map::empty(), max_seq: 0, reclaim: 0, end: 0 }
}

/// The directory after a record of `key` with the type `rec_type`, at `pos`,
/// takes effect.
pub open spec fn apply_record(
    index: Map<Seq<u8>, LogRecodPos>,
    key: Seq<u8>,
    rec_type: LogRecodType,
    pos: LogRecodPos,
) -> Map<Seq<u8>, LogRecodPos> {
    match rec_type {
        LogRecodType::NORMAL => index.insert(key, pos),
        LogRecodType::DELETED => index.remove(key),
        LogRecodType::TXNFINSHED => index,
    }
}

/// The bytes that become obsolete when such a record takes effect: the
/// record that the directory had for the key, and a deletion itself.
pub open spec fn reclaimed_by(
    index: Map<Seq<u8>, LogRecodPos>,
    key: Seq<u8>,
    rec_type: LogRecodType,
    pos: LogRecodPos,
) -> nat {
    let displaced: nat = if index.contains_key(key) {
        index[key].size as nat
    } else {
        0
    };
    match rec_type {
        LogRecodType::NORMAL => displaced,
        LogRecodType::DELETED => pos.size as nat + displaced,
        LogRecodType::TXNFINSHED => 0,
    }
}

/// The directory and the obsolete bytes after the records of a batch take
/// effect, in their order.
pub open spec fn apply_all(index: Map<Seq<u8>, LogRecodPos>, reclaim: nat, recs: Seq<PendingView>) -> (
    Map<Seq<u8>, LogRecodPos>,
    nat,
)
    decreases recs.len(),
{
    if recs.len() == 0 {
        (index, reclaim)
    } else {
        let r = recs[0];
        apply_all(
            apply_record(index, r.key, r.rec_type, r.pos),
            reclaim + reclaimed_by(index, r.key, r.rec_type, r.pos),
            recs.drop_first(),
        )
    }
}

/// What the records of a batch do to the directory does not depend on the
/// obsolete bytes counted before, and what they add to these does not
/// either.
pub proof fn lemma_apply_all_reclaim(index: Map<Seq<u8>, LogRecodPos>, a: nat, b: nat, recs: Seq<PendingView>)
    ensures
        apply_all(index, a, recs).0 == apply_all(index, b, recs).0,
        apply_all(index, a, recs).1 - a == apply_all(index, b, recs).1 - b,
        apply_all(index, a, recs).1 >= a,
    decreases recs.len(),
{
    if recs.len() > 0 {
        let r = recs[0];
        let next = apply_record(index, r.key, r.rec_type, r.pos);
        let d = reclaimed_by(index, r.key, r.rec_type, r.pos);
        lemma_apply_all_reclaim(next, a + d, b + d, recs.drop_first());
    }
}

/// The records that wait under the sequence number `seq`.
pub open spec fn waiting(pending: Map<usize, Seq<PendingView>>, seq: usize) -> Seq<PendingView> {
    if pending.contains_key(seq) {
        pending[seq]
    } else {
        Seq::empty()
    }
}

/// The state after the record `rec`, read at `offset` of the segment
/// `file_id` with the length `size`. A key without a sequence number in
/// front, a key that is empty behind it, and a length beyond 32 bits, are
/// corruption.
pub open spec fn replay_step(
    st: ReplayState,
    file_id: u32,
    offset: nat,
    rec: LogRecordView,
    size: nat,
) -> Result<ReplayState, Errors> {
    if size > u32::MAX || offset > u64::MAX {
        Err(Errors::DataDirectoryCorruped)
    } else {
        match parse_key(rec.key) {
            None => Err(Errors::DataDirectoryCorruped),
            Some((key, seq)) => {
                let pos = LogRecodPos { file_id, offset: offset as u64, size: size as u32 };
                let max_seq = if seq > st.max_seq {
                    seq
                } else {
                    st.max_seq
                };
                if key.len() == 0 {
                    Err(Errors::DataDirectoryCorruped)
                } else if seq == 0 {
                    Ok(
                        ReplayState {
                            index: apply_record(st.index, key, rec.rec_type, pos),
                            pending: st.pending,
                            max_seq,
                            reclaim: st.reclaim + reclaimed_by(st.index, key, rec.rec_type, pos),
                            end: st.end,
                        },
                    )
                } else if rec.rec_type == LogRecodType::TXNFINSHED {
                    let done = apply_all(st.index, st.reclaim, waiting(st.pending, seq as usize));
                    Ok(
                        ReplayState {
                            index: done.0,
                            pending: st.pending.remove(seq as usize),
                            max_seq,
                            reclaim: done.1,
                            end: st.end,
                        },
                    )
                } else {
                    Ok(
                        ReplayState {
                            index: st.index,
                            pending: st.pending.insert(
                                seq as usize,
                                waiting(st.pending, seq as usize).push(
                                    PendingView { key, rec_type: rec.rec_type, pos },
                                ),
                            ),
                            max_seq,
                            reclaim: st.reclaim,
                            end: st.end,
                        },
                    )
                }
            },
        }
    }
}

/// The state after the records of the segment `file_id` from `offset` on.
pub open spec fn replay_file(st: ReplayState, file_id: u32, data: Seq<u8>, offset: nat) -> Result<
    ReplayState,
    Errors,
>
    decreases data.len() - offset,
{
    match decode_record(data, offset as int) {
        Err(e) => if e == Errors::ReadDataFileEOF {
            Ok(
                ReplayState {
                    index: st.index,
                    pending: st.pending,
                    max_seq: st.max_seq,
                    reclaim: st.reclaim,
                    end: offset,
                },
            )
        } else {
            Err(e)
        },
        Ok((rec, size)) => if size == 0 || offset + size > data.len() {
            Err(Errors::DataDirectoryCorruped)
        } else {
            match replay_step(st, file_id, offset, rec, size) {
                Err(e) => Err(e),
                Ok(next) => replay_file(next, file_id, data, offset + size),
            }
        },
    }
}

/// The number of ids that a segment can have.
pub open spec fn id_count() -> nat {
    0x1_0000_0000
}

/// The state after the segments with an id under `upto`, in the order of
/// their ids. Segments with an id under `first` are passed over.
pub open spec fn replay_segments(st: ReplayState, segs: Map<u32, Seq<u8>>, first: u32, upto: nat) -> Result<
    ReplayState,
    Errors,
>
    decreases upto,
{
    if upto == 0 {
        Ok(st)
    } else {
        let id = (upto - 1) as u32;
        match replay_segments(st, segs, first, (upto - 1) as nat) {
            Err(e) => Err(e),
            Ok(prev) => if segs.contains_key(id) && id >= first {
                replay_file(prev, id, segs[id], 0)
            } else {
                Ok(prev)
            },
        }
    }
}

/// The state after all segments, in the order of their ids.
pub open spec fn replay_all(st: ReplayState, segs: Map<u32, Seq<u8>>, first: u32) -> Result<
    ReplayState,
    Errors,
> {
    replay_segments(st, segs, first, id_count())
}

/// Ids that name no segment to be read leave the state as it is.
pub proof fn lemma_replay_skip(st: ReplayState, segs: Map<u32, Seq<u8>>, first: u32, from: nat, upto: nat)
    requires
        from <= upto <= id_count(),
        forall|id: u32| from <= id < upto ==> !(#[trigger] segs.contains_key(id) && id >= first),
    ensures
        replay_segments(st, segs, first, upto) == replay_segments(st, segs, first, from),
    decreases upto,
{
    if from < upto {
        lemma_replay_skip(st, segs, first, from, (upto - 1) as nat);
        let id = (upto - 1) as u32;
        assert(!(segs.contains_key(id) && id >= first));
    }
}

/// Once the recovery of the first segments has failed, so has the recovery of
/// any more of them, with the same error.
pub proof fn lemma_replay_fails(st: ReplayState, segs: Map<u32, Seq<u8>>, first: u32, from: nat, upto: nat)
    requires
        from <= upto,
        replay_segments(st, segs, first, from) is Err,
    ensures
        replay_segments(st, segs, first, upto) == replay_segments(st, segs, first, from),
    decreases upto,
{
    if from < upto {
        lemma_replay_fails(st, segs, first, from, (upto - 1) as nat);
    }
}

/// Recovery reads the segments that it is given, and nothing else: two maps
/// of segments that agree on the ids under `upto` give the same state.
pub proof fn lemma_replay_agree(
    st: ReplayState,
    a: Map<u32, Seq<u8>>,
    b: Map<u32, Seq<u8>>,
    first: u32,
    upto: nat,
)
    requires
        upto <= id_count(),
        forall|id: u32|
            id < upto ==> (#[trigger] a.contains_key(id) <==> b.contains_key(id)) && (a.contains_key(
                id,
            ) ==> a[id] == b[id]),
    ensures
        replay_segments(st, a, first, upto) == replay_segments(st, b, first, upto),
    decreases upto,
{
    if upto > 0 {
        lemma_replay_agree(st, a, b, first, (upto - 1) as nat);
        let id = (upto - 1) as u32;
        assert(a.contains_key(id) <==> b.contains_key(id));
    }
}

/// The state `st`, with the log of the segment read last ending at `end`.
pub open spec fn with_end(st: ReplayState, end: nat) -> ReplayState {
    ReplayState { index: st.index, pending: st.pending, max_seq: st.max_seq, reclaim: st.reclaim, end }
}

/// What a record does to the state does not depend on where the log of the
/// segment read before ended.
pub proof fn lemma_step_end(st: ReplayState, end: nat, file_id: u32, offset: nat, rec: LogRecordView, size: nat)
    ensures
        replay_step(with_end(st, end), file_id, offset, rec, size) == (match replay_step(
            st,
            file_id,
            offset,
            rec,
            size,
        ) {
            Ok(next) => Ok(with_end(next, end)),
            Err(e) => Err(e),
        }),
{
}

/// A record that is appended to a segment whose log ends where the segment
/// ends is read behind all others, at the offset where the segment ended.
pub proof fn lemma_replay_file_append(
    st0: ReplayState,
    file_id: u32,
    data: Seq<u8>,
    offset: nat,
    rec: LogRecordView,
)
    requires
        offset <= data.len(),
        replay_file(st0, file_id, data, offset) is Ok,
        (replay_file(st0, file_id, data, offset)->Ok_0).end == data.len(),
        decodable(rec),
    ensures
        replay_file(st0, file_id, data + encode_record(rec), offset) == (match replay_step(
            replay_file(st0, file_id, data, offset)->Ok_0,
            file_id,
            data.len(),
            rec,
            encoded_size(rec),
        ) {
            Ok(next) => Ok(with_end(next, data.len() + encoded_size(rec))),
            Err(e) => Err(e),
        }),
    decreases data.len() - offset,
{
    let enc = encode_record(rec);
    let longer = data + enc;
    let size = encoded_size(rec);
    let st = replay_file(st0, file_id, data, offset)->Ok_0;
    lemma_encoded_size(rec);
    match decode_record(data, offset as int) {
        Err(e) => {
            assert(offset == data.len());
            assert(longer =~= data + enc + Seq::<u8>::empty());
            lemma_decode_appended(data, rec, Seq::empty());
            assert(decode_record(longer, offset as int) == Ok::<(LogRecordView, nat), Errors>((rec, size)));
            assert(st == with_end(st0, offset));
            lemma_step_end(st0, offset, file_id, offset, rec, size);
            match replay_step(st0, file_id, offset, rec, size) {
                Ok(next) => {
                    let end = (offset + size) as nat;
                    assert(decode_record(longer, end as int) is Err);
                    assert(replay_file(next, file_id, longer, end) == Ok::<ReplayState, Errors>(
                        with_end(next, end),
                    ));
                },
                Err(e) => {},
            }
        },
        Ok((found, n)) => {
            lemma_parse_size(data.skip(offset as int));
            lemma_decode_append(data, enc, offset as int);
            assert(decode_record(longer, offset as int) == decode_record(data, offset as int));
            match replay_step(st0, file_id, offset, found, n) {
                Ok(next) => {
                    lemma_replay_file_append(next, file_id, data, offset + n, rec);
                },
                Err(e) => {},
            }
        },
    }
}

/// The state after all segments is the state after the segments with an id
/// under that of the last, followed by the records of the last.
pub proof fn lemma_replay_last(st0: ReplayState, segs: Map<u32, Seq<u8>>, first: u32, last: u32)
    requires
        segs.contains_key(last),
        forall|id: u32| #[trigger] segs.contains_key(id) ==> id <= last,
        last >= first,
    ensures
        replay_all(st0, segs, first) == (match replay_segments(st0, segs, first, last as nat) {
            Ok(prev) => replay_file(prev, last, segs[last], 0),
            Err(e) => Err(e),
        }),
{
    lemma_replay_skip(st0, segs, first, (last + 1) as nat, id_count());
}

/// A record that is appended to the last segment, whose log ends where the
/// segment ends, takes effect behind all others.
pub proof fn lemma_replay_all_append(
    st0: ReplayState,
    segs: Map<u32, Seq<u8>>,
    first: u32,
    last: u32,
    rec: LogRecordView,
)
    requires
        segs.contains_key(last),
        forall|id: u32| #[trigger] segs.contains_key(id) ==> id <= last,
        last >= first,
        replay_all(st0, segs, first) is Ok,
        (replay_all(st0, segs, first)->Ok_0).end == segs[last].len(),
        decodable(rec),
    ensures
        replay_all(st0, segs.insert(last, segs[last] + encode_record(rec)), first) == (match replay_step(
            replay_all(st0, segs, first)->Ok_0,
            last,
            segs[last].len(),
            rec,
            encoded_size(rec),
        ) {
            Ok(next) => Ok(with_end(next, segs[last].len() + encoded_size(rec))),
            Err(e) => Err(e),
        }),
{
    let later = segs.insert(last, segs[last] + encode_record(rec));
    lemma_replay_last(st0, segs, first, last);
    lemma_replay_last(st0, later, first, last);
    lemma_replay_agree(st0, segs, later, first, last as nat);
    let prev = replay_segments(st0, segs, first, last as nat)->Ok_0;
    lemma_replay_file_append(prev, last, segs[last], 0, rec);
}

/// A new, empty segment behind the last leaves the state of recovery as it
/// is, but for the end of the log read last, which is 0.
pub proof fn lemma_replay_all_rotate(st0: ReplayState, segs: Map<u32, Seq<u8>>, first: u32, last: u32)
    requires
        segs.contains_key(last),
        forall|id: u32| #[trigger] segs.contains_key(id) ==> id <= last,
        last >= first,
        last < u32::MAX,
        replay_all(st0, segs, first) is Ok,
    ensures
        replay_all(st0, segs.insert((last + 1) as u32, Seq::empty()), first) == Ok::<
            ReplayState,
            Errors,
        >(with_end(replay_all(st0, segs, first)->Ok_0, 0)),
{
    let next = (last + 1) as u32;
    let later = segs.insert(next, Seq::empty());
    lemma_replay_skip(st0, segs, first, (last + 1) as nat, id_count());
    lemma_replay_last(st0, later, first, next);
    lemma_replay_agree(st0, segs, later, first, next as nat);
    let st = replay_all(st0, segs, first)->Ok_0;
    assert(replay_segments(st0, later, first, next as nat) == Ok::<ReplayState, Errors>(st));
    assert(decode_record(Seq::<u8>::empty(), 0) is Err);
    assert(replay_file(st, next, Seq::<u8>::empty(), 0) == Ok::<ReplayState, Errors>(with_end(st, 0)));
}

/// Every batch whose records wait has a sequence number that was read.
pub open spec fn pending_bounded(st: ReplayState) -> bool {
    forall|seq: usize| #[trigger] st.pending.contains_key(seq) ==> seq <= st.max_seq
}

/// A record keeps the sequence numbers of the waiting batches among those read.
pub proof fn lemma_step_bounded(st: ReplayState, file_id: u32, offset: nat, rec: LogRecordView, size: nat)
    requires
        pending_bounded(st),
        replay_step(st, file_id, offset, rec, size) is Ok,
    ensures
        pending_bounded(replay_step(st, file_id, offset, rec, size)->Ok_0),
        (replay_step(st, file_id, offset, rec, size)->Ok_0).max_seq >= st.max_seq,
{
    let next = replay_step(st, file_id, offset, rec, size)->Ok_0;
    assert forall|seq: usize| #[trigger] next.pending.contains_key(seq) implies seq <= next.max_seq by {
        if st.pending.contains_key(seq) {
        }
    }
}

/// The records of a segment keep the sequence numbers of the waiting
/// batches among those read.
pub proof fn lemma_file_bounded(st: ReplayState, file_id: u32, data: Seq<u8>, offset: nat)
    requires
        pending_bounded(st),
        replay_file(st, file_id, data, offset) is Ok,
    ensures
        pending_bounded(replay_file(st, file_id, data, offset)->Ok_0),
    decreases data.len() - offset,
{
    match decode_record(data, offset as int) {
        Err(e) => {},
        Ok((rec, size)) => {
            lemma_step_bounded(st, file_id, offset, rec, size);
            lemma_file_bounded(replay_step(st, file_id, offset, rec, size)->Ok_0, file_id, data, offset + size);
        },
    }
}

/// The records of the segments keep the sequence numbers of the waiting
/// batches among those read.
pub proof fn lemma_segments_bounded(st: ReplayState, segs: Map<u32, Seq<u8>>, first: u32, upto: nat)
    requires
        pending_bounded(st),
        replay_segments(st, segs, first, upto) is Ok,
    ensures
        pending_bounded(replay_segments(st, segs, first, upto)->Ok_0),
    decreases upto,
{
    if upto > 0 {
        let id = (upto - 1) as u32;
        lemma_segments_bounded(st, segs, first, (upto - 1) as nat);
        let prev = replay_segments(st, segs, first, (upto - 1) as nat)->Ok_0;
        if segs.contains_key(id) && id >= first {
            lemma_file_bounded(prev, id, segs[id], 0);
        }
    }
}

/// `n`, or the largest number of 64 bits where `n` is larger.
pub open spec fn clamp(n: int) -> u64 {
    if n > u64::MAX {
        u64::MAX
    } else if n < 0 {
        0
    } else {
        n as u64
    }
}

/// The sum of two counts of bytes, stopping at the largest number of 64 bits.
pub fn add_clamped(a: u64, b: u64) -> (sum: u64)
    ensures
        sum == clamp(a + b),
{
    if a > u64::MAX - b {
        u64::MAX
    } else {
        a + b
    }
}

/// The records of a batch as mathematical values.
pub open spec fn pending_views(recs: Seq<TransactionRecord>) -> Seq<PendingView> {
    Seq::new(
        recs.len(),
        |i: int| PendingView { key: recs[i].record.key@, rec_type: recs[i].record.rec_type, pos: recs[i].pos },
    )
}

/// The waiting records of all batches as mathematical values.
pub open spec fn pending_map(m: Map<usize, Vec<TransactionRecord>>) -> Map<usize, Seq<PendingView>> {
    Map::new(|seq: usize| m.contains_key(seq), |seq: usize| pending_views(m[seq]@))
}

/// Every waiting record of the type NORMAL is a live record of its key.
pub open spec fn pending_live(segs: Map<u32, Seq<u8>>, recs: Seq<PendingView>) -> bool {
    forall|i: int|
        0 <= i < recs.len() && (#[trigger] recs[i]).rec_type == LogRecodType::NORMAL ==> live(
            segs,
            recs[i].key,
            recs[i].pos,
        )
}

/// Every waiting record of every batch that is of the type NORMAL is a live record.
pub open spec fn all_pending_live(segs: Map<u32, Seq<u8>>, pending: Map<usize, Seq<PendingView>>) -> bool {
    forall|seq: usize| #[trigger] pending.contains_key(seq) ==> pending_live(segs, pending[seq])
}

/// A record of `key` with the type `rec_type`, at `pos`, takes effect on the
/// directory, and what it makes obsolete is added to `reclaim`.
pub fn update_index(
    index: &mut Index,
    reclaim: &mut u64,
    key: Vec<u8>,
    rec_type: LogRecodType,
    pos: LogRecodPos,
)
    requires
        old(index).valid(),
    ensures
        final(index).valid(),
        final(index).index_type() == old(index).index_type(),
        final(index).view() == apply_record(old(index).view(), key@, rec_type, pos),
        *final(reclaim) == clamp(
            *old(reclaim) + reclaimed_by(old(index).view(), key@, rec_type, pos),
        ),
{
    match rec_type {
        LogRecodType::NORMAL => {
            if let Some(old_pos) = index.put(key, pos) {
                *reclaim = add_clamped(*reclaim, old_pos.size as u64);
            }
        },
        LogRecodType::DELETED => {
            let mut size: u64 = pos.size as u64;
            if let Some(old_pos) = index.delete(key.as_slice()) {
                size = size + old_pos.size as u64;
            }
            *reclaim = add_clamped(*reclaim, size);
        },
        LogRecodType::TXNFINSHED => {},
    }
}

/// What recovery found beside the directory.
pub struct Recovered {
    /// The largest sequence number read.
    pub max_seq: usize,
    /// The bytes of the records that later ones made obsolete.
    pub reclaim: u64,
    /// The offset at which the log of the segment read last ended.
    pub end: u64,
}

/// The records of a batch take effect on the directory, in their order.
pub(crate) fn apply_pending(
    index: &mut Index,
    reclaim: &mut u64,
    records: &Vec<TransactionRecord>,
    Ghost(segs): Ghost<Map<u32, Seq<u8>>>,
    Ghost(before): Ghost<nat>,
)
    requires
        old(index).valid(),
        all_live(segs, old(index).view()),
        pending_live(segs, pending_views(records@)),
        *old(reclaim) == clamp(before as int),
    ensures
        final(index).valid(),
        final(index).index_type() == old(index).index_type(),
        all_live(segs, final(index).view()),
        final(index).view() == apply_all(old(index).view(), before, pending_views(records@)).0,
        *final(reclaim) == clamp(
            apply_all(old(index).view(), before, pending_views(records@)).1 as int,
        ),
{
    let ghost recs = pending_views(records@);
    let ghost mut spent: nat = before;
    let mut i: usize = 0;
    assert(recs.skip(0) =~= recs);
    while i < records.len()
        invariant
            i <= records@.len(),
            recs == pending_views(records@),
            index.valid(),
            index.index_type() == old(index).index_type(),
            all_live(segs, index.view()),
            pending_live(segs, recs),
            *reclaim == clamp(spent as int),
            apply_all(old(index).view(), before, recs) == apply_all(
                index.view(),
                spent,
                recs.skip(i as int),
            ),
        decreases records@.len() - i,
    {
        let item = &records[i];
        let ghost r = recs[i as int];
        let ghost before_index = index.view();
        proof {
            assert(recs.skip(i as int)[0] == r);
            assert(recs.skip(i as int).drop_first() =~= recs.skip(i + 1));
            assert(r.key == item.record.key@ && r.rec_type == item.record.rec_type && r.pos
                == item.pos);
        }
        update_index(index, reclaim, copy_key(item.record.key.as_slice()), item.record.rec_type, item.pos);
        proof {
            spent = spent + reclaimed_by(before_index, r.key, r.rec_type, r.pos);
            lemma_apply_keeps_live(segs, before_index, r.key, r.rec_type, r.pos);
        }
        i += 1;
    }
}

/// A record that takes effect keeps the directory one of live records, where
/// a record of the type NORMAL is itself live.
pub proof fn lemma_apply_keeps_live(
    segs: Map<u32, Seq<u8>>,
    index: Map<Seq<u8>, LogRecodPos>,
    key: Seq<u8>,
    rec_type: LogRecodType,
    pos: LogRecodPos,
)
    requires
        all_live(segs, index),
        rec_type == LogRecodType::NORMAL ==> live(segs, key, pos),
    ensures
        all_live(segs, apply_record(index, key, rec_type, pos)),
{
    let after = apply_record(index, key, rec_type, pos);
    assert forall|k: Seq<u8>| #[trigger] after.contains_key(k) implies live(segs, k, after[k]) by {
        if k != key {
            assert(index.contains_key(k));
        }
    }
}

/// Reads the records of `file` from its first byte to the end of its log,
/// and lets each take effect.
fn replay_data_file(
    index: &mut Index,
    pending: &mut HashMap<usize, Vec<TransactionRecord>>,
    progress: &mut Recovered,
    file: &DataFile,
    Ghost(segs): Ghost<Map<u32, Seq<u8>>>,
    Ghost(st0): Ghost<ReplayState>,
) -> (res: Result<(), Errors>)
    requires
        old(index).valid(),
        file.valid(),
        segs.contains_pair(file.id(), file.bytes()),
        old(index).view() == st0.index,
        pending_map(old(pending)@) == st0.pending,
        old(progress).max_seq == st0.max_seq,
        old(progress).reclaim == clamp(st0.reclaim as int),
        all_live(segs, st0.index),
        all_pending_live(segs, st0.pending),
    ensures
        final(index).valid(),
        final(index).index_type() == old(index).index_type(),
        match replay_file(st0, file.id(), file.bytes(), 0) {
            Ok(st) => {
                &&& res is Ok
                &&& final(index).view() == st.index
                &&& pending_map(final(pending)@) == st.pending
                &&& final(progress).max_seq == st.max_seq
                &&& final(progress).reclaim == clamp(st.reclaim as int)
                &&& final(progress).end == st.end
                &&& all_live(segs, st.index)
                &&& all_pending_live(segs, st.pending)
            },
            Err(e) => res is Err && res->Err_0 == e,
        },
{
    let ghost mut st = st0;
    let ghost data = file.bytes();
    let file_id = file.get_file_id();
    let mut offset: u64 = 0;
    proof {
        file.lemma_valid();
    }
    loop
        invariant
            index.valid(),
            index.index_type() == old(index).index_type(),
            file.valid(),
            data == file.bytes(),
            file_id == file.id(),
            data.len() <= usize::MAX,
            offset <= data.len(),
            segs.contains_pair(file_id, data),
            index.view() == st.index,
            pending_map(pending@) == st.pending,
            progress.max_seq == st.max_seq,
            progress.reclaim == clamp(st.reclaim as int),
            all_live(segs, st.index),
            all_pending_live(segs, st.pending),
            replay_file(st0, file_id, data, 0) == replay_file(st, file_id, data, offset as nat),
        decreases data.len() - offset,
    {
        let read = match file.read_log_record(offset) {
            Ok(read) => read,
            Err(e) => {
                if e == Errors::ReadDataFileEOF {
                    progress.end = offset;
                    return Ok(());
                }
                return Err(e);
            },
        };
        let size = read.size;
        let record = read.record;
        let ghost rec = record@;
        proof {
            lemma_parse_size(data.skip(offset as int));
        }
        if size > u32::MAX as usize {
            return Err(Errors::DataDirectoryCorruped);
        }
        let pos = LogRecodPos { file_id, offset, size: size as u32 };
        let (real_key, seq) = match parse_log_record_key(record.key.as_slice()) {
            Some(parsed) => parsed,
            None => {
                return Err(Errors::DataDirectoryCorruped);
            },
        };
        if real_key.len() == 0 {
            return Err(Errors::DataDirectoryCorruped);
        }
        let ghost next = replay_step(st, file_id, offset as nat, rec, size as nat)->Ok_0;
        let rec_type = record.rec_type;
        proof {
            if rec_type == LogRecodType::NORMAL {
                assert(live(segs, real_key@, pos));
            }
        }
        if seq == 0 {
            proof {
                lemma_apply_keeps_live(segs, st.index, real_key@, rec_type, pos);
            }
            let mut reclaim = progress.reclaim;
            update_index(index, &mut reclaim, real_key, rec_type, pos);
            progress.reclaim = reclaim;
        } else if rec_type == LogRecodType::TXNFINSHED {
            let waiting_records = pending.remove(&seq);
            assert(pending_map(pending@) =~= st.pending.remove(seq));
            match waiting_records {
                Some(records) => {
                    assert(st.pending.contains_key(seq));
                    assert(pending_views(records@) == waiting(st.pending, seq));
                    let mut reclaim = progress.reclaim;
                    apply_pending(index, &mut reclaim, &records, Ghost(segs), Ghost(st.reclaim));
                    progress.reclaim = reclaim;
                },
                None => {
                    assert(!st.pending.contains_key(seq));
                },
            }
        } else {
            let ghost before = pending@;
            let mut list = match pending.remove(&seq) {
                Some(list) => list,
                None => Vec::new(),
            };
            let ghost earlier = pending_views(list@);
            assert(earlier =~= waiting(st.pending, seq));
            list.push(
                TransactionRecord {
                    record: LogRecord { key: real_key, value: record.value, rec_type },
                    pos,
                },
            );
            proof {
                let added = PendingView { key: real_key@, rec_type, pos };
                assert(pending_views(list@) =~= earlier.push(added));
                assert(pending_live(segs, earlier)) by {
                    if st.pending.contains_key(seq) {
                    }
                }
            }
            let ghost views = pending_views(list@);
            pending.insert(seq, list);
            proof {
                assert(pending_map(pending@) =~= st.pending.insert(seq, views));
                assert forall|s: usize| #[trigger] next.pending.contains_key(s) implies pending_live(
                    segs,
                    next.pending[s],
                ) by {
                    if s != seq {
                        assert(st.pending.contains_key(s));
                    }
                }
            }
        }
        if seq > progress.max_seq {
            progress.max_seq = seq;
        }
        proof {
            st = next;
        }
        offset = offset + size as u64;
    }
}

/// Rebuilds the key directory from the segments `files`, in the order of
/// their ids. Segments with an id under `first` are passed over.
pub fn load_index_from_data_files(index: &mut Index, files: &Vec<DataFile>, first: u32) -> (res:
    Result<Recovered, Errors>)
    requires
        old(index).valid(),
        ascending_ids(files@),
        forall|i: int| 0 <= i < files@.len() ==> (#[trigger] files@[i]).valid(),
        all_live(segments_of(files@), old(index).view()),
    ensures
        final(index).valid(),
        final(index).index_type() == old(index).index_type(),
        match replay_all(initial_state(old(index).view()), segments_of(files@), first) {
            Ok(st) => {
                &&& res is Ok
                &&& final(index).view() == st.index
                &&& res->Ok_0.max_seq == st.max_seq
                &&& res->Ok_0.reclaim == clamp(st.reclaim as int)
                &&& res->Ok_0.end == st.end
                &&& all_live(segments_of(files@), st.index)
            },
            Err(e) => res is Err && res->Err_0 == e,
        },
{
    let ghost st0 = initial_state(index.view());
    let ghost segs = segments_of(files@);
    let ghost mut st = st0;
    let ghost mut done: nat = 0;
    let mut progress = Recovered { max_seq: 0, reclaim: 0, end: 0 };
    let mut pending: HashMap<usize, Vec<TransactionRecord>> = HashMap::new();
    assert(pending_map(pending@) =~= st0.pending);
    let mut i: usize = 0;
    while i < files.len()
        invariant
            i <= files@.len(),
            index.valid(),
            index.index_type() == old(index).index_type(),
            ascending_ids(files@),
            forall|j: int| 0 <= j < files@.len() ==> (#[trigger] files@[j]).valid(),
            segs == segments_of(files@),
            st0 == initial_state(old(index).view()),
            done <= id_count(),
            forall|j: int| 0 <= j < i ==> (#[trigger] files@[j]).id() < done,
            forall|j: int| i <= j < files@.len() ==> (#[trigger] files@[j]).id() >= done,
            replay_segments(st0, segs, first, done) == Ok::<ReplayState, Errors>(st),
            index.view() == st.index,
            pending_map(pending@) == st.pending,
            progress.max_seq == st.max_seq,
            progress.reclaim == clamp(st.reclaim as int),
            progress.end == st.end,
            all_live(segs, st.index),
            all_pending_live(segs, st.pending),
        decreases files@.len() - i,
    {
        let file = &files[i];
        let file_id = file.get_file_id();
        proof {
            lemma_segment_at(files@, i as int);
            lemma_no_segment_between(files@, i as int, done, file_id as nat);
            lemma_replay_skip(st0, segs, first, done, file_id as nat);
            assert(replay_segments(st0, segs, first, (file_id + 1) as nat) == (if file_id >= first {
                replay_file(st, file_id, file.bytes(), 0)
            } else {
                Ok(st)
            }));
            assert forall|j: int| i + 1 <= j < files@.len() implies (#[trigger] files@[j]).id()
                >= file_id + 1 by {
                assert(files@[i as int].id() < files@[j].id());
            }
        }
        if file_id >= first {
            let ghost before = st;
            match replay_data_file(index, &mut pending, &mut progress, file, Ghost(segs), Ghost(st)) {
                Ok(()) => {
                    proof {
                        st = replay_file(before, file.id(), file.bytes(), 0)->Ok_0;
                    }
                },
                Err(e) => {
                    proof {
                        lemma_replay_fails(st0, segs, first, (file_id + 1) as nat, id_count());
                    }
                    return Err(e);
                },
            }
        }
        proof {
            done = (file_id + 1) as nat;
        }
        i += 1;
    }
    proof {
        assert forall|id: u32| done <= id < id_count() implies !(#[trigger] segs.contains_key(id)
            && id >= first) by {
            if segs.contains_key(id) {
                lemma_segment_ids(files@, id);
                let j = choose|j: int| 0 <= j < files@.len() && (#[trigger] files@[j]).id() == id;
                assert(files@[j].id() < done);
            }
        }
        lemma_replay_skip(st0, segs, first, done, id_count());
    }
    Ok(progress)
}

/// Between the ids of the segments read so far and the id of the next there
/// is no segment.
pub proof fn lemma_no_segment_between(files: Seq<DataFile>, i: int, done: nat, id: nat)
    requires
        ascending_ids(files),
        0 <= i < files.len(),
        files[i].id() == id,
        forall|j: int| 0 <= j < i ==> (#[trigger] files[j]).id() < done,
        forall|j: int| i <= j < files.len() ==> (#[trigger] files[j]).id() >= done,
    ensures
        done <= id,
        forall|k: u32| done <= k < id ==> !#[trigger] segments_of(files).contains_key(k),
{
    assert(files[i].id() >= done);
    assert forall|k: u32| done <= k < id implies !#[trigger] segments_of(files).contains_key(k) by {
        if segments_of(files).contains_key(k) {
            lemma_segment_ids(files, k);
            let j = choose|j: int| 0 <= j < files.len() && (#[trigger] files[j]).id() == k;
            if j < i {
                assert(files[j].id() < done);
            } else if j > i {
                assert(files[i].id() < files[j].id());
            }
        }
    }
}

} // verus!
