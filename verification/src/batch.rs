//! Batches: writes that are buffered, and become visible together or not at
//! all; and the sequence number that the key of every record carries.

use crate::data::log_record::{encoded_size, LogRecodPos, LogRecodType, LogRecord, LogRecordView};
use crate::data::log_record::{TransactionRecord};
use crate::data::varint::{decode_length_delimiter, encode_length_delimiter};
use crate::data::varint::{lemma_varint_len, lemma_varint_roundtrip, varint, varint_decode};
use crate::db::{log_append, Engine, LogState};
use crate::errors::Errors;
use crate::index::{bytes_lt, compare_keys, copy_key, KeyOrder};
use crate::index::{lemma_bytes_lt_asymmetric, lemma_bytes_lt_irreflexive, lemma_bytes_lt_transitive};
use crate::options::{IndexType, Options, WriteBatchOptions};
use crate::recovery::{apply_all, apply_writes, clamp, extends, live, pending_live, pending_views, value_at};
use crate::recovery::{lemma_apply_all_store, lemma_extends_transitive, lemma_live_extends};
use crate::recovery::{lemma_apply_all_reclaim, lemma_store_extends, placed_at, store_view, PendingView};
use crate::recovery::{pending_bounded, replay_step, waiting, with_end, ReplayState};
use vstd::prelude::*;
use vstd::slice::slice_to_vec;

verus! {

/// The sequence number of a write that belongs to no batch.
pub const NON_TRANSACTION_SEQ_NO: usize = 0;

/// The ASCII bytes of `txn-fin`, the key of the record that ends a batch.
pub open spec fn txn_fin_key() -> Seq<u8> {
    seq![116u8, 120, 110, 45, 102, 105, 110]
}

/// The bytes `txn-fin`.
pub fn txn_fin_key_bytes() -> (key: Vec<u8>)
    ensures
        key@ == txn_fin_key(),
{
    let key: Vec<u8> = vec![116u8, 120, 110, 45, 102, 105, 110];
    assert(key@ =~= txn_fin_key());
    key
}

/// The key of a record on disk: the delimiter of the sequence number, and
/// the key itself.
pub open spec fn key_with_seq(key: Seq<u8>, seq: nat) -> Seq<u8> {
    varint(seq) + key
}

/// The key and the sequence number that the key of a record on disk holds;
/// `None` where it does not start with a delimiter.
pub open spec fn parse_key(key: Seq<u8>) -> Option<(Seq<u8>, nat)> {
    match varint_decode(key) {
        Some((seq, n)) => if seq <= usize::MAX {
            Some((key.skip(n), seq))
        } else {
            None
        },
        None => None,
    }
}

/// A key that was joined with a sequence number is parted from it again.
pub proof fn lemma_parse_key(key: Seq<u8>, seq: nat)
    requires
        seq <= usize::MAX,
    ensures
        parse_key(key_with_seq(key, seq)) == Some((key, seq)),
        key_with_seq(key, seq).len() >= 1,
        key_with_seq(key, seq).len() <= key.len() + 10,
{
    lemma_varint_roundtrip(seq, key);
    crate::data::varint::lemma_varint_len(seq);
    assert(key_with_seq(key, seq).skip(varint(seq).len() as int) =~= key);
}

/// The key of a record on disk for `key` and the sequence number `seq`.
pub fn log_record_with_seq(key: Vec<u8>, seq: usize) -> (enc_key: Vec<u8>)
    ensures
        enc_key@ == key_with_seq(key@, seq as nat),
{
    let mut enc_key = encode_length_delimiter(seq);
    enc_key.extend_from_slice(key.as_slice());
    enc_key
}

/// The key and the sequence number that the key of a record on disk holds.
pub fn parse_log_record_key(key: &[u8]) -> (res: Option<(Vec<u8>, usize)>)
    ensures
        match parse_key(key@) {
            Some((real_key, seq)) => res is Some && (res->0).0@ == real_key && (res->0).1 == seq,
            None => res is None,
        },
{
    let (seq, rest) = decode_length_delimiter(key);
    match seq {
        Some(seq) => Some((slice_to_vec(rest), seq)),
        None => None,
    }
}

/// The writes of a batch, one for each key, in the order of the keys, in
/// which they take effect.
pub struct WriteBatch {
    pending_writes: Vec<LogRecord>,
    options: WriteBatchOptions,
}

/// The records as mathematical values.
pub open spec fn record_views(recs: Seq<LogRecord>) -> Seq<LogRecordView> {
    Seq::new(recs.len(), |i: int| recs[i]@)
}

/// The keys of the writes strictly ascend in the order of byte strings.
pub open spec fn ascending_writes(pending: Seq<LogRecordView>) -> bool {
    forall|i: int, j: int|
        0 <= i < j < pending.len() ==> bytes_lt((#[trigger] pending[i]).key, (#[trigger] pending[j]).key)
}

/// The place of `key` among the writes, from `from` on: the index of the
/// first write whose key does not come before `key`, or the number of
/// writes where all come before it.
pub open spec fn place_of(pending: Seq<LogRecordView>, key: Seq<u8>, from: int) -> int
    decreases pending.len() - from,
{
    if from >= pending.len() {
        pending.len() as int
    } else if !bytes_lt(pending[from].key, key) {
        from
    } else {
        place_of(pending, key, from + 1)
    }
}

/// Whether the writes hold one for `key`.
pub open spec fn has_write(pending: Seq<LogRecordView>, key: Seq<u8>) -> bool {
    place_of(pending, key, 0) < pending.len() && pending[place_of(pending, key, 0)].key == key
}

/// The writes with `rec` among them: in the place of the write that has its
/// key, or, where none has, at the place of its key.
pub open spec fn upsert(pending: Seq<LogRecordView>, rec: LogRecordView) -> Seq<LogRecordView> {
    let i = place_of(pending, rec.key, 0);
    if has_write(pending, rec.key) {
        pending.update(i, rec)
    } else {
        pending.insert(i, rec)
    }
}

/// The writes without the one that has the key `key`.
pub open spec fn without(pending: Seq<LogRecordView>, key: Seq<u8>) -> Seq<LogRecordView> {
    if has_write(pending, key) {
        pending.remove(place_of(pending, key, 0))
    } else {
        pending
    }
}

/// The index that has the writes whose keys come before `key` in front of
/// it, and no other, is the place of `key`.
pub proof fn lemma_place_of(pending: Seq<LogRecordView>, key: Seq<u8>, from: int, i: int)
    requires
        0 <= from <= i <= pending.len(),
        forall|j: int| from <= j < i ==> bytes_lt((#[trigger] pending[j]).key, key),
        i < pending.len() ==> !bytes_lt(pending[i].key, key),
    ensures
        place_of(pending, key, from) == i,
    decreases i - from,
{
    if from < i {
        assert(bytes_lt(pending[from].key, key));
        lemma_place_of(pending, key, from + 1, i);
    }
}

/// A key and a value that a batch can take: with any sequence number in
/// front of the key, the encoded record has a length of 32 bits.
pub open spec fn batch_fits(key: Seq<u8>, value: Seq<u8>) -> bool {
    key.len() + value.len() + 25 <= u32::MAX
}

/// A write of a batch: a key that is not empty, with a value that the batch
/// can take, to be set or deleted.
pub open spec fn is_write(rec: LogRecordView) -> bool {
    &&& rec.key.len() > 0
    &&& batch_fits(rec.key, rec.value)
    &&& rec.rec_type != LogRecodType::TXNFINSHED
}

/// The record that a write of a batch with the sequence number `seq`
/// becomes on disk.
pub open spec fn tagged(rec: LogRecordView, seq: nat) -> LogRecordView {
    LogRecordView { key: key_with_seq(rec.key, seq), value: rec.value, rec_type: rec.rec_type }
}

/// The record that ends the batch with the sequence number `seq`.
pub open spec fn fin_record(seq: nat) -> LogRecordView {
    LogRecordView {
        key: key_with_seq(txn_fin_key(), seq),
        value: Seq::empty(),
        rec_type: LogRecodType::TXNFINSHED,
    }
}

/// The records that the commit of the writes `pending` appends to the log:
/// the writes with the sequence number in front of their keys, and the
/// record that ends the batch.
pub open spec fn batch_records(pending: Seq<LogRecordView>, seq: nat) -> Seq<LogRecordView> {
    Seq::new(pending.len(), |i: int| tagged(pending[i], seq)).push(fin_record(seq))
}

/// The log after the append of the records `recs`, one after the other,
/// and their positions. Where an append fails, the log is the one before
/// it, and the positions are those of the records before.
pub open spec fn log_append_all(st: LogState, opts: Options, recs: Seq<LogRecordView>) -> (
    LogState,
    Seq<LogRecodPos>,
)
    decreases recs.len(),
{
    if recs.len() == 0 {
        (st, Seq::empty())
    } else {
        let before = log_append_all(st, opts, recs.drop_last());
        if before.1.len() < recs.len() - 1 {
            before
        } else {
            match log_append(before.0, opts, recs.last()) {
                None => before,
                Some((next, pos)) => (next, before.1.push(pos)),
            }
        }
    }
}

/// The writes with the positions that their records got.
pub open spec fn placed(pending: Seq<LogRecordView>, positions: Seq<LogRecodPos>) -> Seq<PendingView> {
    Seq::new(
        pending.len(),
        |i: int| PendingView { key: pending[i].key, rec_type: pending[i].rec_type, pos: positions[i] },
    )
}

/// The log `st`, with everything that the active segment holds marked as durable.
pub open spec fn flushed(st: LogState) -> LogState {
    LogState {
        segments: st.segments,
        active_id: st.active_id,
        unsynced: st.unsynced,
        synced: st.segments[st.active_id].len(),
    }
}

/// What recovery finds while a batch is written: the state `st` before the
/// batch, with the records written so far waiting under the sequence
/// number of the batch.
pub open spec fn in_flight(st: ReplayState, seq: usize, written: Seq<PendingView>, end: nat) -> ReplayState {
    if written.len() == 0 {
        with_end(st, end)
    } else {
        ReplayState {
            index: st.index,
            pending: st.pending.insert(seq, written),
            max_seq: seq as nat,
            reclaim: st.reclaim,
            end,
        }
    }
}

impl Engine {
    /// A batch without writes. With the B+ tree, a batch can be had only
    /// where the directory was empty or held a file with the sequence number
    /// when the engine was opened.
    pub fn new_write_batch(&self, options: WriteBatchOptions) -> (res: Result<WriteBatch, Errors>)
        ensures
            if self.options().index_type == IndexType::BPlusTree && !self.seq_file_existed()
                && !self.initial() {
                res is Err && res->Err_0 == Errors::CanNotUseWriteBatch
            } else {
                &&& res is Ok
                &&& res->Ok_0.valid()
                &&& res->Ok_0.pending().len() == 0
                &&& res->Ok_0.max_batch_num() == options.max_batch_num
                &&& res->Ok_0.sync_writes() == options.sync_writes
            },
    {
        let is_bptree = match self.get_options().index_type {
            IndexType::BPlusTree => true,
            _ => false,
        };
        if is_bptree && !self.seq_file_exist() && !self.is_initial() {
            return Err(Errors::CanNotUseWriteBatch);
        }
        Ok(WriteBatch { pending_writes: Vec::new(), options })
    }
}

impl WriteBatch {
    /// The writes of the batch, in the order in which they take effect.
    pub closed spec fn pending(&self) -> Seq<LogRecordView> {
        record_views(self.pending_writes@)
    }

    /// The number of writes that the batch may hold when it is committed.
    pub closed spec fn max_batch_num(&self) -> usize {
        self.options.max_batch_num
    }

    /// Whether the log is flushed when the batch is committed.
    pub closed spec fn sync_writes(&self) -> bool {
        self.options.sync_writes
    }

    /// Every write of the batch is one that a batch can take, and the keys
    /// of the writes strictly ascend.
    pub closed spec fn valid(&self) -> bool {
        &&& forall|i: int|
            0 <= i < self.pending_writes@.len() ==> is_write(#[trigger] self.pending_writes@[i]@)
        &&& ascending_writes(record_views(self.pending_writes@))
    }

    /// What `valid` says.
    pub proof fn lemma_valid(&self)
        requires
            self.valid(),
        ensures
            forall|i: int| 0 <= i < self.pending().len() ==> is_write(#[trigger] self.pending()[i]),
            ascending_writes(self.pending()),
    {
    }

    /// The number of writes in the batch.
    pub fn len(&self) -> (n: usize)
        ensures
            n == self.pending().len(),
    {
        self.pending_writes.len()
    }

    fn find(&self, key: &[u8]) -> (res: (usize, bool))
        requires
            self.valid(),
        ensures
            res.0 == place_of(self.pending(), key@, 0),
            res.0 <= self.pending_writes@.len(),
            res.1 == has_write(self.pending(), key@),
            forall|j: int| 0 <= j < res.0 ==> bytes_lt((#[trigger] self.pending()[j]).key, key@),
            forall|j: int|
                res.0 <= j < self.pending().len() && !res.1 ==> bytes_lt(
                    key@,
                    (#[trigger] self.pending()[j]).key,
                ),
    {
        let ghost pending = self.pending();
        let mut lo: usize = 0;
        let mut hi: usize = self.pending_writes.len();
        while lo < hi
            invariant
                lo <= hi <= self.pending_writes@.len(),
                pending == self.pending(),
                ascending_writes(pending),
                forall|j: int| 0 <= j < lo ==> bytes_lt((#[trigger] pending[j]).key, key@),
                forall|j: int| hi <= j < pending.len() ==> bytes_lt(key@, (#[trigger] pending[j]).key),
            decreases hi - lo,
        {
            let mid: usize = lo + (hi - lo) / 2;
            assert(pending[mid as int] == self.pending_writes@[mid as int]@);
            match compare_keys(self.pending_writes[mid].key.as_slice(), key) {
                KeyOrder::Before => {
                    proof {
                        assert forall|j: int| 0 <= j < mid + 1 implies bytes_lt(
                            (#[trigger] pending[j]).key,
                            key@,
                        ) by {
                            if j < mid {
                                lemma_bytes_lt_transitive(pending[j].key, pending[mid as int].key, key@);
                            }
                        }
                    }
                    lo = mid + 1;
                },
                KeyOrder::After => {
                    proof {
                        assert forall|j: int| mid <= j < pending.len() implies bytes_lt(
                            key@,
                            (#[trigger] pending[j]).key,
                        ) by {
                            if j > mid {
                                lemma_bytes_lt_transitive(key@, pending[mid as int].key, pending[j].key);
                            }
                        }
                    }
                    hi = mid;
                },
                KeyOrder::Same => {
                    proof {
                        lemma_bytes_lt_irreflexive(key@);
                        assert forall|j: int| 0 <= j < mid implies bytes_lt(
                            (#[trigger] pending[j]).key,
                            key@,
                        ) by {
                            assert(bytes_lt(pending[j].key, pending[mid as int].key));
                        }
                        lemma_place_of(pending, key@, 0, mid as int);
                    }
                    return (mid, true);
                },
            }
        }
        proof {
            if lo < pending.len() {
                lemma_bytes_lt_asymmetric(key@, pending[lo as int].key);
            }
            lemma_place_of(pending, key@, 0, lo as int);
        }
        (lo, false)
    }

    fn set(&mut self, record: LogRecord)
        requires
            old(self).valid(),
            is_write(record@),
        ensures
            final(self).valid(),
            final(self).pending() == upsert(old(self).pending(), record@),
            final(self).max_batch_num() == old(self).max_batch_num(),
            final(self).sync_writes() == old(self).sync_writes(),
    {
        let (i, found) = self.find(record.key.as_slice());
        let ghost rec = record@;
        let ghost before = self.pending();
        if found {
            self.pending_writes[i] = record;
            proof {
                let after = self.pending();
                assert(after =~= before.update(i as int, rec));
                assert forall|a: int, b: int| 0 <= a < b < after.len() implies bytes_lt(
                    (#[trigger] after[a]).key,
                    (#[trigger] after[b]).key,
                ) by {
                    assert(after[a].key == before[a].key && after[b].key == before[b].key);
                    assert(bytes_lt(before[a].key, before[b].key));
                }
            }
        } else {
            self.pending_writes.insert(i, record);
            proof {
                let after = self.pending();
                assert(after =~= before.insert(i as int, rec));
                assert forall|a: int, b: int| 0 <= a < b < after.len() implies bytes_lt(
                    (#[trigger] after[a]).key,
                    (#[trigger] after[b]).key,
                ) by {
                    let a0 = if a < i {
                        a
                    } else {
                        a - 1
                    };
                    let b0 = if b < i {
                        b
                    } else {
                        b - 1
                    };
                    if a == i {
                        assert(after[b] == before[b0]);
                    } else if b == i {
                        assert(after[a] == before[a0]);
                    } else {
                        assert(after[a] == before[a0] && after[b] == before[b0]);
                        assert(bytes_lt(before[a0].key, before[b0].key));
                    }
                }
            }
        }
    }

    /// Adds the write that sets the value of `key`. It takes the place of a
    /// write that the batch holds for the key. An empty key is refused.
    pub fn put(&mut self, key: Vec<u8>, value: Vec<u8>) -> (res: Result<(), Errors>)
        requires
            old(self).valid(),
            batch_fits(key@, value@),
        ensures
            final(self).valid(),
            final(self).max_batch_num() == old(self).max_batch_num(),
            final(self).sync_writes() == old(self).sync_writes(),
            if key@.len() == 0 {
                res is Err && res->Err_0 == Errors::KeyIsEmpty && final(self).pending() == old(
                    self,
                ).pending()
            } else {
                res is Ok && final(self).pending() == upsert(
                    old(self).pending(),
                    (LogRecordView { key: key@, value: value@, rec_type: LogRecodType::NORMAL }),
                )
            },
    {
        if key.len() == 0 {
            return Err(Errors::KeyIsEmpty);
        }
        self.set(LogRecord { key, value, rec_type: LogRecodType::NORMAL });
        Ok(())
    }

    /// Adds the write that deletes `key`, where the directory of `engine`
    /// has the key; where it has not, the write that the batch holds for the
    /// key, if any, is dropped. An empty key is refused.
    pub fn delete(&mut self, engine: &Engine, key: Vec<u8>) -> (res: Result<(), Errors>)
        requires
            old(self).valid(),
            engine.valid(),
            batch_fits(key@, Seq::<u8>::empty()),
        ensures
            final(self).valid(),
            final(self).max_batch_num() == old(self).max_batch_num(),
            final(self).sync_writes() == old(self).sync_writes(),
            if key@.len() == 0 {
                res is Err && res->Err_0 == Errors::KeyIsEmpty && final(self).pending() == old(
                    self,
                ).pending()
            } else if !engine.index().contains_key(key@) {
                res is Ok && final(self).pending() == without(old(self).pending(), key@)
            } else {
                res is Ok && final(self).pending() == upsert(
                    old(self).pending(),
                    (LogRecordView { key: key@, value: Seq::empty(), rec_type: LogRecodType::DELETED }),
                )
            },
    {
        if key.len() == 0 {
            return Err(Errors::KeyIsEmpty);
        }
        if !engine.has_key(key.as_slice()) {
            let (i, found) = self.find(key.as_slice());
            if found {
                let ghost before = self.pending();
                let _ = self.pending_writes.remove(i);
                proof {
                    let after = self.pending();
                    assert(after =~= before.remove(i as int));
                    assert forall|a: int, b: int| 0 <= a < b < after.len() implies bytes_lt(
                        (#[trigger] after[a]).key,
                        (#[trigger] after[b]).key,
                    ) by {
                        let a0 = if a < i {
                            a
                        } else {
                            a + 1
                        };
                        let b0 = if b < i {
                            b
                        } else {
                            b + 1
                        };
                        assert(after[a] == before[a0] && after[b] == before[b0]);
                        assert(bytes_lt(before[a0].key, before[b0].key));
                    }
                }
            }
            return Ok(());
        }
        self.set(LogRecord { key, value: Vec::new(), rec_type: LogRecodType::DELETED });
        Ok(())
    }

    /// Commits the batch: its writes are appended to the log under the next
    /// sequence number, followed by the record that ends the batch, and take
    /// effect on the directory together.
    ///
    /// A batch without writes does nothing. A batch with more writes than
    /// its options admit is refused. Where an append fails, no write of the
    /// batch takes effect, and the batch keeps its writes.
    pub fn commit(&mut self, engine: &mut Engine) -> (res: Result<(), Errors>)
        requires
            old(self).valid(),
            old(engine).valid(),
            old(engine).seq() < usize::MAX,
        ensures
            final(self).valid(),
            final(engine).valid(),
            final(self).max_batch_num() == old(self).max_batch_num(),
            final(self).sync_writes() == old(self).sync_writes(),
            final(engine).options() == old(engine).options(),
            final(engine).same_markers(*old(engine)),
            old(engine).recoverable() ==> final(engine).recoverable(),
            if old(self).pending().len() == 0 {
                res is Ok && *final(engine) == *old(engine) && final(self).pending() == old(
                    self,
                ).pending()
            } else if old(self).pending().len() > old(self).max_batch_num() {
                res is Err && res->Err_0 == Errors::ExceedMaxBatchNum && *final(engine) == *old(engine)
                    && final(self).pending() == old(self).pending()
            } else {
                let seq = (old(engine).seq() + 1) as nat;
                let written = batch_records(old(self).pending(), seq);
                let log = log_append_all(old(engine).log_state(), old(engine).options(), written);
                &&& final(engine).seq() == seq
                &&& if log.1.len() < written.len() {
                    &&& res is Err
                    &&& res->Err_0 == Errors::FileOpenError
                    &&& final(engine).log_state() == log.0
                    &&& final(engine).index() == old(engine).index()
                    &&& final(engine).view() == old(engine).view()
                    &&& final(engine).reclaim() == old(engine).reclaim()
                    &&& final(self).pending() == old(self).pending()
                } else {
                    &&& res is Ok
                    &&& final(engine).log_state() == (if old(self).sync_writes() {
                        flushed(log.0)
                    } else {
                        log.0
                    })
                    &&& final(engine).index() == apply_all(
                        old(engine).index(),
                        old(engine).reclaim() as nat,
                        placed(old(self).pending(), log.1),
                    ).0
                    &&& final(engine).reclaim() == clamp(
                        apply_all(
                            old(engine).index(),
                            old(engine).reclaim() as nat,
                            placed(old(self).pending(), log.1),
                        ).1 as int,
                    )
                    &&& final(engine).view() == apply_writes(old(engine).view(), old(self).pending())
                    &&& final(self).pending().len() == 0
                }
            },
    {
        let count = self.pending_writes.len();
        if count == 0 {
            return Ok(());
        }
        if count > self.options.max_batch_num {
            return Err(Errors::ExceedMaxBatchNum);
        }
        let ghost pending = self.pending();
        let ghost opts = engine.options();
        let ghost st0 = engine.log_state();
        let ghost segs0 = engine.segments();
        let ghost index0 = engine.index();
        let ghost base = old(engine).replayed()->Ok_0;
        proof {
            engine.lemma_valid();
        }
        let seq = engine.advance_seq();
        let ghost written = batch_records(pending, seq as nat);
        proof {
            engine.lemma_valid();
            assert(written.drop_last() =~= tagged_writes(pending, seq as nat));
            assert(written.last() == fin_record(seq as nat));
            if old(engine).recoverable() {
                assert(engine.replayed() == old(engine).replayed());
                assert(engine.active_len() == old(engine).active_len());
                assert(batch_ready(base, *engine, seq));
            }
        }
        let records = match self.append_writes(engine, seq, Ghost(base)) {
            Ok(records) => records,
            Err(e) => {
                proof {
                    lemma_store_extends(segs0, engine.segments(), index0);
                    if old(engine).recoverable() {
                        lemma_mid_batch_recoverable(base, *engine, seq);
                    }
                }
                return Err(e);
            },
        };
        let ghost segs1 = engine.segments();
        let ghost e1 = *engine;
        let sync_writes = self.options.sync_writes;
        match finish_writes(engine, seq, sync_writes, &records, Ghost(base), Ghost(pending)) {
            Ok(()) => {},
            Err(e) => {
                proof {
                    let so_far = log_append_all(st0, opts, written.drop_last());
                    assert(log_append(so_far.0, opts, written.last()) is None);
                    assert(log_append_all(st0, opts, written) == so_far);
                    lemma_store_extends(segs0, engine.segments(), index0);
                    if old(engine).recoverable() {
                        lemma_mid_batch_recoverable(base, *engine, seq);
                    }
                }
                return Err(e);
            },
        }
        proof {
            let so_far = log_append_all(st0, opts, written.drop_last());
            let log = log_append_all(st0, opts, written);
            assert(log.1 == so_far.1.push(e1.append_pos(fin_record(seq as nat))));
            assert(placed(pending, log.1) =~= placed(pending, so_far.1));
            lemma_extends_transitive(segs0, segs1, engine.segments());
            lemma_store_extends(segs0, engine.segments(), index0);
            lemma_apply_all_reclaim(
                index0,
                old(engine).reclaim() as nat,
                base.reclaim,
                pending_views(records@),
            );
        }
        self.pending_writes.clear();
        Ok(())
    }
}

/// Ends a batch: the record that ends it is appended to the log, the log is
/// flushed where that is asked for, and the writes take effect on the
/// directory.
#[verifier::rlimit(50)]
fn finish_writes(
    engine: &mut Engine,
    seq: usize,
    sync_writes: bool,
    records: &Vec<TransactionRecord>,
    Ghost(base): Ghost<ReplayState>,
    Ghost(pending): Ghost<Seq<LogRecordView>>,
) -> (res: Result<(), Errors>)
    requires
        old(engine).valid(),
        seq >= 1,
        old(engine).seq() == seq,
        placed_at(old(engine).segments(), pending, pending_views(records@)),
    ensures
        final(engine).valid(),
        final(engine).seq() == old(engine).seq(),
        final(engine).options() == old(engine).options(),
        final(engine).same_markers(*old(engine)),
        extends(old(engine).segments(), final(engine).segments()),
        match log_append(old(engine).log_state(), old(engine).options(), fin_record(seq as nat)) {
            None => {
                &&& res is Err
                &&& res->Err_0 == Errors::FileOpenError
                &&& *final(engine) == *old(engine)
                &&& writing(base, *old(engine), seq, pending_views(records@)) ==> mid_batch(
                    base,
                    *final(engine),
                    seq,
                )
            },
            Some((log, pos)) => {
                &&& res is Ok
                &&& pos == old(engine).append_pos(fin_record(seq as nat))
                &&& final(engine).log_state() == (if sync_writes {
                    flushed(log)
                } else {
                    log
                })
                &&& final(engine).index() == apply_all(
                    old(engine).index(),
                    old(engine).reclaim() as nat,
                    pending_views(records@),
                ).0
                &&& final(engine).reclaim() == clamp(
                    apply_all(old(engine).index(), old(engine).reclaim() as nat, pending_views(records@)).1 as int,
                )
                &&& store_view(final(engine).segments(), final(engine).index()) == apply_writes(
                    store_view(final(engine).segments(), old(engine).index()),
                    pending,
                )
                &&& (writing(base, *old(engine), seq, pending_views(records@)) && old(engine).index()
                    == base.index && old(engine).reclaim() == clamp(base.reclaim as int))
                    ==> final(engine).recoverable()
            },
        },
{
    let ghost segs1 = engine.segments();
    let ghost index0 = engine.index();
    let ghost e1 = *engine;
    let ghost waits = pending_views(records@);
    proof {
        lemma_parse_key(txn_fin_key(), seq as nat);
        lemma_varint_len(seq as nat);
        lemma_varint_len(fin_record(seq as nat).key.len());
        lemma_varint_len(0);
        lemma_extends_transitive(segs1, segs1, segs1);
    }
    let finish_record = LogRecord {
        key: log_record_with_seq(txn_fin_key_bytes(), seq),
        value: Vec::new(),
        rec_type: LogRecodType::TXNFINSHED,
    };
    assert(finish_record@ == fin_record(seq as nat));
    if let Err(e) = engine.append_log_record(&finish_record) {
        proof {
            if writing(base, e1, seq, waits) {
                lemma_in_flight_mid(base, e1, seq, waits);
            }
        }
        return Err(e);
    }
    let ghost e2 = *engine;
    proof {
        if writing(base, e1, seq, waits) {
            lemma_finish_batch(base, e1, e2, seq, waits);
        }
    }
    if sync_writes {
        proof {
            engine.lemma_valid();
        }
        let _ = engine.sync();
    }
    let ghost segs2 = engine.segments();
    let ghost e3 = *engine;
    proof {
        assert(e3.replayed() == e2.replayed());
        assert(placed_at(segs2, pending, waits)) by {
            assert forall|j: int| 0 <= j < pending.len() implies (#[trigger] waits[j]).key
                == pending[j].key && waits[j].rec_type == pending[j].rec_type && (
            pending[j].rec_type == LogRecodType::NORMAL ==> live(segs2, pending[j].key, waits[j].pos)
                && value_at(segs2, waits[j].pos) == pending[j].value) by {
                if pending[j].rec_type == LogRecodType::NORMAL {
                    lemma_live_extends(segs1, segs2, pending[j].key, waits[j].pos);
                }
            }
        }
        assert(pending_live(segs2, waits));
        lemma_apply_all_store(segs2, index0, old(engine).reclaim() as nat, pending, waits);
        lemma_apply_all_reclaim(index0, old(engine).reclaim() as nat, base.reclaim, waits);
    }
    engine.apply_records(records);
    proof {
        assert(engine.replayed() == e2.replayed());
        engine.lemma_valid();
        e3.lemma_valid();
    }
    Ok(())
}

/// The writes of a batch as they are on disk, without the record that ends
/// the batch.
pub open spec fn tagged_writes(pending: Seq<LogRecordView>, seq: nat) -> Seq<LogRecordView> {
    Seq::new(pending.len(), |i: int| tagged(pending[i], seq))
}

/// What recovery finds in the middle of a batch with the sequence number
/// `seq`, on top of the state `base` before the batch: the same directory
/// and the same obsolete bytes, and no sequence number beyond `seq`.
pub open spec fn mid_batch(base: ReplayState, engine: Engine, seq: usize) -> bool {
    &&& engine.replayed() is Ok
    &&& crate::db::first_segment(engine.merge_fin_bytes())->Ok_0 <= engine.active_id()
    &&& (engine.replayed()->Ok_0).index == base.index
    &&& (engine.replayed()->Ok_0).reclaim == base.reclaim
    &&& (engine.replayed()->Ok_0).end == engine.active_len()
    &&& (engine.replayed()->Ok_0).max_seq <= seq
    &&& pending_bounded(engine.replayed()->Ok_0)
}

/// The engine is what recovery finds in its files, the state `base`, and the
/// sequence number `seq` is beyond every one in the log.
pub open spec fn batch_ready(base: ReplayState, engine: Engine, seq: usize) -> bool {
    &&& base.max_seq < seq
    &&& pending_bounded(base)
    &&& engine.replayed() == Ok::<ReplayState, Errors>(base)
    &&& base.end == engine.active_len()
    &&& crate::db::first_segment(engine.merge_fin_bytes())->Ok_0 <= engine.active_id()
}

/// The engine holds, behind the log of the state `base`, the writes `waits`
/// of the batch with the sequence number `seq`.
pub open spec fn writing(base: ReplayState, engine: Engine, seq: usize, waits: Seq<PendingView>) -> bool {
    &&& base.max_seq < seq
    &&& pending_bounded(base)
    &&& engine.replayed() == Ok::<ReplayState, Errors>(
        in_flight(base, seq, waits, engine.active_len()),
    )
    &&& crate::db::first_segment(engine.merge_fin_bytes())->Ok_0 <= engine.active_id()
}

/// An engine in the middle of a batch, whose directory is the one before
/// the batch, is what recovery finds in its files.
pub proof fn lemma_mid_batch_recoverable(base: ReplayState, engine: Engine, seq: usize)
    requires
        mid_batch(base, engine, seq),
        engine.index() == base.index,
        engine.reclaim() == clamp(base.reclaim as int),
        engine.seq() == seq,
    ensures
        engine.recoverable(),
{
}

/// What recovery finds after one more write of a batch was appended: the
/// write waits, behind those before it, under the sequence number of the
/// batch.
pub proof fn lemma_in_flight_step(
    base: ReplayState,
    before: Engine,
    after: Engine,
    seq: usize,
    waits: Seq<PendingView>,
    w: LogRecordView,
)
    requires
        before.valid(),
        seq >= 1,
        writing(base, before, seq, waits),
        is_write(w),
        !before.append_fails(tagged(w, seq as nat)),
        after.after_append(before, tagged(w, seq as nat)),
    ensures
        writing(
            base,
            after,
            seq,
            waits.push(
                (PendingView {
                    key: w.key,
                    rec_type: w.rec_type,
                    pos: before.append_pos(tagged(w, seq as nat)),
                }),
            ),
        ),
{
    let rec = tagged(w, seq as nat);
    let cur = before.replayed()->Ok_0;
    let pos = before.append_pos(rec);
    lemma_parse_key(w.key, seq as nat);
    lemma_varint_len(seq as nat);
    lemma_varint_len(rec.key.len());
    lemma_varint_len(rec.value.len());
    before.lemma_valid();
    Engine::lemma_replayed_append(before, after, rec);
    assert(!base.pending.contains_key(seq));
    assert(waiting(cur.pending, seq) =~= waits);
    let added = waits.push(PendingView { key: w.key, rec_type: w.rec_type, pos });
    let stepped = replay_step(cur, pos.file_id, pos.offset as nat, rec, encoded_size(rec))->Ok_0;
    assert(stepped.pending =~= base.pending.insert(seq, added));
    assert(with_end(stepped, after.active_len()) == in_flight(base, seq, added, after.active_len()));
}

/// What recovery finds after the record that ends a batch was appended: the
/// writes of the batch have taken effect, in their order.
pub proof fn lemma_finish_batch(
    base: ReplayState,
    before: Engine,
    after: Engine,
    seq: usize,
    waits: Seq<PendingView>,
)
    requires
        before.valid(),
        seq >= 1,
        writing(base, before, seq, waits),
        !before.append_fails(fin_record(seq as nat)),
        after.after_append(before, fin_record(seq as nat)),
    ensures
        after.replayed() == Ok::<ReplayState, Errors>(
            ReplayState {
                index: apply_all(base.index, base.reclaim, waits).0,
                pending: base.pending,
                max_seq: seq as nat,
                reclaim: apply_all(base.index, base.reclaim, waits).1,
                end: after.active_len(),
            },
        ),
        crate::db::first_segment(after.merge_fin_bytes())->Ok_0 <= after.active_id(),
{
    let rec = fin_record(seq as nat);
    let cur = before.replayed()->Ok_0;
    lemma_parse_key(txn_fin_key(), seq as nat);
    lemma_varint_len(seq as nat);
    lemma_varint_len(rec.key.len());
    lemma_varint_len(0);
    before.lemma_valid();
    Engine::lemma_replayed_append(before, after, rec);
    assert(!base.pending.contains_key(seq));
    assert(waiting(cur.pending, seq) =~= waits);
    assert(cur.pending.remove(seq) =~= base.pending);
}

impl WriteBatch {
    /// Appends the writes of the batch to the log, under the sequence
    /// number `seq`, and returns each with its position.
    #[verifier::rlimit(50)]
    fn append_writes(&self, engine: &mut Engine, seq: usize, Ghost(base): Ghost<ReplayState>) -> (res:
        Result<Vec<TransactionRecord>, Errors>)
        requires
            self.valid(),
            self.pending().len() > 0,
            old(engine).valid(),
            seq >= 1,
        ensures
            final(engine).valid(),
            final(engine).seq() == old(engine).seq(),
            final(engine).index() == old(engine).index(),
            final(engine).reclaim() == old(engine).reclaim(),
            final(engine).options() == old(engine).options(),
            final(engine).same_markers(*old(engine)),
            extends(old(engine).segments(), final(engine).segments()),
            final(engine).log_state() == log_append_all(
                old(engine).log_state(),
                old(engine).options(),
                tagged_writes(self.pending(), seq as nat),
            ).0,
            match res {
                Ok(records) => {
                    let log = log_append_all(
                        old(engine).log_state(),
                        old(engine).options(),
                        tagged_writes(self.pending(), seq as nat),
                    );
                    &&& log.1.len() == self.pending().len()
                    &&& pending_views(records@) == placed(self.pending(), log.1)
                    &&& placed_at(final(engine).segments(), self.pending(), pending_views(records@))
                },
                Err(e) => {
                    &&& e == Errors::FileOpenError
                    &&& log_append_all(
                        old(engine).log_state(),
                        old(engine).options(),
                        batch_records(self.pending(), seq as nat),
                    ) == log_append_all(
                        old(engine).log_state(),
                        old(engine).options(),
                        tagged_writes(self.pending(), seq as nat),
                    )
                    &&& log_append_all(
                        old(engine).log_state(),
                        old(engine).options(),
                        tagged_writes(self.pending(), seq as nat),
                    ).1.len() < self.pending().len()
                },
            },
            batch_ready(base, *old(engine), seq) ==> (match res {
                Ok(records) => writing(base, *final(engine), seq, pending_views(records@)),
                Err(_) => mid_batch(base, *final(engine), seq),
            }),
    {
        let count = self.pending_writes.len();
        let ghost pending = self.pending();
        let ghost opts = engine.options();
        let ghost st0 = engine.log_state();
        let ghost segs0 = engine.segments();
        let ghost written = tagged_writes(pending, seq as nat);
        let ghost tracked_ok = batch_ready(base, *old(engine), seq);
        let mut records: Vec<TransactionRecord> = Vec::new();
        let mut i: usize = 0;
        proof {
            lemma_extends_transitive(segs0, segs0, segs0);
            assert(written.take(0) =~= Seq::empty());
            assert(pending.take(0) =~= Seq::empty());
            assert(pending_views(records@) =~= placed(pending.take(0), Seq::empty()));
            if tracked_ok {
                assert(with_end(base, engine.active_len()) == base);
            }
        }
        while i < count
            invariant
                i <= count,
                count == self.pending_writes@.len(),
                count > 0,
                self.valid(),
                pending == self.pending(),
                engine.valid(),
                seq >= 1,
                engine.seq() == old(engine).seq(),
                engine.options() == opts,
                opts == old(engine).options(),
                engine.same_markers(*old(engine)),
                engine.index() == old(engine).index(),
                engine.reclaim() == old(engine).reclaim(),
                written == tagged_writes(pending, seq as nat),
                st0 == old(engine).log_state(),
                segs0 == old(engine).segments(),
                extends(segs0, engine.segments()),
                records@.len() == i,
                log_append_all(st0, opts, written.take(i as int)).0 == engine.log_state(),
                log_append_all(st0, opts, written.take(i as int)).1.len() == i,
                pending_views(records@) == placed(
                    pending.take(i as int),
                    log_append_all(st0, opts, written.take(i as int)).1,
                ),
                placed_at(engine.segments(), pending.take(i as int), pending_views(records@)),
                tracked_ok == batch_ready(base, *old(engine), seq),
                tracked_ok ==> writing(base, *engine, seq, pending_views(records@)),
            decreases count - i,
        {
            let item = &self.pending_writes[i];
            let ghost w = pending[i as int];
            let ghost segs1 = engine.segments();
            let ghost so_far = log_append_all(st0, opts, written.take(i as int));
            proof {
                assert(w == item@);
                assert(is_write(w));
                lemma_parse_key(w.key, seq as nat);
                lemma_varint_len(seq as nat);
                lemma_varint_len(tagged(w, seq as nat).key.len());
                lemma_varint_len(w.value.len());
                assert(written[i as int] == tagged(w, seq as nat));
                assert(written.take(i + 1).drop_last() =~= written.take(i as int));
                assert(written.take(i + 1).last() == written[i as int]);
            }
            let record = LogRecord {
                key: log_record_with_seq(copy_key(item.key.as_slice()), seq),
                value: copy_key(item.value.as_slice()),
                rec_type: item.rec_type,
            };
            assert(record@ == tagged(w, seq as nat));
            let ghost e1 = *engine;
            let pos = match engine.append_log_record(&record) {
                Ok(pos) => pos,
                Err(e) => {
                    proof {
                        assert(log_append(so_far.0, opts, written[i as int]) is None);
                        assert(log_append_all(st0, opts, written.take(i + 1)) == so_far);
                        lemma_append_all_fails(st0, opts, written, i as int + 1);
                        let all = batch_records(pending, seq as nat);
                        assert(all.take(written.len() as int) =~= written);
                        assert(all.take(i + 1) =~= written.take(i + 1));
                        lemma_append_all_fails(st0, opts, all, i as int + 1);
                        if tracked_ok {
                            lemma_in_flight_mid(base, *engine, seq, pending_views(records@));
                        }
                    }
                    return Err(e);
                },
            };
            let ghost before = pending_views(records@);
            records.push(
                TransactionRecord {
                    record: LogRecord {
                        key: copy_key(item.key.as_slice()),
                        value: Vec::new(),
                        rec_type: item.rec_type,
                    },
                    pos,
                },
            );
            proof {
                let segs2 = engine.segments();
                let now = log_append_all(st0, opts, written.take(i + 1));
                assert(now.1 == so_far.1.push(pos));
                lemma_extends_transitive(segs0, segs1, segs2);
                let added = PendingView { key: w.key, rec_type: w.rec_type, pos };
                assert(pending_views(records@) =~= before.push(added));
                if tracked_ok {
                    lemma_in_flight_step(base, e1, *engine, seq, before, w);
                }
                assert(pending.take(i + 1) =~= pending.take(i as int).push(w));
                assert(pending_views(records@) =~= placed(pending.take(i + 1), now.1));
                lemma_placed_push(segs1, segs2, pending.take(i as int), before, w, pos);
            }
            i += 1;
        }
        proof {
            assert(pending.take(i as int) =~= pending);
            assert(written.take(i as int) =~= written);
        }
        Ok(records)
    }
}

/// What recovery finds while a batch is written is a state in the middle
/// of the batch.
pub proof fn lemma_in_flight_mid(base: ReplayState, engine: Engine, seq: usize, waits: Seq<PendingView>)
    requires
        writing(base, engine, seq, waits),
    ensures
        mid_batch(base, engine, seq),
{
    let cur = engine.replayed()->Ok_0;
    assert forall|s: usize| #[trigger] cur.pending.contains_key(s) implies s <= cur.max_seq by {
        if base.pending.contains_key(s) {
        }
    }
}

/// A write that was appended stands at its position, beside the writes
/// before it, which stand at theirs when segments grow.
pub proof fn lemma_placed_push(
    segs: Map<u32, Seq<u8>>,
    later: Map<u32, Seq<u8>>,
    recs: Seq<LogRecordView>,
    waits: Seq<PendingView>,
    w: LogRecordView,
    pos: LogRecodPos,
)
    requires
        placed_at(segs, recs, waits),
        extends(segs, later),
        w.rec_type == LogRecodType::NORMAL ==> live(later, w.key, pos) && value_at(later, pos) == w.value,
    ensures
        placed_at(
            later,
            recs.push(w),
            waits.push(PendingView { key: w.key, rec_type: w.rec_type, pos }),
        ),
{
    let recs2 = recs.push(w);
    let waits2 = waits.push(PendingView { key: w.key, rec_type: w.rec_type, pos });
    assert forall|j: int| 0 <= j < recs2.len() implies (#[trigger] waits2[j]).key == recs2[j].key
        && waits2[j].rec_type == recs2[j].rec_type && (recs2[j].rec_type == LogRecodType::NORMAL
        ==> live(later, recs2[j].key, waits2[j].pos) && value_at(later, waits2[j].pos)
        == recs2[j].value) by {
        if j < recs.len() {
            assert(waits2[j] == waits[j]);
            assert(recs2[j] == recs[j]);
            if recs[j].rec_type == LogRecodType::NORMAL {
                lemma_live_extends(segs, later, recs[j].key, waits[j].pos);
            }
        }
    }
}

/// Once an append has failed, the appends of more records leave the log and
/// the positions as they are.
pub proof fn lemma_append_all_fails(st: LogState, opts: Options, recs: Seq<LogRecordView>, n: int)
    requires
        0 < n <= recs.len(),
        log_append_all(st, opts, recs.take(n)).1.len() < n,
    ensures
        log_append_all(st, opts, recs) == log_append_all(st, opts, recs.take(n)),
        log_append_all(st, opts, recs).1.len() < recs.len(),
    decreases recs.len() - n,
{
    if n < recs.len() {
        assert(recs.take(n + 1).drop_last() =~= recs.take(n));
        lemma_append_all_fails(st, opts, recs, n + 1);
    } else {
        assert(recs.take(n) =~= recs);
    }
}

/// The bytes of a segment after the records `recs` are appended to it, one
/// after the other.
pub open spec fn with_records(data: Seq<u8>, recs: Seq<LogRecordView>) -> Seq<u8>
    decreases recs.len(),
{
    if recs.len() == 0 {
        data
    } else {
        with_records(data, recs.drop_last()) + crate::data::log_record::encode_record(recs.last())
    }
}

/// The writes `writes` of a batch, each with the position that it has when
/// the batch is appended to the segment `file_id`, which holds `data`.
pub open spec fn waiting_writes(file_id: u32, data: Seq<u8>, writes: Seq<LogRecordView>, seq: nat) -> Seq<
    PendingView,
> {
    Seq::new(
        writes.len(),
        |i: int|
            PendingView {
                key: writes[i].key,
                rec_type: writes[i].rec_type,
                pos: LogRecodPos {
                    file_id,
                    offset: with_records(data, tagged_writes(writes, seq).take(i)).len() as u64,
                    size: encoded_size(tagged(writes[i], seq)) as u32,
                },
            },
    )
}

/// A batch whose end is not in the log has no effect: after any number of
/// its writes, without the record that ends it, recovery finds the
/// directory that it found before them. The writes wait under the sequence
/// number of the batch.
pub proof fn lemma_unfinished_batch(
    st0: ReplayState,
    segs: Map<u32, Seq<u8>>,
    first: u32,
    last: u32,
    writes: Seq<LogRecordView>,
    seq: usize,
)
    requires
        segs.contains_key(last),
        forall|id: u32| #[trigger] segs.contains_key(id) ==> id <= last,
        last >= first,
        crate::recovery::replay_all(st0, segs, first) is Ok,
        (crate::recovery::replay_all(st0, segs, first)->Ok_0).end == segs[last].len(),
        (crate::recovery::replay_all(st0, segs, first)->Ok_0).max_seq < seq,
        pending_bounded(crate::recovery::replay_all(st0, segs, first)->Ok_0),
        seq >= 1,
        forall|i: int| 0 <= i < writes.len() ==> is_write(#[trigger] writes[i]),
        with_records(segs[last], tagged_writes(writes, seq as nat)).len() <= u64::MAX,
    ensures
        crate::recovery::replay_all(
            st0,
            segs.insert(last, with_records(segs[last], tagged_writes(writes, seq as nat))),
            first,
        ) == Ok::<ReplayState, Errors>(
            in_flight(
                crate::recovery::replay_all(st0, segs, first)->Ok_0,
                seq,
                waiting_writes(last, segs[last], writes, seq as nat),
                with_records(segs[last], tagged_writes(writes, seq as nat)).len(),
            ),
        ),
        (crate::recovery::replay_all(
            st0,
            segs.insert(last, with_records(segs[last], tagged_writes(writes, seq as nat))),
            first,
        )->Ok_0).index == (crate::recovery::replay_all(st0, segs, first)->Ok_0).index,
    decreases writes.len(),
{
    let base = crate::recovery::replay_all(st0, segs, first)->Ok_0;
    let data = segs[last];
    let recs = tagged_writes(writes, seq as nat);
    if writes.len() == 0 {
        assert(segs.insert(last, with_records(data, recs)) =~= segs);
        assert(waiting_writes(last, data, writes, seq as nat) =~= Seq::<PendingView>::empty());
        assert(in_flight(base, seq, Seq::<PendingView>::empty(), data.len()) == base);
    } else {
        let n = writes.len() - 1;
        let w = writes[n];
        let rec = tagged(w, seq as nat);
        let fewer = writes.drop_last();
        assert(recs.drop_last() =~= tagged_writes(fewer, seq as nat));
        assert(recs.last() == rec);
        let before = with_records(data, tagged_writes(fewer, seq as nat));
        crate::data::log_record::lemma_encoded_size(rec);
        assert forall|i: int| 0 <= i < fewer.len() implies is_write(#[trigger] fewer[i]) by {
            assert(fewer[i] == writes[i]);
        }
        lemma_unfinished_batch(st0, segs, first, last, fewer, seq);
        let mid = segs.insert(last, before);
        let waits = waiting_writes(last, data, fewer, seq as nat);
        let cur = in_flight(base, seq, waits, before.len());
        lemma_parse_key(w.key, seq as nat);
        lemma_varint_len(seq as nat);
        lemma_varint_len(rec.key.len());
        lemma_varint_len(rec.value.len());
        assert forall|id: u32| #[trigger] mid.contains_key(id) implies id <= last by {
            if id != last {
                assert(segs.contains_key(id));
            }
        }
        crate::recovery::lemma_replay_all_append(st0, mid, first, last, rec);
        assert(mid.insert(last, mid[last] + crate::data::log_record::encode_record(rec))
            =~= segs.insert(last, with_records(data, recs)));
        assert(!base.pending.contains_key(seq));
        assert(waiting(cur.pending, seq) =~= waits);
        let pos = LogRecodPos { file_id: last, offset: before.len() as u64, size: encoded_size(rec) as u32 };
        let added = waits.push(PendingView { key: w.key, rec_type: w.rec_type, pos });
        assert(added =~= waiting_writes(last, data, writes, seq as nat)) by {
            assert forall|i: int| 0 <= i < writes.len() implies added[i] == waiting_writes(
                last,
                data,
                writes,
                seq as nat,
            )[i] by {
                if i < n {
                    assert(recs.take(i) =~= tagged_writes(fewer, seq as nat).take(i));
                    assert(fewer[i] == writes[i]);
                } else {
                    assert(recs.take(i) =~= tagged_writes(fewer, seq as nat));
                }
            }
        }
        let stepped = replay_step(cur, last, before.len(), rec, encoded_size(rec))->Ok_0;
        assert(stepped.pending =~= base.pending.insert(seq, added));
        assert(with_end(stepped, with_records(data, recs).len()) == in_flight(
            base,
            seq,
            added,
            with_records(data, recs).len(),
        ));
    }
}

/// A batch whose end is in the log has all its effects: after its writes
/// and the record that ends it, recovery finds the directory on which all
/// writes of the batch have taken effect, in their order, and no write of
/// the batch waits any more.
pub proof fn lemma_finished_batch(
    st0: ReplayState,
    segs: Map<u32, Seq<u8>>,
    first: u32,
    last: u32,
    writes: Seq<LogRecordView>,
    seq: usize,
)
    requires
        segs.contains_key(last),
        forall|id: u32| #[trigger] segs.contains_key(id) ==> id <= last,
        last >= first,
        crate::recovery::replay_all(st0, segs, first) is Ok,
        (crate::recovery::replay_all(st0, segs, first)->Ok_0).end == segs[last].len(),
        (crate::recovery::replay_all(st0, segs, first)->Ok_0).max_seq < seq,
        pending_bounded(crate::recovery::replay_all(st0, segs, first)->Ok_0),
        seq >= 1,
        forall|i: int| 0 <= i < writes.len() ==> is_write(#[trigger] writes[i]),
        with_records(segs[last], batch_records(writes, seq as nat)).len() <= u64::MAX,
    ensures
        crate::recovery::replay_all(
            st0,
            segs.insert(last, with_records(segs[last], batch_records(writes, seq as nat))),
            first,
        ) is Ok,
        (crate::recovery::replay_all(
            st0,
            segs.insert(last, with_records(segs[last], batch_records(writes, seq as nat))),
            first,
        )->Ok_0).index == apply_all(
            (crate::recovery::replay_all(st0, segs, first)->Ok_0).index,
            (crate::recovery::replay_all(st0, segs, first)->Ok_0).reclaim,
            waiting_writes(last, segs[last], writes, seq as nat),
        ).0,
        (crate::recovery::replay_all(
            st0,
            segs.insert(last, with_records(segs[last], batch_records(writes, seq as nat))),
            first,
        )->Ok_0).pending == (crate::recovery::replay_all(st0, segs, first)->Ok_0).pending,
{
    let base = crate::recovery::replay_all(st0, segs, first)->Ok_0;
    let data = segs[last];
    let all = batch_records(writes, seq as nat);
    let recs = tagged_writes(writes, seq as nat);
    let rec = fin_record(seq as nat);
    assert(all.drop_last() =~= recs);
    assert(all.last() == rec);
    let before = with_records(data, recs);
    crate::data::log_record::lemma_encoded_size(rec);
    lemma_unfinished_batch(st0, segs, first, last, writes, seq);
    let mid = segs.insert(last, before);
    let waits = waiting_writes(last, data, writes, seq as nat);
    let cur = in_flight(base, seq, waits, before.len());
    lemma_parse_key(txn_fin_key(), seq as nat);
    lemma_varint_len(seq as nat);
    lemma_varint_len(rec.key.len());
    lemma_varint_len(0);
    assert forall|id: u32| #[trigger] mid.contains_key(id) implies id <= last by {
        if id != last {
            assert(segs.contains_key(id));
        }
    }
    crate::recovery::lemma_replay_all_append(st0, mid, first, last, rec);
    assert(mid.insert(last, mid[last] + crate::data::log_record::encode_record(rec)) =~= segs.insert(
        last,
        with_records(data, all),
    ));
    assert(!base.pending.contains_key(seq));
    assert(waiting(cur.pending, seq) =~= waits);
    assert(cur.pending.remove(seq) =~= base.pending);
}

} // verus!
