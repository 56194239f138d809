//! The segment: one file of the log, held as its bytes, with the offset at
//! which the next record is appended, and the names that the files of a
//! database directory bear.

use crate::data::log_record::{decode_log_record, decode_record, encode_pos, encode_record};
use crate::data::log_record::{LogRecodPos, LogRecodType, LogRecord, LogRecordView, ReadLogRecord};
use crate::errors::Errors;
use crate::util::decimal::{decimal_value, format_padded, parse_decimal, zero_padded};
use crate::util::decimal::{lemma_value_needs_digits, lemma_zero_padded_value};
use vstd::prelude::*;
use vstd::slice::slice_subrange;

verus! {

/// The ASCII bytes of `.data`, the end of a segment's name.
pub open spec fn data_file_suffix() -> Seq<u8> {
    seq![46u8, 100, 97, 116, 97]
}

/// The ASCII bytes of `hint-index`, the name of the hint file.
pub open spec fn hint_file_name() -> Seq<u8> {
    seq![104u8, 105, 110, 116, 45, 105, 110, 100, 101, 120]
}

/// The ASCII bytes of `merge-finished`, the name of the file that marks a
/// completed merge.
pub open spec fn merge_finish_file_name() -> Seq<u8> {
    seq![109u8, 101, 114, 103, 101, 45, 102, 105, 110, 105, 115, 104, 101, 100]
}

/// The ASCII bytes of `seq-no`, the name of the file that keeps the sequence
/// number.
pub open spec fn seq_no_file_name() -> Seq<u8> {
    seq![115u8, 101, 113, 45, 110, 111]
}

/// The name of the segment `file_id`: the id in nine decimal digits, or more
/// where it has more, and `.data`.
pub open spec fn data_file_name(file_id: u32) -> Seq<u8> {
    zero_padded(file_id as nat, 9) + data_file_suffix()
}

/// The index of the first dot of `name` from `from` on, or the length of
/// `name` where there is none.
pub open spec fn first_dot(name: Seq<u8>, from: int) -> int
    decreases name.len() - from,
{
    if from >= name.len() {
        name.len() as int
    } else if name[from] == 46 {
        from
    } else {
        first_dot(name, from + 1)
    }
}

/// The id of the segment that `name` names: `None` for a name that does not
/// end in `.data`; for one that does, the number that the bytes before its
/// first dot spell, or an error where they spell none of 32 bits.
pub open spec fn segment_id(name: Seq<u8>) -> Option<Result<u32, Errors>> {
    if !data_file_suffix().is_suffix_of(name) {
        None
    } else {
        match decimal_value(name.take(first_dot(name, 0))) {
            Some(v) => if v <= u32::MAX {
                Some(Ok(v as u32))
            } else {
                Some(Err(Errors::DataDirectoryCorruped))
            },
            None => Some(Err(Errors::DataDirectoryCorruped)),
        }
    }
}

/// The first dot lies within the name, at or behind the start of the search,
/// and no byte between the two is a dot.
pub proof fn lemma_first_dot(name: Seq<u8>, from: int)
    requires
        0 <= from <= name.len(),
    ensures
        from <= first_dot(name, from) <= name.len(),
        first_dot(name, from) < name.len() ==> name[first_dot(name, from)] == 46,
        forall|i: int| from <= i < first_dot(name, from) ==> name[i] != 46,
    decreases name.len() - from,
{
    if from < name.len() && name[from] != 46 {
        lemma_first_dot(name, from + 1);
    }
}

/// The name of a segment names that segment.
pub proof fn lemma_segment_id(file_id: u32)
    ensures
        segment_id(data_file_name(file_id)) == Some(Ok::<u32, Errors>(file_id)),
{
    let digits = zero_padded(file_id as nat, 9);
    let name = data_file_name(file_id);
    lemma_zero_padded_value(file_id as nat, 9);
    assert(name.subrange(name.len() - 5, name.len() as int) =~= data_file_suffix());
    lemma_first_dot(name, 0);
    let dot = first_dot(name, 0);
    assert(name[digits.len() as int] == 46);
    assert(dot <= digits.len());
    if dot < digits.len() {
        assert(name[dot] == digits[dot]);
        lemma_value_needs_digits(digits, dot);
    }
    assert(name.take(dot) =~= digits);
}

/// The name of the segment `file_id`.
pub fn get_data_file_name(file_id: u32) -> (name: Vec<u8>)
    ensures
        name@ == data_file_name(file_id),
{
    let mut name = format_padded(file_id as u64, 9);
    name.push(46u8);
    name.push(100u8);
    name.push(97u8);
    name.push(116u8);
    name.push(97u8);
    assert(name@ =~= data_file_name(file_id));
    name
}

/// The id of the segment that `name` names.
pub fn parse_data_file_name(name: &[u8]) -> (res: Option<Result<u32, Errors>>)
    ensures
        res == segment_id(name@),
{
    let n = name.len();
    if n < 5 || name[n - 5] != 46u8 || name[n - 4] != 100u8 || name[n - 3] != 97u8 || name[n - 2]
        != 116u8 || name[n - 1] != 97u8 {
        proof {
            if n >= 5 {
                let tail = name@.subrange(n - 5, n as int);
                assert(tail[0] == name@[n - 5] && tail[1] == name@[n - 4] && tail[2] == name@[n
                    - 3] && tail[3] == name@[n - 2] && tail[4] == name@[n - 1]);
            }
        }
        return None;
    }
    assert(name@.subrange(n - 5, n as int) =~= data_file_suffix());
    let mut dot: usize = 0;
    while dot < n && name[dot] != 46u8
        invariant
            dot <= n,
            n == name@.len(),
            first_dot(name@, 0) == first_dot(name@, dot as int),
        decreases n - dot,
    {
        dot += 1;
    }
    let stem = slice_subrange(name, 0, dot);
    match parse_decimal(stem) {
        Some(v) => if v <= u32::MAX as u64 {
            Some(Ok(v as u32))
        } else {
            Some(Err(Errors::DataDirectoryCorruped))
        },
        None => Some(Err(Errors::DataDirectoryCorruped)),
    }
}

/// The bytes `hint-index`.
pub fn hint_file_name_bytes() -> (name: Vec<u8>)
    ensures
        name@ == hint_file_name(),
{
    let name: Vec<u8> = vec![104u8, 105, 110, 116, 45, 105, 110, 100, 101, 120];
    assert(name@ =~= hint_file_name());
    name
}

/// The bytes `merge-finished`.
pub fn merge_finish_file_name_bytes() -> (name: Vec<u8>)
    ensures
        name@ == merge_finish_file_name(),
{
    let name: Vec<u8> = vec![109u8, 101, 114, 103, 101, 45, 102, 105, 110, 105, 115, 104, 101, 100];
    assert(name@ =~= merge_finish_file_name());
    name
}

/// The bytes `seq-no`.
pub fn seq_no_file_name_bytes() -> (name: Vec<u8>)
    ensures
        name@ == seq_no_file_name(),
{
    let name: Vec<u8> = vec![115u8, 101, 113, 45, 110, 111];
    assert(name@ =~= seq_no_file_name());
    name
}

/// One file of the log.
pub struct DataFile {
    file_id: u32,
    write_off: u64,
    data: Vec<u8>,
    synced: usize,
}

impl DataFile {
    /// The id of the segment.
    pub closed spec fn id(&self) -> u32 {
        self.file_id
    }

    /// The offset at which the file is taken to end.
    pub closed spec fn offset(&self) -> u64 {
        self.write_off
    }

    /// The bytes of the file.
    pub closed spec fn bytes(&self) -> Seq<u8> {
        self.data@
    }

    /// The number of bytes, from the start, that are on durable media.
    pub closed spec fn synced(&self) -> nat {
        self.synced as nat
    }

    /// The offset lies within the file, and so does what is durable.
    pub closed spec fn valid(&self) -> bool {
        &&& self.write_off <= self.data@.len()
        &&& self.synced <= self.data@.len()
    }

    /// What `valid` says.
    pub proof fn lemma_valid(&self)
        requires
            self.valid(),
        ensures
            self.offset() <= self.bytes().len(),
            self.synced() <= self.bytes().len(),
            self.bytes().len() <= usize::MAX,
    {
        assert(self.data@.len() == self.data.len());
    }

    /// The segment `file_id` with the bytes that its file holds. The offset
    /// starts at 0, and all bytes count as durable.
    pub fn new(file_id: u32, data: Vec<u8>) -> (file: DataFile)
        ensures
            file.valid(),
            file.id() == file_id,
            file.offset() == 0,
            file.bytes() == data@,
            file.synced() == data@.len(),
    {
        let synced = data.len();
        DataFile { file_id, write_off: 0, data, synced }
    }

    /// The hint file, with the bytes that it holds.
    pub fn new_hint_file(data: Vec<u8>) -> (file: DataFile)
        ensures
            file.valid(),
            file.id() == 0,
            file.offset() == 0,
            file.bytes() == data@,
            file.synced() == data@.len(),
    {
        DataFile::new(0, data)
    }

    /// The file that marks a completed merge, with the bytes that it holds.
    pub fn new_merge_fin_file(data: Vec<u8>) -> (file: DataFile)
        ensures
            file.valid(),
            file.id() == 0,
            file.offset() == 0,
            file.bytes() == data@,
            file.synced() == data@.len(),
    {
        DataFile::new(0, data)
    }

    /// The file that keeps the sequence number, with the bytes that it holds.
    pub fn new_seq_no_file(data: Vec<u8>) -> (file: DataFile)
        ensures
            file.valid(),
            file.id() == 0,
            file.offset() == 0,
            file.bytes() == data@,
            file.synced() == data@.len(),
    {
        DataFile::new(0, data)
    }

    /// The offset at which the file is taken to end.
    pub fn get_write_off(&self) -> (offset: u64)
        ensures
            offset == self.offset(),
    {
        self.write_off
    }

    /// The number of bytes in the file.
    pub fn file_size(&self) -> (size: u64)
        ensures
            size == self.bytes().len(),
    {
        self.data.len() as u64
    }

    /// The id of the segment.
    pub fn get_file_id(&self) -> (file_id: u32)
        ensures
            file_id == self.id(),
    {
        self.file_id
    }

    /// The bytes of the file.
    pub fn data(&self) -> (data: &Vec<u8>)
        ensures
            data@ == self.bytes(),
    {
        &self.data
    }

    /// The number of bytes, from the start, that are on durable media.
    pub fn synced_len(&self) -> (n: usize)
        ensures
            n == self.synced(),
    {
        self.synced
    }

    /// Marks every byte of the file as durable.
    pub fn sync(&mut self) -> (res: Result<(), Errors>)
        requires
            old(self).valid(),
        ensures
            res is Ok,
            final(self).valid(),
            final(self).id() == old(self).id(),
            final(self).offset() == old(self).offset(),
            final(self).bytes() == old(self).bytes(),
            final(self).synced() == old(self).bytes().len(),
    {
        self.synced = self.data.len();
        Ok(())
    }

    /// Appends `buf` to the file, and advances the offset by its length.
    pub fn write(&mut self, buf: &[u8]) -> (res: Result<usize, Errors>)
        requires
            old(self).valid(),
        ensures
            res == Ok::<usize, Errors>(buf@.len() as usize),
            final(self).valid(),
            final(self).id() == old(self).id(),
            final(self).bytes() == old(self).bytes() + buf@,
            final(self).offset() == old(self).offset() + buf@.len(),
            final(self).synced() == old(self).synced(),
    {
        self.data.extend_from_slice(buf);
        let n = buf.len();
        assert(self.data@.len() == old(self).data@.len() + n);
        assert(self.data.len() <= usize::MAX);
        self.write_off = self.write_off + n as u64;
        Ok(n)
    }

    /// Appends the hint record of `key`: a record whose key is `key` and
    /// whose value is the encoded position.
    pub fn write_hint_record(&mut self, key: Vec<u8>, pos: LogRecodPos) -> (res: Result<(), Errors>)
        requires
            old(self).valid(),
            pos.offset <= usize::MAX,
        ensures
            res is Ok,
            final(self).valid(),
            final(self).id() == old(self).id(),
            final(self).bytes() == old(self).bytes() + encode_record(hint_record(key@, pos)),
            final(self).offset() == old(self).offset() + encode_record(hint_record(key@, pos)).len(),
            final(self).synced() == old(self).synced(),
    {
        let hint = LogRecord { key, value: pos.encode(), rec_type: LogRecodType::NORMAL };
        let enc = hint.encode();
        let _ = self.write(enc.as_slice());
        Ok(())
    }

    /// Decodes the record that starts at `offset`.
    pub fn read_log_record(&self, offset: u64) -> (res: Result<ReadLogRecord, Errors>)
        ensures
            match decode_record(self.bytes(), offset as int) {
                Ok((rec, size)) => res is Ok && res->Ok_0.record@ == rec && res->Ok_0.size == size,
                Err(e) => res is Err && res->Err_0 == e,
            },
    {
        decode_log_record(self.data.as_slice(), offset)
    }

    /// Sets the offset at which the file is taken to end.
    pub fn set_write_off(&mut self, offset: u64)
        requires
            old(self).valid(),
            offset <= old(self).bytes().len(),
        ensures
            final(self).valid(),
            final(self).id() == old(self).id(),
            final(self).bytes() == old(self).bytes(),
            final(self).synced() == old(self).synced(),
            final(self).offset() == offset,
    {
        self.write_off = offset;
    }
}

/// The hint record of a key: the key, and its position as the value.
pub open spec fn hint_record(key: Seq<u8>, pos: LogRecodPos) -> LogRecordView {
    LogRecordView { key, value: encode_pos(pos), rec_type: LogRecodType::NORMAL }
}

} // verus!
