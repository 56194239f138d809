//! The record: the unit that is written to a segment, its wire format, and
//! the position that locates one record on disk.
//!
//! An encoded record is laid out as
//!
//! ```text
//! +------+-------------+-------------+-----+-------+-------+
//! | type | varint klen | varint vlen | key | value | crc32 |
//! +------+-------------+-------------+-----+-------+-------+
//! ```
//!
//! where the checksum covers every byte before it and is stored most
//! significant byte first.

use crate::data::checksum::{be_bytes, be_value, crc32, crc32_checksum, get_u32, put_u32};
use crate::data::checksum::lemma_be_roundtrip;
use crate::data::varint::{decode_length_delimiter, encode_length_delimiter, length_delimiter_len};
use crate::data::varint::{lemma_scan_bounds, lemma_scan_prefix, lemma_scan_varint};
use crate::data::varint::{lemma_digit_cap_zero, lemma_varint_len, lemma_varint_roundtrip};
use crate::data::varint::{varint, varint_decode};
use crate::errors::Errors;
use vstd::prelude::*;
use vstd::slice::{slice_subrange, slice_to_vec};

verus! {

/// The number of bytes that hold the header of any record: the type byte and
/// two length delimiters of 32-bit values.
pub const MAX_HEADER_SIZE: usize = 11;

/// What a record says of its key.
#[derive(Debug, PartialEq, Eq, Clone, Copy, Structural)]
pub enum LogRecodType {
    /// The key has the record's value.
    NORMAL,
    /// The key is deleted.
    DELETED,
    /// The batch whose sequence number the key carries is complete.
    TXNFINSHED,
}

impl LogRecodType {
    /// The byte that stands for the type on disk.
    pub open spec fn code(self) -> u8 {
        match self {
            LogRecodType::NORMAL => 1,
            LogRecodType::DELETED => 2,
            LogRecodType::TXNFINSHED => 3,
        }
    }

    /// The type that a byte stands for, if any.
    pub open spec fn of_code(val: u8) -> Option<LogRecodType> {
        if val == 1 {
            Some(LogRecodType::NORMAL)
        } else if val == 2 {
            Some(LogRecodType::DELETED)
        } else if val == 3 {
            Some(LogRecodType::TXNFINSHED)
        } else {
            None
        }
    }

    /// The type that `val` stands for.
    pub fn from_u8(val: u8) -> (t: LogRecodType)
        requires
            1 <= val <= 3,
        ensures
            Self::of_code(val) == Some(t),
            t.code() == val,
    {
        if val == 1 {
            LogRecodType::NORMAL
        } else if val == 2 {
            LogRecodType::DELETED
        } else {
            LogRecodType::TXNFINSHED
        }
    }

    /// The byte that stands for the type on disk.
    pub fn to_u8(self) -> (val: u8)
        ensures
            val == self.code(),
    {
        match self {
            LogRecodType::NORMAL => 1,
            LogRecodType::DELETED => 2,
            LogRecodType::TXNFINSHED => 3,
        }
    }
}

/// A record of the log.
#[derive(Debug)]
pub struct LogRecord {
    pub key: Vec<u8>,
    pub value: Vec<u8>,
    pub rec_type: LogRecodType,
}

/// A record as a mathematical value.
pub struct LogRecordView {
    pub key: Seq<u8>,
    pub value: Seq<u8>,
    pub rec_type: LogRecodType,
}

impl View for LogRecord {
    type V = LogRecordView;

    open spec fn view(&self) -> LogRecordView {
        LogRecordView { key: self.key@, value: self.value@, rec_type: self.rec_type }
    }
}

/// A record that was read from a segment, with the number of bytes it takes there.
#[derive(Debug)]
pub struct ReadLogRecord {
    pub record: LogRecord,
    pub size: usize,
}

/// Where an encoded record lies: the segment, the offset of its first byte
/// and its length.
#[derive(Debug, Clone, Copy, PartialEq, Eq, Structural)]
pub struct LogRecodPos {
    pub file_id: u32,
    pub offset: u64,
    pub size: u32,
}

/// A record of a batch that waits for the batch's end marker, with its position.
#[derive(Debug)]
pub struct TransactionRecord {
    pub record: LogRecord,
    pub pos: LogRecodPos,
}

/// The bytes of a record that its checksum covers: type, lengths, key, value.
pub open spec fn checked_bytes(r: LogRecordView) -> Seq<u8> {
    seq![r.rec_type.code()] + varint(r.key.len()) + varint(r.value.len()) + r.key + r.value
}

/// The checksum of a record.
pub open spec fn record_crc(r: LogRecordView) -> u32 {
    crc32_checksum(checked_bytes(r))
}

/// The encoded record: the checked bytes, followed by their checksum.
pub open spec fn encode_record(r: LogRecordView) -> Seq<u8> {
    checked_bytes(r) + be_bytes(record_crc(r))
}

/// The length of the encoded record.
pub open spec fn encoded_size(r: LogRecordView) -> nat {
    1 + varint(r.key.len()).len() + varint(r.value.len()).len() + r.key.len() + r.value.len() + 4
}

/// A record that the decoder gives back as it was encoded: both lengths fit in
/// 32 bits, and the record is not one with an empty key and a value, which
/// reads as the end of the log.
pub open spec fn decodable(r: LogRecordView) -> bool {
    &&& r.key.len() <= u32::MAX
    &&& r.value.len() <= u32::MAX
    &&& !(r.key.len() == 0 && r.value.len() != 0)
}

/// Decoding the record at the front of `bytes`.
///
/// - No bytes: the end of the log.
/// - The header is read from the first `MAX_HEADER_SIZE` bytes, or from all of
///   them where there are fewer. A length delimiter that cannot be read is
///   corruption.
/// - A key length of zero with a value length other than zero marks the end
///   of the log.
/// - A type byte that stands for no type is corruption.
/// - A body that `bytes` does not hold in full, or whose stored checksum
///   differs from the checksum of the bytes before it, is a checksum failure.
pub open spec fn parse_record(bytes: Seq<u8>) -> Result<(LogRecordView, nat), Errors> {
    if bytes.len() == 0 {
        Err(Errors::ReadDataFileEOF)
    } else {
        let header = bytes.take(
            if bytes.len() > MAX_HEADER_SIZE {
                MAX_HEADER_SIZE as int
            } else {
                bytes.len() as int
            },
        );
        let sizes = header.skip(1);
        match varint_decode(sizes) {
            None => Err(Errors::DataDirectoryCorruped),
            Some((klen, n1)) => if klen > usize::MAX {
                Err(Errors::DataDirectoryCorruped)
            } else {
                match varint_decode(sizes.skip(n1)) {
                    None => Err(Errors::DataDirectoryCorruped),
                    Some((vlen, n2)) => if vlen > usize::MAX {
                        Err(Errors::DataDirectoryCorruped)
                    } else if klen == 0 && vlen != 0 {
                        Err(Errors::ReadDataFileEOF)
                    } else if LogRecodType::of_code(bytes[0]) is None {
                        Err(Errors::DataDirectoryCorruped)
                    } else {
                        let body = 1 + n1 + n2;
                        let end = body + klen + vlen;
                        if end + 4 > bytes.len() {
                            Err(Errors::WrongLogRecordCrc)
                        } else if be_value(bytes.subrange(end, end + 4)) != crc32_checksum(
                            bytes.take(end),
                        ) {
                            Err(Errors::WrongLogRecordCrc)
                        } else {
                            Ok(
                                (
                                    LogRecordView {
                                        key: bytes.subrange(body, body + klen),
                                        value: bytes.subrange(body + klen, end),
                                        rec_type: LogRecodType::of_code(bytes[0])->0,
                                    },
                                    (end + 4) as nat,
                                ),
                            )
                        }
                    },
                }
            },
        }
    }
}

/// Decoding the record of `data` that starts at `offset`. An offset at or
/// behind the end of `data` is the end of the log.
pub open spec fn decode_record(data: Seq<u8>, offset: int) -> Result<(LogRecordView, nat), Errors> {
    if offset < 0 || offset >= data.len() {
        Err(Errors::ReadDataFileEOF)
    } else {
        parse_record(data.skip(offset))
    }
}

/// A record that is decoded takes at least seven bytes and no more than there
/// are, and its key and value lie within them.
pub proof fn lemma_parse_size(bytes: Seq<u8>)
    requires
        parse_record(bytes) is Ok,
    ensures
        7 <= (parse_record(bytes)->Ok_0).1 <= bytes.len(),
        (parse_record(bytes)->Ok_0).0.key.len() + (parse_record(bytes)->Ok_0).0.value.len() + 7 <= (
        parse_record(bytes)->Ok_0).1,
        (parse_record(bytes)->Ok_0).1 <= (parse_record(bytes)->Ok_0).0.key.len() + (parse_record(
            bytes,
        )->Ok_0).0.value.len() + 15,
{
    let hlen: int = if bytes.len() > MAX_HEADER_SIZE {
        MAX_HEADER_SIZE as int
    } else {
        bytes.len() as int
    };
    let sizes = bytes.take(hlen).skip(1);
    lemma_scan_bounds(sizes, 0);
    let n1 = (varint_decode(sizes)->0).1;
    lemma_scan_bounds(sizes.skip(n1), 0);
}

/// Decoding reads the record's own bytes only: two byte strings that agree on
/// the bytes of a record that is decoded from one give the same record.
pub proof fn lemma_parse_local(a: Seq<u8>, b: Seq<u8>)
    requires
        parse_record(a) is Ok,
        (parse_record(a)->Ok_0).1 <= b.len(),
        a.take((parse_record(a)->Ok_0).1 as int) == b.take((parse_record(a)->Ok_0).1 as int),
    ensures
        parse_record(b) == parse_record(a),
{
    let n = (parse_record(a)->Ok_0).1 as int;
    lemma_parse_size(a);
    let ha: int = if a.len() > MAX_HEADER_SIZE {
        MAX_HEADER_SIZE as int
    } else {
        a.len() as int
    };
    let hb: int = if b.len() > MAX_HEADER_SIZE {
        MAX_HEADER_SIZE as int
    } else {
        b.len() as int
    };
    let sa = a.take(ha).skip(1);
    let sb = b.take(hb).skip(1);
    lemma_scan_bounds(sa, 0);
    let klen = (varint_decode(sa)->0).0;
    let n1 = (varint_decode(sa)->0).1;
    lemma_scan_bounds(sa.skip(n1), 0);
    let vlen = (varint_decode(sa.skip(n1))->0).0;
    let n2 = (varint_decode(sa.skip(n1))->0).1;
    let body = 1 + n1 + n2;
    let end = body + klen + vlen;
    assert(n == end + 4);
    assert forall|j: int| 0 <= j < n implies a[j] == b[j] by {
        assert(a.take(n)[j] == b.take(n)[j]);
    }
    assert(sa.subrange(0, n1) =~= sb.subrange(0, n1));
    lemma_scan_prefix(sa, sb, 0);
    assert(sa.skip(n1).subrange(0, n2) =~= sb.skip(n1).subrange(0, n2));
    lemma_scan_prefix(sa.skip(n1), sb.skip(n1), 0);
    assert(a.subrange(end, end + 4) =~= b.subrange(end, end + 4));
    assert(a.take(end) =~= b.take(end));
    assert(a.subrange(body, body + klen) =~= b.subrange(body, body + klen));
    assert(a.subrange(body + klen, end) =~= b.subrange(body + klen, end));
}

/// The encoded record has the length that `encoded_size` gives.
pub proof fn lemma_encoded_size(r: LogRecordView)
    ensures
        encode_record(r).len() == encoded_size(r),
        encoded_size(r) >= 7,
{
    lemma_be_roundtrip(record_crc(r));
    lemma_varint_len(r.key.len());
    lemma_varint_len(r.value.len());
}

/// Decoding what was encoded gives the record back, with its encoded length,
/// whatever bytes follow the record.
pub proof fn lemma_parse_encoded(r: LogRecordView, rest: Seq<u8>)
    requires
        decodable(r),
    ensures
        parse_record(encode_record(r) + rest) == Ok::<(LogRecordView, nat), Errors>(
            (r, encoded_size(r)),
        ),
{
    let bytes = encode_record(r) + rest;
    let kv = varint(r.key.len());
    let vv = varint(r.value.len());
    let n1 = kv.len() as int;
    let n2 = vv.len() as int;
    lemma_encoded_size(r);
    lemma_varint_len(r.key.len());
    lemma_varint_len(r.value.len());
    lemma_digit_cap_zero();
    lemma_be_roundtrip(record_crc(r));
    let hlen: int = if bytes.len() > MAX_HEADER_SIZE {
        MAX_HEADER_SIZE as int
    } else {
        bytes.len() as int
    };
    let sizes = bytes.take(hlen).skip(1);
    assert(n1 + n2 <= 10);
    assert(sizes.len() >= n1 + n2);
    let body = 1 + n1 + n2;
    let end = body + r.key.len() + r.value.len();
    assert forall|j: int| 0 <= j < n1 implies #[trigger] bytes[1 + j] == kv[j] by {
        assert(checked_bytes(r)[1 + j] == kv[j]);
    }
    assert forall|j: int| 0 <= j < n2 implies #[trigger] bytes[1 + n1 + j] == vv[j] by {
        assert(checked_bytes(r)[1 + n1 + j] == vv[j]);
    }
    assert(sizes.subrange(0, n1) =~= kv);
    lemma_scan_varint(sizes, 0, r.key.len());
    assert(sizes.skip(n1).subrange(0, n2) =~= vv);
    lemma_scan_varint(sizes.skip(n1), 0, r.value.len());
    assert(bytes[0] == r.rec_type.code());
    assert(bytes.take(end) =~= checked_bytes(r));
    assert(bytes.subrange(end, end + 4) =~= be_bytes(record_crc(r)));
    assert(bytes.subrange(body, body + r.key.len()) =~= r.key);
    assert(bytes.subrange(body + r.key.len(), end) =~= r.value);
}

/// A record that is decoded at an offset of `data` is decoded there from any
/// byte string that holds the same bytes at the record's place.
pub proof fn lemma_decode_local(a: Seq<u8>, b: Seq<u8>, offset: int)
    requires
        decode_record(a, offset) is Ok,
        offset + (decode_record(a, offset)->Ok_0).1 <= b.len(),
        a.subrange(offset, offset + (decode_record(a, offset)->Ok_0).1) == b.subrange(
            offset,
            offset + (decode_record(a, offset)->Ok_0).1,
        ),
    ensures
        decode_record(b, offset) == decode_record(a, offset),
{
    let n = (decode_record(a, offset)->Ok_0).1 as int;
    lemma_parse_size(a.skip(offset));
    assert(a.skip(offset).take(n) =~= a.subrange(offset, offset + n));
    assert(b.skip(offset).take(n) =~= b.subrange(offset, offset + n));
    lemma_parse_local(a.skip(offset), b.skip(offset));
}

/// Appending to a byte string changes no record that is decoded from it.
pub proof fn lemma_decode_append(data: Seq<u8>, more: Seq<u8>, offset: int)
    requires
        decode_record(data, offset) is Ok,
    ensures
        decode_record(data + more, offset) == decode_record(data, offset),
{
    let n = (decode_record(data, offset)->Ok_0).1 as int;
    lemma_parse_size(data.skip(offset));
    assert(data.subrange(offset, offset + n) =~= (data + more).subrange(offset, offset + n));
    lemma_decode_local(data, data + more, offset);
}

/// A record that is appended to a byte string is decoded at the offset where
/// the byte string ended.
pub proof fn lemma_decode_appended(data: Seq<u8>, r: LogRecordView, rest: Seq<u8>)
    requires
        decodable(r),
    ensures
        decode_record(data + encode_record(r) + rest, data.len() as int) == Ok::<
            (LogRecordView, nat),
            Errors,
        >((r, encoded_size(r))),
{
    lemma_encoded_size(r);
    let all = data + encode_record(r) + rest;
    assert(all.skip(data.len() as int) =~= encode_record(r) + rest);
    lemma_parse_encoded(r, rest);
}

/// The encoded position: the delimiters of the segment, the offset and the length.
pub open spec fn encode_pos(p: LogRecodPos) -> Seq<u8> {
    varint(p.file_id as nat) + varint(p.offset as nat) + varint(p.size as nat)
}

/// Decoding a position from the front of `bytes`: three delimiters, whose
/// values fit the fields of a position and the machine's word.
pub open spec fn decode_pos(bytes: Seq<u8>) -> Option<LogRecodPos> {
    match varint_decode(bytes) {
        None => None,
        Some((file_id, n1)) => match varint_decode(bytes.skip(n1)) {
            None => None,
            Some((offset, n2)) => match varint_decode(bytes.skip(n1).skip(n2)) {
                None => None,
                Some((size, n3)) => if file_id <= u32::MAX && offset <= usize::MAX && size
                    <= u32::MAX {
                    Some(
                        LogRecodPos {
                            file_id: file_id as u32,
                            offset: offset as u64,
                            size: size as u32,
                        },
                    )
                } else {
                    None
                },
            },
        },
    }
}

/// Decoding an encoded position gives it back, whatever bytes follow.
pub proof fn lemma_pos_roundtrip(p: LogRecodPos, rest: Seq<u8>)
    requires
        p.offset <= usize::MAX,
    ensures
        decode_pos(encode_pos(p) + rest) == Some(p),
{
    let a = varint(p.file_id as nat);
    let b = varint(p.offset as nat);
    let c = varint(p.size as nat);
    let bytes = encode_pos(p) + rest;
    assert(bytes =~= a + (b + c + rest));
    lemma_varint_roundtrip(p.file_id as nat, b + c + rest);
    assert(bytes.skip(a.len() as int) =~= b + (c + rest));
    lemma_varint_roundtrip(p.offset as nat, c + rest);
    assert(bytes.skip(a.len() as int).skip(b.len() as int) =~= c + rest);
    lemma_varint_roundtrip(p.size as nat, rest);
}

impl LogRecodPos {
    /// The encoded position.
    pub fn encode(&self) -> (enc: Vec<u8>)
        requires
            self.offset <= usize::MAX,
        ensures
            enc@ == encode_pos(*self),
    {
        let mut buf = encode_length_delimiter(self.file_id as usize);
        let offset = encode_length_delimiter(self.offset as usize);
        let size = encode_length_delimiter(self.size as usize);
        buf.extend_from_slice(offset.as_slice());
        buf.extend_from_slice(size.as_slice());
        buf
    }
}

/// Decodes a position from the front of `pos`.
pub fn decode_log_record_pos(pos: &[u8]) -> (res: Option<LogRecodPos>)
    ensures
        res == decode_pos(pos@),
{
    let (file_id, rest1) = decode_length_delimiter(pos);
    let file_id: usize = match file_id {
        Some(v) => v,
        None => {
            return None;
        },
    };
    let (offset, rest2) = decode_length_delimiter(rest1);
    let offset: usize = match offset {
        Some(v) => v,
        None => {
            return None;
        },
    };
    let (size, _) = decode_length_delimiter(rest2);
    let size: usize = match size {
        Some(v) => v,
        None => {
            return None;
        },
    };
    if file_id > u32::MAX as usize || size > u32::MAX as usize {
        return None;
    }
    Some(LogRecodPos { file_id: file_id as u32, offset: offset as u64, size: size as u32 })
}

impl LogRecord {
    /// The encoded record.
    pub fn encode(&self) -> (enc: Vec<u8>)
        ensures
            enc@ == encode_record(self@),
    {
        let (enc, _) = self.encode_and_get_crc();
        enc
    }

    /// The checksum of the record.
    pub fn get_crc(&self) -> (crc: u32)
        ensures
            crc == record_crc(self@),
    {
        let (_, crc) = self.encode_and_get_crc();
        crc
    }

    /// The encoded record and its checksum.
    pub fn encode_and_get_crc(&self) -> (res: (Vec<u8>, u32))
        ensures
            res.0@ == encode_record(self@),
            res.1 == record_crc(self@),
    {
        let mut buf: Vec<u8> = Vec::new();
        buf.push(self.rec_type.to_u8());
        let klen = encode_length_delimiter(self.key.len());
        let vlen = encode_length_delimiter(self.value.len());
        buf.extend_from_slice(klen.as_slice());
        buf.extend_from_slice(vlen.as_slice());
        buf.extend_from_slice(self.key.as_slice());
        buf.extend_from_slice(self.value.as_slice());
        assert(buf@ =~= checked_bytes(self@));
        let crc = crc32(buf.as_slice());
        put_u32(&mut buf, crc);
        (buf, crc)
    }

    /// The length of the encoded record.
    pub fn encoded_length(&self) -> (n: usize)
        requires
            encoded_size(self@) <= usize::MAX,
        ensures
            n == encoded_size(self@),
            n == encode_record(self@).len(),
    {
        proof {
            lemma_encoded_size(self@);
            lemma_varint_len(self.key@.len());
            lemma_varint_len(self.value@.len());
        }
        1 + length_delimiter_len(self.key.len()) + length_delimiter_len(self.value.len())
            + self.key.len() + self.value.len() + 4
    }
}

/// The number of bytes that hold the header of any record.
pub fn max_log_record_header_size() -> (n: usize)
    ensures
        n == MAX_HEADER_SIZE,
{
    proof {
        reveal_with_fuel(varint, 6);
    }
    1 + 2 * length_delimiter_len(u32::MAX as usize)
}

/// Decodes the record of `data` that starts at `offset`.
pub fn decode_log_record(data: &[u8], offset: u64) -> (res: Result<ReadLogRecord, Errors>)
    ensures
        match decode_record(data@, offset as int) {
            Ok((rec, size)) => res is Ok && res->Ok_0.record@ == rec && res->Ok_0.size == size,
            Err(e) => res is Err && res->Err_0 == e,
        },
{
    let len = data.len();
    if offset >= len as u64 {
        return Err(Errors::ReadDataFileEOF);
    }
    let off = offset as usize;
    let bytes = slice_subrange(data, off, len);
    assert(bytes@ == data@.skip(off as int));
    let blen = len - off;
    let hlen: usize = if blen > MAX_HEADER_SIZE {
        MAX_HEADER_SIZE
    } else {
        blen
    };
    let header = slice_subrange(bytes, 0, hlen);
    assert(header@ == bytes@.take(hlen as int));
    let type_byte = bytes[0];
    let sizes = slice_subrange(header, 1, hlen);
    assert(sizes@ == header@.skip(1));
    let (key_size, after_key) = decode_length_delimiter(sizes);
    let klen: usize = match key_size {
        Some(k) => k,
        None => {
            return Err(Errors::DataDirectoryCorruped);
        },
    };
    proof {
        lemma_scan_bounds(sizes@, 0);
    }
    let ghost n1 = (varint_decode(sizes@)->0).1;
    let (value_size, after_value) = decode_length_delimiter(after_key);
    let vlen: usize = match value_size {
        Some(v) => v,
        None => {
            return Err(Errors::DataDirectoryCorruped);
        },
    };
    proof {
        lemma_scan_bounds(sizes@.skip(n1), 0);
    }
    let ghost n2 = (varint_decode(sizes@.skip(n1))->0).1;
    assert(after_value@.len() == sizes@.len() - n1 - n2);
    if klen == 0 && vlen != 0 {
        return Err(Errors::ReadDataFileEOF);
    }
    if type_byte < 1 || type_byte > 3 {
        return Err(Errors::DataDirectoryCorruped);
    }
    let body: usize = hlen - after_value.len();
    assert(body == 1 + n1 + n2);
    let left: usize = blen - body;
    if klen > left || vlen > left - klen || left - klen - vlen < 4 {
        return Err(Errors::WrongLogRecordCrc);
    }
    let end: usize = body + klen + vlen;
    let stored = get_u32(bytes, end);
    let checked = slice_subrange(bytes, 0, end);
    assert(checked@ == bytes@.take(end as int));
    let crc = crc32(checked);
    if crc != stored {
        return Err(Errors::WrongLogRecordCrc);
    }
    let key = slice_to_vec(slice_subrange(bytes, body, body + klen));
    let value = slice_to_vec(slice_subrange(bytes, body + klen, end));
    Ok(
        ReadLogRecord {
            record: LogRecord { key, value, rec_type: LogRecodType::from_u8(type_byte) },
            size: end + 4,
        },
    )
}

} // verus!
