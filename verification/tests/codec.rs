use kv_data::batch::{log_record_with_seq, parse_log_record_key};
use kv_data::data::data_file::{get_data_file_name, parse_data_file_name, DataFile};
use kv_data::data::log_record::{
    decode_log_record, decode_log_record_pos, max_log_record_header_size, LogRecodPos, LogRecodType,
    LogRecord,
};
use kv_data::db::{record_fits, Engine};
use kv_data::errors::Errors;
use kv_data::fio::FileEntry;
use kv_data::load::{load_data_files, read_marker};
use kv_data::merge::{ends_with, load_merge_files, FileInfo};
use kv_data::options::{check_options, MergeRatio, Options};
use kv_data::util::decimal::{format_decimal, format_padded, parse_decimal};
use kv_data::util::file::dir_disk_size;

fn record(key: &[u8], value: &[u8], rec_type: LogRecodType) -> LogRecord {
    LogRecord { key: key.to_vec(), value: value.to_vec(), rec_type }
}

#[test]
fn sequence_number_goes_in_front_of_the_key() {
    assert_eq!(log_record_with_seq(b"k".to_vec(), 0), vec![0x00, b'k']);
    assert_eq!(log_record_with_seq(b"k".to_vec(), 1), vec![0x01, b'k']);
    assert_eq!(log_record_with_seq(b"k".to_vec(), 127), vec![0x7f, b'k']);
    assert_eq!(log_record_with_seq(b"k".to_vec(), 128), vec![0x80, 0x01, b'k']);
    assert_eq!(log_record_with_seq(b"k".to_vec(), 300), vec![0xac, 0x02, b'k']);
    assert_eq!(log_record_with_seq(Vec::new(), 16384), vec![0x80, 0x80, 0x01]);
}

#[test]
fn key_is_parted_from_its_sequence_number() {
    assert_eq!(parse_log_record_key(&[0xac, 0x02, b'k', b'2']), Some((b"k2".to_vec(), 300)));
    assert_eq!(parse_log_record_key(&[0x00]), Some((Vec::new(), 0)));
    assert_eq!(parse_log_record_key(&log_record_with_seq(b"key".to_vec(), 77)), Some((b"key".to_vec(), 77)));
    // No byte ends the number.
    assert_eq!(parse_log_record_key(&[0x80, 0x80]), None);
    assert_eq!(parse_log_record_key(&[]), None);
    // The tenth byte carries the number past 64 bits.
    assert_eq!(parse_log_record_key(&[0xff, 0xff, 0xff, 0xff, 0xff, 0xff, 0xff, 0xff, 0xff, 0x02]), None);
    assert_eq!(
        parse_log_record_key(&[0xff, 0xff, 0xff, 0xff, 0xff, 0xff, 0xff, 0xff, 0xff, 0x01, 9]),
        Some((vec![9], usize::MAX))
    );
}

#[test]
fn header_and_record_lengths() {
    assert_eq!(max_log_record_header_size(), 11);
    assert_eq!(record(b"name", b"bitcask-rs", LogRecodType::NORMAL).encoded_length(), 21);
    assert_eq!(record(&[7u8; 200], b"", LogRecodType::NORMAL).encoded_length(), 1 + 2 + 1 + 200 + 4);
    assert!(record_fits(b"key", b"value"));
}

#[test]
fn decode_tells_the_end_of_the_log_from_corruption() {
    let enc = record(b"name", b"bitcask-rs", LogRecodType::NORMAL).encode();
    assert_eq!(decode_log_record(&enc, enc.len() as u64).err().unwrap(), Errors::ReadDataFileEOF);
    assert_eq!(decode_log_record(&enc, 1000).err().unwrap(), Errors::ReadDataFileEOF);
    assert_eq!(decode_log_record(&[], 0).err().unwrap(), Errors::ReadDataFileEOF);
    // A key length of zero with a value length other than zero.
    assert_eq!(decode_log_record(&[1, 0, 5, 1, 2, 3], 0).err().unwrap(), Errors::ReadDataFileEOF);
    let empty_key = record(b"", b"value", LogRecodType::NORMAL).encode();
    assert_eq!(decode_log_record(&empty_key, 0).err().unwrap(), Errors::ReadDataFileEOF);
    // A body that the bytes do not hold in full.
    assert_eq!(decode_log_record(&enc[..enc.len() - 1], 0).err().unwrap(), Errors::WrongLogRecordCrc);
    let mut flipped = enc.clone();
    flipped[4] ^= 1;
    assert_eq!(decode_log_record(&flipped, 0).err().unwrap(), Errors::WrongLogRecordCrc);
    // A type byte that stands for no type.
    assert_eq!(decode_log_record(&[9, 1, 1, b'k', b'v', 0, 0, 0, 0], 0).err().unwrap(), Errors::DataDirectoryCorruped);
    // A length that does not end.
    assert_eq!(decode_log_record(&[1, 0x80], 0).err().unwrap(), Errors::DataDirectoryCorruped);
    let both_empty = record(b"", b"", LogRecodType::DELETED).encode();
    let read = decode_log_record(&both_empty, 0).unwrap();
    assert_eq!(read.size, 7);
    assert_eq!(read.record.rec_type, LogRecodType::DELETED);
}

#[test]
fn position_is_encoded_as_three_lengths() {
    let pos = LogRecodPos { file_id: 3, offset: 300, size: 21 };
    assert_eq!(pos.encode(), vec![3, 0xac, 0x02, 21]);
    assert_eq!(decode_log_record_pos(&[3, 0xac, 0x02, 21, 99]), Some(pos));
    let far = LogRecodPos { file_id: u32::MAX, offset: 1 << 40, size: u32::MAX };
    assert_eq!(decode_log_record_pos(&far.encode()), Some(far));
    assert_eq!(decode_log_record_pos(&[3, 0xac]), None);
    // A segment id beyond 32 bits.
    assert_eq!(decode_log_record_pos(&[0x80, 0x80, 0x80, 0x80, 0x10, 0, 0]), None);
}

#[test]
fn segments_are_named_by_their_ids() {
    assert_eq!(get_data_file_name(0), b"000000000.data".to_vec());
    assert_eq!(get_data_file_name(660), b"000000660.data".to_vec());
    assert_eq!(get_data_file_name(4294967295), b"4294967295.data".to_vec());
    assert_eq!(parse_data_file_name(b"000000660.data"), Some(Ok(660)));
    assert_eq!(parse_data_file_name(b"7.data"), Some(Ok(7)));
    assert_eq!(parse_data_file_name(b"hint-index"), None);
    assert_eq!(parse_data_file_name(b".data"), Some(Err(Errors::DataDirectoryCorruped)));
    assert_eq!(parse_data_file_name(b"12x.data"), Some(Err(Errors::DataDirectoryCorruped)));
    assert_eq!(parse_data_file_name(b"1.2.data"), Some(Ok(1)));
    assert_eq!(parse_data_file_name(b"4294967296.data"), Some(Err(Errors::DataDirectoryCorruped)));
}

#[test]
fn test_new_data_file() {
    let data_file1 = DataFile::new(0, Vec::new());
    assert_eq!(data_file1.get_file_id(), 0);
    let data_file2 = DataFile::new(0, Vec::new());
    assert_eq!(data_file2.get_file_id(), 0);
    let data_file3 = DataFile::new(660, vec![1, 2, 3]);
    assert_eq!(data_file3.get_file_id(), 660);
    assert_eq!(data_file3.get_write_off(), 0);
    assert_eq!(data_file3.file_size(), 3);
}

#[test]
fn test_data_file_write() {
    let mut data_file1 = DataFile::new(100, Vec::new());
    assert_eq!(data_file1.get_file_id(), 100);
    let write_res1 = data_file1.write("aaa".as_bytes());
    assert!(write_res1.is_ok());
    assert_eq!(write_res1.unwrap(), 3 as usize);
    let write_res2 = data_file1.write("bbb".as_bytes());
    assert!(write_res2.is_ok());
    assert_eq!(write_res2.unwrap(), 3 as usize);
    let write_res3 = data_file1.write("ccc".as_bytes());
    assert!(write_res3.is_ok());
    assert_eq!(write_res3.unwrap(), 3 as usize);
    assert_eq!(data_file1.get_write_off(), 9);
    assert_eq!(data_file1.data(), &b"aaabbbccc".to_vec());
}

#[test]
fn test_data_file_sync() {
    let mut data_file1 = DataFile::new(200, Vec::new());
    assert_eq!(data_file1.get_file_id(), 200);
    assert!(data_file1.write(b"abc").is_ok());
    assert_eq!(data_file1.synced_len(), 0);
    let sync_res = data_file1.sync();
    assert!(sync_res.is_ok());
    assert_eq!(data_file1.synced_len(), 3);
}

#[test]
fn test_data_file_read_log_record() {
    let mut data_file1 = DataFile::new(700, Vec::new());
    assert_eq!(data_file1.get_file_id(), 700);

    let enc1 = record(b"name", b"bitcask-rs-kv", LogRecodType::NORMAL);
    let write_res1 = data_file1.write(&enc1.encode());
    assert!(write_res1.is_ok());

    let read_res1 = data_file1.read_log_record(0);
    assert!(read_res1.is_ok());
    let read_enc1 = read_res1.ok().unwrap().record;
    assert_eq!(enc1.key, read_enc1.key);
    assert_eq!(enc1.value, read_enc1.value);
    assert_eq!(enc1.rec_type, read_enc1.rec_type);

    let enc2 = record(b"name", b"new-value", LogRecodType::NORMAL);
    let write_res2 = data_file1.write(&enc2.encode());
    assert!(write_res2.is_ok());

    let read_res2 = data_file1.read_log_record(24);
    assert!(read_res2.is_ok());
    let read_enc2 = read_res2.ok().unwrap().record;
    assert_eq!(enc2.key, read_enc2.key);
    assert_eq!(enc2.value, read_enc2.value);
    assert_eq!(enc2.rec_type, read_enc2.rec_type);

    let enc3 = record(b"name", b"", LogRecodType::DELETED);
    let write_res3 = data_file1.write(&enc3.encode());
    assert!(write_res3.is_ok());

    let read_res3 = data_file1.read_log_record(44);
    assert!(read_res3.is_ok());
    let read_enc3 = read_res3.ok().unwrap().record;
    assert_eq!(enc3.key, read_enc3.key);
    assert_eq!(enc3.value, read_enc3.value);
    assert_eq!(enc3.rec_type, read_enc3.rec_type);
    assert_eq!(data_file1.read_log_record(55).err().unwrap(), Errors::ReadDataFileEOF);
}

#[test]
fn hint_record_holds_the_key_and_its_position() {
    let mut hint = DataFile::new_hint_file(Vec::new());
    let pos = LogRecodPos { file_id: 1, offset: 2, size: 3 };
    assert!(hint.write_hint_record(b"key".to_vec(), pos).is_ok());
    let read = hint.read_log_record(0).unwrap();
    assert_eq!(read.record.key, b"key".to_vec());
    assert_eq!(decode_log_record_pos(&read.record.value), Some(pos));
    assert_eq!(read.size as u64, hint.file_size());
    assert_eq!(DataFile::new_merge_fin_file(vec![1]).file_size(), 1);
    assert_eq!(DataFile::new_seq_no_file(vec![1, 2]).file_size(), 2);
}

#[test]
fn numbers_are_spelled_in_decimal_digits() {
    assert_eq!(format_decimal(0), b"0".to_vec());
    assert_eq!(format_decimal(1020), b"1020".to_vec());
    assert_eq!(format_decimal(u64::MAX), b"18446744073709551615".to_vec());
    assert_eq!(format_padded(42, 5), b"00042".to_vec());
    assert_eq!(format_padded(123456, 3), b"123456".to_vec());
    assert_eq!(parse_decimal(b"00042"), Some(42));
    assert_eq!(parse_decimal(b"18446744073709551615"), Some(u64::MAX));
    assert_eq!(parse_decimal(b"18446744073709551616"), None);
    assert_eq!(parse_decimal(b""), None);
    assert_eq!(parse_decimal(b"+5"), None);
    assert_eq!(parse_decimal(b"5 "), None);
}

#[test]
fn marker_file_gives_its_number() {
    let marker = record(b"merge-finshed", b"17", LogRecodType::NORMAL).encode();
    assert_eq!(read_marker(&marker), Ok(17));
    assert_eq!(read_marker(&[]), Err(Errors::DataDirectoryCorruped));
    let marker = record(b"seq.no", b"x", LogRecodType::NORMAL).encode();
    assert_eq!(read_marker(&marker), Err(Errors::DataDirectoryCorruped));
    assert_eq!(read_marker(&marker[..marker.len() - 2]), Err(Errors::WrongLogRecordCrc));
}

#[test]
fn options_are_checked_in_their_order() {
    let mut opts = Options::default();
    assert_eq!(check_options(&opts), None);
    assert_eq!(opts.data_file_size, 256 * 1024 * 1024);
    assert_eq!(opts.data_file_merge_ratio, MergeRatio { numer: 1, denom: 2 });
    opts.data_file_merge_ratio = MergeRatio { numer: 1, denom: 0 };
    assert_eq!(check_options(&opts), Some(Errors::DataFileMergeRatioIsInvalid));
    opts.data_file_size = 0;
    assert_eq!(check_options(&opts), Some(Errors::DataFileIsEmpty));
    opts.dir_path = String::new();
    assert_eq!(check_options(&opts), Some(Errors::DirIsNotExist));
}

#[test]
fn merge_ratio_is_a_threshold() {
    let half = MergeRatio { numer: 1, denom: 2 };
    assert!(half.is_reached(5, 10));
    assert!(!half.is_reached(4, 10));
    assert!(half.is_reached(u64::MAX, u64::MAX));
    assert!(MergeRatio { numer: 0, denom: 1 }.is_reached(0, 10));
    assert!(!MergeRatio { numer: 1, denom: 1 }.is_reached(9, 10));
    assert!(MergeRatio { numer: 1, denom: 1 }.is_reached(10, 10));
}

#[test]
fn segments_are_loaded_in_the_order_of_their_ids() {
    let files = vec![
        FileEntry { name: b"000000002.data".to_vec(), data: vec![2] },
        FileEntry { name: b"flock".to_vec(), data: vec![] },
        FileEntry { name: b"000000010.data".to_vec(), data: vec![10] },
        FileEntry { name: b"000000001.data".to_vec(), data: vec![1] },
    ];
    assert_eq!(dir_disk_size(&files), 3);
    let loaded = load_data_files(files).unwrap();
    let ids: Vec<u32> = loaded.iter().map(|f| f.get_file_id()).collect();
    assert_eq!(ids, vec![1, 2, 10]);
    assert_eq!(loaded[2].data(), &vec![10u8]);
    let twice = vec![
        FileEntry { name: b"000000002.data".to_vec(), data: vec![] },
        FileEntry { name: b"2.data".to_vec(), data: vec![] },
    ];
    assert_eq!(load_data_files(twice).err().unwrap(), Errors::DataDirectoryCorruped);
}

#[test]
fn merge_adoption_plan() {
    assert!(ends_with(b"000000001.data", b".data"));
    assert!(!ends_with(b"data", b".data"));
    let main = vec![b"000000000.data".to_vec(), b"000000003.data".to_vec(), b"hint-index".to_vec()];
    let listing = vec![
        FileInfo { name: b"000000000.data".to_vec(), len: 10 },
        FileInfo { name: b"000000001.data".to_vec(), len: 0 },
        FileInfo { name: b"seq-no".to_vec(), len: 5 },
        FileInfo { name: b"flock".to_vec(), len: 0 },
        FileInfo { name: b"hint-index".to_vec(), len: 11 },
        FileInfo { name: b"merge-finished".to_vec(), len: 20 },
    ];
    let marker = record(b"merge-finshed", b"3", LogRecodType::NORMAL).encode();
    let plan = load_merge_files(&main, &listing, &marker).unwrap().unwrap();
    assert_eq!(plan.remove, vec![b"000000000.data".to_vec()]);
    assert_eq!(
        plan.rename,
        vec![b"000000000.data".to_vec(), b"hint-index".to_vec(), b"merge-finished".to_vec()]
    );
    assert_eq!(load_merge_files(&main, &listing, b"junk").err().unwrap(), Errors::DataDirectoryCorruped);
    let big = record(b"merge-finshed", b"4294967296", LogRecodType::NORMAL).encode();
    assert_eq!(load_merge_files(&main, &listing, &big).err().unwrap(), Errors::DataDirectoryCorruped);
    assert!(load_merge_files(&main, &listing[..5].iter().map(|f| FileInfo { name: f.name.clone(), len: f.len }).collect(), &marker)
        .unwrap()
        .is_none());
}

#[test]
fn position_outside_the_segments_is_not_found() {
    let mut engine = Engine::open(Options::default(), Vec::new()).unwrap();
    assert!(engine.put(b"k".to_vec(), b"v".to_vec()).is_ok());
    let pos = engine.get_position(b"k").unwrap();
    assert_eq!(pos, LogRecodPos { file_id: 0, offset: 0, size: 10 });
    assert_eq!(engine.get_value_by_position(&pos).unwrap(), b"v".to_vec());
    let elsewhere = LogRecodPos { file_id: 5, offset: 0, size: 10 };
    assert_eq!(engine.get_value_by_position(&elsewhere).err().unwrap(), Errors::DataFileNotFound);
    let behind = LogRecodPos { file_id: 0, offset: 10, size: 10 };
    assert_eq!(engine.get_value_by_position(&behind).err().unwrap(), Errors::ReadDataFileEOF);
}

#[test]
fn no_segment_id_is_left_behind_the_last() {
    let mut opts = Options::default();
    opts.data_file_size = 15;
    let files = vec![FileEntry { name: b"4294967295.data".to_vec(), data: Vec::new() }];
    let mut engine = Engine::open(opts, files).unwrap();
    assert_eq!(engine.active_file_id(), u32::MAX);
    assert!(engine.put(b"a".to_vec(), b"1".to_vec()).is_ok());
    assert_eq!(engine.put(b"b".to_vec(), b"2".to_vec()).err().unwrap(), Errors::FileOpenError);
    assert_eq!(engine.get(b"b".to_vec()).err().unwrap(), Errors::KeyIsNotExist);
    assert_eq!(engine.active_file().file_size(), 10);
}

#[test]
fn trailing_bytes_in_the_last_segment_fail_the_open() {
    let mut data = record(&[0, b'k'], b"v", LogRecodType::NORMAL).encode();
    data.extend_from_slice(&[1, 0, 5, 0, 0, 0]);
    let files = vec![FileEntry { name: b"000000000.data".to_vec(), data: data.clone() }];
    assert_eq!(Engine::open(Options::default(), files).err().unwrap(), Errors::DataDirectoryCorruped);
    // In a sealed segment the log ends there, and the segment is kept.
    let files = vec![
        FileEntry { name: b"000000000.data".to_vec(), data },
        FileEntry { name: b"000000001.data".to_vec(), data: Vec::new() },
    ];
    let engine = Engine::open(Options::default(), files).unwrap();
    assert_eq!(engine.get(b"k".to_vec()).unwrap(), b"v".to_vec());
}
