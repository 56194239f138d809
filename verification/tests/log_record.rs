use kv_data::data::log_record::{decode_log_record, LogRecodType, LogRecord};

#[test]
fn test_log_record_encode() {
    let rec1 = LogRecord {
        key: "name".as_bytes().to_vec(),
        value: "bitcask-rs".as_bytes().to_vec(),
        rec_type: LogRecodType::NORMAL,
    };
    let enc1 = rec1.encode();
    assert!(enc1.len() > 5);
    assert_eq!(1020360578, rec1.get_crc());

    let rec2 = LogRecord {
        key: "name".as_bytes().to_vec(),
        value: Default::default(),
        rec_type: LogRecodType::NORMAL,
    };
    let enc2 = rec2.encode();
    assert!(enc2.len() > 5);
    assert_eq!(3756865478, rec2.get_crc());

    let rec3 = LogRecord {
        key: "name".as_bytes().to_vec(),
        value: "bitcask-rs".as_bytes().to_vec(),
        rec_type: LogRecodType::DELETED,
    };
    let enc3 = rec3.encode();
    assert!(enc3.len() > 5);
    assert_eq!(1867197446, rec3.get_crc());
}

#[test]
fn encode_lays_out_type_lengths_key_value_checksum() {
    let rec = LogRecord {
        key: b"name".to_vec(),
        value: b"bitcask-rs".to_vec(),
        rec_type: LogRecodType::NORMAL,
    };
    let enc = rec.encode();
    assert_eq!(enc.len(), 1 + 1 + 1 + 4 + 10 + 4);
    assert_eq!(enc[0], 1);
    assert_eq!(enc[1], 4);
    assert_eq!(enc[2], 10);
    assert_eq!(&enc[3..7], b"name");
    assert_eq!(&enc[7..17], b"bitcask-rs");
    assert_eq!(&enc[17..], &1020360578u32.to_be_bytes());
}

#[test]
fn decode_gives_back_what_was_encoded() {
    let rec = LogRecord {
        key: b"name".to_vec(),
        value: b"bitcask-rs-kv".to_vec(),
        rec_type: LogRecodType::DELETED,
    };
    let mut data = vec![9u8, 9, 9];
    data.extend_from_slice(&rec.encode());
    data.extend_from_slice(b"tail");
    let read = decode_log_record(&data, 3).expect("a record");
    assert_eq!(read.record.key, rec.key);
    assert_eq!(read.record.value, rec.value);
    assert_eq!(read.record.rec_type, LogRecodType::DELETED);
    assert_eq!(read.size, 24);
}
