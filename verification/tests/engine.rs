use kv_data::batch::WriteBatch;
use kv_data::data::data_file::get_data_file_name;
use kv_data::db::Engine;
use kv_data::errors::Errors;
use kv_data::fio::FileEntry;
use kv_data::options::{IndexType, IteratorOptions, Options, WriteBatchOptions};
use kv_data::util::rand_kv::{get_test_key, get_test_value};

fn options(index_type: IndexType) -> Options {
    let mut opts = Options::default();
    opts.data_file_size = 64 * 1024 * 1024;
    opts.index_type = index_type;
    opts
}

fn files_of(engine: &Engine) -> Vec<FileEntry> {
    let mut files = Vec::new();
    for file in engine.older_files().iter() {
        files.push(FileEntry { name: get_data_file_name(file.get_file_id()), data: file.data().clone() });
    }
    let active = engine.active_file();
    files.push(FileEntry { name: get_data_file_name(active.get_file_id()), data: active.data().clone() });
    if let Some(data) = engine.hint_file() {
        files.push(FileEntry { name: b"hint-index".to_vec(), data: data.clone() });
    }
    if let Some(data) = engine.merge_fin_file() {
        files.push(FileEntry { name: b"merge-finished".to_vec(), data: data.clone() });
    }
    if let Some(data) = engine.seq_no_file() {
        files.push(FileEntry { name: b"seq-no".to_vec(), data: data.clone() });
    }
    files
}

#[test]
fn put_get_delete_scenario() {
    let mut engine = Engine::open(options(IndexType::BTree), Vec::new()).expect("failed to open engine");
    assert!(engine.put(b"k1".to_vec(), b"v1".to_vec()).is_ok());
    assert_eq!(engine.get(b"k1".to_vec()).unwrap(), b"v1".to_vec());
    assert!(engine.delete(b"k1".to_vec()).is_ok());
    assert_eq!(engine.get(b"k1".to_vec()).err().unwrap(), Errors::KeyIsNotExist);
}

#[test]
fn reopen_gives_every_value_back() {
    for index_type in [IndexType::BTree, IndexType::SkipList, IndexType::BPlusTree] {
        let mut engine = Engine::open(options(index_type), Vec::new()).expect("failed to open engine");
        for i in 0..50_000 {
            assert!(engine.put(get_test_key(i), get_test_value(i)).is_ok());
        }
        engine.close().expect("fail to close engine");
        let engine2 = Engine::open(options(index_type), files_of(&engine)).expect("failed to open engine");
        assert_eq!(engine2.list_keys().unwrap().len(), 50_000);
        for i in 0..50_000 {
            assert_eq!(engine2.get(get_test_key(i)).unwrap(), get_test_value(i));
        }
    }
}

#[test]
fn empty_key_is_refused() {
    let mut engine = Engine::open(options(IndexType::BTree), Vec::new()).unwrap();
    assert_eq!(engine.put(Vec::new(), b"v".to_vec()).err().unwrap(), Errors::KeyIsEmpty);
    assert_eq!(engine.get(Vec::new()).err().unwrap(), Errors::KeyIsEmpty);
    assert_eq!(engine.delete(Vec::new()).err().unwrap(), Errors::KeyIsEmpty);
}

#[test]
fn empty_value_is_legal() {
    let mut engine = Engine::open(options(IndexType::BTree), Vec::new()).unwrap();
    assert!(engine.put(b"k".to_vec(), Vec::new()).is_ok());
    assert_eq!(engine.get(b"k".to_vec()).unwrap(), Vec::<u8>::new());
}

#[test]
fn second_put_makes_first_record_reclaimable() {
    let mut engine = Engine::open(options(IndexType::BTree), Vec::new()).unwrap();
    assert!(engine.put(b"k".to_vec(), b"v".to_vec()).is_ok());
    assert_eq!(engine.reclaim_size(), 0);
    assert!(engine.put(b"k".to_vec(), b"v".to_vec()).is_ok());
    assert_eq!(engine.get(b"k".to_vec()).unwrap(), b"v".to_vec());
    // 1 type + 1 + 1 lengths + 2 key with sequence number + 1 value + 4 checksum
    assert_eq!(engine.reclaim_size(), 10);
}

#[test]
fn second_delete_writes_nothing() {
    let mut engine = Engine::open(options(IndexType::BTree), Vec::new()).unwrap();
    assert!(engine.put(b"k".to_vec(), b"v".to_vec()).is_ok());
    assert!(engine.delete(b"k".to_vec()).is_ok());
    let len = engine.active_file().file_size();
    assert_eq!(len, 10 + 9);
    assert_eq!(engine.reclaim_size(), 10 + 9);
    assert!(engine.delete(b"k".to_vec()).is_ok());
    assert_eq!(engine.active_file().file_size(), len);
    assert_eq!(engine.reclaim_size(), 10 + 9);
}

#[test]
fn record_that_ends_at_segment_size_does_not_rotate() {
    let mut opts = options(IndexType::BTree);
    opts.data_file_size = 20;
    let mut engine = Engine::open(opts, Vec::new()).unwrap();
    assert!(engine.put(b"a".to_vec(), b"1".to_vec()).is_ok());
    assert!(engine.put(b"b".to_vec(), b"2".to_vec()).is_ok());
    assert_eq!(engine.active_file_id(), 0);
    assert_eq!(engine.active_file().file_size(), 20);
    assert!(engine.put(b"c".to_vec(), b"3".to_vec()).is_ok());
    assert_eq!(engine.active_file_id(), 1);
    assert_eq!(engine.active_file().file_size(), 10);
    assert_eq!(engine.older_files().len(), 1);
    assert_eq!(engine.get(b"a".to_vec()).unwrap(), b"1".to_vec());
    assert_eq!(engine.get(b"c".to_vec()).unwrap(), b"3".to_vec());
}

#[test]
fn close_and_open_keep_the_store() {
    let mut opts = options(IndexType::BTree);
    opts.data_file_size = 64;
    let mut engine = Engine::open(opts.clone(), Vec::new()).unwrap();
    for i in 0..20 {
        assert!(engine.put(get_test_key(i), get_test_value(i)).is_ok());
    }
    assert!(engine.delete(get_test_key(3)).is_ok());
    assert!(engine.put(get_test_key(4), b"again".to_vec()).is_ok());
    engine.close().unwrap();
    let engine2 = Engine::open(opts, files_of(&engine)).unwrap();
    assert_eq!(engine2.list_keys().unwrap(), engine.list_keys().unwrap());
    assert_eq!(engine2.get(get_test_key(3)).err().unwrap(), Errors::KeyIsNotExist);
    assert_eq!(engine2.get(get_test_key(4)).unwrap(), b"again".to_vec());
    assert_eq!(engine2.older_files().len(), engine.older_files().len());
    assert_eq!(engine2.active_file_id(), engine.active_file_id());
}

#[test]
fn options_are_checked() {
    let mut opts = Options::default();
    opts.dir_path = String::new();
    assert_eq!(Engine::open(opts, Vec::new()).err().unwrap(), Errors::DirIsNotExist);
    let mut opts = Options::default();
    opts.data_file_size = 0;
    assert_eq!(Engine::open(opts, Vec::new()).err().unwrap(), Errors::DataFileIsEmpty);
    let mut opts = Options::default();
    opts.data_file_merge_ratio.numer = 3;
    assert_eq!(Engine::open(opts, Vec::new()).err().unwrap(), Errors::DataFileMergeRatioIsInvalid);
}

#[test]
fn corrupt_segment_fails_the_open() {
    let mut engine = Engine::open(options(IndexType::BTree), Vec::new()).unwrap();
    assert!(engine.put(b"k".to_vec(), b"v".to_vec()).is_ok());
    let mut files = files_of(&engine);
    files[0].data[5] ^= 0xff;
    assert_eq!(Engine::open(options(IndexType::BTree), files).err().unwrap(), Errors::WrongLogRecordCrc);
    let files = vec![FileEntry { name: b"abc.data".to_vec(), data: Vec::new() }];
    assert_eq!(Engine::open(options(IndexType::BTree), files).err().unwrap(), Errors::DataDirectoryCorruped);
}

#[test]
fn test_write_batch1() {
    let mut engine = Engine::open(options(IndexType::BTree), Vec::new()).expect("fail to open engine");
    let mut wb: WriteBatch =
        engine.new_write_batch(WriteBatchOptions::default()).expect("fail to create write batch");
    let res1 = wb.put(get_test_key(1), get_test_value(10));
    assert!(res1.is_ok());
    let res2 = wb.put(get_test_key(2), get_test_value(10));
    assert!(res2.is_ok());
    let get_res1 = engine.get(get_test_key(1));
    assert_eq!(get_res1.err().unwrap(), Errors::KeyIsNotExist);

    let commit_res = wb.commit(&mut engine);
    assert!(commit_res.is_ok());
    let get_res2 = engine.get(get_test_key(1));
    assert_eq!(get_res2.unwrap(), get_test_value(10));
    assert_eq!(engine.get(get_test_key(2)).unwrap(), get_test_value(10));

    assert_eq!(engine.seq_no(), 1);
}

#[test]
fn test_write_batch2() {
    let mut engine = Engine::open(options(IndexType::BTree), Vec::new()).expect("fail to open engine");
    let mut wb = engine.new_write_batch(WriteBatchOptions::default()).expect("fail to create write batch");
    assert!(wb.put(get_test_key(1), get_test_value(10)).is_ok());
    assert!(wb.put(get_test_key(2), get_test_value(10)).is_ok());
    assert!(wb.commit(&mut engine).is_ok());
    engine.close().expect("fail to close engine");
    let engine2 = Engine::open(options(IndexType::BTree), files_of(&engine)).expect("fail to open engine");
    let list_key = engine2.list_keys().unwrap();
    assert_eq!(list_key, vec![get_test_key(1), get_test_key(2)]);
    assert_eq!(engine2.seq_no(), 1);
}

#[test]
fn test_write_batch3() {
    let mut engine = Engine::open(options(IndexType::BTree), Vec::new()).expect("fail to open engine");
    let mut wb_opts = WriteBatchOptions::default();
    wb_opts.max_batch_num = 1000000;
    let mut wb = engine.new_write_batch(wb_opts).expect("fail to create write batch");
    for i in 0..100000 {
        let put_res = wb.put(get_test_key(i), get_test_value(10));
        assert!(put_res.is_ok());
    }
    assert!(wb.commit(&mut engine).is_ok());
    assert_eq!(engine.list_keys().unwrap().len(), 100000);
    assert_eq!(engine.get(get_test_key(99999)).unwrap(), get_test_value(10));
}

#[test]
fn batch_without_its_end_has_no_effect_after_reopen() {
    let mut engine = Engine::open(options(IndexType::BTree), Vec::new()).unwrap();
    assert!(engine.put(b"old".to_vec(), b"1".to_vec()).is_ok());
    let before = engine.active_file().file_size() as usize;
    let mut wb = engine.new_write_batch(WriteBatchOptions::default()).unwrap();
    assert!(wb.put(b"k1".to_vec(), b"v1".to_vec()).is_ok());
    assert!(wb.delete(&engine, b"old".to_vec()).is_ok());
    assert!(wb.commit(&mut engine).is_ok());
    assert_eq!(engine.get(b"k1".to_vec()).unwrap(), b"v1".to_vec());
    assert_eq!(engine.get(b"old".to_vec()).err().unwrap(), Errors::KeyIsNotExist);
    // The record that ends the batch: 1 + 1 + 1 + 8 + 0 + 4 bytes.
    let mut files = files_of(&engine);
    let len = files[0].data.len();
    files[0].data.truncate(len - 15);
    assert!(files[0].data.len() > before);
    let engine2 = Engine::open(options(IndexType::BTree), files).unwrap();
    assert_eq!(engine2.get(b"k1".to_vec()).err().unwrap(), Errors::KeyIsNotExist);
    assert_eq!(engine2.get(b"old".to_vec()).unwrap(), b"1".to_vec());
    // With the record that ends the batch, all of it is there.
    let engine3 = Engine::open(options(IndexType::BTree), files_of(&engine)).unwrap();
    assert_eq!(engine3.get(b"k1".to_vec()).unwrap(), b"v1".to_vec());
    assert_eq!(engine3.get(b"old".to_vec()).err().unwrap(), Errors::KeyIsNotExist);
}

#[test]
fn batch_limits() {
    let mut engine = Engine::open(options(IndexType::BTree), Vec::new()).unwrap();
    let mut wb_opts = WriteBatchOptions::default();
    wb_opts.max_batch_num = 1;
    let mut wb = engine.new_write_batch(wb_opts).unwrap();
    assert_eq!(wb.put(Vec::new(), b"v".to_vec()).err().unwrap(), Errors::KeyIsEmpty);
    assert!(wb.commit(&mut engine).is_ok());
    assert_eq!(engine.seq_no(), 0);
    assert!(wb.put(b"a".to_vec(), b"1".to_vec()).is_ok());
    assert!(wb.put(b"a".to_vec(), b"2".to_vec()).is_ok());
    assert_eq!(wb.len(), 1);
    assert!(wb.put(b"b".to_vec(), b"3".to_vec()).is_ok());
    assert_eq!(wb.commit(&mut engine).err().unwrap(), Errors::ExceedMaxBatchNum);
    assert!(wb.delete(&engine, b"b".to_vec()).is_ok());
    assert_eq!(wb.len(), 1);
    assert!(wb.commit(&mut engine).is_ok());
    assert_eq!(engine.get(b"a".to_vec()).unwrap(), b"2".to_vec());
}

#[test]
fn batch_needs_sequence_file_with_bptree() {
    let mut engine = Engine::open(options(IndexType::BPlusTree), Vec::new()).unwrap();
    assert!(engine.new_write_batch(WriteBatchOptions::default()).is_ok());
    assert!(engine.put(b"k".to_vec(), b"v".to_vec()).is_ok());
    let mut files = files_of(&engine);
    let engine2 = Engine::open(options(IndexType::BPlusTree), files_of(&engine)).unwrap();
    assert_eq!(
        engine2.new_write_batch(WriteBatchOptions::default()).err().unwrap(),
        Errors::CanNotUseWriteBatch
    );
    engine.close().unwrap();
    files = files_of(&engine);
    let engine3 = Engine::open(options(IndexType::BPlusTree), files).unwrap();
    assert!(engine3.new_write_batch(WriteBatchOptions::default()).is_ok());
}

#[test]
fn test_list_keys() {
    let mut engine = Engine::open(options(IndexType::BTree), Vec::new()).expect("failed to open engine");
    let keys = engine.list_keys().expect("failed to get keys");
    assert!(keys.len() == 0);
    assert!(engine.put(b"aacc".to_vec(), get_test_value(10)).is_ok());
    assert!(engine.put(b"eecc".to_vec(), get_test_value(10)).is_ok());
    assert!(engine.put(b"bbac".to_vec(), get_test_value(10)).is_ok());
    assert!(engine.put(b"aade".to_vec(), get_test_value(10)).is_ok());
    let key2 = engine.list_keys().expect("failed to get key2");
    assert!(key2.len() > 0);
    assert_eq!(key2, vec![b"aacc".to_vec(), b"aade".to_vec(), b"bbac".to_vec(), b"eecc".to_vec()]);
}

#[test]
fn test_fold() {
    let mut engine = Engine::open(options(IndexType::BTree), Vec::new()).expect("failed to open engine");
    assert!(engine.put(b"aacc".to_vec(), get_test_value(10)).is_ok());
    assert!(engine.put(b"eecc".to_vec(), get_test_value(10)).is_ok());
    assert!(engine.put(b"bbac".to_vec(), get_test_value(10)).is_ok());
    assert!(engine.put(b"aade".to_vec(), get_test_value(10)).is_ok());
    let seen = std::cell::RefCell::new(Vec::new());
    engine
        .fold(|keys, values| {
            assert!(keys.len() > 0);
            assert!(values.len() > 0);
            seen.borrow_mut().push(keys);
            seen.borrow().len() < 3
        })
        .unwrap();
    assert_eq!(seen.into_inner(), vec![b"aacc".to_vec(), b"aade".to_vec(), b"bbac".to_vec()]);
}

#[test]
fn test_seek() {
    let mut engine = Engine::open(options(IndexType::BTree), Vec::new()).expect("failed to open engine");
    {
        let mut iter1 = engine.iter(IteratorOptions::default());
        iter1.seek("aa".as_bytes().to_vec());
        assert!(iter1.next().is_none());
    }
    assert!(engine.put(b"aacc".to_vec(), get_test_value(10)).is_ok());
    {
        let mut iter2 = engine.iter(IteratorOptions::default());
        iter2.seek("a".as_bytes().to_vec());
        assert!(iter2.next().is_some());
    }
    assert!(engine.put(b"eecc".to_vec(), get_test_value(10)).is_ok());
    assert!(engine.put(b"bbac".to_vec(), get_test_value(10)).is_ok());
    assert!(engine.put(b"ccde".to_vec(), get_test_value(10)).is_ok());
    let mut iter3 = engine.iter(IteratorOptions::default());
    iter3.seek("a".as_bytes().to_vec());
    assert_eq!(b"aacc".to_vec(), iter3.next().unwrap().0);
    iter3.seek("bbac".as_bytes().to_vec());
    assert_eq!(b"bbac".to_vec(), iter3.next().unwrap().0);
    iter3.seek("bbad".as_bytes().to_vec());
    assert_eq!(b"ccde".to_vec(), iter3.next().unwrap().0);
    let mut opts = IteratorOptions::default();
    opts.reverse = true;
    let mut iter4 = engine.iter(opts);
    iter4.seek("d".as_bytes().to_vec());
    assert_eq!(b"ccde".to_vec(), iter4.next().unwrap().0);
    assert_eq!(b"bbac".to_vec(), iter4.next().unwrap().0);
}

#[test]
fn test_next() {
    let mut engine = Engine::open(options(IndexType::BTree), Vec::new()).expect("failed to open engine");
    assert!(engine.put(b"aacc".to_vec(), get_test_value(10)).is_ok());
    {
        let mut iter1 = engine.iter(IteratorOptions::default());
        assert!(iter1.next().is_some());
        assert!(iter1.next().is_none());
    }
    assert!(engine.put(b"eecc".to_vec(), get_test_value(10)).is_ok());
    assert!(engine.put(b"bbac".to_vec(), get_test_value(10)).is_ok());
    assert!(engine.put(b"ccde".to_vec(), get_test_value(10)).is_ok());
    let mut iter2 = engine.iter(IteratorOptions::default());
    assert!(iter2.next().is_some());
    assert!(iter2.next().is_some());
    assert!(iter2.next().is_some());
    assert!(iter2.next().is_some());
    assert!(iter2.next().is_none());
    iter2.rewind();
    assert!(iter2.next().is_some());
    assert!(iter2.next().is_some());
    assert!(iter2.next().is_some());
    assert!(iter2.next().is_some());
    assert!(iter2.next().is_none());
}

#[test]
fn test_prefix() {
    for index_type in [IndexType::BTree, IndexType::SkipList, IndexType::BPlusTree] {
        let mut engine = Engine::open(options(index_type), Vec::new()).expect("failed to open engine");
        assert!(engine.put(b"aacc".to_vec(), get_test_value(10)).is_ok());
        assert!(engine.put(b"eecc".to_vec(), get_test_value(10)).is_ok());
        assert!(engine.put(b"bbac".to_vec(), get_test_value(10)).is_ok());
        assert!(engine.put(b"aade".to_vec(), get_test_value(10)).is_ok());
        let mut iter_opts = IteratorOptions::default();
        iter_opts.prefix = "aa".as_bytes().to_vec();
        let mut iter1 = engine.iter(iter_opts);
        let mut seen = Vec::new();
        while let Some(item) = iter1.next() {
            assert_eq!(item.1, get_test_value(10));
            seen.push(item.0);
        }
        assert_eq!(seen, vec![b"aacc".to_vec(), b"aade".to_vec()]);
    }
}

#[test]
fn iteration_follows_the_order_of_the_keys() {
    let mut engine = Engine::open(options(IndexType::SkipList), Vec::new()).unwrap();
    for key in [&b"b"[..], b"a", b"ab", b"", b"c", b"\xff", b"a\x00"] {
        if key.len() > 0 {
            assert!(engine.put(key.to_vec(), key.to_vec()).is_ok());
        }
    }
    let sorted: Vec<Vec<u8>> =
        vec![b"a".to_vec(), b"a\x00".to_vec(), b"ab".to_vec(), b"b".to_vec(), b"c".to_vec(), b"\xff".to_vec()];
    let mut iter = engine.iter(IteratorOptions::default());
    let mut seen = Vec::new();
    while let Some((key, value)) = iter.next() {
        assert_eq!(key, value);
        seen.push(key);
    }
    assert_eq!(seen, sorted);
    let mut opts = IteratorOptions::default();
    opts.reverse = true;
    let mut iter = engine.iter(opts);
    let mut seen = Vec::new();
    while let Some((key, _)) = iter.next() {
        seen.push(key);
    }
    let mut reversed = sorted.clone();
    reversed.reverse();
    assert_eq!(seen, reversed);
}

#[test]
fn test_engine_close() {
    let mut engine = Engine::open(options(IndexType::BTree), Vec::new()).expect("failed to open engine");
    let res1 = engine.put(get_test_key(222), get_test_value(222));
    assert!(res1.is_ok());
    let close_res = engine.close();
    assert!(close_res.is_ok());
    assert!(engine.seq_no_file().is_some());
    assert_eq!(engine.active_file().synced_len() as u64, engine.active_file().file_size());
}

#[test]
fn test_engine_sync() {
    let mut engine = Engine::open(options(IndexType::BTree), Vec::new()).expect("failed to open engine");
    let res1 = engine.put(get_test_key(222), get_test_value(222));
    assert!(res1.is_ok());
    assert_eq!(engine.active_file().synced_len(), 0);
    let close_res = engine.sync();
    assert!(close_res.is_ok());
    assert_eq!(engine.active_file().synced_len() as u64, engine.active_file().file_size());
}

#[test]
fn writes_are_flushed_as_the_options_say() {
    let mut opts = options(IndexType::BTree);
    opts.bytes_per_sync = 25;
    let mut engine = Engine::open(opts, Vec::new()).unwrap();
    assert!(engine.put(b"a".to_vec(), b"1".to_vec()).is_ok());
    assert!(engine.put(b"b".to_vec(), b"1".to_vec()).is_ok());
    assert_eq!(engine.active_file().synced_len(), 0);
    assert!(engine.put(b"c".to_vec(), b"1".to_vec()).is_ok());
    assert_eq!(engine.active_file().synced_len(), 30);
    let mut opts = options(IndexType::BTree);
    opts.sync_writes = true;
    let mut engine = Engine::open(opts, Vec::new()).unwrap();
    assert!(engine.put(b"a".to_vec(), b"1".to_vec()).is_ok());
    assert_eq!(engine.active_file().synced_len(), 10);
}

#[test]
fn stat_counts_keys_files_and_bytes() {
    let mut opts = options(IndexType::BTree);
    opts.data_file_size = 20;
    let mut engine = Engine::open(opts, Vec::new()).unwrap();
    for key in [b"a", b"b", b"c", b"a"] {
        assert!(engine.put(key.to_vec(), b"1".to_vec()).is_ok());
    }
    let stat = engine.stat().unwrap();
    assert_eq!(stat.key_num, 3);
    assert_eq!(stat.data_file_num, 2);
    assert_eq!(stat.reclaim_size, 10);
    assert_eq!(stat.disk_size, 40);
}

#[test]
fn test_get_test_key_and_value() {
    for i in 0..=10 {
        assert!(get_test_key(i).len() > 0);
    }
    for i in 0..=10 {
        assert!(get_test_value(i).len() > 0);
    }
    assert_eq!(get_test_key(7), b"bitcask-key-000000007".to_vec());
    assert_eq!(get_test_value(1234567890), b"bitcask-value-1234567890".to_vec());
    assert_eq!(get_test_key(-5), b"bitcask-key--00000005".to_vec());
}
