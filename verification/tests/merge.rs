use kv_data::data::data_file::get_data_file_name;
use kv_data::db::Engine;
use kv_data::errors::Errors;
use kv_data::fio::FileEntry;
use kv_data::merge::{load_merge_files, FileInfo, MergeOutput};
use kv_data::options::{IndexType, MergeRatio, Options};
use kv_data::util::rand_kv::{get_test_key, get_test_value};

fn options() -> Options {
    let mut opts = Options::default();
    opts.data_file_size = 32 * 1024 * 1024;
    opts
}

fn main_files(engine: &Engine) -> Vec<FileEntry> {
    let mut files = Vec::new();
    for file in engine.older_files().iter() {
        files.push(FileEntry { name: get_data_file_name(file.get_file_id()), data: file.data().clone() });
    }
    let active = engine.active_file();
    files.push(FileEntry { name: get_data_file_name(active.get_file_id()), data: active.data().clone() });
    files
}

fn merge_files(out: &MergeOutput) -> Vec<FileEntry> {
    let mut files = Vec::new();
    for file in out.data_files.iter() {
        files.push(FileEntry { name: get_data_file_name(file.get_file_id()), data: file.data().clone() });
    }
    files.push(FileEntry { name: b"hint-index".to_vec(), data: out.hint_file.clone() });
    files.push(FileEntry { name: b"merge-finished".to_vec(), data: out.merge_fin_file.clone() });
    files.push(FileEntry { name: b"flock".to_vec(), data: Vec::new() });
    files
}

// What a host does with a merge directory when it opens the database.
fn adopt(main: Vec<FileEntry>, merge: Vec<FileEntry>) -> Vec<FileEntry> {
    let names: Vec<Vec<u8>> = main.iter().map(|f| f.name.clone()).collect();
    let listing: Vec<FileInfo> =
        merge.iter().map(|f| FileInfo { name: f.name.clone(), len: f.data.len() as u64 }).collect();
    let fin: Vec<u8> = merge
        .iter()
        .find(|f| f.name == b"merge-finished".to_vec())
        .map(|f| f.data.clone())
        .unwrap_or_default();
    match load_merge_files(&names, &listing, &fin).expect("a plan") {
        None => main,
        Some(plan) => {
            let mut files: Vec<FileEntry> =
                main.into_iter().filter(|f| !plan.remove.contains(&f.name)).collect();
            for file in merge {
                if plan.rename.contains(&file.name) {
                    files.retain(|f| f.name != file.name);
                    files.push(file);
                }
            }
            files
        }
    }
}

#[test]
fn test_merge_1() {
    let mut engine = Engine::open(options(), Vec::new()).expect("failed to open engine");
    let res1 = engine.merge(u64::MAX);
    assert!(res1.is_ok());
    assert!(res1.unwrap().is_none());
}

#[test]
fn test_merge_2() {
    let mut opts = options();
    opts.data_file_merge_ratio = MergeRatio { numer: 0, denom: 1 };
    let mut engine = Engine::open(opts.clone(), Vec::new()).expect("failed to open engine");
    for i in 0..50000 {
        let put_res = engine.put(get_test_key(i), get_test_value(i));
        assert!(put_res.is_ok());
    }
    let res1 = engine.merge(u64::MAX);
    assert!(res1.is_ok());
    let out = res1.unwrap().unwrap();
    let files = adopt(main_files(&engine), merge_files(&out));
    let engine2 = Engine::open(opts, files).expect("failed to open engine");
    let keys = engine2.list_keys().unwrap();
    assert_eq!(keys.len(), 50000);
    for i in 0..50000 {
        let get_res = engine2.get(get_test_key(i));
        assert_eq!(get_res.ok().unwrap(), get_test_value(i));
    }
}

#[test]
fn merge_keeps_the_newest_value_and_drops_the_old_segments() {
    let mut engine = Engine::open(options(), Vec::new()).unwrap();
    assert!(engine.put(b"a".to_vec(), b"1".to_vec()).is_ok());
    assert!(engine.put(b"a".to_vec(), b"2".to_vec()).is_ok());
    assert!(engine.put(b"a".to_vec(), b"3".to_vec()).is_ok());
    assert!(engine.put(b"b".to_vec(), b"x".to_vec()).is_ok());
    assert!(engine.delete(b"b".to_vec()).is_ok());
    let out = engine.merge(u64::MAX).unwrap().unwrap();
    assert_eq!(engine.get(b"a".to_vec()).unwrap(), b"3".to_vec());
    assert_eq!(engine.active_file_id(), 1);
    assert_eq!(out.data_files.len(), 1);
    assert_eq!(out.data_files[0].file_size(), 10);
    // The hint record: 1 + 1 + 1 + 1 key + 3 position + 4 bytes.
    assert_eq!(out.hint_file.len(), 11);
    let files = adopt(main_files(&engine), merge_files(&out));
    let names: Vec<Vec<u8>> = files.iter().map(|f| f.name.clone()).collect();
    assert!(names.contains(&b"000000000.data".to_vec()));
    assert!(names.contains(&b"000000001.data".to_vec()));
    assert!(names.contains(&b"hint-index".to_vec()));
    assert!(names.contains(&b"merge-finished".to_vec()));
    assert!(!names.contains(&b"flock".to_vec()));
    let engine2 = Engine::open(options(), files).unwrap();
    assert_eq!(engine2.get(b"a".to_vec()).unwrap(), b"3".to_vec());
    assert_eq!(engine2.get(b"b".to_vec()).err().unwrap(), Errors::KeyIsNotExist);
    assert!(engine2.older_files().len() + 1 <= 2);
    assert_eq!(engine2.stat().unwrap().disk_size, 10 + 11 + out.merge_fin_file.len() as u64);
}

#[test]
fn merge_directory_without_marker_is_not_adopted() {
    let mut engine = Engine::open(options(), Vec::new()).unwrap();
    assert!(engine.put(b"a".to_vec(), b"1".to_vec()).is_ok());
    assert!(engine.put(b"a".to_vec(), b"2".to_vec()).is_ok());
    let out = engine.merge(u64::MAX).unwrap().unwrap();
    let mut merge = merge_files(&out);
    merge.retain(|f| f.name != b"merge-finished".to_vec());
    let main = main_files(&engine);
    let before: Vec<Vec<u8>> = main.iter().map(|f| f.name.clone()).collect();
    let files = adopt(main, merge);
    let after: Vec<Vec<u8>> = files.iter().map(|f| f.name.clone()).collect();
    assert_eq!(before, after);
}

#[test]
fn merge_ratio_decides_whether_a_merge_is_accepted() {
    let mut opts = options();
    opts.data_file_merge_ratio = MergeRatio { numer: 0, denom: 1 };
    let mut engine = Engine::open(opts, Vec::new()).unwrap();
    assert!(engine.put(b"a".to_vec(), b"1".to_vec()).is_ok());
    assert!(engine.merge(u64::MAX).unwrap().is_some());

    let mut opts = options();
    opts.data_file_merge_ratio = MergeRatio { numer: 1, denom: 1 };
    let mut engine = Engine::open(opts, Vec::new()).unwrap();
    assert!(engine.put(b"a".to_vec(), b"1".to_vec()).is_ok());
    assert!(engine.put(b"a".to_vec(), b"2".to_vec()).is_ok());
    assert_eq!(engine.merge(u64::MAX).err().unwrap(), Errors::CanNotMerge);
    assert!(engine.delete(b"a".to_vec()).is_ok());
    assert_eq!(engine.reclaim_size(), engine.stat().unwrap().disk_size);
    assert!(engine.merge(u64::MAX).unwrap().is_some());

    let mut engine = Engine::open(options(), Vec::new()).unwrap();
    assert!(engine.put(b"a".to_vec(), b"1".to_vec()).is_ok());
    assert!(engine.put(b"a".to_vec(), b"2".to_vec()).is_ok());
    assert!(engine.put(b"b".to_vec(), b"2".to_vec()).is_ok());
    assert_eq!(engine.merge(u64::MAX).err().unwrap(), Errors::CanNotMerge);
    assert!(engine.put(b"b".to_vec(), b"3".to_vec()).is_ok());
    assert_eq!(engine.merge(19).err().unwrap(), Errors::NoEnoughDiskCapacity);
    assert!(engine.merge(20).unwrap().is_some());
}

#[test]
fn merged_store_can_be_merged_again() {
    let mut opts = options();
    opts.index_type = IndexType::SkipList;
    opts.data_file_size = 64;
    opts.data_file_merge_ratio = MergeRatio { numer: 0, denom: 1 };
    let mut engine = Engine::open(opts.clone(), Vec::new()).unwrap();
    for round in 0..3 {
        for i in 0..30 {
            assert!(engine.put(get_test_key(i), get_test_value(i + round)).is_ok());
        }
        let out = engine.merge(u64::MAX).unwrap().unwrap();
        let files = adopt(main_files(&engine), merge_files(&out));
        engine = Engine::open(opts.clone(), files).unwrap();
        assert_eq!(engine.list_keys().unwrap().len(), 30);
        for i in 0..30 {
            assert_eq!(engine.get(get_test_key(i)).unwrap(), get_test_value(i + round));
        }
    }
}
