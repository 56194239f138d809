use kv_data::data::log_record::LogRecodPos;
use kv_data::index::bptree::BPlusTree;
use kv_data::index::btree::BTree;
use kv_data::index::skiplist::SkipList;
use kv_data::index::{compare_keys, new_indexer, starts_with, IndexIterator, Indexer, KeyOrder};
use kv_data::options::{IndexType, IteratorOptions};

fn pos(file_id: u32, offset: u64) -> LogRecodPos {
    LogRecodPos { file_id, offset, size: 11 }
}

#[test]
fn test_btree_put() {
    let mut bt = BTree::new();
    let res = bt.put("".as_bytes().to_vec(), pos(1, 10));
    assert_eq!(res.is_none(), true);
    let re1 = bt.put("aa".as_bytes().to_vec(), pos(2, 20));
    assert_eq!(re1.is_none(), true);
    let re2 = bt.put("aa".as_bytes().to_vec(), pos(3, 30));
    assert_eq!(re2, Some(pos(2, 20)));
}

#[test]
fn test_btree_get() {
    let mut bt = BTree::new();
    let res = bt.put("".as_bytes().to_vec(), pos(1, 10));
    assert_eq!(res.is_none(), true);
    let re1 = bt.put("aa".as_bytes().to_vec(), pos(2, 20));
    assert_eq!(re1.is_none(), true);

    let pos1 = bt.get("aa".as_bytes());
    let pos2 = bt.get("".as_bytes());
    assert!(pos1.is_some());
    assert_eq!(pos1.unwrap().file_id, 2);
    assert_eq!(pos1.unwrap().offset, 20);
    assert!(pos2.is_some());
    assert_eq!(pos2.unwrap().file_id, 1);
    assert_eq!(pos2.unwrap().offset, 10);
    assert!(bt.get(b"a").is_none());
}

#[test]
fn test_btree_delete() {
    let mut bt = BTree::new();
    bt.put("".as_bytes().to_vec(), pos(1, 10));
    bt.put("aa".as_bytes().to_vec(), pos(2, 20));
    let res1 = bt.delete("".as_bytes());
    assert_eq!(res1.is_some(), true);
    let res2 = bt.delete("aa".as_bytes());
    assert_eq!(res2.is_some(), true);
    assert_eq!(res2, Some(pos(2, 20)));
    assert!(bt.delete("aa".as_bytes()).is_none());
    assert!(bt.list_keys().is_empty());
}

#[test]
fn test_btree_iterator_seek() {
    let mut bt = BTree::new();
    let mut iter1 = bt.iterator(IteratorOptions::default());
    iter1.seek("aa".as_bytes().to_vec());
    let res = iter1.next();
    assert_eq!(res.is_none(), true);

    bt.put("ccde".as_bytes().to_vec(), pos(1, 10));
    let mut iter2 = bt.iterator(IteratorOptions::default());
    iter2.seek("aa".as_bytes().to_vec());
    let res2 = iter2.next();
    assert_eq!(res2.is_some(), true);
    iter2.seek("ee".as_bytes().to_vec());
    let res3 = iter2.next();
    assert_eq!(res3.is_none(), true);

    bt.put("bbde".as_bytes().to_vec(), pos(1, 10));
    bt.put("aade".as_bytes().to_vec(), pos(1, 10));
    bt.put("cade".as_bytes().to_vec(), pos(1, 10));
    let mut iter3 = bt.iterator(IteratorOptions::default());
    iter3.seek("b".as_bytes().to_vec());
    let mut seen = Vec::new();
    while let Some(item) = iter3.next() {
        seen.push(item.0.clone());
    }
    assert_eq!(seen, vec![b"bbde".to_vec(), b"cade".to_vec(), b"ccde".to_vec()]);

    let mut iter4 = bt.iterator(IteratorOptions::default());
    iter4.seek("cade".as_bytes().to_vec());
    let res4 = iter4.next();
    assert_eq!(res4.unwrap().0, &b"cade".to_vec());

    let mut iter_opts = IteratorOptions::default();
    iter_opts.reverse = true;
    let mut iter5 = bt.iterator(iter_opts);
    iter5.seek("bb".as_bytes().to_vec());
    let mut seen = Vec::new();
    while let Some(item) = iter5.next() {
        seen.push(item.0.clone());
    }
    assert_eq!(seen, vec![b"aade".to_vec()]);
}

#[test]
fn test_btree_iterator_next() {
    let mut bt = BTree::new();
    let mut iter1 = bt.iterator(IteratorOptions::default());
    bt.put("bbde".as_bytes().to_vec(), pos(1, 10));
    bt.put("aade".as_bytes().to_vec(), pos(1, 10));
    bt.put("cade".as_bytes().to_vec(), pos(1, 10));
    assert!(iter1.next().is_none());

    let mut opt1 = IteratorOptions::default();
    opt1.reverse = true;
    let mut iter2 = bt.iterator(opt1);
    let mut seen = Vec::new();
    while let Some(item) = iter2.next() {
        seen.push(item.0.clone());
    }
    assert_eq!(seen, vec![b"cade".to_vec(), b"bbde".to_vec(), b"aade".to_vec()]);

    let mut opt2 = IteratorOptions::default();
    opt2.prefix = "c".as_bytes().to_vec();
    let mut iter3 = bt.iterator(opt2);
    let mut seen = Vec::new();
    while let Some(item) = iter3.next() {
        seen.push(item.0.clone());
    }
    assert_eq!(seen, vec![b"cade".to_vec()]);

    let mut opt3 = IteratorOptions::default();
    opt3.prefix = "cssssss".as_bytes().to_vec();
    let mut iter4 = bt.iterator(opt3);
    assert!(iter4.next().is_none());
}

fn filled_skiplist() -> SkipList {
    let mut skl = SkipList::new();
    let res1 = skl.put("aacd".as_bytes().to_vec(), pos(1123, 1232));
    assert!(res1.is_none());
    let res2 = skl.put("bbcd".as_bytes().to_vec(), pos(1123, 1232));
    assert!(res2.is_none());
    let res3 = skl.put("cccd".as_bytes().to_vec(), pos(1123, 1232));
    assert!(res3.is_none());
    let res4 = skl.put("cced".as_bytes().to_vec(), pos(1124, 1112));
    assert!(res4.is_none());
    skl
}

#[test]
fn test_skiplist_put() {
    let mut skl = filled_skiplist();
    assert_eq!(skl.put("cced".as_bytes().to_vec(), pos(1, 2)), Some(pos(1124, 1112)));
    assert_eq!(skl.get(b"cced"), Some(pos(1, 2)));
}

#[test]
fn test_skiplist_get() {
    let skl = filled_skiplist();
    let get_res1 = skl.get("aacd".as_bytes());
    assert!(get_res1.is_some());
    assert_eq!(get_res1, Some(pos(1123, 1232)));
    let get_res2 = skl.get("bbcd".as_bytes());
    assert!(get_res2.is_some());
    let get_res3 = skl.get("abcd".as_bytes());
    assert!(get_res3.is_none());
}

#[test]
fn test_skiplist_delete() {
    let mut skl = filled_skiplist();
    let delete_res1 = skl.delete("aacd".as_bytes());
    assert!(delete_res1.is_some());
    let delete_res2 = skl.delete("bbcd".as_bytes());
    assert_eq!(delete_res2, Some(pos(1123, 1232)));
    assert!(skl.delete("bbcd".as_bytes()).is_none());
    assert_eq!(skl.list_keys(), vec![b"cccd".to_vec(), b"cced".to_vec()]);
}

#[test]
fn test_skiplist_list_keys() {
    let skl = filled_skiplist();
    assert_eq!(
        skl.list_keys(),
        vec![b"aacd".to_vec(), b"bbcd".to_vec(), b"cccd".to_vec(), b"cced".to_vec()]
    );
}

#[test]
fn test_skiplist_iterator() {
    let skl = filled_skiplist();
    let mut opts = IteratorOptions::default();
    opts.reverse = true;
    let mut iter = skl.iterator(opts);
    let mut seen = Vec::new();
    while let Some((k, v)) = iter.next() {
        seen.push((k.clone(), v.file_id));
    }
    assert_eq!(
        seen,
        vec![
            (b"cced".to_vec(), 1124),
            (b"cccd".to_vec(), 1123),
            (b"bbcd".to_vec(), 1123),
            (b"aacd".to_vec(), 1123)
        ]
    );
}

#[test]
fn bptree_holds_its_entries_in_order() {
    let mut bpt = BPlusTree::new();
    assert!(bpt.put("ccbc".as_bytes().to_vec(), pos(3, 101)).is_none());
    assert!(bpt.put("aabc".as_bytes().to_vec(), pos(1, 100)).is_none());
    assert!(bpt.put("ddbc".as_bytes().to_vec(), pos(4, 101)).is_none());
    assert!(bpt.put("bbbc".as_bytes().to_vec(), pos(2, 101)).is_none());
    assert!(bpt.get("aabc".as_bytes()).is_some());
    assert!(bpt.get("cccbc".as_bytes()).is_none());
    assert_eq!(bpt.delete("aabc".as_bytes()), Some(pos(1, 100)));
    assert_eq!(bpt.list_keys(), vec![b"bbbc".to_vec(), b"ccbc".to_vec(), b"ddbc".to_vec()]);
    let mut opts = IteratorOptions::default();
    opts.reverse = true;
    let mut iter = bpt.iterator(opts);
    assert_eq!(iter.next().unwrap().0, &b"ddbc".to_vec());
}

#[test]
fn the_three_directories_agree() {
    for index_type in [IndexType::BTree, IndexType::SkipList, IndexType::BPlusTree] {
        let mut index = new_indexer(index_type);
        for (i, key) in [&b"k3"[..], b"k1", b"k2", b"k1"].iter().enumerate() {
            index.put(key.to_vec(), pos(i as u32, 0));
        }
        assert_eq!(index.get(b"k1"), Some(pos(3, 0)));
        assert_eq!(index.list_keys(), vec![b"k1".to_vec(), b"k2".to_vec(), b"k3".to_vec()]);
        let mut iter = index.iterator(IteratorOptions::default());
        iter.seek(b"k2".to_vec());
        assert_eq!(iter.next().unwrap().1.file_id, 2);
    }
}

#[test]
fn keys_are_ordered_as_byte_strings() {
    assert_eq!(compare_keys(b"a", b"b"), KeyOrder::Before);
    assert_eq!(compare_keys(b"a", b"ab"), KeyOrder::Before);
    assert_eq!(compare_keys(b"", b"\x00"), KeyOrder::Before);
    assert_eq!(compare_keys(b"b", b"ab"), KeyOrder::After);
    assert_eq!(compare_keys(b"\xff", b"\x7f\xff"), KeyOrder::After);
    assert_eq!(compare_keys(b"ab", b"ab"), KeyOrder::Same);
    assert!(starts_with(b"abc", b"ab"));
    assert!(starts_with(b"abc", b""));
    assert!(!starts_with(b"ab", b"abc"));
    assert!(!starts_with(b"abc", b"bc"));
}

fn filled_bptree() -> BPlusTree {
    let mut bpt = BPlusTree::new();
    let res1 = bpt.put("aabc".as_bytes().to_vec(), pos(1, 100));
    assert!(res1.is_none());
    let res2 = bpt.put("bbbc".as_bytes().to_vec(), pos(2, 101));
    assert!(res2.is_none());
    let res3 = bpt.put("ccbc".as_bytes().to_vec(), pos(3, 101));
    assert!(res3.is_none());
    let res4 = bpt.put("ddbc".as_bytes().to_vec(), pos(4, 101));
    assert!(res4.is_none());
    bpt
}

#[test]
fn test_bptree_put() {
    let bpt = filled_bptree();
    assert_eq!(bpt.list_keys().len(), 4);
}

#[test]
fn test_bptree_get() {
    let bpt = filled_bptree();
    let get_res1 = bpt.get("aabc".as_bytes());
    assert!(get_res1.is_some());
    let get_res2 = bpt.get("bbbc".as_bytes());
    assert!(get_res2.is_some());
    let get_res3 = bpt.get("cccbc".as_bytes());
    assert!(get_res3.is_none());
}

#[test]
fn test_bptree_delete() {
    let mut bpt = filled_bptree();
    let delete_res1 = bpt.delete("aabc".as_bytes());
    assert!(delete_res1.is_some());
    let delete_res2 = bpt.delete("bbbc".as_bytes());
    assert!(delete_res2.is_some());
    assert_eq!(bpt.list_keys(), vec![b"ccbc".to_vec(), b"ddbc".to_vec()]);
}

#[test]
fn test_bptree_list_keys() {
    let bpt = filled_bptree();
    assert_eq!(
        bpt.list_keys(),
        vec![b"aabc".to_vec(), b"bbbc".to_vec(), b"ccbc".to_vec(), b"ddbc".to_vec()]
    );
}

#[test]
fn test_bptree_iterator() {
    let bpt = filled_bptree();
    let mut opts = IteratorOptions::default();
    opts.reverse = true;
    let mut iter = bpt.iterator(opts);
    let mut seen = Vec::new();
    while let Some((k, v)) = iter.next() {
        seen.push((k.clone(), v.file_id));
    }
    assert_eq!(
        seen,
        vec![(b"ddbc".to_vec(), 4), (b"ccbc".to_vec(), 3), (b"bbbc".to_vec(), 2), (b"aabc".to_vec(), 1)]
    );
}
