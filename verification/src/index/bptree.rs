//! The B+ tree directory. Its entries are kept here in an ordered table; the
//! host of the library keeps them, beside that, in a file of the tree's own.

use crate::data::log_record::LogRecodPos;
use crate::index::btree::{BTree, BTreeIterator};
use crate::index::{empty_directory, IndexIterator, Indexer};
use crate::options::IteratorOptions;
use vstd::prelude::*;

verus! {

/// A key directory that stands for a B+ tree.
pub struct BPlusTree {
    tree: BTree,
}

/// A cursor over a snapshot of a B+ tree.
pub struct BPTreeIterator {
    inner: BTreeIterator,
}

impl IndexIterator for BPTreeIterator {
    closed spec fn items(&self) -> Seq<(Seq<u8>, LogRecodPos)> {
        self.inner.items()
    }

    closed spec fn position(&self) -> nat {
        self.inner.position()
    }

    closed spec fn prefix(&self) -> Seq<u8> {
        self.inner.prefix()
    }

    closed spec fn reverse(&self) -> bool {
        self.inner.reverse()
    }

    closed spec fn valid(&self) -> bool {
        self.inner.valid()
    }

    proof fn lemma_valid(&self) {
        self.inner.lemma_valid();
    }

    fn rewind(&mut self) {
        self.inner.rewind();
    }

    fn seek(&mut self, key: Vec<u8>) {
        self.inner.seek(key);
    }

    fn next(&mut self) -> (res: Option<(&Vec<u8>, &LogRecodPos)>) {
        self.inner.next()
    }
}

impl BPlusTree {
    /// An empty directory.
    pub fn new() -> (tree: BPlusTree)
        ensures
            tree.valid(),
            tree.view() == empty_directory(),
    {
        BPlusTree { tree: BTree::new() }
    }
}

impl Indexer for BPlusTree {
    type Iter = BPTreeIterator;

    closed spec fn view(&self) -> Map<Seq<u8>, LogRecodPos> {
        self.tree.view()
    }

    closed spec fn valid(&self) -> bool {
        self.tree.valid()
    }

    fn put(&mut self, key: Vec<u8>, pos: LogRecodPos) -> (old_pos: Option<LogRecodPos>) {
        self.tree.put(key, pos)
    }

    fn get(&self, key: &[u8]) -> (pos: Option<LogRecodPos>) {
        self.tree.get(key)
    }

    fn delete(&mut self, key: &[u8]) -> (old_pos: Option<LogRecodPos>) {
        self.tree.delete(key)
    }

    fn list_keys(&self) -> (keys: Vec<Vec<u8>>) {
        self.tree.list_keys()
    }

    fn iterator(&self, options: IteratorOptions) -> (it: BPTreeIterator) {
        BPTreeIterator { inner: self.tree.iterator(options) }
    }
}

} // verus!
