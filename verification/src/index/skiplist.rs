//! The skip list: a key directory in a concurrent ordered map.

use crate::data::log_record::LogRecodPos;
use crate::index::btree::{make_iterator, BTreeIterator};
use crate::index::{entry_views, lists};
use crate::index::{empty_directory, IndexIterator, Indexer};
use crate::options::IteratorOptions;
use crossbeam_skiplist::SkipMap;
use vstd::prelude::*;

verus! {

#[verifier::external_type_specification]
#[verifier::external_body]
#[verifier::reject_recursive_types(K)]
#[verifier::reject_recursive_types(V)]
pub struct ExSkipMap<K, V>(SkipMap<K, V>);

/// The entries that a skip map holds.
pub uninterp spec fn skipmap_entries(m: SkipMap<Vec<u8>, LogRecodPos>) -> Map<Seq<u8>, LogRecodPos>;

/// `SkipMap::new`: a map without entries.
#[verifier::external_body]
fn skipmap_new() -> (m: SkipMap<Vec<u8>, LogRecodPos>)
    ensures
        skipmap_entries(m) == empty_directory(),
{
    SkipMap::new()
}

/// `SkipMap::insert`: the entry of `key`, if there was one, is replaced by
/// the new one; no other entry changes.
#[verifier::external_body]
fn skipmap_insert(m: &mut SkipMap<Vec<u8>, LogRecodPos>, key: Vec<u8>, pos: LogRecodPos)
    ensures
        skipmap_entries(*final(m)) == skipmap_entries(*old(m)).insert(key@, pos),
{
    m.insert(key, pos);
}

/// `SkipMap::get`: the value of the entry of `key`, if there is one.
#[verifier::external_body]
fn skipmap_get(m: &SkipMap<Vec<u8>, LogRecodPos>, key: &[u8]) -> (pos: Option<LogRecodPos>)
    ensures
        pos == (if skipmap_entries(*m).contains_key(key@) {
            Some(skipmap_entries(*m)[key@])
        } else {
            None
        }),
{
    m.get(key).map(|entry| *entry.value())
}

/// `SkipMap::remove`: the entry of `key` leaves the map, and its value is
/// returned; without such an entry nothing changes.
#[verifier::external_body]
fn skipmap_remove(m: &mut SkipMap<Vec<u8>, LogRecodPos>, key: &[u8]) -> (pos: Option<LogRecodPos>)
    ensures
        skipmap_entries(*final(m)) == skipmap_entries(*old(m)).remove(key@),
        pos == (if skipmap_entries(*old(m)).contains_key(key@) {
            Some(skipmap_entries(*old(m))[key@])
        } else {
            None
        }),
{
    m.remove(key).map(|entry| *entry.value())
}

/// `SkipMap::iter`: all entries of the map, each once, sorted by key in the
/// order of `Vec<u8>`, which is the order of byte strings.
#[verifier::external_body]
fn skipmap_items(m: &SkipMap<Vec<u8>, LogRecodPos>) -> (items: Vec<(Vec<u8>, LogRecodPos)>)
    ensures
        lists(entry_views(items@), skipmap_entries(*m)),
{
    m.iter().map(|entry| (entry.key().clone(), *entry.value())).collect()
}

/// A key directory in a skip list.
pub struct SkipList {
    skl: SkipMap<Vec<u8>, LogRecodPos>,
}

/// A cursor over a snapshot of a skip list.
pub struct SkipListIterator {
    inner: BTreeIterator,
}

impl IndexIterator for SkipListIterator {
    closed spec fn items(&self) -> Seq<(Seq<u8>, LogRecodPos)> {
        self.inner.items()
    }

    closed spec fn position(&self) -> nat {
        self.inner.position()
    }

    closed spec fn prefix(&self) -> Seq<u8> {
        self.inner.prefix()
    }

    closed spec fn reverse(&self) -> bool {
        self.inner.reverse()
    }

    closed spec fn valid(&self) -> bool {
        self.inner.valid()
    }

    proof fn lemma_valid(&self) {
        self.inner.lemma_valid();
    }

    fn rewind(&mut self) {
        self.inner.rewind();
    }

    fn seek(&mut self, key: Vec<u8>) {
        self.inner.seek(key);
    }

    fn next(&mut self) -> (res: Option<(&Vec<u8>, &LogRecodPos)>) {
        self.inner.next()
    }
}

impl SkipList {
    /// An empty directory.
    pub fn new() -> (list: SkipList)
        ensures
            list.valid(),
            list.view() == empty_directory(),
    {
        SkipList { skl: skipmap_new() }
    }
}

impl Indexer for SkipList {
    type Iter = SkipListIterator;

    closed spec fn view(&self) -> Map<Seq<u8>, LogRecodPos> {
        skipmap_entries(self.skl)
    }

    closed spec fn valid(&self) -> bool {
        true
    }

    fn put(&mut self, key: Vec<u8>, pos: LogRecodPos) -> (old_pos: Option<LogRecodPos>) {
        let old_pos = skipmap_get(&self.skl, key.as_slice());
        skipmap_insert(&mut self.skl, key, pos);
        old_pos
    }

    fn get(&self, key: &[u8]) -> (pos: Option<LogRecodPos>) {
        skipmap_get(&self.skl, key)
    }

    fn delete(&mut self, key: &[u8]) -> (old_pos: Option<LogRecodPos>) {
        skipmap_remove(&mut self.skl, key)
    }

    fn list_keys(&self) -> (keys: Vec<Vec<u8>>) {
        let mut items = skipmap_items(&self.skl);
        let ghost s = entry_views(items@);
        let mut keys: Vec<Vec<u8>> = Vec::with_capacity(items.len());
        let mut i: usize = 0;
        while i < items.len()
            invariant
                i <= items@.len(),
                keys@.len() == i,
                forall|j: int| 0 <= j < i ==> #[trigger] keys@[j]@ == items@[j].0@,
            decreases items@.len() - i,
        {
            keys.push(crate::index::copy_key(items[i].0.as_slice()));
            i += 1;
        }
        proof {
            crate::index::lemma_keyed(keys@, s, self.view());
        }
        keys
    }

    fn iterator(&self, options: IteratorOptions) -> (it: SkipListIterator) {
        let items = skipmap_items(&self.skl);
        let ghost s = entry_views(items@);
        proof {
            assert(s.reverse().reverse() =~= s);
        }
        SkipListIterator { inner: make_iterator(items, options) }
    }
}

} // verus!
