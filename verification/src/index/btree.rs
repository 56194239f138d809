//! The ordered table: a key directory that keeps its entries in a vector,
//! strictly ascending by key.

use crate::data::log_record::LogRecodPos;
use crate::index::{copy_key, entry_views, lists, next_match, ordered, reversed, table_map, table_search};
use crate::index::{lemma_reverse_ordered, lemma_table_absent, lemma_table_insert, lemma_table_lists};
use crate::index::{lemma_table_map_at, lemma_table_remove, lemma_table_update};
use crate::index::{empty_directory, IndexIterator, Indexer};
use crate::options::IteratorOptions;
use vstd::prelude::*;

verus! {

/// A key directory in an ordered table.
pub struct BTree {
    tree: Vec<(Vec<u8>, LogRecodPos)>,
}

/// A cursor over a snapshot of an ordered table.
pub struct BTreeIterator {
    items: Vec<(Vec<u8>, LogRecodPos)>,
    current_index: usize,
    options: IteratorOptions,
}

impl IndexIterator for BTreeIterator {
    closed spec fn items(&self) -> Seq<(Seq<u8>, LogRecodPos)> {
        entry_views(self.items@)
    }

    closed spec fn position(&self) -> nat {
        self.current_index as nat
    }

    closed spec fn prefix(&self) -> Seq<u8> {
        self.options.prefix@
    }

    closed spec fn reverse(&self) -> bool {
        self.options.reverse
    }

    closed spec fn valid(&self) -> bool {
        &&& ordered(entry_views(self.items@), self.options.reverse)
        &&& self.current_index <= self.items@.len()
    }

    proof fn lemma_valid(&self) {
    }

    fn rewind(&mut self) {
        self.current_index = 0;
    }

    fn seek(&mut self, key: Vec<u8>) {
        let (index, _) = table_search(&self.items, key.as_slice(), self.options.reverse);
        self.current_index = index;
    }

    fn next(&mut self) -> (res: Option<(&Vec<u8>, &LogRecodPos)>) {
        match next_match(&self.items, self.current_index, self.options.prefix.as_slice()) {
            Some(j) => {
                assert(j < self.items.len());
                self.current_index = j + 1;
                let item = &self.items[j];
                Some((&item.0, &item.1))
            },
            None => {
                self.current_index = self.items.len();
                None
            },
        }
    }
}

impl BTree {
    /// An empty directory.
    pub fn new() -> (tree: BTree)
        ensures
            tree.valid(),
            tree.view() == empty_directory(),
    {
        let tree = BTree { tree: Vec::new() };
        assert(tree.view() =~= empty_directory());
        tree
    }

    /// The entries of the table as mathematical values: the listing of the directory.
    pub closed spec fn entries(&self) -> Seq<(Seq<u8>, LogRecodPos)> {
        entry_views(self.tree@)
    }

    /// A copy of the entries, ascending by key.
    pub fn snapshot(&self) -> (items: Vec<(Vec<u8>, LogRecodPos)>)
        requires
            self.valid(),
        ensures
            lists(entry_views(items@), self.view()),
    {
        let mut items: Vec<(Vec<u8>, LogRecodPos)> = Vec::with_capacity(self.tree.len());
        let mut i: usize = 0;
        while i < self.tree.len()
            invariant
                i <= self.tree@.len(),
                items@.len() == i,
                forall|j: int|
                    0 <= j < i ==> (#[trigger] items@[j]).0@ == self.tree@[j].0@ && items@[j].1
                        == self.tree@[j].1,
            decreases self.tree@.len() - i,
        {
            let key = copy_key(self.tree[i].0.as_slice());
            items.push((key, self.tree[i].1));
            i += 1;
        }
        proof {
            assert(entry_views(items@) =~= entry_views(self.tree@));
            lemma_table_lists(entry_views(self.tree@));
        }
        items
    }
}

impl Indexer for BTree {
    type Iter = BTreeIterator;

    closed spec fn view(&self) -> Map<Seq<u8>, LogRecodPos> {
        table_map(entry_views(self.tree@))
    }

    closed spec fn valid(&self) -> bool {
        ordered(entry_views(self.tree@), false)
    }

    fn put(&mut self, key: Vec<u8>, pos: LogRecodPos) -> (old_pos: Option<LogRecodPos>) {
        let ghost s = entry_views(self.tree@);
        let (index, found) = table_search(&self.tree, key.as_slice(), false);
        if found {
            let old_pos = self.tree[index].1;
            proof {
                lemma_table_update(s, index as int, pos);
            }
            self.tree[index].1 = pos;
            assert(entry_views(self.tree@) =~= s.update(index as int, (s[index as int].0, pos)));
            Some(old_pos)
        } else {
            proof {
                assert forall|i: int| index <= i < s.len() implies crate::index::bytes_lt(
                    key@,
                    #[trigger] s[i].0,
                ) by {
                    crate::index::lemma_bytes_lt_total(key@, s[i].0);
                    assert(!crate::index::precedes(self.tree@[i].0@, key@, false));
                    if i == index {
                    } else {
                        assert(crate::index::precedes(s[index as int].0, s[i].0, false));
                        if s[i].0 == key@ {
                            crate::index::lemma_bytes_lt_total(key@, s[index as int].0);
                            crate::index::lemma_bytes_lt_asymmetric(s[index as int].0, s[i].0);
                            assert(!crate::index::precedes(self.tree@[index as int].0@, key@, false));
                        }
                    }
                }
                assert forall|i: int| 0 <= i < index implies crate::index::bytes_lt(
                    #[trigger] s[i].0,
                    key@,
                ) by {
                    assert(crate::index::precedes(self.tree@[i].0@, key@, false));
                }
                lemma_table_insert(s, index as int, key@, pos);
            }
            let ghost k = key@;
            self.tree.insert(index, (key, pos));
            assert(entry_views(self.tree@) =~= s.insert(index as int, (k, pos)));
            None
        }
    }

    fn get(&self, key: &[u8]) -> (pos: Option<LogRecodPos>) {
        let ghost s = entry_views(self.tree@);
        let (index, found) = table_search(&self.tree, key, false);
        if found {
            proof {
                lemma_table_map_at(s, index as int);
            }
            Some(self.tree[index].1)
        } else {
            proof {
                assert forall|i: int| 0 <= i < s.len() implies (#[trigger] s[i]).0 != key@ by {
                    if i < index {
                        assert(crate::index::precedes(self.tree@[i].0@, key@, false));
                        crate::index::lemma_bytes_lt_asymmetric(s[i].0, key@);
                    } else if i > index {
                        assert(crate::index::precedes(s[index as int].0, s[i].0, false));
                        if s[i].0 == key@ {
                            crate::index::lemma_bytes_lt_total(key@, s[index as int].0);
                            crate::index::lemma_bytes_lt_asymmetric(s[index as int].0, s[i].0);
                            assert(!crate::index::precedes(self.tree@[index as int].0@, key@, false));
                        }
                    }
                }
                lemma_table_absent(s, key@);
            }
            None
        }
    }

    fn delete(&mut self, key: &[u8]) -> (old_pos: Option<LogRecodPos>) {
        let ghost s = entry_views(self.tree@);
        let (index, found) = table_search(&self.tree, key, false);
        if found {
            proof {
                lemma_table_remove(s, index as int);
            }
            let entry = self.tree.remove(index);
            assert(entry_views(self.tree@) =~= s.remove(index as int));
            Some(entry.1)
        } else {
            proof {
                assert forall|i: int| 0 <= i < s.len() implies (#[trigger] s[i]).0 != key@ by {
                    if i < index {
                        assert(crate::index::precedes(self.tree@[i].0@, key@, false));
                        crate::index::lemma_bytes_lt_asymmetric(s[i].0, key@);
                    } else if i > index {
                        assert(crate::index::precedes(s[index as int].0, s[i].0, false));
                        if s[i].0 == key@ {
                            crate::index::lemma_bytes_lt_total(key@, s[index as int].0);
                            crate::index::lemma_bytes_lt_asymmetric(s[index as int].0, s[i].0);
                            assert(!crate::index::precedes(self.tree@[index as int].0@, key@, false));
                        }
                    }
                }
                lemma_table_absent(s, key@);
                assert(self.view().remove(key@) =~= self.view());
            }
            None
        }
    }

    fn list_keys(&self) -> (keys: Vec<Vec<u8>>) {
        let mut keys: Vec<Vec<u8>> = Vec::with_capacity(self.tree.len());
        let mut i: usize = 0;
        while i < self.tree.len()
            invariant
                i <= self.tree@.len(),
                keys@.len() == i,
                forall|j: int| 0 <= j < i ==> #[trigger] keys@[j]@ == self.tree@[j].0@,
            decreases self.tree@.len() - i,
        {
            keys.push(copy_key(self.tree[i].0.as_slice()));
            i += 1;
        }
        proof {
            let s = entry_views(self.tree@);
            lemma_table_lists(s);
            crate::index::lemma_keyed(keys@, s, self.view());
        }
        keys
    }

    fn iterator(&self, options: IteratorOptions) -> (it: BTreeIterator) {
        let items = self.snapshot();
        let ghost s = entry_views(items@);
        proof {
            assert(s.reverse().reverse() =~= s);
        }
        make_iterator(items, options)
    }
}

/// A cursor before the first entry of `items`, which ascend by key: it
/// walks them as they stand, or from the last to the first for a walk in
/// reverse.
pub fn make_iterator(items: Vec<(Vec<u8>, LogRecodPos)>, options: IteratorOptions) -> (it:
    BTreeIterator)
    requires
        ordered(entry_views(items@), false),
    ensures
        it.valid(),
        it.position() == 0,
        it.prefix() == options.prefix@,
        it.reverse() == options.reverse,
        it.items() == (if options.reverse {
            entry_views(items@).reverse()
        } else {
            entry_views(items@)
        }),
{
    let ghost s = entry_views(items@);
    if options.reverse {
        let items = reversed(items);
        proof {
            lemma_reverse_ordered(s);
        }
        BTreeIterator { items, current_index: 0, options }
    } else {
        BTreeIterator { items, current_index: 0, options }
    }
}

} // verus!
