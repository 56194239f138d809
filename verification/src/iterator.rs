//! Walking the store: a cursor over a snapshot of the key directory that
//! hands out each key with its value.

use crate::db::Engine;
use crate::errors::Errors;
use crate::data::log_record::LogRecodPos;
use crate::index::{lists, ordered, precedes, walk_of, IndexCursor};
use crate::options::IteratorOptions;
use crate::recovery::{live};
use crate::index::{IndexIterator, Indexer};
use vstd::prelude::*;

verus! {

/// A cursor over the store of an engine.
pub struct Iterator<'a> {
    index_iter: IndexCursor,
    engine: &'a Engine,
}

impl Engine {
    /// A cursor over a snapshot of the directory, before its first entry.
    pub fn iter(&self, options: IteratorOptions) -> (it: Iterator<'_>)
        requires
            self.valid(),
        ensures
            it.valid(),
            it.store() == self@,
            it.position() == 0,
            it.prefix() == options.prefix@,
            it.reverse() == options.reverse,
            walk_of(it.items(), self.index(), options.reverse),
    {
        let ghost reverse = options.reverse;
        let index_iter = self.index_cursor(options);
        proof {
            let items = index_iter.items();
            let index = self.index();
            assert forall|i: int| 0 <= i < items.len() implies index.contains_pair(
                (#[trigger] items[i]).0,
                items[i].1,
            ) by {
                if reverse {
                    let s = items.reverse();
                    assert(items[i] == s[items.len() - 1 - i]);
                    assert(index.contains_pair(s[items.len() - 1 - i].0, s[items.len() - 1 - i].1));
                } else {
                    assert(index.contains_pair(items[i].0, items[i].1));
                }
            }
        }
        Iterator { index_iter, engine: self }
    }

    /// Calls `f` with each key and its value, in the order of the keys, till
    /// `f` returns `false` or the keys are at their end.
    pub fn fold<F>(&self, f: F) -> (res: Result<(), Errors>) where F: Fn(Vec<u8>, Vec<u8>) -> bool
        requires
            self.valid(),
            forall|k: Vec<u8>, v: Vec<u8>| #[trigger] f.requires((k, v)),
        ensures
            res is Ok,
            exists|items: Seq<(Seq<u8>, LogRecodPos)>, calls: int|
                lists(items, self.index()) && #[trigger] folded(f, items, self@, calls),
    {
        let mut iter = self.iter(IteratorOptions { prefix: Vec::new(), reverse: false });
        let ghost items = iter.items();
        let ghost store = self@;
        loop
            invariant
                self.valid(),
                iter.valid(),
                iter.items() == items,
                iter.store() == store,
                store == self@,
                iter.prefix() == Seq::<u8>::empty(),
                lists(items, self.index()),
                iter.position() <= items.len(),
                forall|k: Vec<u8>, v: Vec<u8>| #[trigger] f.requires((k, v)),
                forall|i: int|
                    0 <= i < iter.position() ==> answers(
                        f,
                        (#[trigger] items[i]).0,
                        store[items[i].0],
                        true,
                    ),
            decreases items.len() - iter.position(),
        {
            let ghost at = iter.position() as int;
            proof {
                iter.lemma_valid();
                if at < items.len() {
                    assert(Seq::<u8>::empty().is_prefix_of(items[at].0));
                }
            }
            match iter.next() {
                Some((key, value)) => {
                    let ghost k = key;
                    let ghost v = value;
                    proof {
                        iter.lemma_valid();
                        // Without a prefix no key is passed over.
                        assert(iter.position() == at + 1);
                        assert(k@ == items[at].0 && v@ == store[items[at].0]);
                    }
                    let go_on = f(key, value);
                    assert(answers(f, items[at].0, store[items[at].0], go_on)) by {
                        assert(f.ensures((k, v), go_on));
                    }
                    if !go_on {
                        assert(folded(f, items, store, at));
                        return Ok(());
                    }
                },
                None => {
                    assert(at == items.len());
                    assert(folded(f, items, store, at));
                    return Ok(());
                },
            }
        }
    }
}

/// Whether `f` gives the answer `answer` for the key `key` with the value
/// `value`.
pub open spec fn answers<F: Fn(Vec<u8>, Vec<u8>) -> bool>(
    f: F,
    key: Seq<u8>,
    value: Seq<u8>,
    answer: bool,
) -> bool {
    exists|k: Vec<u8>, v: Vec<u8>| k@ == key && v@ == value && #[trigger] f.ensures((k, v), answer)
}

/// What a fold over the keys `items` of the store `store` does: `f` is
/// called for the first `calls` keys, each with its value, and answers
/// `true`; where keys are left, `f` is called for the next one, and answers
/// `false`.
pub open spec fn folded<F: Fn(Vec<u8>, Vec<u8>) -> bool>(
    f: F,
    items: Seq<(Seq<u8>, LogRecodPos)>,
    store: Map<Seq<u8>, Seq<u8>>,
    calls: int,
) -> bool {
    &&& 0 <= calls <= items.len()
    &&& forall|i: int|
        0 <= i < calls ==> answers(f, (#[trigger] items[i]).0, store[items[i].0], true)
    &&& calls < items.len() ==> answers(f, items[calls].0, store[items[calls].0], false)
}

impl<'a> Iterator<'a> {
    /// The snapshot, in the order of the walk.
    pub closed spec fn items(&self) -> Seq<(Seq<u8>, LogRecodPos)> {
        self.index_iter.items()
    }

    /// The index of the entry that the cursor stands before.
    pub closed spec fn position(&self) -> nat {
        self.index_iter.position()
    }

    /// The prefix that a key must start with to be visited.
    pub closed spec fn prefix(&self) -> Seq<u8> {
        self.index_iter.prefix()
    }

    /// Whether the walk goes against the order of the keys.
    pub closed spec fn reverse(&self) -> bool {
        self.index_iter.reverse()
    }

    /// The store of the engine that the cursor walks.
    pub closed spec fn store(&self) -> Map<Seq<u8>, Seq<u8>> {
        self.engine@
    }

    /// The cursor lies within the snapshot, and every entry of the snapshot
    /// is one of the engine's directory.
    pub closed spec fn valid(&self) -> bool {
        &&& self.index_iter.valid()
        &&& self.engine.valid()
        &&& forall|i: int|
            0 <= i < self.index_iter.items().len() ==> self.engine.index().contains_pair(
                (#[trigger] self.index_iter.items()[i]).0,
                self.index_iter.items()[i].1,
            )
    }

    /// What `valid` says: the snapshot follows the order of the walk, the
    /// cursor lies within it, and the store has every key of it.
    pub proof fn lemma_valid(&self)
        requires
            self.valid(),
        ensures
            ordered(self.items(), self.reverse()),
            self.position() <= self.items().len(),
            forall|i: int|
                0 <= i < self.items().len() ==> self.store().contains_key((#[trigger] self.items()[i]).0),
    {
        self.index_iter.lemma_valid();
        assert forall|i: int| 0 <= i < self.items().len() implies self.store().contains_key(
            (#[trigger] self.items()[i]).0,
        ) by {
            assert(self.engine.index().contains_pair(
                self.index_iter.items()[i].0,
                self.index_iter.items()[i].1,
            ));
        }
    }

    /// Puts the cursor before the first entry.
    pub fn rewind(&mut self)
        requires
            old(self).valid(),
        ensures
            final(self).valid(),
            final(self).items() == old(self).items(),
            final(self).prefix() == old(self).prefix(),
            final(self).reverse() == old(self).reverse(),
            final(self).store() == old(self).store(),
            final(self).position() == 0,
    {
        self.index_iter.rewind();
    }

    /// Puts the cursor before the first entry whose key does not come before
    /// `key` in the order of the walk.
    pub fn seek(&mut self, key: Vec<u8>)
        requires
            old(self).valid(),
        ensures
            final(self).valid(),
            final(self).items() == old(self).items(),
            final(self).prefix() == old(self).prefix(),
            final(self).reverse() == old(self).reverse(),
            final(self).store() == old(self).store(),
            forall|i: int|
                0 <= i < final(self).position() ==> precedes(
                    #[trigger] final(self).items()[i].0,
                    key@,
                    final(self).reverse(),
                ),
            forall|i: int|
                final(self).position() <= i < final(self).items().len() ==> !precedes(
                    #[trigger] final(self).items()[i].0,
                    key@,
                    final(self).reverse(),
                ),
    {
        self.index_iter.seek(key);
    }

    /// The first key from the cursor on that starts with the prefix, with
    /// its value; the cursor moves behind it. `None`, with the cursor at the
    /// end, where there is no such key.
    pub fn next(&mut self) -> (res: Option<(Vec<u8>, Vec<u8>)>)
        requires
            old(self).valid(),
        ensures
            final(self).valid(),
            final(self).items() == old(self).items(),
            final(self).prefix() == old(self).prefix(),
            final(self).reverse() == old(self).reverse(),
            final(self).store() == old(self).store(),
            match res {
                Some(e) => {
                    &&& old(self).position() < final(self).position() <= old(self).items().len()
                    &&& e.0@ == old(self).items()[final(self).position() - 1].0
                    &&& old(self).store().contains_key(e.0@)
                    &&& e.1@ == old(self).store()[e.0@]
                    &&& old(self).prefix().is_prefix_of(e.0@)
                    &&& forall|i: int|
                        old(self).position() <= i < final(self).position() - 1 ==> !old(
                            self,
                        ).prefix().is_prefix_of(#[trigger] old(self).items()[i].0)
                },
                None => {
                    &&& final(self).position() == old(self).items().len()
                    &&& forall|i: int|
                        old(self).position() <= i < old(self).items().len() ==> !old(
                            self,
                        ).prefix().is_prefix_of(#[trigger] old(self).items()[i].0)
                },
            },
    {
        let ghost items = self.index_iter.items();
        proof {
            self.engine.lemma_valid();
        }
        let engine = self.engine;
        let (key, pos) = match self.index_iter.next() {
            Some((key, pos)) => (crate::index::copy_key(key.as_slice()), *pos),
            None => {
                return None;
            },
        };
        proof {
            let at = self.index_iter.position() - 1;
            self.index_iter.lemma_valid();
            assert(engine.index().contains_pair(items[at].0, items[at].1));
            assert(live(engine.segments(), key@, pos));
        }
        match engine.get_value_by_position(&pos) {
            Ok(value) => Some((key, value)),
            Err(_) => None,
        }
    }
}

} // verus!
