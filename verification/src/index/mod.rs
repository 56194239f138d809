//! The key directory: for each live key the position of its newest record.
//!
//! Three directories share one contract. Keys are ordered as byte strings,
//! and a cursor walks a snapshot of the entries in that order or against it.

pub mod bptree;
pub mod btree;
pub mod skiplist;

use crate::data::log_record::LogRecodPos;
use crate::index::bptree::{BPTreeIterator, BPlusTree};
use crate::index::btree::{BTree, BTreeIterator};
use crate::index::skiplist::{SkipList, SkipListIterator};
use crate::options::{IndexType, IteratorOptions};
use vstd::prelude::*;

verus! {

/// The order of byte strings: the first byte that differs decides, and a
/// proper prefix comes first.
pub open spec fn bytes_lt(a: Seq<u8>, b: Seq<u8>) -> bool
    decreases a.len(),
{
    if b.len() == 0 {
        false
    } else if a.len() == 0 {
        true
    } else if a[0] != b[0] {
        a[0] < b[0]
    } else {
        bytes_lt(a.drop_first(), b.drop_first())
    }
}

/// No byte string comes before itself.
pub proof fn lemma_bytes_lt_irreflexive(a: Seq<u8>)
    ensures
        !bytes_lt(a, a),
    decreases a.len(),
{
    if a.len() > 0 {
        lemma_bytes_lt_irreflexive(a.drop_first());
    }
}

/// The order of byte strings is transitive.
pub proof fn lemma_bytes_lt_transitive(a: Seq<u8>, b: Seq<u8>, c: Seq<u8>)
    requires
        bytes_lt(a, b),
        bytes_lt(b, c),
    ensures
        bytes_lt(a, c),
    decreases a.len(),
{
    if a.len() > 0 && a[0] == b[0] && b[0] == c[0] {
        lemma_bytes_lt_transitive(a.drop_first(), b.drop_first(), c.drop_first());
    }
}

/// Of two byte strings one comes first, or they are equal.
pub proof fn lemma_bytes_lt_total(a: Seq<u8>, b: Seq<u8>)
    ensures
        bytes_lt(a, b) || a == b || bytes_lt(b, a),
    decreases a.len(),
{
    if a.len() > 0 && b.len() > 0 && a[0] == b[0] {
        lemma_bytes_lt_total(a.drop_first(), b.drop_first());
        if a.drop_first() == b.drop_first() {
            assert(a =~= seq![a[0]] + a.drop_first());
            assert(b =~= seq![b[0]] + b.drop_first());
        }
    } else if a.len() == 0 && b.len() == 0 {
        assert(a =~= b);
    }
}

/// Of two byte strings at most one comes before the other.
pub proof fn lemma_bytes_lt_asymmetric(a: Seq<u8>, b: Seq<u8>)
    requires
        bytes_lt(a, b),
    ensures
        !bytes_lt(b, a),
        a != b,
{
    if bytes_lt(b, a) {
        lemma_bytes_lt_transitive(a, b, a);
    }
    lemma_bytes_lt_irreflexive(a);
}

/// How one key stands to another.
#[derive(Clone, Copy, Debug, PartialEq, Eq, Structural)]
pub enum KeyOrder {
    Before,
    Same,
    After,
}

/// Compares two keys as byte strings.
pub fn compare_keys(a: &[u8], b: &[u8]) -> (o: KeyOrder)
    ensures
        o == KeyOrder::Before <==> bytes_lt(a@, b@),
        o == KeyOrder::Same <==> a@ == b@,
        o == KeyOrder::After <==> bytes_lt(b@, a@),
{
    let mut i: usize = 0;
    assert(a@.skip(0) =~= a@ && b@.skip(0) =~= b@);
    while i < a.len() && i < b.len()
        invariant
            i <= a@.len(),
            i <= b@.len(),
            forall|j: int| 0 <= j < i ==> a@[j] == b@[j],
            bytes_lt(a@, b@) == bytes_lt(a@.skip(i as int), b@.skip(i as int)),
            bytes_lt(b@, a@) == bytes_lt(b@.skip(i as int), a@.skip(i as int)),
        decreases a@.len() - i,
    {
        let x: u8 = a[i];
        let y: u8 = b[i];
        assert(a@.skip(i as int)[0] == x && b@.skip(i as int)[0] == y);
        if x < y {
            proof {
                lemma_bytes_lt_asymmetric(a@, b@);
            }
            return KeyOrder::Before;
        }
        if x > y {
            proof {
                lemma_bytes_lt_asymmetric(b@, a@);
            }
            return KeyOrder::After;
        }
        assert(a@.skip(i as int).drop_first() =~= a@.skip(i + 1));
        assert(b@.skip(i as int).drop_first() =~= b@.skip(i + 1));
        i += 1;
    }
    if i < b.len() {
        proof {
            lemma_bytes_lt_asymmetric(a@, b@);
        }
        KeyOrder::Before
    } else if i < a.len() {
        proof {
            lemma_bytes_lt_asymmetric(b@, a@);
        }
        KeyOrder::After
    } else {
        proof {
            assert(a@ =~= b@);
            lemma_bytes_lt_irreflexive(a@);
        }
        KeyOrder::Same
    }
}

/// Whether `key` starts with `prefix`.
pub fn starts_with(key: &[u8], prefix: &[u8]) -> (b: bool)
    ensures
        b == prefix@.is_prefix_of(key@),
{
    if prefix.len() > key.len() {
        return false;
    }
    let mut i: usize = 0;
    while i < prefix.len()
        invariant
            i <= prefix@.len() <= key@.len(),
            forall|j: int| 0 <= j < i ==> key@[j] == prefix@[j],
        decreases prefix@.len() - i,
    {
        if key[i] != prefix[i] {
            assert(key@.subrange(0, prefix@.len() as int)[i as int] != prefix@[i as int]);
            return false;
        }
        i += 1;
    }
    assert(prefix@ =~= key@.subrange(0, prefix@.len() as int));
    true
}

/// The directory without entries.
pub open spec fn empty_directory() -> Map<Seq<u8>, LogRecodPos> {
    Map::empty()
}

/// The entries of a directory as mathematical values.
pub open spec fn entry_views(items: Seq<(Vec<u8>, LogRecodPos)>) -> Seq<(Seq<u8>, LogRecodPos)> {
    Seq::new(items.len(), |i: int| (items[i].0@, items[i].1))
}

/// `a` comes before `b` in the order of a walk: the order of byte strings, or
/// its opposite for a walk in reverse.
pub open spec fn precedes(a: Seq<u8>, b: Seq<u8>, reverse: bool) -> bool {
    if reverse {
        bytes_lt(b, a)
    } else {
        bytes_lt(a, b)
    }
}

/// The keys of `s` strictly follow the order of a walk.
pub open spec fn ordered(s: Seq<(Seq<u8>, LogRecodPos)>, reverse: bool) -> bool {
    forall|i: int, j: int| 0 <= i < j < s.len() ==> precedes(#[trigger] s[i].0, #[trigger] s[j].0, reverse)
}

/// `s` lists the directory `m`: every entry of `s` is one of `m`, every key of
/// `m` has an entry in `s`, and the keys of `s` strictly ascend.
pub open spec fn lists(s: Seq<(Seq<u8>, LogRecodPos)>, m: Map<Seq<u8>, LogRecodPos>) -> bool {
    &&& ordered(s, false)
    &&& forall|i: int| 0 <= i < s.len() ==> m.contains_pair(#[trigger] s[i].0, s[i].1)
    &&& forall|k: Seq<u8>| m.contains_key(k) ==> exists|i: int| 0 <= i < s.len() && #[trigger] s[i].0 == k
}

/// The directory that a strictly ascending table of entries stands for.
pub open spec fn table_map(s: Seq<(Seq<u8>, LogRecodPos)>) -> Map<Seq<u8>, LogRecodPos> {
    Map::new(
        |k: Seq<u8>| exists|i: int| 0 <= i < s.len() && #[trigger] s[i].0 == k,
        |k: Seq<u8>| s[choose|i: int| 0 <= i < s.len() && #[trigger] s[i].0 == k].1,
    )
}

/// The keys of a table in either order are distinct.
pub proof fn lemma_ordered_distinct(s: Seq<(Seq<u8>, LogRecodPos)>, reverse: bool, i: int, j: int)
    requires
        ordered(s, reverse),
        0 <= i < s.len(),
        0 <= j < s.len(),
        s[i].0 == s[j].0,
    ensures
        i == j,
{
    if i < j {
        assert(precedes(s[i].0, s[j].0, reverse));
        lemma_bytes_lt_irreflexive(s[i].0);
    } else if j < i {
        assert(precedes(s[j].0, s[i].0, reverse));
        lemma_bytes_lt_irreflexive(s[i].0);
    }
}

/// Each entry of an ascending table is an entry of its directory.
pub proof fn lemma_table_map_at(s: Seq<(Seq<u8>, LogRecodPos)>, i: int)
    requires
        ordered(s, false),
        0 <= i < s.len(),
    ensures
        table_map(s).contains_pair(s[i].0, s[i].1),
{
    let k = s[i].0;
    assert(0 <= i < s.len() && s[i].0 == k);
    assert(table_map(s).contains_key(k));
    assert forall|j: int| 0 <= j < s.len() && #[trigger] s[j].0 == k implies j == i by {
        lemma_ordered_distinct(s, false, i, j);
    }
}

/// An ascending table lists its directory.
pub proof fn lemma_table_lists(s: Seq<(Seq<u8>, LogRecodPos)>)
    requires
        ordered(s, false),
    ensures
        lists(s, table_map(s)),
{
    assert forall|i: int| 0 <= i < s.len() implies table_map(s).contains_pair(
        #[trigger] s[i].0,
        s[i].1,
    ) by {
        lemma_table_map_at(s, i);
    }
}

/// A key that has no entry in an ascending table is no key of its directory.
pub proof fn lemma_table_absent(s: Seq<(Seq<u8>, LogRecodPos)>, k: Seq<u8>)
    requires
        forall|i: int| 0 <= i < s.len() ==> (#[trigger] s[i]).0 != k,
    ensures
        !table_map(s).contains_key(k),
{
}

/// Putting a new key at its place in an ascending table keeps the table
/// ascending, and adds the entry to its directory.
pub proof fn lemma_table_insert(s: Seq<(Seq<u8>, LogRecodPos)>, idx: int, k: Seq<u8>, pos: LogRecodPos)
    requires
        ordered(s, false),
        0 <= idx <= s.len(),
        forall|i: int| 0 <= i < idx ==> bytes_lt(#[trigger] s[i].0, k),
        forall|i: int| idx <= i < s.len() ==> bytes_lt(k, #[trigger] s[i].0),
    ensures
        ordered(s.insert(idx, (k, pos)), false),
        !table_map(s).contains_key(k),
        table_map(s.insert(idx, (k, pos))) == table_map(s).insert(k, pos),
{
    let t = s.insert(idx, (k, pos));
    assert forall|i: int, j: int| 0 <= i < j < t.len() implies precedes(
        #[trigger] t[i].0,
        #[trigger] t[j].0,
        false,
    ) by {
        let i0 = if i < idx { i } else { i - 1 };
        let j0 = if j < idx { j } else { j - 1 };
        if i == idx {
            assert(t[j] == s[j0]);
        } else if j == idx {
            assert(t[i] == s[i0]);
        } else {
            assert(t[i] == s[i0] && t[j] == s[j0]);
            assert(precedes(s[i0].0, s[j0].0, false));
        }
    }
    assert forall|i: int| 0 <= i < s.len() implies (#[trigger] s[i]).0 != k by {
        if i < idx {
            lemma_bytes_lt_asymmetric(s[i].0, k);
        } else {
            lemma_bytes_lt_asymmetric(k, s[i].0);
        }
    }
    lemma_table_absent(s, k);
    let a = table_map(t);
    let b = table_map(s).insert(k, pos);
    assert forall|q: Seq<u8>| a.contains_key(q) <==> b.contains_key(q) by {
        if a.contains_key(q) {
            let i = choose|i: int| 0 <= i < t.len() && #[trigger] t[i].0 == q;
            if i < idx {
                assert(s[i].0 == q);
            } else if i > idx {
                assert(s[i - 1].0 == q);
            }
        }
        if b.contains_key(q) {
            if q == k {
                assert(t[idx].0 == q);
            } else {
                let i = choose|i: int| 0 <= i < s.len() && #[trigger] s[i].0 == q;
                if i < idx {
                    assert(t[i].0 == q);
                } else {
                    assert(t[i + 1].0 == q);
                }
            }
        }
    }
    assert forall|q: Seq<u8>| a.contains_key(q) implies a[q] == b[q] by {
        let i = choose|i: int| 0 <= i < t.len() && #[trigger] t[i].0 == q;
        lemma_table_map_at(t, i);
        if i < idx {
            assert(t[i] == s[i]);
            lemma_table_map_at(s, i);
        } else if i > idx {
            assert(t[i] == s[i - 1]);
            lemma_table_map_at(s, i - 1);
        }
    }
    assert(a =~= b);
}

/// Setting the position of the entry at `idx` of an ascending table keeps
/// the table ascending, and sets the position of its key in the directory.
pub proof fn lemma_table_update(s: Seq<(Seq<u8>, LogRecodPos)>, idx: int, pos: LogRecodPos)
    requires
        ordered(s, false),
        0 <= idx < s.len(),
    ensures
        ordered(s.update(idx, (s[idx].0, pos)), false),
        table_map(s).contains_pair(s[idx].0, s[idx].1),
        table_map(s.update(idx, (s[idx].0, pos))) == table_map(s).insert(s[idx].0, pos),
{
    let k = s[idx].0;
    let t = s.update(idx, (k, pos));
    assert forall|i: int, j: int| 0 <= i < j < t.len() implies precedes(
        #[trigger] t[i].0,
        #[trigger] t[j].0,
        false,
    ) by {
        assert(t[i].0 == s[i].0 && t[j].0 == s[j].0);
        assert(precedes(s[i].0, s[j].0, false));
    }
    lemma_table_map_at(s, idx);
    let a = table_map(t);
    let b = table_map(s).insert(k, pos);
    assert forall|q: Seq<u8>| a.contains_key(q) <==> b.contains_key(q) by {
        if a.contains_key(q) {
            let i = choose|i: int| 0 <= i < t.len() && #[trigger] t[i].0 == q;
            assert(s[i].0 == q);
        }
        if b.contains_key(q) {
            if q == k {
                assert(t[idx].0 == q);
            } else {
                let i = choose|i: int| 0 <= i < s.len() && #[trigger] s[i].0 == q;
                assert(t[i].0 == q);
            }
        }
    }
    assert forall|q: Seq<u8>| a.contains_key(q) implies a[q] == b[q] by {
        let i = choose|i: int| 0 <= i < t.len() && #[trigger] t[i].0 == q;
        lemma_table_map_at(t, i);
        if i != idx {
            assert(t[i] == s[i]);
            lemma_table_map_at(s, i);
            if s[i].0 == k {
                lemma_ordered_distinct(s, false, i, idx);
            }
        }
    }
    assert(a =~= b);
}

/// Taking the entry at `idx` out of an ascending table keeps the table
/// ascending, and removes its key from the directory.
pub proof fn lemma_table_remove(s: Seq<(Seq<u8>, LogRecodPos)>, idx: int)
    requires
        ordered(s, false),
        0 <= idx < s.len(),
    ensures
        ordered(s.remove(idx), false),
        table_map(s).contains_pair(s[idx].0, s[idx].1),
        table_map(s.remove(idx)) == table_map(s).remove(s[idx].0),
{
    let k = s[idx].0;
    let t = s.remove(idx);
    assert forall|i: int, j: int| 0 <= i < j < t.len() implies precedes(
        #[trigger] t[i].0,
        #[trigger] t[j].0,
        false,
    ) by {
        let i0 = if i < idx { i } else { i + 1 };
        let j0 = if j < idx { j } else { j + 1 };
        assert(t[i] == s[i0] && t[j] == s[j0]);
        assert(precedes(s[i0].0, s[j0].0, false));
    }
    lemma_table_map_at(s, idx);
    let a = table_map(t);
    let b = table_map(s).remove(k);
    assert forall|q: Seq<u8>| a.contains_key(q) <==> b.contains_key(q) by {
        if a.contains_key(q) {
            let i = choose|i: int| 0 <= i < t.len() && #[trigger] t[i].0 == q;
            let i0 = if i < idx { i } else { i + 1 };
            assert(t[i] == s[i0]);
            assert(s[i0].0 == q);
            if q == k {
                lemma_ordered_distinct(s, false, i0, idx);
            }
        }
        if b.contains_key(q) {
            let i = choose|i: int| 0 <= i < s.len() && #[trigger] s[i].0 == q;
            if i < idx {
                assert(t[i].0 == q);
            } else {
                assert(t[i - 1] == s[i]);
                assert(t[i - 1].0 == q);
            }
        }
    }
    assert forall|q: Seq<u8>| a.contains_key(q) implies a[q] == b[q] by {
        let i = choose|i: int| 0 <= i < t.len() && #[trigger] t[i].0 == q;
        let i0 = if i < idx { i } else { i + 1 };
        lemma_table_map_at(t, i);
        assert(t[i] == s[i0]);
        lemma_table_map_at(s, i0);
    }
    assert(a =~= b);
}

/// Two listings of one directory are equal.
pub proof fn lemma_lists_unique(
    a: Seq<(Seq<u8>, LogRecodPos)>,
    b: Seq<(Seq<u8>, LogRecodPos)>,
    m: Map<Seq<u8>, LogRecodPos>,
)
    requires
        lists(a, m),
        lists(b, m),
    ensures
        a == b,
    decreases a.len(),
{
    if a.len() == 0 {
        if b.len() > 0 {
            assert(m.contains_key(b[0].0));
        }
        assert(a =~= b);
    } else if b.len() == 0 {
        assert(m.contains_key(a[0].0));
    } else {
        // Both first entries hold the least key of the directory.
        let ia = choose|i: int| 0 <= i < a.len() && #[trigger] a[i].0 == b[0].0;
        let ib = choose|i: int| 0 <= i < b.len() && #[trigger] b[i].0 == a[0].0;
        assert(m.contains_key(b[0].0));
        assert(m.contains_key(a[0].0));
        if ia > 0 {
            assert(precedes(a[0].0, a[ia].0, false));
            if ib > 0 {
                assert(precedes(b[0].0, b[ib].0, false));
                lemma_bytes_lt_asymmetric(a[0].0, b[0].0);
            } else {
                lemma_bytes_lt_irreflexive(a[0].0);
            }
        }
        assert(a[0].0 == b[0].0);
        assert(a[0] == b[0]);
        let m2 = m.remove(a[0].0);
        let a2 = a.drop_first();
        let b2 = b.drop_first();
        assert(lists(a2, m2)) by {
            assert forall|i: int| 0 <= i < a2.len() implies m2.contains_pair(
                #[trigger] a2[i].0,
                a2[i].1,
            ) by {
                assert(a2[i] == a[i + 1]);
                assert(precedes(a[0].0, a[i + 1].0, false));
                lemma_bytes_lt_asymmetric(a[0].0, a[i + 1].0);
            }
            assert forall|k: Seq<u8>| m2.contains_key(k) implies exists|i: int|
                0 <= i < a2.len() && #[trigger] a2[i].0 == k by {
                let i = choose|i: int| 0 <= i < a.len() && #[trigger] a[i].0 == k;
                assert(a2[i - 1] == a[i]);
            }
            assert forall|i: int, j: int| 0 <= i < j < a2.len() implies precedes(
                #[trigger] a2[i].0,
                #[trigger] a2[j].0,
                false,
            ) by {
                assert(a2[i] == a[i + 1] && a2[j] == a[j + 1]);
            }
        }
        assert(lists(b2, m2)) by {
            assert forall|i: int| 0 <= i < b2.len() implies m2.contains_pair(
                #[trigger] b2[i].0,
                b2[i].1,
            ) by {
                assert(b2[i] == b[i + 1]);
                assert(precedes(b[0].0, b[i + 1].0, false));
                lemma_bytes_lt_asymmetric(b[0].0, b[i + 1].0);
            }
            assert forall|k: Seq<u8>| m2.contains_key(k) implies exists|i: int|
                0 <= i < b2.len() && #[trigger] b2[i].0 == k by {
                let i = choose|i: int| 0 <= i < b.len() && #[trigger] b[i].0 == k;
                assert(b2[i - 1] == b[i]);
            }
            assert forall|i: int, j: int| 0 <= i < j < b2.len() implies precedes(
                #[trigger] b2[i].0,
                #[trigger] b2[j].0,
                false,
            ) by {
                assert(b2[i] == b[i + 1] && b2[j] == b[j + 1]);
            }
        }
        lemma_lists_unique(a2, b2, m2);
        assert(a =~= seq![a[0]] + a2);
        assert(b =~= seq![b[0]] + b2);
    }
}

/// The place of `key` in a table that follows the order of a walk: the index
/// of the first entry that does not come before `key`, and whether that
/// entry has the key itself.
pub fn table_search(items: &Vec<(Vec<u8>, LogRecodPos)>, key: &[u8], reverse: bool) -> (res: (
    usize,
    bool,
))
    requires
        ordered(entry_views(items@), reverse),
    ensures
        res.0 <= items@.len(),
        forall|i: int| 0 <= i < res.0 ==> precedes(#[trigger] items@[i].0@, key@, reverse),
        forall|i: int|
            res.0 <= i < items@.len() ==> !precedes(#[trigger] items@[i].0@, key@, reverse),
        res.1 <==> res.0 < items@.len() && items@[res.0 as int].0@ == key@,
{
    let ghost s = entry_views(items@);
    let mut lo: usize = 0;
    let mut hi: usize = items.len();
    while lo < hi
        invariant
            lo <= hi <= items@.len(),
            s == entry_views(items@),
            ordered(s, reverse),
            forall|i: int| 0 <= i < lo ==> precedes(#[trigger] items@[i].0@, key@, reverse),
            forall|i: int| hi <= i < items@.len() ==> precedes(key@, #[trigger] items@[i].0@, reverse),
        decreases hi - lo,
    {
        let mid: usize = lo + (hi - lo) / 2;
        let o = compare_keys(items[mid].0.as_slice(), key);
        let before = match o {
            KeyOrder::Before => !reverse,
            KeyOrder::After => reverse,
            KeyOrder::Same => {
                proof {
                    lemma_bytes_lt_irreflexive(key@);
                    assert forall|i: int| mid <= i < items@.len() implies !precedes(
                        #[trigger] items@[i].0@,
                        key@,
                        reverse,
                    ) by {
                        if i > mid {
                            assert(precedes(s[mid as int].0, s[i].0, reverse));
                            lemma_precedes_asymmetric(key@, items@[i].0@, reverse);
                        }
                    }
                    assert forall|i: int| 0 <= i < mid implies precedes(
                        #[trigger] items@[i].0@,
                        key@,
                        reverse,
                    ) by {
                        assert(precedes(s[i].0, s[mid as int].0, reverse));
                    }
                }
                return (mid, true);
            },
        };
        if before {
            assert(precedes(items@[mid as int].0@, key@, reverse));
            proof {
                assert forall|i: int| 0 <= i < mid + 1 implies precedes(
                    #[trigger] items@[i].0@,
                    key@,
                    reverse,
                ) by {
                    if i < mid {
                        assert(precedes(s[i].0, s[mid as int].0, reverse));
                        lemma_precedes_transitive(s[i].0, s[mid as int].0, key@, reverse);
                    }
                }
            }
            lo = mid + 1;
        } else {
            assert(precedes(key@, items@[mid as int].0@, reverse));
            proof {
                assert forall|i: int| mid <= i < items@.len() implies precedes(
                    key@,
                    #[trigger] items@[i].0@,
                    reverse,
                ) by {
                    if i > mid {
                        assert(precedes(s[mid as int].0, s[i].0, reverse));
                        lemma_precedes_transitive(key@, s[mid as int].0, s[i].0, reverse);
                    }
                }
            }
            hi = mid;
        }
    }
    proof {
        assert forall|i: int| lo <= i < items@.len() implies !precedes(
            #[trigger] items@[i].0@,
            key@,
            reverse,
        ) by {
            lemma_precedes_asymmetric(key@, items@[i].0@, reverse);
        }
        if lo < items@.len() {
            lemma_precedes_asymmetric(key@, items@[lo as int].0@, reverse);
        }
    }
    (lo, false)
}

/// The order of a walk is transitive.
pub proof fn lemma_precedes_transitive(a: Seq<u8>, b: Seq<u8>, c: Seq<u8>, reverse: bool)
    requires
        precedes(a, b, reverse),
        precedes(b, c, reverse),
    ensures
        precedes(a, c, reverse),
{
    if reverse {
        lemma_bytes_lt_transitive(c, b, a);
    } else {
        lemma_bytes_lt_transitive(a, b, c);
    }
}

/// Of two keys at most one comes before the other in the order of a walk.
pub proof fn lemma_precedes_asymmetric(a: Seq<u8>, b: Seq<u8>, reverse: bool)
    requires
        precedes(a, b, reverse),
    ensures
        !precedes(b, a, reverse),
        a != b,
{
    if reverse {
        lemma_bytes_lt_asymmetric(b, a);
    } else {
        lemma_bytes_lt_asymmetric(a, b);
    }
}

/// The index of the first entry from `from` on whose key starts with
/// `prefix`, if there is one.
pub fn next_match(items: &Vec<(Vec<u8>, LogRecodPos)>, from: usize, prefix: &[u8]) -> (res: Option<
    usize,
>)
    ensures
        match res {
            Some(j) => {
                &&& from <= j < items@.len()
                &&& prefix@.is_prefix_of(items@[j as int].0@)
                &&& forall|i: int| from <= i < j ==> !prefix@.is_prefix_of(#[trigger] items@[i].0@)
            },
            None => forall|i: int|
                from <= i < items@.len() ==> !prefix@.is_prefix_of(#[trigger] items@[i].0@),
        },
{
    let mut j: usize = from;
    while j < items.len()
        invariant
            from <= j,
            forall|i: int| from <= i < j && i < items@.len() ==> !prefix@.is_prefix_of(
                #[trigger] items@[i].0@,
            ),
        decreases items@.len() - j,
    {
        if starts_with(items[j].0.as_slice(), prefix) {
            return Some(j);
        }
        j += 1;
    }
    None
}

/// A copy of a key.
pub fn copy_key(key: &[u8]) -> (out: Vec<u8>)
    ensures
        out@ == key@,
{
    vstd::slice::slice_to_vec(key)
}

/// The entries of a table in the opposite order.
pub fn reversed(items: Vec<(Vec<u8>, LogRecodPos)>) -> (out: Vec<(Vec<u8>, LogRecodPos)>)
    ensures
        entry_views(out@) == entry_views(items@).reverse(),
{
    let mut items = items;
    let mut out: Vec<(Vec<u8>, LogRecodPos)> = Vec::new();
    let ghost all = entry_views(items@);
    while items.len() > 0
        invariant
            out@.len() + items@.len() == all.len(),
            forall|i: int| 0 <= i < items@.len() ==> (#[trigger] items@[i]).0@ == all[i].0 && items@[i].1 == all[i].1,
            forall|i: int|
                0 <= i < out@.len() ==> (#[trigger] out@[i]).0@ == all[all.len() - 1 - i].0 && out@[i].1
                    == all[all.len() - 1 - i].1,
        decreases items@.len(),
    {
        let last = items.pop();
        match last {
            Some(e) => {
                out.push(e);
            },
            None => {},
        }
    }
    assert(entry_views(out@) =~= all.reverse());
    out
}

/// A walk in reverse over the entries of an ascending table follows the
/// opposite order.
pub proof fn lemma_reverse_ordered(s: Seq<(Seq<u8>, LogRecodPos)>)
    requires
        ordered(s, false),
    ensures
        ordered(s.reverse(), true),
{
    let r = s.reverse();
    assert forall|i: int, j: int| 0 <= i < j < r.len() implies precedes(
        #[trigger] r[i].0,
        #[trigger] r[j].0,
        true,
    ) by {
        assert(r[i] == s[s.len() - 1 - i]);
        assert(r[j] == s[s.len() - 1 - j]);
        assert(precedes(s[s.len() - 1 - j].0, s[s.len() - 1 - i].0, false));
    }
}

/// The keys of `keys`, each with the position that the directory `m` gives it.
pub open spec fn keyed(keys: Seq<Vec<u8>>, m: Map<Seq<u8>, LogRecodPos>) -> Seq<(Seq<u8>, LogRecodPos)> {
    Seq::new(keys.len(), |i: int| (keys[i]@, m[keys[i]@]))
}

/// A directory that is listed has as many keys as its listing has entries.
pub proof fn lemma_lists_len(s: Seq<(Seq<u8>, LogRecodPos)>, m: Map<Seq<u8>, LogRecodPos>)
    requires
        lists(s, m),
    ensures
        m.dom().finite(),
        m.dom().len() == s.len(),
    decreases s.len(),
{
    if s.len() == 0 {
        assert forall|k: Seq<u8>| !m.dom().contains(k) by {
            if m.contains_key(k) {
                let i = choose|i: int| 0 <= i < s.len() && #[trigger] s[i].0 == k;
            }
        }
        assert(m.dom() =~= Set::<Seq<u8>>::empty());
    } else {
        let last = s.last();
        let s2 = s.drop_last();
        let m2 = m.remove(last.0);
        assert(m.contains_pair(s[s.len() - 1].0, s[s.len() - 1].1));
        assert(lists(s2, m2)) by {
            assert forall|i: int| 0 <= i < s2.len() implies m2.contains_pair(
                #[trigger] s2[i].0,
                s2[i].1,
            ) by {
                assert(s2[i] == s[i]);
                assert(m.contains_pair(s[i].0, s[i].1));
                assert(precedes(s[i].0, s[s.len() - 1].0, false));
                lemma_bytes_lt_asymmetric(s[i].0, last.0);
            }
            assert forall|k: Seq<u8>| m2.contains_key(k) implies exists|i: int|
                0 <= i < s2.len() && #[trigger] s2[i].0 == k by {
                let i = choose|i: int| 0 <= i < s.len() && #[trigger] s[i].0 == k;
                assert(s2[i] == s[i]);
            }
            assert forall|i: int, j: int| 0 <= i < j < s2.len() implies precedes(
                #[trigger] s2[i].0,
                #[trigger] s2[j].0,
                false,
            ) by {
                assert(s2[i] == s[i] && s2[j] == s[j]);
            }
        }
        lemma_lists_len(s2, m2);
        assert(m.dom() =~= m2.dom().insert(last.0));
    }
}

/// The keys of a listing, each with its position in the directory, are the listing.
pub proof fn lemma_keyed(
    keys: Seq<Vec<u8>>,
    s: Seq<(Seq<u8>, LogRecodPos)>,
    m: Map<Seq<u8>, LogRecodPos>,
)
    requires
        lists(s, m),
        keys.len() == s.len(),
        forall|i: int| 0 <= i < s.len() ==> #[trigger] keys[i]@ == s[i].0,
    ensures
        keyed(keys, m) == s,
{
    assert forall|i: int| 0 <= i < s.len() implies keyed(keys, m)[i] == s[i] by {
        assert(m.contains_pair(s[i].0, s[i].1));
        assert(keys[i]@ == s[i].0);
    }
    assert(keyed(keys, m) =~= s);
}

/// What a walk over the directory `m` visits, before any prefix is applied:
/// the listing of `m`, or its reverse.
pub open spec fn walk_of(
    items: Seq<(Seq<u8>, LogRecodPos)>,
    m: Map<Seq<u8>, LogRecodPos>,
    reverse: bool,
) -> bool {
    if reverse {
        lists(items.reverse(), m)
    } else {
        lists(items, m)
    }
}

/// A cursor over a snapshot of the entries of a directory.
///
/// The snapshot is taken when the cursor is made and stands in the order of
/// the walk. `next` hands out, one by one and in that order, the entries from
/// the cursor's place on whose key starts with the prefix.
pub trait IndexIterator {
    /// The snapshot, in the order of the walk.
    spec fn items(&self) -> Seq<(Seq<u8>, LogRecodPos)>;

    /// The index of the entry that the cursor stands before.
    spec fn position(&self) -> nat;

    /// The prefix that a key must start with to be visited.
    spec fn prefix(&self) -> Seq<u8>;

    /// Whether the walk goes against the order of the keys.
    spec fn reverse(&self) -> bool;

    /// The snapshot follows the order of the walk, and the cursor lies within it.
    spec fn valid(&self) -> bool;

    /// What `valid` says of the snapshot and the cursor.
    proof fn lemma_valid(&self)
        requires
            self.valid(),
        ensures
            ordered(self.items(), self.reverse()),
            self.position() <= self.items().len(),
    ;

    /// Puts the cursor before the first entry.
    fn rewind(&mut self)
        requires
            old(self).valid(),
        ensures
            final(self).valid(),
            final(self).items() == old(self).items(),
            final(self).prefix() == old(self).prefix(),
            final(self).reverse() == old(self).reverse(),
            final(self).position() == 0,
    ;

    /// Puts the cursor before the first entry whose key does not come before
    /// `key` in the order of the walk.
    fn seek(&mut self, key: Vec<u8>)
        requires
            old(self).valid(),
        ensures
            final(self).valid(),
            final(self).items() == old(self).items(),
            final(self).prefix() == old(self).prefix(),
            final(self).reverse() == old(self).reverse(),
            forall|i: int|
                0 <= i < final(self).position() ==> precedes(
                    #[trigger] final(self).items()[i].0,
                    key@,
                    final(self).reverse(),
                ),
            forall|i: int|
                final(self).position() <= i < final(self).items().len() ==> !precedes(
                    #[trigger] final(self).items()[i].0,
                    key@,
                    final(self).reverse(),
                ),
    ;

    /// The first entry from the cursor on whose key starts with the prefix;
    /// the cursor moves behind it. `None`, with the cursor at the end, where
    /// there is no such entry.
    fn next(&mut self) -> (res: Option<(&Vec<u8>, &LogRecodPos)>)
        requires
            old(self).valid(),
        ensures
            final(self).valid(),
            final(self).items() == old(self).items(),
            final(self).prefix() == old(self).prefix(),
            final(self).reverse() == old(self).reverse(),
            match res {
                Some(e) => {
                    &&& old(self).position() < final(self).position()
                    &&& (e.0@, *e.1) == old(self).items()[final(self).position() - 1]
                    &&& old(self).prefix().is_prefix_of(e.0@)
                    &&& forall|i: int|
                        old(self).position() <= i < final(self).position() - 1 ==> !old(
                            self,
                        ).prefix().is_prefix_of(#[trigger] old(self).items()[i].0)
                },
                None => {
                    &&& final(self).position() == old(self).items().len()
                    &&& forall|i: int|
                        old(self).position() <= i < old(self).items().len() ==> !old(
                            self,
                        ).prefix().is_prefix_of(#[trigger] old(self).items()[i].0)
                },
            },
    ;
}

/// The contract of a key directory.
pub trait Indexer {
    /// The cursor that walks this directory.
    type Iter: IndexIterator;

    /// The directory as a map from key to position.
    spec fn view(&self) -> Map<Seq<u8>, LogRecodPos>;

    /// The invariant of the directory's representation.
    spec fn valid(&self) -> bool;

    /// Sets the position of `key`, and returns the one it had.
    fn put(&mut self, key: Vec<u8>, pos: LogRecodPos) -> (old_pos: Option<LogRecodPos>)
        requires
            old(self).valid(),
        ensures
            final(self).valid(),
            final(self).view() == old(self).view().insert(key@, pos),
            old_pos == (if old(self).view().contains_key(key@) {
                Some(old(self).view()[key@])
            } else {
                None
            }),
    ;

    /// The position of `key`.
    fn get(&self, key: &[u8]) -> (pos: Option<LogRecodPos>)
        requires
            self.valid(),
        ensures
            pos == (if self.view().contains_key(key@) {
                Some(self.view()[key@])
            } else {
                None
            }),
    ;

    /// Removes `key`, and returns the position it had.
    fn delete(&mut self, key: &[u8]) -> (old_pos: Option<LogRecodPos>)
        requires
            old(self).valid(),
        ensures
            final(self).valid(),
            final(self).view() == old(self).view().remove(key@),
            old_pos == (if old(self).view().contains_key(key@) {
                Some(old(self).view()[key@])
            } else {
                None
            }),
    ;

    /// The keys of the directory, ascending.
    fn list_keys(&self) -> (keys: Vec<Vec<u8>>)
        requires
            self.valid(),
        ensures
            lists(keyed(keys@, self.view()), self.view()),
    ;

    /// A cursor over a snapshot of the directory, before its first entry.
    fn iterator(&self, options: IteratorOptions) -> (it: Self::Iter)
        requires
            self.valid(),
        ensures
            it.valid(),
            it.position() == 0,
            it.prefix() == options.prefix@,
            it.reverse() == options.reverse,
            walk_of(it.items(), self.view(), options.reverse),
    ;
}

/// A key directory of one of the three kinds.
pub enum Index {
    BTree(BTree),
    SkipList(SkipList),
    BPlusTree(BPlusTree),
}

/// A cursor over a key directory of one of the three kinds.
pub enum IndexCursor {
    BTree(BTreeIterator),
    SkipList(SkipListIterator),
    BPlusTree(BPTreeIterator),
}

impl IndexIterator for IndexCursor {
    open spec fn items(&self) -> Seq<(Seq<u8>, LogRecodPos)> {
        match self {
            IndexCursor::BTree(it) => it.items(),
            IndexCursor::SkipList(it) => it.items(),
            IndexCursor::BPlusTree(it) => it.items(),
        }
    }

    open spec fn position(&self) -> nat {
        match self {
            IndexCursor::BTree(it) => it.position(),
            IndexCursor::SkipList(it) => it.position(),
            IndexCursor::BPlusTree(it) => it.position(),
        }
    }

    open spec fn prefix(&self) -> Seq<u8> {
        match self {
            IndexCursor::BTree(it) => it.prefix(),
            IndexCursor::SkipList(it) => it.prefix(),
            IndexCursor::BPlusTree(it) => it.prefix(),
        }
    }

    open spec fn reverse(&self) -> bool {
        match self {
            IndexCursor::BTree(it) => it.reverse(),
            IndexCursor::SkipList(it) => it.reverse(),
            IndexCursor::BPlusTree(it) => it.reverse(),
        }
    }

    open spec fn valid(&self) -> bool {
        match self {
            IndexCursor::BTree(it) => it.valid(),
            IndexCursor::SkipList(it) => it.valid(),
            IndexCursor::BPlusTree(it) => it.valid(),
        }
    }

    proof fn lemma_valid(&self) {
        match self {
            IndexCursor::BTree(it) => it.lemma_valid(),
            IndexCursor::SkipList(it) => it.lemma_valid(),
            IndexCursor::BPlusTree(it) => it.lemma_valid(),
        }
    }

    fn rewind(&mut self) {
        match self {
            IndexCursor::BTree(it) => it.rewind(),
            IndexCursor::SkipList(it) => it.rewind(),
            IndexCursor::BPlusTree(it) => it.rewind(),
        }
    }

    fn seek(&mut self, key: Vec<u8>) {
        match self {
            IndexCursor::BTree(it) => it.seek(key),
            IndexCursor::SkipList(it) => it.seek(key),
            IndexCursor::BPlusTree(it) => it.seek(key),
        }
    }

    fn next(&mut self) -> (res: Option<(&Vec<u8>, &LogRecodPos)>) {
        match self {
            IndexCursor::BTree(it) => it.next(),
            IndexCursor::SkipList(it) => it.next(),
            IndexCursor::BPlusTree(it) => it.next(),
        }
    }
}

impl Index {
    /// The kind of the directory.
    pub open spec fn index_type(&self) -> IndexType {
        match self {
            Index::BTree(_) => IndexType::BTree,
            Index::SkipList(_) => IndexType::SkipList,
            Index::BPlusTree(_) => IndexType::BPlusTree,
        }
    }
}

impl Indexer for Index {
    type Iter = IndexCursor;

    open spec fn view(&self) -> Map<Seq<u8>, LogRecodPos> {
        match self {
            Index::BTree(t) => t.view(),
            Index::SkipList(t) => t.view(),
            Index::BPlusTree(t) => t.view(),
        }
    }

    open spec fn valid(&self) -> bool {
        match self {
            Index::BTree(t) => t.valid(),
            Index::SkipList(t) => t.valid(),
            Index::BPlusTree(t) => t.valid(),
        }
    }

    fn put(&mut self, key: Vec<u8>, pos: LogRecodPos) -> (old_pos: Option<LogRecodPos>)
        ensures
            final(self).index_type() == old(self).index_type(),
    {
        match self {
            Index::BTree(t) => t.put(key, pos),
            Index::SkipList(t) => t.put(key, pos),
            Index::BPlusTree(t) => t.put(key, pos),
        }
    }

    fn get(&self, key: &[u8]) -> (pos: Option<LogRecodPos>) {
        match self {
            Index::BTree(t) => t.get(key),
            Index::SkipList(t) => t.get(key),
            Index::BPlusTree(t) => t.get(key),
        }
    }

    fn delete(&mut self, key: &[u8]) -> (old_pos: Option<LogRecodPos>)
        ensures
            final(self).index_type() == old(self).index_type(),
    {
        match self {
            Index::BTree(t) => t.delete(key),
            Index::SkipList(t) => t.delete(key),
            Index::BPlusTree(t) => t.delete(key),
        }
    }

    fn list_keys(&self) -> (keys: Vec<Vec<u8>>) {
        match self {
            Index::BTree(t) => t.list_keys(),
            Index::SkipList(t) => t.list_keys(),
            Index::BPlusTree(t) => t.list_keys(),
        }
    }

    fn iterator(&self, options: IteratorOptions) -> (it: IndexCursor) {
        match self {
            Index::BTree(t) => {
                let inner = t.iterator(options);
                let it = IndexCursor::BTree(inner);
                assert(it.valid() == inner.valid());
                assert(it.position() == inner.position());
                assert(it.items() == inner.items());
                it
            },
            Index::SkipList(t) => {
                let inner = t.iterator(options);
                let it = IndexCursor::SkipList(inner);
                assert(it.valid() == inner.valid());
                assert(it.position() == inner.position());
                assert(it.items() == inner.items());
                it
            },
            Index::BPlusTree(t) => {
                let inner = t.iterator(options);
                let it = IndexCursor::BPlusTree(inner);
                assert(it.valid() == inner.valid());
                assert(it.position() == inner.position());
                assert(it.items() == inner.items());
                it
            },
        }
    }
}

/// An empty key directory of the kind that `index_type` names.
pub fn new_indexer(index_type: IndexType) -> (index: Index)
    ensures
        index.valid(),
        index.view() == empty_directory(),
        index.index_type() == index_type,
{
    match index_type {
        IndexType::BTree => Index::BTree(BTree::new()),
        IndexType::SkipList => Index::SkipList(SkipList::new()),
        IndexType::BPlusTree => Index::BPlusTree(BPlusTree::new()),
    }
}

} // verus!
