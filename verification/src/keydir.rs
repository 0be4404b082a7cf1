//! The key directory: for each live key, where its value lies in the log.
//!
//! The directory keeps its entries in a vector in ascending key order, so
//! that a key is found by binary search and a scan walks the keys in order.

use crate::key::{compare_keys, key_lt, lemma_key_lt_asymmetric, lemma_key_lt_transitive, KeyOrder};
use vstd::prelude::*;

verus! {

/// An entry as contracts see it: a key, and where its value lies in the log
/// (the offset of its first byte, and its length).
pub type Item = (Seq<u8>, (u64, u32));

/// The keys of the items ascend strictly, so no key occurs twice.
pub open spec fn ascending(items: Seq<Item>) -> bool {
    forall|i: int, j: int|
        #![trigger items[i], items[j]]
        0 <= i < j < items.len() ==> key_lt(items[i].0, items[j].0)
}

/// One of the items has this key.
pub open spec fn holds(items: Seq<Item>, key: Seq<u8>) -> bool {
    exists|i: int| 0 <= i < items.len() && (#[trigger] items[i]).0 == key
}

/// The index of an item with this key, where there is one.
pub open spec fn index_of_key(items: Seq<Item>, key: Seq<u8>) -> int {
    choose|i: int| 0 <= i < items.len() && (#[trigger] items[i]).0 == key
}

/// The items as a map from key to location.
pub open spec fn items_map(items: Seq<Item>) -> Map<Seq<u8>, (u64, u32)> {
    Map::new(|k: Seq<u8>| holds(items, k), |k: Seq<u8>| items[index_of_key(items, k)].1)
}

/// The bytes of key and value that one item stands for.
pub open spec fn item_size(item: Item) -> int {
    item.0.len() + item.1.1
}

/// The bytes of key and value that the items stand for, all together.
pub open spec fn payload(items: Seq<Item>) -> int
    decreases items.len(),
{
    if items.len() == 0 {
        0
    } else {
        payload(items.drop_last()) + item_size(items.last())
    }
}

/// Every key before `idx` comes before `key`, and `key` comes before every key from `idx` on.
pub open spec fn splits_at(items: Seq<Item>, idx: int, key: Seq<u8>) -> bool {
    &&& 0 <= idx <= items.len()
    &&& forall|j: int| #![trigger items[j]] 0 <= j < idx ==> key_lt(items[j].0, key)
    &&& forall|j: int| #![trigger items[j]] idx <= j < items.len() ==> key_lt(key, items[j].0)
}

/// In ascending items each key has one place, and the map gives its location.
pub proof fn lemma_item_in_map(items: Seq<Item>, i: int)
    requires
        ascending(items),
        0 <= i < items.len(),
    ensures
        holds(items, items[i].0),
        index_of_key(items, items[i].0) == i,
        items_map(items).contains_pair(items[i].0, items[i].1),
{
    let j = index_of_key(items, items[i].0);
    if j < i {
        lemma_key_lt_asymmetric(items[j].0, items[i].0);
    } else if i < j {
        lemma_key_lt_asymmetric(items[i].0, items[j].0);
    }
}

/// A key that falls between two neighbours is not in the items.
pub proof fn lemma_absent(items: Seq<Item>, idx: int, key: Seq<u8>)
    requires
        splits_at(items, idx, key),
    ensures
        !holds(items, key),
{
    if holds(items, key) {
        let j = index_of_key(items, key);
        if j < idx {
            lemma_key_lt_asymmetric(items[j].0, key);
        } else {
            lemma_key_lt_asymmetric(key, items[j].0);
        }
    }
}

/// The sizes of the first items add up to no more than the sizes of all.
pub proof fn lemma_payload_prefix(items: Seq<Item>, n: int)
    requires
        0 <= n <= items.len(),
    ensures
        0 <= payload(items.take(n)) <= payload(items),
    decreases items.len(),
{
    if n == items.len() {
        assert(items.take(n) =~= items);
        if n > 0 {
            lemma_payload_prefix(items.drop_last(), n - 1);
        }
    } else {
        assert(items.drop_last().take(n) =~= items.take(n));
        lemma_payload_prefix(items.drop_last(), n);
    }
}

/// Taking one more item adds its size.
pub proof fn lemma_payload_step(items: Seq<Item>, n: int)
    requires
        0 <= n < items.len(),
    ensures
        payload(items.take(n + 1)) == payload(items.take(n)) + item_size(items[n]),
{
    assert(items.take(n + 1).drop_last() =~= items.take(n));
}

/// Putting an item in adds its size.
pub proof fn lemma_payload_insert(items: Seq<Item>, idx: int, item: Item)
    requires
        0 <= idx <= items.len(),
    ensures
        payload(items.insert(idx, item)) == payload(items) + item_size(item),
    decreases items.len(),
{
    let after = items.insert(idx, item);
    if idx == items.len() {
        assert(after.drop_last() =~= items);
    } else {
        assert(after.drop_last() =~= items.drop_last().insert(idx, item));
        lemma_payload_insert(items.drop_last(), idx, item);
    }
}

/// Taking an item out takes its size away.
pub proof fn lemma_payload_remove(items: Seq<Item>, idx: int)
    requires
        0 <= idx < items.len(),
    ensures
        payload(items.remove(idx)) == payload(items) - item_size(items[idx]),
    decreases items.len(),
{
    let after = items.remove(idx);
    if idx == items.len() - 1 {
        assert(after =~= items.drop_last());
    } else {
        assert(after.drop_last() =~= items.drop_last().remove(idx));
        lemma_payload_remove(items.drop_last(), idx);
    }
}

/// Putting a new key at its place keeps the order and binds the key in the map.
pub proof fn lemma_insert_item(items: Seq<Item>, idx: int, item: Item)
    requires
        ascending(items),
        splits_at(items, idx, item.0),
    ensures
        ascending(items.insert(idx, item)),
        items_map(items.insert(idx, item)) == items_map(items).insert(item.0, item.1),
{
    let after = items.insert(idx, item);
    assert forall|i: int, j: int|
        #![trigger after[i], after[j]]
        0 <= i < j < after.len() implies key_lt(after[i].0, after[j].0) by {
        if j < idx {
            assert(after[i] == items[i] && after[j] == items[j]);
        } else if j == idx {
            assert(after[i] == items[i]);
        } else if i < idx {
            assert(after[i] == items[i] && after[j] == items[j - 1]);
        } else if i == idx {
            assert(after[j] == items[j - 1]);
        } else {
            assert(after[i] == items[i - 1] && after[j] == items[j - 1]);
        }
    }
    let want = items_map(items).insert(item.0, item.1);
    assert forall|k: Seq<u8>| holds(after, k) <==> want.dom().contains(k) by {
        if holds(after, k) {
            let i = index_of_key(after, k);
            if i < idx {
                assert(items[i].0 == k);
            } else if i > idx {
                assert(items[i - 1].0 == k);
            }
        }
        if holds(items, k) {
            let i = index_of_key(items, k);
            if i < idx {
                assert(after[i].0 == k);
            } else {
                assert(after[i + 1].0 == k);
            }
        }
        if k == item.0 {
            assert(after[idx].0 == k);
        }
    }
    assert forall|k: Seq<u8>| holds(after, k) implies items_map(after)[k] == want[k] by {
        let i = index_of_key(after, k);
        lemma_item_in_map(after, i);
        if i < idx {
            lemma_item_in_map(items, i);
            lemma_key_lt_asymmetric(items[i].0, item.0);
        } else if i > idx {
            lemma_item_in_map(items, i - 1);
            lemma_key_lt_asymmetric(item.0, items[i - 1].0);
        }
    }
    assert(items_map(after) =~= want);
}

/// Giving a key that is there a new location binds the key anew in the map.
pub proof fn lemma_update_item(items: Seq<Item>, idx: int, loc: (u64, u32))
    requires
        ascending(items),
        0 <= idx < items.len(),
    ensures
        ascending(items.update(idx, (items[idx].0, loc))),
        items_map(items.update(idx, (items[idx].0, loc))) == items_map(items).insert(
            items[idx].0,
            loc,
        ),
        payload(items.update(idx, (items[idx].0, loc))) == payload(items) - items[idx].1.1 + loc.1,
{
    let key = items[idx].0;
    let after = items.update(idx, (key, loc));
    assert forall|i: int, j: int|
        #![trigger after[i], after[j]]
        0 <= i < j < after.len() implies key_lt(after[i].0, after[j].0) by {
        assert(after[i].0 == items[i].0 && after[j].0 == items[j].0);
    }
    let want = items_map(items).insert(key, loc);
    assert forall|k: Seq<u8>| holds(after, k) <==> want.dom().contains(k) by {
        if holds(after, k) {
            let i = index_of_key(after, k);
            assert(items[i].0 == k);
        }
        if holds(items, k) {
            let i = index_of_key(items, k);
            assert(after[i].0 == k);
        }
        if k == key {
            assert(after[idx].0 == k);
        }
    }
    assert forall|k: Seq<u8>| holds(after, k) implies items_map(after)[k] == want[k] by {
        let i = index_of_key(after, k);
        lemma_item_in_map(after, i);
        lemma_item_in_map(items, i);
    }
    assert(items_map(after) =~= want);
    assert(after =~= items.remove(idx).insert(idx, (key, loc)));
    lemma_payload_remove(items, idx);
    lemma_payload_insert(items.remove(idx), idx, (key, loc));
}

/// Taking a key out keeps the order and frees the key in the map.
pub proof fn lemma_remove_item(items: Seq<Item>, idx: int)
    requires
        ascending(items),
        0 <= idx < items.len(),
    ensures
        ascending(items.remove(idx)),
        items_map(items.remove(idx)) == items_map(items).remove(items[idx].0),
{
    let key = items[idx].0;
    let after = items.remove(idx);
    assert forall|i: int, j: int|
        #![trigger after[i], after[j]]
        0 <= i < j < after.len() implies key_lt(after[i].0, after[j].0) by {
        if j < idx {
            assert(after[i] == items[i] && after[j] == items[j]);
        } else if i < idx {
            assert(after[i] == items[i] && after[j] == items[j + 1]);
        } else {
            assert(after[i] == items[i + 1] && after[j] == items[j + 1]);
        }
    }
    let want = items_map(items).remove(key);
    assert forall|k: Seq<u8>| holds(after, k) <==> want.dom().contains(k) by {
        if holds(after, k) {
            let i = index_of_key(after, k);
            if i < idx {
                assert(items[i].0 == k);
                lemma_key_lt_asymmetric(items[i].0, key);
            } else {
                assert(items[i + 1].0 == k);
                lemma_key_lt_asymmetric(key, items[i + 1].0);
            }
        }
        if holds(items, k) && k != key {
            let i = index_of_key(items, k);
            if i < idx {
                assert(after[i].0 == k);
            } else {
                assert(after[i - 1].0 == k);
            }
        }
    }
    assert forall|k: Seq<u8>| holds(after, k) implies items_map(after)[k] == want[k] by {
        let i = index_of_key(after, k);
        lemma_item_in_map(after, i);
        if i < idx {
            lemma_item_in_map(items, i);
        } else {
            lemma_item_in_map(items, i + 1);
        }
    }
    assert(items_map(after) =~= want);
}

/// One entry of the directory.
struct Entry {
    key: Vec<u8>,
    pos: u64,
    len: u32,
}

impl Entry {
    /// The entry as contracts see it.
    spec fn item(self) -> Item {
        (self.key@, (self.pos, self.len))
    }
}

/// The key directory.
pub struct KeyDir {
    entries: Vec<Entry>,
}

impl View for KeyDir {
    type V = Map<Seq<u8>, (u64, u32)>;

    /// The directory as a map from key to location.
    open spec fn view(&self) -> Map<Seq<u8>, (u64, u32)> {
        items_map(self.items())
    }
}

impl KeyDir {
    /// The entries in ascending key order.
    pub closed spec fn items(&self) -> Seq<Item> {
        self.entries@.map_values(|e: Entry| e.item())
    }

    /// The directory is in order: its keys ascend strictly.
    #[verifier::type_invariant]
    pub open spec fn wf(&self) -> bool {
        ascending(self.items())
    }

    /// An empty directory.
    pub fn new() -> (dir: KeyDir)
        ensures
            dir.items() == Seq::<Item>::empty(),
            dir@ == Map::<Seq<u8>, (u64, u32)>::empty(),
    {
        let dir = KeyDir { entries: Vec::new() };
        assert(dir.items() =~= Seq::<Item>::empty());
        assert(dir@ =~= Map::<Seq<u8>, (u64, u32)>::empty());
        dir
    }

    /// The number of keys.
    pub fn len(&self) -> (n: usize)
        ensures
            n == self.items().len(),
    {
        self.entries.len()
    }

    /// The key of the entry at place `i` in key order.
    pub fn key_at(&self, i: usize) -> (key: &Vec<u8>)
        requires
            i < self.items().len(),
        ensures
            key@ == self.items()[i as int].0,
    {
        &self.entries[i].key
    }

    /// The location of the entry at place `i` in key order.
    pub fn location_at(&self, i: usize) -> (loc: (u64, u32))
        requires
            i < self.items().len(),
        ensures
            loc == self.items()[i as int].1,
    {
        (self.entries[i].pos, self.entries[i].len)
    }

    /// Looks for `key` by binary search: gives its place and `true`, or the
    /// place where it would go and `false`.
    pub fn search(&self, key: &[u8]) -> (found: (usize, bool))
        ensures
            found.0 <= self.items().len() <= usize::MAX,
            found.1 ==> found.0 < self.items().len() && self.items()[found.0 as int].0 == key@,
            !found.1 ==> splits_at(self.items(), found.0 as int, key@),
            found.1 == self@.dom().contains(key@),
    {
        proof {
            use_type_invariant(self);
        }
        let ghost items = self.items();
        let mut lo: usize = 0;
        let mut hi: usize = self.entries.len();
        while lo < hi
            invariant
                items == self.items(),
                ascending(items),
                lo <= hi <= items.len() <= usize::MAX,
                forall|j: int| #![trigger items[j]] 0 <= j < lo ==> key_lt(items[j].0, key@),
                forall|j: int|
                    #![trigger items[j]]
                    hi <= j < items.len() ==> key_lt(key@, items[j].0),
            decreases hi - lo,
        {
            let mid: usize = lo + (hi - lo) / 2;
            let order = compare_keys(self.entries[mid].key.as_slice(), key);
            assert(items[mid as int].0 == self.entries[mid as int].key@);
            match order {
                KeyOrder::Before => {
                    proof {
                        assert forall|j: int| #![trigger items[j]] 0 <= j < mid + 1 implies key_lt(
                            items[j].0,
                            key@,
                        ) by {
                            if j < mid {
                                lemma_key_lt_transitive(items[j].0, items[mid as int].0, key@);
                            }
                        }
                    }
                    lo = mid + 1;
                },
                KeyOrder::Same => {
                    proof {
                        lemma_item_in_map(items, mid as int);
                    }
                    return (mid, true);
                },
                KeyOrder::After => {
                    proof {
                        assert forall|j: int|
                            #![trigger items[j]]
                            mid <= j < items.len() implies key_lt(key@, items[j].0) by {
                            if mid < j {
                                lemma_key_lt_transitive(key@, items[mid as int].0, items[j].0);
                            }
                        }
                    }
                    hi = mid;
                },
            }
        }
        proof {
            lemma_absent(items, lo as int, key@);
        }
        (lo, false)
    }

    /// The location of the value of `key`, if the key is live.
    pub fn get(&self, key: &[u8]) -> (loc: Option<(u64, u32)>)
        ensures
            loc == self@.get(key@),
    {
        let (idx, found) = self.search(key);
        if found {
            proof {
                use_type_invariant(self);
                lemma_item_in_map(self.items(), idx as int);
            }
            Some((self.entries[idx].pos, self.entries[idx].len))
        } else {
            None
        }
    }

    /// Binds `key` to `loc`, and gives the location it was bound to before.
    pub fn insert(&mut self, key: Vec<u8>, loc: (u64, u32)) -> (before: Option<(u64, u32)>)
        ensures
            final(self)@ == old(self)@.insert(key@, loc),
            before == old(self)@.get(key@),
            final(self).items().len() == old(self).items().len() + (if before is None {
                1int
            } else {
                0int
            }),
            payload(final(self).items()) == payload(old(self).items()) + key@.len() + loc.1 - (
            match before {
                Some(b) => key@.len() + b.1,
                None => 0,
            }),
    {
        proof {
            use_type_invariant(&*self);
        }
        let ghost items = self.items();
        let (idx, found) = self.search(key.as_slice());
        let entry = Entry { key, pos: loc.0, len: loc.1 };
        let mut entries: Vec<Entry> = Vec::new();
        std::mem::swap(&mut entries, &mut self.entries);
        assert(entries@.map_values(|e: Entry| e.item()) =~= items);
        if found {
            let before = (entries[idx].pos, entries[idx].len);
            proof {
                lemma_item_in_map(items, idx as int);
                lemma_update_item(items, idx as int, loc);
            }
            entries.set(idx, entry);
            assert(entries@.map_values(|e: Entry| e.item()) =~= items.update(
                idx as int,
                (items[idx as int].0, loc),
            ));
            self.entries = entries;
            Some(before)
        } else {
            proof {
                lemma_insert_item(items, idx as int, entry.item());
                lemma_payload_insert(items, idx as int, entry.item());
            }
            entries.insert(idx, entry);
            assert(entries@.map_values(|e: Entry| e.item()) =~= items.insert(
                idx as int,
                entry.item(),
            ));
            self.entries = entries;
            None
        }
    }

    /// Frees `key`, and gives the location it was bound to.
    pub fn remove(&mut self, key: &[u8]) -> (before: Option<(u64, u32)>)
        ensures
            final(self)@ == old(self)@.remove(key@),
            before == old(self)@.get(key@),
            final(self).items().len() == old(self).items().len() - (if before is None {
                0int
            } else {
                1int
            }),
            payload(final(self).items()) == payload(old(self).items()) - (match before {
                Some(b) => key@.len() + b.1,
                None => 0,
            }),
    {
        proof {
            use_type_invariant(&*self);
        }
        let ghost items = self.items();
        let (idx, found) = self.search(key);
        if found {
            proof {
                lemma_item_in_map(items, idx as int);
                lemma_remove_item(items, idx as int);
                lemma_payload_remove(items, idx as int);
            }
            let mut entries: Vec<Entry> = Vec::new();
            std::mem::swap(&mut entries, &mut self.entries);
            let entry = entries.remove(idx);
            assert(entries@.map_values(|e: Entry| e.item()) =~= items.remove(idx as int));
            self.entries = entries;
            Some((entry.pos, entry.len))
        } else {
            assert(self@ =~= old(self)@.remove(key@));
            None
        }
    }

    /// The bytes of key and value that the entries stand for, all together.
    pub fn payload_size(&self) -> (size: u64)
        requires
            payload(self.items()) <= u64::MAX,
        ensures
            size == payload(self.items()),
    {
        let ghost items = self.items();
        let mut size: u64 = 0;
        let mut i: usize = 0;
        while i < self.entries.len()
            invariant
                items == self.items(),
                i <= items.len(),
                size == payload(items.take(i as int)),
                payload(items) <= u64::MAX,
            decreases items.len() - i,
        {
            proof {
                lemma_payload_step(items, i as int);
                lemma_payload_prefix(items, i + 1);
            }
            size = size + self.entries[i].key.len() as u64 + self.entries[i].len as u64;
            i += 1;
        }
        assert(items.take(i as int) =~= items);
        size
    }
}

} // verus!
