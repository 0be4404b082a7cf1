//! Scans: the live pairs of a range of keys, in ascending key order.

use crate::error::Error;
use crate::frame::State;
use crate::key::{
    key_le, key_lt, lemma_key_lt_asymmetric, lemma_key_lt_irreflexive, lemma_key_lt_transitive,
};
use crate::keydir::{
    ascending, holds, index_of_key, items_map, lemma_item_in_map, Item, KeyDir,
};
use crate::log::{locates, Log};
use core::ops::Bound;
use vstd::prelude::*;
use vstd::slice::slice_to_vec;

verus! {

/// `core::ops::Bound`, an end of a range: at a value, next to it, or none.
#[verifier::external_type_specification]
#[verifier::reject_recursive_types(T)]
pub struct ExBound<T>(Bound<T>);

/// A key and its value.
pub type Pair = (Seq<u8>, Seq<u8>);

/// The two ends of a range of keys.
pub type KeyRange = (Bound<Vec<u8>>, Bound<Vec<u8>>);

/// `key` is not before the range's lower end.
pub open spec fn above(lower: Bound<Vec<u8>>, key: Seq<u8>) -> bool {
    match lower {
        Bound::Included(l) => key_le(l@, key),
        Bound::Excluded(l) => key_lt(l@, key),
        Bound::Unbounded => true,
    }
}

/// `key` is not after the range's upper end.
pub open spec fn below(upper: Bound<Vec<u8>>, key: Seq<u8>) -> bool {
    match upper {
        Bound::Included(u) => key_le(key, u@),
        Bound::Excluded(u) => key_lt(key, u@),
        Bound::Unbounded => true,
    }
}

/// `key` lies in the range.
pub open spec fn in_range(range: KeyRange, key: Seq<u8>) -> bool {
    above(range.0, key) && below(range.1, key)
}

/// The range of all keys.
pub open spec fn all_keys() -> KeyRange {
    (Bound::Unbounded, Bound::Unbounded)
}

/// The pairs are the state's pairs with a key in the range, each once, in
/// strictly ascending key order.
pub open spec fn lists(pairs: Seq<Pair>, state: State, range: KeyRange) -> bool {
    &&& forall|i: int, j: int|
        #![trigger pairs[i], pairs[j]]
        0 <= i < j < pairs.len() ==> key_lt(pairs[i].0, pairs[j].0)
    &&& forall|i: int|
        #![trigger pairs[i]]
        0 <= i < pairs.len() ==> state.contains_pair(pairs[i].0, pairs[i].1) && in_range(
            range,
            pairs[i].0,
        )
    &&& forall|k: Seq<u8>| #[trigger]
        state.dom().contains(k) && in_range(range, k) ==> exists|i: int|
            0 <= i < pairs.len() && (#[trigger] pairs[i]).0 == k
}

/// Two listings of one range of one state agree on their first `n` pairs.
proof fn lemma_lists_agree(p: Seq<Pair>, q: Seq<Pair>, state: State, range: KeyRange, n: int)
    requires
        lists(p, state, range),
        lists(q, state, range),
        0 <= n <= p.len(),
        n <= q.len(),
    ensures
        p.take(n) == q.take(n),
    decreases n,
{
    if n > 0 {
        let i = n - 1;
        lemma_lists_agree(p, q, state, range, i);
        assert forall|j: int| 0 <= j < i implies p[j] == q[j] by {
            assert(p.take(i)[j] == q.take(i)[j]);
        }
        let kp = p[i].0;
        let kq = q[i].0;
        assert(state.dom().contains(kp) && in_range(range, kp));
        assert(state.dom().contains(kq) && in_range(range, kq));
        let iq = choose|x: int| 0 <= x < q.len() && (#[trigger] q[x]).0 == kp;
        let ip = choose|x: int| 0 <= x < p.len() && (#[trigger] p[x]).0 == kq;
        if iq < i {
            assert(p[iq] == q[iq]);
            lemma_key_lt_asymmetric(p[iq].0, p[i].0);
        }
        if ip < i {
            assert(p[ip] == q[ip]);
            lemma_key_lt_asymmetric(q[ip].0, q[i].0);
        }
        if iq > i {
            assert(key_lt(q[i].0, q[iq].0));
            if ip > i {
                assert(key_lt(p[i].0, p[ip].0));
                lemma_key_lt_asymmetric(kq, kp);
            } else {
                lemma_key_lt_irreflexive(kp);
            }
        }
        assert(p[i] == q[i]);
        assert(p.take(n) =~= q.take(n));
    } else {
        assert(p.take(n) =~= q.take(n));
    }
}

/// A state has one listing for a range: two scans of the same range over
/// the same state give the same pairs.
pub proof fn lemma_lists_unique(p: Seq<Pair>, q: Seq<Pair>, state: State, range: KeyRange)
    requires
        lists(p, state, range),
        lists(q, state, range),
    ensures
        p == q,
{
    if p.len() >= q.len() {
        lemma_lists_agree(p, q, state, range, q.len() as int);
        lemma_lists_same_len(p, q, state, range);
    } else {
        lemma_lists_agree(q, p, state, range, p.len() as int);
        lemma_lists_same_len(q, p, state, range);
    }
    assert(p.take(p.len() as int) =~= p);
    assert(q.take(q.len() as int) =~= q);
}

/// A listing that starts with another listing of the same range ends where that one ends.
proof fn lemma_lists_same_len(p: Seq<Pair>, q: Seq<Pair>, state: State, range: KeyRange)
    requires
        lists(p, state, range),
        lists(q, state, range),
        p.len() >= q.len(),
        p.take(q.len() as int) == q.take(q.len() as int),
    ensures
        p.len() == q.len(),
{
    if p.len() > q.len() {
        let n = q.len() as int;
        let k = p[n].0;
        assert(state.dom().contains(k) && in_range(range, k));
        let i = choose|x: int| 0 <= x < q.len() && (#[trigger] q[x]).0 == k;
        assert(p.take(n)[i] == q.take(n)[i]);
        assert(key_lt(p[i].0, p[n].0));
        lemma_key_lt_irreflexive(k);
    }
}

/// A listing of all keys has one pair for each key of the state.
pub proof fn lemma_lists_count(pairs: Seq<Pair>, state: State)
    requires
        lists(pairs, state, all_keys()),
    ensures
        state.dom().finite(),
        state.dom().len() == pairs.len(),
{
    let keys = pairs.map_values(|p: Pair| p.0);
    assert forall|i: int, j: int| 0 <= i < keys.len() && 0 <= j < keys.len() && i != j implies keys[i]
        != keys[j] by {
        if i < j {
            lemma_key_lt_asymmetric(pairs[i].0, pairs[j].0);
        } else {
            lemma_key_lt_asymmetric(pairs[j].0, pairs[i].0);
        }
    }
    assert forall|k: Seq<u8>| keys.to_set().contains(k) <==> state.dom().contains(k) by {
        if keys.to_set().contains(k) {
            let i = choose|i: int| 0 <= i < keys.len() && keys[i] == k;
            assert(state.contains_pair(pairs[i].0, pairs[i].1));
        }
        if state.dom().contains(k) {
            assert(in_range(all_keys(), k));
            let i = choose|i: int| 0 <= i < pairs.len() && (#[trigger] pairs[i]).0 == k;
            assert(keys[i] == k);
        }
    }
    assert(keys.to_set() =~= state.dom());
    keys.unique_seq_to_set();
    vstd::seq_lib::seq_to_set_is_finite(keys);
}

/// The pairs that a directory's entries stand for in a log, entry by entry.
pub open spec fn pairs_of(items: Seq<Item>, log: Seq<u8>) -> Seq<Pair> {
    items.map_values(|it: Item| (it.0, log.subrange(it.1.0 as int, it.1.0 + it.1.1)))
}

/// From `front` on, and not before, the keys are not before the range's lower end.
pub open spec fn lower_cut(items: Seq<Item>, lower: Bound<Vec<u8>>, front: int) -> bool {
    &&& 0 <= front <= items.len()
    &&& forall|j: int| #![trigger items[j]] 0 <= j < front ==> !above(lower, items[j].0)
    &&& forall|j: int| #![trigger items[j]] front <= j < items.len() ==> above(lower, items[j].0)
}

/// Before `back`, and not from it on, the keys are not after the range's upper end.
pub open spec fn upper_cut(items: Seq<Item>, upper: Bound<Vec<u8>>, back: int) -> bool {
    &&& 0 <= back <= items.len()
    &&& forall|j: int| #![trigger items[j]] 0 <= j < back ==> below(upper, items[j].0)
    &&& forall|j: int| #![trigger items[j]] back <= j < items.len() ==> !below(upper, items[j].0)
}

/// The entries between the two cuts stand for the listing of the range.
pub proof fn lemma_cut_lists(
    items: Seq<Item>,
    log: Seq<u8>,
    state: State,
    range: KeyRange,
    front: int,
    back: int,
)
    requires
        ascending(items),
        locates(items_map(items), log, state),
        lower_cut(items, range.0, front),
        upper_cut(items, range.1, back),
    ensures
        lists(
            pairs_of(items, log).subrange(front, if front <= back { back } else { front }),
            state,
            range,
        ),
{
    let end = if front <= back { back } else { front };
    let pairs = pairs_of(items, log).subrange(front, end);
    assert forall|i: int|
        #![trigger pairs[i]]
        0 <= i < pairs.len() implies state.contains_pair(pairs[i].0, pairs[i].1) && in_range(
        range,
        pairs[i].0,
    ) by {
        lemma_item_in_map(items, front + i);
        assert(pairs[i].0 == items[front + i].0);
        assert(items_map(items).dom().contains(pairs[i].0));
    }
    assert forall|k: Seq<u8>| #[trigger]
        state.dom().contains(k) && in_range(range, k) implies exists|i: int|
        0 <= i < pairs.len() && (#[trigger] pairs[i]).0 == k by {
        assert(items_map(items).dom().contains(k));
        assert(holds(items, k));
        let j = index_of_key(items, k);
        assert(items[j].0 == k);
        assert(front <= j < back);
        assert(pairs[j - front].0 == k);
    }
    assert forall|i: int, j: int|
        #![trigger pairs[i], pairs[j]]
        0 <= i < j < pairs.len() implies key_lt(pairs[i].0, pairs[j].0) by {
        assert(key_lt(items[front + i].0, items[front + j].0));
    }
}

/// The place of the first key that is not before the range's lower end.
pub fn scan_start(dir: &KeyDir, lower: &Bound<Vec<u8>>) -> (front: usize)
    ensures
        lower_cut(dir.items(), *lower, front as int),
{
    proof {
        use_type_invariant(dir);
    }
    let ghost items = dir.items();
    match lower {
        Bound::Included(l) => {
            let (idx, found) = dir.search(l.as_slice());
            proof {
                assert forall|j: int| #![trigger items[j]] 0 <= j < idx implies !key_le(
                    l@,
                    items[j].0,
                ) by {
                    if found {
                        assert(key_lt(items[j].0, items[idx as int].0));
                    }
                    lemma_key_lt_asymmetric(items[j].0, l@);
                }
                assert forall|j: int| #![trigger items[j]] idx <= j < items.len() implies key_le(
                    l@,
                    items[j].0,
                ) by {
                    if found && idx < j {
                        assert(key_lt(items[idx as int].0, items[j].0));
                    }
                }
            }
            idx
        },
        Bound::Excluded(l) => {
            let (idx, found) = dir.search(l.as_slice());
            let front: usize = if found { idx + 1 } else { idx };
            proof {
                assert forall|j: int| #![trigger items[j]] 0 <= j < front implies !key_lt(
                    l@,
                    items[j].0,
                ) by {
                    if found {
                        if j < idx {
                            assert(key_lt(items[j].0, items[idx as int].0));
                            lemma_key_lt_asymmetric(items[j].0, l@);
                        } else {
                            lemma_key_lt_irreflexive(l@);
                        }
                    } else {
                        lemma_key_lt_asymmetric(items[j].0, l@);
                    }
                }
                assert forall|j: int| #![trigger items[j]] front <= j < items.len() implies key_lt(
                    l@,
                    items[j].0,
                ) by {
                    if found {
                        assert(key_lt(items[idx as int].0, items[j].0));
                    }
                }
            }
            front
        },
        Bound::Unbounded => 0,
    }
}

/// The place of the first key that is after the range's upper end.
pub fn scan_end(dir: &KeyDir, upper: &Bound<Vec<u8>>) -> (back: usize)
    ensures
        upper_cut(dir.items(), *upper, back as int),
{
    proof {
        use_type_invariant(dir);
    }
    let ghost items = dir.items();
    match upper {
        Bound::Included(u) => {
            let (idx, found) = dir.search(u.as_slice());
            let back: usize = if found { idx + 1 } else { idx };
            proof {
                assert forall|j: int| #![trigger items[j]] 0 <= j < back implies key_le(
                    items[j].0,
                    u@,
                ) by {
                    if found && j < idx {
                        assert(key_lt(items[j].0, items[idx as int].0));
                    }
                }
                assert forall|j: int| #![trigger items[j]] back <= j < items.len() implies !key_le(
                    items[j].0,
                    u@,
                ) by {
                    if found {
                        assert(key_lt(items[idx as int].0, items[j].0));
                    }
                    lemma_key_lt_asymmetric(u@, items[j].0);
                }
            }
            back
        },
        Bound::Excluded(u) => {
            let (idx, found) = dir.search(u.as_slice());
            proof {
                assert forall|j: int| #![trigger items[j]] 0 <= j < idx implies key_lt(
                    items[j].0,
                    u@,
                ) by {
                    if found {
                        assert(key_lt(items[j].0, items[idx as int].0));
                    }
                }
                assert forall|j: int| #![trigger items[j]] idx <= j < items.len() implies !key_lt(
                    items[j].0,
                    u@,
                ) by {
                    if found {
                        if idx < j {
                            assert(key_lt(items[idx as int].0, items[j].0));
                            lemma_key_lt_asymmetric(u@, items[j].0);
                        } else {
                            lemma_key_lt_irreflexive(u@);
                        }
                    } else {
                        lemma_key_lt_asymmetric(u@, items[j].0);
                    }
                }
            }
            idx
        },
        Bound::Unbounded => dir.len(),
    }
}

/// The pairs of a vector of keys and values.
pub open spec fn pairs_view(pairs: Seq<(Vec<u8>, Vec<u8>)>) -> Seq<Pair> {
    pairs.map_values(|p: (Vec<u8>, Vec<u8>)| (p.0@, p.1@))
}

/// A scan in progress: the pairs of a range that are still to come.
///
/// Pairs can be taken from the front and from the back. The key comes from
/// the directory; the value is read from the log when the pair is taken.
pub struct ScanIterator<'a> {
    log: &'a Log,
    keydir: &'a KeyDir,
    front: usize,
    back: usize,
}

impl<'a> ScanIterator<'a> {
    /// Every pair that is still to come can be read from the log.
    #[verifier::type_invariant]
    spec fn wf(&self) -> bool {
        &&& self.front <= self.back <= self.keydir.items().len()
        &&& forall|i: int|
            #![trigger self.keydir.items()[i]]
            self.front <= i < self.back ==> self.keydir.items()[i].1.0 + self.keydir.items()[i].1.1
                <= self.log@.len()
    }

    /// The pairs that are still to come, in ascending key order.
    pub closed spec fn remaining(&self) -> Seq<Pair> {
        pairs_of(self.keydir.items(), self.log@).subrange(self.front as int, self.back as int)
    }

    /// A scan over the entries from `front` up to `back`.
    pub(crate) fn new(log: &'a Log, keydir: &'a KeyDir, front: usize, back: usize) -> (it: Self)
        requires
            front <= back <= keydir.items().len(),
            forall|i: int|
                #![trigger keydir.items()[i]]
                front <= i < back ==> keydir.items()[i].1.0 + keydir.items()[i].1.1 <= log@.len(),
        ensures
            it.remaining() == pairs_of(keydir.items(), log@).subrange(front as int, back as int),
    {
        ScanIterator { log, keydir, front, back }
    }

    /// The pair of the entry at place `i`: its key, and its value as the log has it.
    fn map(&self, i: usize) -> (pair: Result<(Vec<u8>, Vec<u8>), Error>)
        requires
            self.front <= i < self.back,
        ensures
            pair matches Ok(p) && (p.0@, p.1@) == pairs_of(self.keydir.items(), self.log@)[i as int],
    {
        proof {
            use_type_invariant(self);
        }
        let key = slice_to_vec(self.keydir.key_at(i).as_slice());
        let loc = self.keydir.location_at(i);
        assert(loc == self.keydir.items()[i as int].1);
        match self.log.read_entry(loc.0, loc.1) {
            Ok(value) => {
                assert(value@ =~= self.log@.subrange(loc.0 as int, loc.0 + loc.1));
                Ok((key, value))
            },
            Err(e) => Err(e),
        }
    }

    /// Takes the pair with the smallest key that is still to come.
    pub fn next(&mut self) -> (pair: Option<Result<(Vec<u8>, Vec<u8>), Error>>)
        ensures
            match pair {
                Some(Ok(p)) => old(self).remaining().len() > 0 && (p.0@, p.1@) == old(
                    self,
                ).remaining().first() && final(self).remaining() == old(
                    self,
                ).remaining().drop_first(),
                Some(Err(_)) => false,
                None => old(self).remaining().len() == 0 && final(self).remaining() == old(
                    self,
                ).remaining(),
            },
    {
        proof {
            use_type_invariant(&*self);
        }
        if self.front < self.back {
            let pair = self.map(self.front);
            self.front = self.front + 1;
            assert(self.remaining() =~= old(self).remaining().drop_first());
            Some(pair)
        } else {
            None
        }
    }

    /// Takes the pair with the greatest key that is still to come.
    pub fn next_back(&mut self) -> (pair: Option<Result<(Vec<u8>, Vec<u8>), Error>>)
        ensures
            match pair {
                Some(Ok(p)) => old(self).remaining().len() > 0 && (p.0@, p.1@) == old(
                    self,
                ).remaining().last() && final(self).remaining() == old(
                    self,
                ).remaining().drop_last(),
                Some(Err(_)) => false,
                None => old(self).remaining().len() == 0 && final(self).remaining() == old(
                    self,
                ).remaining(),
            },
    {
        proof {
            use_type_invariant(&*self);
        }
        if self.front < self.back {
            let pair = self.map(self.back - 1);
            self.back = self.back - 1;
            assert(self.remaining() =~= old(self).remaining().drop_last());
            Some(pair)
        } else {
            None
        }
    }

    /// Takes all the pairs that are still to come, in ascending key order.
    pub fn collect(self) -> (pairs: Result<Vec<(Vec<u8>, Vec<u8>)>, Error>)
        ensures
            pairs matches Ok(v) && pairs_view(v@) == self.remaining(),
    {
        let mut it = self;
        let mut out: Vec<(Vec<u8>, Vec<u8>)> = Vec::new();
        let ghost all = it.remaining();
        loop
            invariant
                all == pairs_view(out@) + it.remaining(),
            ensures
                all == pairs_view(out@),
            decreases it.remaining().len(),
        {
            match it.next() {
                Some(Ok(p)) => {
                    let ghost before = out@;
                    out.push(p);
                    assert(pairs_view(out@) =~= pairs_view(before).push((p.0@, p.1@)));
                    assert(all =~= pairs_view(out@) + it.remaining());
                },
                Some(Err(e)) => {
                    return Err(e);
                },
                None => {
                    assert(all =~= pairs_view(out@));
                    break ;
                },
            }
        }
        Ok(out)
    }
}

} // verus!
