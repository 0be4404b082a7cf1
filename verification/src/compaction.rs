//! Compaction: the log that holds the live pairs and nothing else.

use crate::frame::{is_clean, live_state, Record, State};
use crate::key::lemma_key_lt_asymmetric;
use crate::recovery::{lemma_append_record, lemma_empty_log, state_fits};
use crate::scan::{all_keys, in_range, lists, Pair};
use vstd::prelude::*;

verus! {

/// The bytes of the keys and values of the pairs, all together.
pub open spec fn pairs_size(pairs: Seq<Pair>) -> int
    decreases pairs.len(),
{
    if pairs.len() == 0 {
        0
    } else {
        pairs_size(pairs.drop_last()) + pairs.last().0.len() + pairs.last().1.len()
    }
}

/// The log that holds one put for each pair, in the order of the pairs, and nothing else.
pub open spec fn compacted(pairs: Seq<Pair>) -> Seq<u8>
    decreases pairs.len(),
{
    if pairs.len() == 0 {
        Seq::empty()
    } else {
        compacted(pairs.drop_last()) + (Record {
            key: pairs.last().0,
            value: Some(pairs.last().1),
        }).frame()
    }
}

/// A compacted log is as long as its keys and values, and one header for each pair.
pub proof fn lemma_compacted_len(pairs: Seq<Pair>)
    ensures
        compacted(pairs).len() == pairs_size(pairs) + 8 * pairs.len(),
    decreases pairs.len(),
{
    if pairs.len() > 0 {
        lemma_compacted_len(pairs.drop_last());
    }
}

/// One of the first `n` pairs has this key.
spec fn among(pairs: Seq<Pair>, n: int, key: Seq<u8>) -> bool {
    exists|j: int| 0 <= j < n && j < pairs.len() && (#[trigger] pairs[j]).0 == key
}

/// The log of the first `n` pairs of a listing holds just those pairs.
proof fn lemma_compacted_prefix(pairs: Seq<Pair>, state: State, n: int)
    requires
        lists(pairs, state, all_keys()),
        state_fits(state),
        0 <= n <= pairs.len(),
    ensures
        is_clean(compacted(pairs.take(n))),
        forall|k: Seq<u8>| #[trigger]
            live_state(compacted(pairs.take(n))).dom().contains(k) <==> among(pairs, n, k),
        forall|j: int|
            #![trigger pairs[j]]
            0 <= j < n ==> live_state(compacted(pairs.take(n)))[pairs[j].0] == pairs[j].1,
    decreases n,
{
    if n == 0 {
        lemma_empty_log();
        assert(compacted(pairs.take(0)) =~= Seq::<u8>::empty());
    } else {
        let i = n - 1;
        lemma_compacted_prefix(pairs, state, i);
        let before = compacted(pairs.take(i));
        let r = Record { key: pairs[i].0, value: Some(pairs[i].1) };
        assert(pairs.take(n).drop_last() =~= pairs.take(i));
        assert(pairs.take(n).last() == pairs[i]);
        assert(state.contains_pair(pairs[i].0, pairs[i].1));
        lemma_append_record(before, r);
        let after = live_state(compacted(pairs.take(n)));
        assert forall|k: Seq<u8>| #[trigger] after.dom().contains(k) <==> among(pairs, n, k) by {
            if among(pairs, n, k) {
                let j = choose|j: int| 0 <= j < n && j < pairs.len() && (#[trigger] pairs[j]).0 == k;
                if j < i {
                    assert(among(pairs, i, k));
                }
            }
            if live_state(before).dom().contains(k) {
                assert(among(pairs, i, k));
                let j = choose|j: int| 0 <= j < i && j < pairs.len() && (#[trigger] pairs[j]).0 == k;
                assert(pairs[j].0 == k);
            }
            if k == pairs[i].0 {
                assert(among(pairs, n, k));
            }
        }
        assert forall|j: int| #![trigger pairs[j]] 0 <= j < n implies after[pairs[j].0]
            == pairs[j].1 by {
            if j < i {
                lemma_key_lt_asymmetric(pairs[j].0, pairs[i].0);
            }
        }
    }
}

/// Compaction keeps what the store holds: the log that holds one put for
/// each live pair is whole, and reading it back gives the same state.
pub proof fn lemma_compaction_keeps_state(pairs: Seq<Pair>, state: State)
    requires
        lists(pairs, state, all_keys()),
        state_fits(state),
    ensures
        is_clean(compacted(pairs)),
        live_state(compacted(pairs)) == state,
{
    let n = pairs.len() as int;
    lemma_compacted_prefix(pairs, state, n);
    assert(pairs.take(n) =~= pairs);
    let after = live_state(compacted(pairs));
    assert forall|k: Seq<u8>| after.dom().contains(k) <==> state.dom().contains(k) by {
        if after.dom().contains(k) {
            assert(among(pairs, n, k));
            let j = choose|j: int| 0 <= j < n && j < pairs.len() && (#[trigger] pairs[j]).0 == k;
            assert(state.contains_pair(pairs[j].0, pairs[j].1));
        }
        if state.dom().contains(k) {
            assert(in_range(all_keys(), k));
            let j = choose|j: int| 0 <= j < pairs.len() && (#[trigger] pairs[j]).0 == k;
            assert(among(pairs, n, k));
        }
    }
    assert forall|k: Seq<u8>| after.dom().contains(k) implies after[k] == state[k] by {
        assert(among(pairs, n, k));
        let j = choose|j: int| 0 <= j < n && j < pairs.len() && (#[trigger] pairs[j]).0 == k;
        assert(state.contains_pair(pairs[j].0, pairs[j].1));
    }
    assert(after =~= state);
}

} // verus!
