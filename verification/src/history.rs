//! Histories: what a run of sets and deletes leaves in the store, and in its log.

use crate::frame::{is_clean, live_state, Record, State};
use crate::recovery::lemma_append_record;
use vstd::prelude::*;

verus! {

/// One operation that changes the store.
pub enum Op {
    /// Binds the key to the value.
    Put { key: Seq<u8>, value: Seq<u8> },
    /// Frees the key.
    Delete { key: Seq<u8> },
}

impl Op {
    /// The key that the operation is about.
    pub open spec fn key(self) -> Seq<u8> {
        match self {
            Op::Put { key, .. } => key,
            Op::Delete { key } => key,
        }
    }

    /// What a lookup of the operation's key gives right after it.
    pub open spec fn outcome(self) -> Option<Seq<u8>> {
        match self {
            Op::Put { value, .. } => Some(value),
            Op::Delete { .. } => None,
        }
    }

    /// The record that the operation appends to the log.
    pub open spec fn record(self) -> Record {
        Record { key: self.key(), value: self.outcome() }
    }

    /// The state after the operation.
    pub open spec fn apply(self, state: State) -> State {
        self.record().apply(state)
    }
}

/// The state after the operations, done in order from `state`.
pub open spec fn run(state: State, ops: Seq<Op>) -> State
    decreases ops.len(),
{
    if ops.len() == 0 {
        state
    } else {
        ops.last().apply(run(state, ops.drop_last()))
    }
}

/// The frames that the operations append to the log, in order.
pub open spec fn frames(ops: Seq<Op>) -> Seq<u8>
    decreases ops.len(),
{
    if ops.len() == 0 {
        Seq::empty()
    } else {
        frames(ops.drop_last()) + ops.last().record().frame()
    }
}

/// Every operation's key and value are short enough for a frame's header.
pub open spec fn ops_fit(ops: Seq<Op>) -> bool {
    forall|i: int| 0 <= i < ops.len() ==> (#[trigger] ops[i]).record().fits()
}

/// A lookup gives what the latest operation on its key left: the value of
/// a set, nothing after a delete, whatever happened to other keys since.
pub proof fn lemma_last_writer_wins(state: State, ops: Seq<Op>, i: int)
    requires
        0 <= i < ops.len(),
        forall|j: int| i < j < ops.len() ==> (#[trigger] ops[j]).key() != ops[i].key(),
    ensures
        run(state, ops).get(ops[i].key()) == ops[i].outcome(),
    decreases ops.len(),
{
    if i < ops.len() - 1 {
        let rest = ops.drop_last();
        assert(rest[i] == ops[i]);
        assert forall|j: int| i < j < rest.len() implies (#[trigger] rest[j]).key()
            != rest[i].key() by {
            assert(rest[j] == ops[j]);
        }
        lemma_last_writer_wins(state, rest, i);
        assert(ops.last() == ops[ops.len() - 1]);
    }
}

/// After a set, a lookup of the key gives the value that was set, until the
/// key is set again or deleted. The bytes of key and value are arbitrary.
pub proof fn lemma_read_your_writes(state: State, key: Seq<u8>, value: Seq<u8>, later: Seq<Op>)
    requires
        forall|j: int| 0 <= j < later.len() ==> (#[trigger] later[j]).key() != key,
    ensures
        state.insert(key, value).get(key) == Some(value),
        run(state.insert(key, value), later).get(key) == Some(value),
    decreases later.len(),
{
    if later.len() > 0 {
        let rest = later.drop_last();
        assert forall|j: int| 0 <= j < rest.len() implies (#[trigger] rest[j]).key() != key by {
            assert(rest[j] == later[j]);
        }
        lemma_read_your_writes(state, key, value, rest);
        assert(later.last() == later[later.len() - 1]);
    }
}

/// Deleting a key twice leaves what deleting it once leaves.
pub proof fn lemma_delete_idempotent(state: State, key: Seq<u8>)
    ensures
        state.remove(key).remove(key) == state.remove(key),
        !state.remove(key).dom().contains(key),
{
    assert(state.remove(key).remove(key) =~= state.remove(key));
}

/// The log of a history holds the state of the history: appending the
/// operations' frames to a whole log gives a whole log, and reading it back
/// gives the state that the operations leave.
pub proof fn lemma_log_holds_history(log: Seq<u8>, ops: Seq<Op>)
    requires
        is_clean(log),
        ops_fit(ops),
    ensures
        is_clean(log + frames(ops)),
        live_state(log + frames(ops)) == run(live_state(log), ops),
    decreases ops.len(),
{
    if ops.len() == 0 {
        assert(log + frames(ops) =~= log);
    } else {
        let rest = ops.drop_last();
        assert forall|i: int| 0 <= i < rest.len() implies (#[trigger] rest[i]).record().fits() by {
            assert(rest[i] == ops[i]);
        }
        lemma_log_holds_history(log, rest);
        assert(ops.last() == ops[ops.len() - 1]);
        lemma_append_record(log + frames(rest), ops.last().record());
        assert(log + frames(ops) =~= (log + frames(rest)) + ops.last().record().frame());
    }
}

} // verus!
