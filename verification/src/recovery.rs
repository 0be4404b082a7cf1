//! What reading a log back gives: how appended frames, torn tails and
//! truncation change the recovered state.

use vstd::prelude::*;
use crate::frame::{
    frame_end, has_frame, is_clean, lemma_frame_decodes, lemma_frame_shared, lemma_torn_frame,
    live_state, record_at, recover_from, valid_len, Record, State,
};

verus! {

/// Reading stops inside the log, at or after the offset it started from.
pub proof fn lemma_recover_bounds(log: Seq<u8>, pos: int, state: State)
    requires
        0 <= pos <= log.len(),
    ensures
        pos <= recover_from(log, pos, state).1 <= log.len(),
    decreases log.len() - pos,
{
    if has_frame(log, pos) {
        lemma_recover_bounds(log, frame_end(log, pos), record_at(log, pos).apply(state));
    }
}

/// Reading a log that was whole before more bytes came goes through the old
/// part as before and then on into the new bytes.
pub proof fn lemma_recover_extend(log: Seq<u8>, tail: Seq<u8>, pos: int, state: State)
    requires
        0 <= pos <= log.len(),
        recover_from(log, pos, state).1 == log.len(),
    ensures
        recover_from(log + tail, pos, state) == recover_from(
            log + tail,
            log.len() as int,
            recover_from(log, pos, state).0,
        ),
    decreases log.len() - pos,
{
    if has_frame(log, pos) {
        let n = log.len() as int;
        assert((log + tail).take(n) =~= log.take(n));
        lemma_frame_shared(log, log + tail, n, pos);
        lemma_recover_extend(log, tail, frame_end(log, pos), record_at(log, pos).apply(state));
    }
}

/// Cutting a log where reading stopped changes nothing that is read, and
/// leaves whole frames only.
pub proof fn lemma_recover_cut(log: Seq<u8>, pos: int, state: State)
    requires
        0 <= pos <= log.len(),
    ensures
        pos <= recover_from(log, pos, state).1 <= log.len(),
        recover_from(log.take(recover_from(log, pos, state).1), pos, state) == recover_from(
            log,
            pos,
            state,
        ),
    decreases log.len() - pos,
{
    lemma_recover_bounds(log, pos, state);
    let end = recover_from(log, pos, state).1;
    let cut = log.take(end);
    if has_frame(log, pos) {
        let next = frame_end(log, pos);
        let after = record_at(log, pos).apply(state);
        lemma_recover_bounds(log, next, after);
        assert(cut.take(end) =~= log.take(end));
        lemma_frame_shared(log, cut, end, pos);
        lemma_recover_cut(log, next, after);
    } else {
        assert(!has_frame(cut, pos));
    }
}

/// An empty log is whole and holds nothing.
pub proof fn lemma_empty_log()
    ensures
        is_clean(Seq::<u8>::empty()),
        live_state(Seq::<u8>::empty()) == Map::<Seq<u8>, Seq<u8>>::empty(),
{
}

/// Appending a record's frame to a whole log keeps it whole, and the state it
/// holds is the old state with the record applied: the later record wins.
pub proof fn lemma_append_record(log: Seq<u8>, r: Record)
    requires
        is_clean(log),
        r.fits(),
    ensures
        is_clean(log + r.frame()),
        live_state(log + r.frame()) == r.apply(live_state(log)),
{
    let all = log + r.frame();
    let at = log.len() as int;
    lemma_recover_extend(log, r.frame(), 0, Map::empty());
    lemma_frame_decodes(log, r);
    let before = live_state(log);
    let end = all.len() as int;
    assert(recover_from(all, at, before) == recover_from(all, end, r.apply(before)));
    assert(!has_frame(all, end));
    assert(recover_from(all, end, r.apply(before)) == (r.apply(before), end));
}

/// A log that ends in the front part of a frame is read as if that part were
/// not there: reading stops where the torn frame starts.
pub proof fn lemma_torn_tail(log: Seq<u8>, r: Record, n: int)
    requires
        is_clean(log),
        r.fits(),
        0 <= n < r.frame_len(),
    ensures
        valid_len(log + r.frame().take(n)) == log.len(),
        live_state(log + r.frame().take(n)) == live_state(log),
        (log + r.frame().take(n)).take(log.len() as int) == log,
{
    let tail = r.frame().take(n);
    lemma_recover_extend(log, tail, 0, Map::empty());
    lemma_torn_frame(log, r, n);
    assert((log + tail).take(log.len() as int) =~= log);
}

/// Cutting any log at the end of its whole frames gives a whole log that
/// holds the same state.
pub proof fn lemma_truncate(log: Seq<u8>)
    ensures
        0 <= valid_len(log) <= log.len(),
        is_clean(log.take(valid_len(log))),
        live_state(log.take(valid_len(log))) == live_state(log),
{
    lemma_recover_cut(log, 0, Map::empty());
}

/// Every key and value of the state is short enough for a frame's header.
pub open spec fn state_fits(state: State) -> bool {
    forall|k: Seq<u8>| #[trigger]
        state.dom().contains(k) ==> k.len() <= 0xffff_ffff && state[k].len() <= 0x7fff_ffff
}

/// Reading a log adds only keys and values that a header can announce.
proof fn lemma_recover_fits(log: Seq<u8>, pos: int, state: State)
    requires
        state_fits(state),
    ensures
        state_fits(recover_from(log, pos, state).0),
    decreases log.len() - pos,
{
    if has_frame(log, pos) {
        let after = record_at(log, pos).apply(state);
        assert(state_fits(after));
        lemma_recover_fits(log, frame_end(log, pos), after);
    }
}

/// Whatever the log, the keys and values that it holds are short enough to be written again.
pub proof fn lemma_live_state_fits(log: Seq<u8>)
    ensures
        state_fits(live_state(log)),
{
    lemma_recover_fits(log, 0, Map::empty());
}

} // verus!
