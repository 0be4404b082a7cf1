//! The log: the image of the backing file, a run of record frames.
//!
//! Records are only ever appended. Reading a value is one positioned read.
//! Opening a log reads it front to back, rebuilds the key directory and cuts
//! off a torn record at the end.

use crate::error::Error;
use crate::frame::{
    append_frame, frame_end, has_frame, index_from, live_index, live_state, read_be32, record_at,
    recover_from, valid_len, value_len_at, value_pos_at, value_view, Index, Record, State,
    MAX_FRAME_KEY_LEN, MAX_LEN,
};
use crate::keydir::{payload, KeyDir};
use crate::recovery::lemma_recover_bounds;
use vstd::prelude::*;
use vstd::slice::{slice_subrange, slice_to_vec};

verus! {

/// The directory finds, for each live key and no other, the bytes of its value in the log.
pub open spec fn locates(dir: Index, log: Seq<u8>, state: State) -> bool {
    &&& forall|k: Seq<u8>| dir.dom().contains(k) <==> state.dom().contains(k)
    &&& forall|k: Seq<u8>| #[trigger]
        dir.dom().contains(k) ==> {
            &&& dir[k].0 + dir[k].1 <= log.len()
            &&& log.subrange(dir[k].0 as int, dir[k].0 + dir[k].1) == state[k]
        }
}

/// What a directory finds in a log it still finds when the log has grown.
pub proof fn lemma_locates_extend(dir: Index, log: Seq<u8>, tail: Seq<u8>, state: State)
    requires
        locates(dir, log, state),
    ensures
        locates(dir, log + tail, state),
{
    assert forall|k: Seq<u8>| #[trigger] dir.dom().contains(k) implies (log + tail).subrange(
        dir[k].0 as int,
        dir[k].0 + dir[k].1,
    ) == state[k] by {
        assert((log + tail).subrange(dir[k].0 as int, dir[k].0 + dir[k].1) =~= log.subrange(
            dir[k].0 as int,
            dir[k].0 + dir[k].1,
        ));
    }
}

/// Binding a key to the place of its new value follows a put.
pub proof fn lemma_locates_put(
    dir: Index,
    log: Seq<u8>,
    state: State,
    key: Seq<u8>,
    loc: (u64, u32),
)
    requires
        locates(dir, log, state),
        loc.0 + loc.1 <= log.len(),
    ensures
        locates(
            dir.insert(key, loc),
            log,
            state.insert(key, log.subrange(loc.0 as int, loc.0 + loc.1)),
        ),
{
}

/// Freeing a key follows a tombstone.
pub proof fn lemma_locates_delete(dir: Index, log: Seq<u8>, state: State, key: Seq<u8>)
    requires
        locates(dir, log, state),
    ensures
        locates(dir.remove(key), log, state.remove(key)),
{
}

/// A read of `len` bytes at `pos` stays inside the log, or asks for nothing.
pub open spec fn readable(log: Seq<u8>, pos: u64, len: u32) -> bool {
    len == 0 || pos + len <= log.len()
}

/// The `len` bytes of the log at `pos`.
pub open spec fn bytes_at(log: Seq<u8>, pos: u64, len: u32) -> Seq<u8> {
    if len == 0 {
        Seq::empty()
    } else {
        log.subrange(pos as int, pos + len)
    }
}

/// The text of the error for a read that runs past the end of the log.
pub open spec fn short_read_text() -> Seq<char> {
    "failed to fill whole buffer"@
}

/// The log.
pub struct Log {
    data: Vec<u8>,
}

impl View for Log {
    type V = Seq<u8>;

    /// The bytes of the log.
    closed spec fn view(&self) -> Seq<u8> {
        self.data@
    }
}

impl Log {
    /// A log with nothing in it.
    pub fn empty() -> (log: Log)
        ensures
            log@ == Seq::<u8>::empty(),
    {
        Log { data: Vec::new() }
    }

    /// A log over the bytes of the backing file as they were found.
    pub fn new(bytes: Vec<u8>) -> (log: Result<Log, Error>)
        ensures
            log matches Ok(l) && l@ == bytes@,
    {
        Ok(Log { data: bytes })
    }

    /// The length of the log in bytes.
    pub fn len(&self) -> (n: u64)
        ensures
            n == self@.len(),
    {
        self.data.len() as u64
    }

    /// The bytes of the log.
    pub fn as_bytes(&self) -> (bytes: &[u8])
        ensures
            bytes@ == self@,
    {
        self.data.as_slice()
    }

    /// Appends the frame of a put (with a value) or of a tombstone (without).
    ///
    /// Gives the offset at which the value's bytes start, and their number
    /// (0 for a tombstone).
    pub fn write_entry(&mut self, key: &[u8], value: Option<&[u8]>) -> (at: Result<
        (u64, u32),
        Error,
    >)
        requires
            key.len() <= MAX_FRAME_KEY_LEN,
            value matches Some(v) ==> v.len() <= MAX_LEN,
        ensures
            final(self)@ == old(self)@ + (Record { key: key@, value: value_view(value) }).frame(),
            at matches Ok(loc) && loc.0 == old(self)@.len() + 8 + key@.len() && loc.1 == (Record {
                key: key@,
                value: value_view(value),
            }).value_len(),
            at matches Ok(loc) && loc.0 + loc.1 == final(self)@.len(),
    {
        let value_len: u32 = match value {
            Some(v) => v.len() as u32,
            None => 0,
        };
        append_frame(&mut self.data, key, value);
        let end: u64 = self.data.len() as u64;
        Ok((end - value_len as u64, value_len))
    }

    /// Reads the `len` bytes at offset `pos`.
    ///
    /// A read of no bytes gives none, wherever it is. A read that runs past
    /// the end of the log fails.
    pub fn read_entry(&self, pos: u64, len: u32) -> (bytes: Result<Vec<u8>, Error>)
        ensures
            match bytes {
                Ok(b) => readable(self@, pos, len) && b@ == bytes_at(self@, pos, len),
                Err(e) => !readable(self@, pos, len) && e is Internal && e.text()
                    == short_read_text(),
            },
    {
        if len == 0 {
            return Ok(Vec::new());
        }
        let n: u64 = self.data.len() as u64;
        if pos > n || len as u64 > n - pos {
            return Err(Error::Internal("failed to fill whole buffer".to_owned()));
        }
        let from: usize = pos as usize;
        let to: usize = from + len as usize;
        Ok(slice_to_vec(slice_subrange(self.data.as_slice(), from, to)))
    }

    /// Reads the log front to back and rebuilds the key directory.
    ///
    /// A put binds its key to the place of its value and a tombstone frees
    /// its key, so the later record wins. Where a record is torn (its header,
    /// its key or its value runs past the end) reading stops and the log is
    /// cut at the start of that record.
    pub fn build_keydir(&mut self) -> (dir: Result<KeyDir, Error>)
        ensures
            final(self)@ == old(self)@.take(valid_len(old(self)@)),
            dir matches Ok(d) && d@ == live_index(old(self)@) && locates(
                d@,
                final(self)@,
                live_state(old(self)@),
            ) && payload(d.items()) + 8 * d.items().len() <= final(self)@.len(),
    {
        let ghost log = self.data@;
        let ghost mut state: State = Map::empty();
        let mut dir = KeyDir::new();
        let n: usize = self.data.len();
        let mut pos: usize = 0;
        let mut torn = false;
        while pos < n && !torn
            invariant
                self.data@ == log,
                n == log.len(),
                pos <= n,
                locates(dir@, log.take(pos as int), state),
                payload(dir.items()) + 8 * dir.items().len() <= pos,
                recover_from(log, pos as int, state) == recover_from(log, 0, Map::empty()),
                index_from(log, pos as int, dir@) == live_index(log),
                torn ==> !has_frame(log, pos as int),
            decreases n - pos, if torn { 0int } else { 1int },
        {
            if n - pos < 8 {
                torn = true;
            } else {
                let key_len: u32 = read_be32(self.data.as_slice(), pos);
                let field: u32 = read_be32(self.data.as_slice(), pos + 4);
                let tombstone = field >= 0x8000_0000;
                let value_len: u32 = if tombstone { 0 } else { field };
                let room: usize = n - pos - 8;
                if key_len as u64 > room as u64 || value_len as u64 > room as u64 - key_len as u64 {
                    torn = true;
                } else {
                    let value_pos: usize = pos + 8 + key_len as usize;
                    let end: usize = value_pos + value_len as usize;
                    let key = slice_to_vec(slice_subrange(self.data.as_slice(), pos + 8, value_pos));
                    proof {
                        assert(has_frame(log, pos as int));
                        assert(value_pos_at(log, pos as int) == value_pos);
                        assert(frame_end(log, pos as int) == end);
                        assert(value_len_at(log, pos as int) == value_len);
                        let r = record_at(log, pos as int);
                        assert(key@ == r.key);
                        assert(log.take(end as int) =~= log.take(pos as int) + log.subrange(
                            pos as int,
                            end as int,
                        ));
                        lemma_locates_extend(
                            dir@,
                            log.take(pos as int),
                            log.subrange(pos as int, end as int),
                            state,
                        );
                        if tombstone {
                            lemma_locates_delete(dir@, log.take(end as int), state, r.key);
                        } else {
                            lemma_locates_put(
                                dir@,
                                log.take(end as int),
                                state,
                                r.key,
                                (value_pos as u64, value_len),
                            );
                            assert(log.take(end as int).subrange(value_pos as int, end as int)
                                =~= log.subrange(value_pos as int, end as int));
                        }
                        state = r.apply(state);
                    }
                    if tombstone {
                        dir.remove(key.as_slice());
                    } else {
                        dir.insert(key, (value_pos as u64, value_len));
                    }
                    pos = end;
                }
            }
        }
        proof {
            lemma_recover_bounds(log, 0, Map::empty());
            assert(!has_frame(log, pos as int));
        }
        self.data.truncate(pos);
        assert(self.data@ =~= log.take(pos as int));
        Ok(dir)
    }
}

} // verus!
