//! The record frame of the log, and what a log of such frames means.
//!
//! A frame is an eight-byte header followed by the key and, for a put, the
//! value. Both header fields are big-endian: the key's length as an unsigned
//! 32-bit integer, then the value's length as a signed one, where a negative
//! number marks a tombstone.

use vstd::prelude::*;

verus! {

/// The longest key or value that the store takes: 2^31 - 1 bytes.
pub const MAX_LEN: usize = 0x7fff_ffff;

/// The longest key that a frame's header can announce: 2^32 - 1 bytes.
pub const MAX_FRAME_KEY_LEN: usize = 0xffff_ffff;

/// One record of the log: a put of a value under a key, or a tombstone for the key.
pub struct Record {
    pub key: Seq<u8>,
    pub value: Option<Seq<u8>>,
}

/// The live keys and their values.
pub type State = Map<Seq<u8>, Seq<u8>>;

impl Record {
    /// The number of value bytes that the record carries.
    pub open spec fn value_len(self) -> int {
        match self.value {
            Some(v) => v.len() as int,
            None => 0,
        }
    }

    /// The number of bytes that the record's frame takes.
    pub open spec fn frame_len(self) -> int {
        8 + self.key.len() + self.value_len()
    }

    /// The record's lengths fit the header's two fields.
    pub open spec fn fits(self) -> bool {
        &&& self.key.len() <= 0xffff_ffff
        &&& self.value_len() <= 0x7fff_ffff
    }

    /// The number in the header's second field: the value's length, or all ones for a tombstone.
    pub open spec fn value_field(self) -> int {
        match self.value {
            Some(v) => v.len() as int,
            None => 0xffff_ffff,
        }
    }

    /// The record's frame.
    pub open spec fn frame(self) -> Seq<u8> {
        be32(self.key.len() as int) + be32(self.value_field()) + self.key + match self.value {
            Some(v) => v,
            None => Seq::empty(),
        }
    }

    /// What the record does to the live state: a put binds the key, a tombstone frees it.
    pub open spec fn apply(self, state: State) -> State {
        match self.value {
            Some(v) => state.insert(self.key, v),
            None => state.remove(self.key),
        }
    }
}

/// The four bytes of `n` in big-endian order.
pub open spec fn be32(n: int) -> Seq<u8> {
    seq![
        (n / 0x100_0000 % 0x100) as u8,
        (n / 0x1_0000 % 0x100) as u8,
        (n / 0x100 % 0x100) as u8,
        (n % 0x100) as u8,
    ]
}

/// The number that the four bytes at `at` spell in big-endian order.
pub open spec fn be32_at(bytes: Seq<u8>, at: int) -> int {
    bytes[at] * 0x100_0000 + bytes[at + 1] * 0x1_0000 + bytes[at + 2] * 0x100 + bytes[at + 3]
}

/// The key length in the header at `pos`.
pub open spec fn key_len_at(log: Seq<u8>, pos: int) -> int {
    be32_at(log, pos)
}

/// The header at `pos` marks a tombstone: its second field is negative as a signed integer.
pub open spec fn tombstone_at(log: Seq<u8>, pos: int) -> bool {
    be32_at(log, pos + 4) >= 0x8000_0000
}

/// The number of value bytes that the header at `pos` announces.
pub open spec fn value_len_at(log: Seq<u8>, pos: int) -> int {
    if tombstone_at(log, pos) {
        0
    } else {
        be32_at(log, pos + 4)
    }
}

/// Where the value of the frame at `pos` starts.
pub open spec fn value_pos_at(log: Seq<u8>, pos: int) -> int {
    pos + 8 + key_len_at(log, pos)
}

/// Where the frame at `pos` ends.
pub open spec fn frame_end(log: Seq<u8>, pos: int) -> int {
    value_pos_at(log, pos) + value_len_at(log, pos)
}

/// A whole frame lies at `pos`: its header, its key and its value are all inside the log.
pub open spec fn has_frame(log: Seq<u8>, pos: int) -> bool {
    &&& 0 <= pos
    &&& pos + 8 <= log.len()
    &&& frame_end(log, pos) <= log.len()
}

/// The record that the frame at `pos` holds.
pub open spec fn record_at(log: Seq<u8>, pos: int) -> Record {
    Record {
        key: log.subrange(pos + 8, value_pos_at(log, pos)),
        value: if tombstone_at(log, pos) {
            None
        } else {
            Some(log.subrange(value_pos_at(log, pos), frame_end(log, pos)))
        },
    }
}

/// Reads the log frame by frame from `pos`, starting from `state`.
///
/// Gives the state after the last whole frame and the offset at which
/// that frame ends: the rest of the log, if any, is a torn record.
pub open spec fn recover_from(log: Seq<u8>, pos: int, state: State) -> (State, int)
    decreases log.len() - pos,
{
    if has_frame(log, pos) {
        recover_from(log, frame_end(log, pos), record_at(log, pos).apply(state))
    } else {
        (state, pos)
    }
}

/// Where the values lie: each live key with the offset and length of its value.
pub type Index = Map<Seq<u8>, (u64, u32)>;

/// Reads the log frame by frame from `pos`, starting from `index`, and keeps
/// for each key the place of the value of its latest put.
///
/// A put binds its key to where its value starts and how long it is; a
/// tombstone frees its key.
pub open spec fn index_from(log: Seq<u8>, pos: int, index: Index) -> Index
    decreases log.len() - pos,
{
    if has_frame(log, pos) {
        let key = record_at(log, pos).key;
        let place = (value_pos_at(log, pos) as u64, value_len_at(log, pos) as u32);
        index_from(
            log,
            frame_end(log, pos),
            if tombstone_at(log, pos) {
                index.remove(key)
            } else {
                index.insert(key, place)
            },
        )
    } else {
        index
    }
}

/// For each live key of a log, the place of the value of its latest put.
pub open spec fn live_index(log: Seq<u8>) -> Index {
    index_from(log, 0, Map::empty())
}

/// The live state that a log holds.
pub open spec fn live_state(log: Seq<u8>) -> State {
    recover_from(log, 0, Map::empty()).0
}

/// The length of the log's whole frames.
pub open spec fn valid_len(log: Seq<u8>) -> int {
    recover_from(log, 0, Map::empty()).1
}

/// The log is made of whole frames only.
pub open spec fn is_clean(log: Seq<u8>) -> bool {
    valid_len(log) == log.len()
}

/// The bytes of an optional value.
pub open spec fn value_view(value: Option<&[u8]>) -> Option<Seq<u8>> {
    match value {
        Some(v) => Some(v@),
        None => None,
    }
}

/// Spelling a 32-bit number in big-endian bytes and reading it back gives the number.
pub proof fn lemma_be32_round_trip(n: int)
    requires
        0 <= n <= 0xffff_ffff,
    ensures
        be32(n).len() == 4,
        be32_at(be32(n), 0) == n,
{
}

/// Right after a log, a record's frame decodes to the record.
pub proof fn lemma_frame_decodes(log: Seq<u8>, r: Record)
    requires
        r.fits(),
    ensures
        r.frame().len() == r.frame_len(),
        has_frame(log + r.frame(), log.len() as int),
        frame_end(log + r.frame(), log.len() as int) == log.len() + r.frame_len(),
        value_pos_at(log + r.frame(), log.len() as int) == log.len() + 8 + r.key.len(),
        value_len_at(log + r.frame(), log.len() as int) == r.value_len(),
        record_at(log + r.frame(), log.len() as int) == r,
{
    let f = r.frame();
    let all = log + f;
    let at = log.len() as int;
    let kl = r.key.len() as int;
    let vf = r.value_field();
    lemma_be32_round_trip(kl);
    lemma_be32_round_trip(vf);
    assert(f.len() == r.frame_len());
    assert forall|j: int| at <= j < at + 8 implies all[j] == f[j - at] by {}
    assert(be32_at(all, at) == be32_at(be32(kl), 0));
    assert(be32_at(all, at + 4) == be32_at(be32(vf), 0));
    assert(all.subrange(at + 8, at + 8 + kl) =~= r.key);
    match r.value {
        Some(v) => {
            assert(all.subrange(at + 8 + kl, at + 8 + kl + v.len()) =~= v);
        },
        None => {},
    }
}

/// A frame that lies in the part that two logs share lies unchanged in both.
pub proof fn lemma_frame_shared(a: Seq<u8>, b: Seq<u8>, n: int, pos: int)
    requires
        has_frame(a, pos),
        frame_end(a, pos) <= n,
        n <= a.len(),
        n <= b.len(),
        a.take(n) == b.take(n),
    ensures
        has_frame(b, pos),
        frame_end(b, pos) == frame_end(a, pos),
        value_pos_at(b, pos) == value_pos_at(a, pos),
        value_len_at(b, pos) == value_len_at(a, pos),
        tombstone_at(b, pos) == tombstone_at(a, pos),
        record_at(b, pos) == record_at(a, pos),
{
    assert forall|i: int| 0 <= i < n implies a[i] == b[i] by {
        assert(a.take(n)[i] == a[i]);
        assert(b.take(n)[i] == b[i]);
    }
    assert(be32_at(b, pos) == be32_at(a, pos));
    assert(be32_at(b, pos + 4) == be32_at(a, pos + 4));
    assert(b.subrange(pos + 8, value_pos_at(a, pos)) =~= a.subrange(pos + 8, value_pos_at(a, pos)));
    assert(b.subrange(value_pos_at(a, pos), frame_end(a, pos)) =~= a.subrange(
        value_pos_at(a, pos),
        frame_end(a, pos),
    ));
}

/// No whole frame lies where only the front part of a frame was written.
pub proof fn lemma_torn_frame(log: Seq<u8>, r: Record, n: int)
    requires
        r.fits(),
        0 <= n < r.frame_len(),
    ensures
        !has_frame(log + r.frame().take(n), log.len() as int),
{
    let f = r.frame();
    let torn = log + f.take(n);
    let whole = log + f;
    let at = log.len() as int;
    lemma_frame_decodes(log, r);
    if n >= 8 {
        assert forall|j: int| at <= j < at + 8 implies torn[j] == whole[j] by {
            assert(torn[j] == f.take(n)[j - at]);
            assert(whole[j] == f[j - at]);
        }
        assert(be32_at(torn, at) == be32_at(whole, at));
        assert(be32_at(torn, at + 4) == be32_at(whole, at + 4));
        assert(frame_end(torn, at) == frame_end(whole, at));
    }
}

/// Spells a 32-bit number in big-endian bytes at the end of `out`.
fn push_be32(out: &mut Vec<u8>, n: u32)
    ensures
        final(out)@ == old(out)@ + be32(n as int),
{
    out.push((n / 0x100_0000) as u8);
    out.push((n / 0x1_0000 % 0x100) as u8);
    out.push((n / 0x100 % 0x100) as u8);
    out.push((n % 0x100) as u8);
    assert(out@ =~= old(out)@ + be32(n as int));
}

/// Copies `bytes` to the end of `out`.
fn push_bytes(out: &mut Vec<u8>, bytes: &[u8])
    ensures
        final(out)@ == old(out)@ + bytes@,
{
    out.extend_from_slice(bytes);
    assert(out@ =~= old(out)@ + bytes@);
}

/// Writes the frame of a put (with a value) or of a tombstone (without) at the end of `out`.
pub fn append_frame(out: &mut Vec<u8>, key: &[u8], value: Option<&[u8]>)
    requires
        key.len() <= MAX_FRAME_KEY_LEN,
        value matches Some(v) ==> v.len() <= MAX_LEN,
    ensures
        final(out)@ == old(out)@ + (Record { key: key@, value: value_view(value) }).frame(),
{
    let ghost r = Record { key: key@, value: value_view(value) };
    push_be32(out, key.len() as u32);
    match value {
        Some(v) => {
            push_be32(out, v.len() as u32);
            push_bytes(out, key);
            push_bytes(out, v);
        },
        None => {
            push_be32(out, 0xffff_ffff);
            push_bytes(out, key);
        },
    }
    assert(out@ =~= old(out)@ + r.frame());
}

/// The frame of a put (with a value) or of a tombstone (without).
pub fn encode_frame(key: &[u8], value: Option<&[u8]>) -> (frame: Vec<u8>)
    requires
        key.len() <= MAX_FRAME_KEY_LEN,
        value matches Some(v) ==> v.len() <= MAX_LEN,
    ensures
        frame@ == (Record { key: key@, value: value_view(value) }).frame(),
{
    let mut frame: Vec<u8> = Vec::new();
    append_frame(&mut frame, key, value);
    assert(frame@ =~= (Record { key: key@, value: value_view(value) }).frame());
    frame
}

/// Reads the big-endian 32-bit number at `pos`.
pub fn read_be32(log: &[u8], pos: usize) -> (n: u32)
    requires
        pos + 4 <= log.len(),
    ensures
        n == be32_at(log@, pos as int),
{
    let b0: u32 = log[pos] as u32;
    let b1: u32 = log[pos + 1] as u32;
    let b2: u32 = log[pos + 2] as u32;
    let b3: u32 = log[pos + 3] as u32;
    b0 * 0x100_0000 + b1 * 0x1_0000 + b2 * 0x100 + b3
}

} // verus!
