//! The engine: a log and the key directory that is kept in step with it.

use crate::compaction::{compacted, lemma_compacted_len, lemma_compaction_keeps_state, pairs_size};
use crate::error::Error;
use crate::frame::{
    is_clean, lemma_frame_decodes, live_state, valid_len, Record, MAX_FRAME_KEY_LEN, MAX_LEN,
};
use crate::keydir::{lemma_item_in_map, payload, Item, KeyDir};
use crate::log::{lemma_locates_delete, lemma_locates_extend, lemma_locates_put, locates, Log};
use crate::recovery::{
    lemma_append_record, lemma_empty_log, lemma_live_state_fits, lemma_truncate, state_fits,
};
use crate::scan::{
    all_keys, lemma_cut_lists, lemma_lists_count, lemma_lists_unique, lists, pairs_of, scan_end,
    scan_start, KeyRange, Pair, ScanIterator,
};
use crate::status::Status;
use vstd::prelude::*;
use vstd::slice::slice_to_vec;

verus! {

/// The bytes of an optional value.
pub open spec fn option_view(value: Option<Vec<u8>>) -> Option<Seq<u8>> {
    match value {
        Some(v) => Some(v@),
        None => None,
    }
}

/// The entries' sizes are the sizes of the pairs they stand for.
proof fn lemma_sizes(items: Seq<Item>, log: Seq<u8>)
    requires
        forall|i: int|
            #![trigger items[i]]
            0 <= i < items.len() ==> items[i].1.0 + items[i].1.1 <= log.len(),
    ensures
        pairs_size(pairs_of(items, log)) == payload(items),
    decreases items.len(),
{
    if items.len() > 0 {
        assert(pairs_of(items, log).drop_last() =~= pairs_of(items.drop_last(), log));
        assert forall|i: int|
            #![trigger items.drop_last()[i]]
            0 <= i < items.drop_last().len() implies items.drop_last()[i].1.0
            + items.drop_last()[i].1.1 <= log.len() by {
            assert(items.drop_last()[i] == items[i]);
        }
        lemma_sizes(items.drop_last(), log);
        assert(items.last() == items[items.len() - 1]);
    }
}

/// The store: a log of records and a directory of the live keys.
pub struct BitCask {
    log: Log,
    keydir: KeyDir,
}

impl View for BitCask {
    type V = Map<Seq<u8>, Seq<u8>>;

    /// The live keys and their values: what the log holds when its records
    /// are read front to back.
    closed spec fn view(&self) -> Map<Seq<u8>, Seq<u8>> {
        live_state(self.log@)
    }
}

impl BitCask {
    /// The bytes of the log.
    pub closed spec fn log_bytes(&self) -> Seq<u8> {
        self.log@
    }

    /// The engine is in step: the log is made of whole frames, and the
    /// directory holds each live key once, with the place of its latest value.
    #[verifier::type_invariant]
    pub closed spec fn wf(&self) -> bool {
        &&& self.keydir.wf()
        &&& is_clean(self.log@)
        &&& locates(self.keydir@, self.log@, live_state(self.log@))
        &&& payload(self.keydir.items()) + 8 * self.keydir.items().len() <= self.log@.len()
    }

    /// The live pairs in ascending key order.
    pub closed spec fn pairs(&self) -> Seq<Pair> {
        pairs_of(self.keydir.items(), self.log@)
    }

    /// The engine's pairs are the listing of all that it holds.
    pub proof fn lemma_pairs(&self)
        requires
            self.wf(),
        ensures
            lists(self.pairs(), self@, all_keys()),
    {
        let items = self.keydir.items();
        lemma_cut_lists(items, self.log@, self@, all_keys(), 0, items.len() as int);
        assert(self.pairs().subrange(0, items.len() as int) =~= self.pairs());
    }

    /// Every live value lies inside the log.
    proof fn lemma_in_log(&self)
        requires
            self.wf(),
        ensures
            forall|i: int|
                #![trigger self.keydir.items()[i]]
                0 <= i < self.keydir.items().len() ==> self.keydir.items()[i].1.0
                    + self.keydir.items()[i].1.1 <= self.log@.len(),
    {
        let items = self.keydir.items();
        assert forall|i: int| #![trigger items[i]] 0 <= i < items.len() implies items[i].1.0
            + items[i].1.1 <= self.log@.len() by {
            lemma_item_in_map(items, i);
            assert(self.keydir@.dom().contains(items[i].0));
        }
    }

    /// An engine that is opened on this engine's log holds what this engine
    /// holds, and finds nothing to cut off: the log has no torn record.
    pub proof fn lemma_reopen(&self)
        requires
            self.wf(),
        ensures
            live_state(self.log_bytes()) == self@,
            is_clean(self.log_bytes()),
            self.log_bytes().take(valid_len(self.log_bytes())) == self.log_bytes(),
    {
        assert(self.log@.take(self.log@.len() as int) =~= self.log@);
    }

    /// Opens the engine on the bytes of its file: reads the log, rebuilds the
    /// directory and cuts off a torn record at the end.
    pub fn new(bytes: Vec<u8>) -> (engine: Result<BitCask, Error>)
        ensures
            engine matches Ok(e) && e@ == live_state(bytes@) && e.log_bytes() == bytes@.take(
                valid_len(bytes@),
            ),
    {
        let mut log = match Log::new(bytes) {
            Ok(log) => log,
            Err(e) => {
                return Err(e);
            },
        };
        let keydir = match log.build_keydir() {
            Ok(keydir) => keydir,
            Err(e) => {
                return Err(e);
            },
        };
        proof {
            use_type_invariant(&keydir);
            lemma_truncate(bytes@);
        }
        Ok(BitCask { log, keydir })
    }

    /// The bytes of the log, as they stand in the backing file.
    pub fn as_bytes(&self) -> (bytes: &[u8])
        ensures
            bytes@ == self.log_bytes(),
    {
        self.log.as_bytes()
    }

    /// An engine on an empty log.
    fn empty() -> (engine: BitCask)
        ensures
            engine.log_bytes() == Seq::<u8>::empty(),
            engine@ == Map::<Seq<u8>, Seq<u8>>::empty(),
    {
        proof {
            lemma_empty_log();
        }
        BitCask { log: Log::empty(), keydir: KeyDir::new() }
    }

    /// Appends a put and points the directory at it.
    fn put(&mut self, key: &[u8], value: &[u8]) -> (done: Result<(), Error>)
        requires
            key.len() <= MAX_FRAME_KEY_LEN,
            value.len() <= MAX_LEN,
        ensures
            done is Ok,
            final(self)@ == old(self)@.insert(key@, value@),
            final(self).log_bytes() == old(self).log_bytes() + (Record {
                key: key@,
                value: Some(value@),
            }).frame(),
    {
        proof {
            use_type_invariant(&*self);
        }
        let ghost before = self.log@;
        let ghost r = Record { key: key@, value: Some(value@) };
        let mut taken = Self::empty();
        std::mem::swap(self, &mut taken);
        let BitCask { mut log, mut keydir } = taken;
        let at = log.write_entry(key, Some(value));
        if let Ok(loc) = at {
            proof {
                lemma_append_record(before, r);
                lemma_frame_decodes(before, r);
                lemma_locates_extend(keydir@, before, r.frame(), live_state(before));
                lemma_locates_put(keydir@, log@, live_state(before), key@, loc);
            }
            keydir.insert(slice_to_vec(key), loc);
        }
        proof {
            use_type_invariant(&keydir);
        }
        *self = BitCask { log, keydir };
        match at {
            Ok(_) => Ok(()),
            Err(e) => Err(e),
        }
    }

    /// Binds `key` to `value`: appends a put, then points the directory at it.
    pub fn set(&mut self, key: &[u8], value: Vec<u8>) -> (done: Result<(), Error>)
        requires
            key.len() <= MAX_LEN,
            value.len() <= MAX_LEN,
        ensures
            done is Ok,
            final(self)@ == old(self)@.insert(key@, value@),
            final(self).log_bytes() == old(self).log_bytes() + (Record {
                key: key@,
                value: Some(value@),
            }).frame(),
    {
        self.put(key, value.as_slice())
    }

    /// The value of `key`, if the key is live.
    pub fn get(&mut self, key: &[u8]) -> (value: Result<Option<Vec<u8>>, Error>)
        ensures
            *final(self) == *old(self),
            value matches Ok(v) && option_view(v) == old(self)@.get(key@),
    {
        proof {
            use_type_invariant(&*self);
        }
        match self.keydir.get(key) {
            Some(loc) => {
                match self.log.read_entry(loc.0, loc.1) {
                    Ok(bytes) => {
                        assert(bytes@ =~= self@[key@]);
                        Ok(Some(bytes))
                    },
                    Err(e) => Err(e),
                }
            },
            None => Ok(None),
        }
    }

    /// Frees `key`: appends a tombstone, then takes the key out of the directory.
    ///
    /// The tombstone is written whether or not the key was live.
    pub fn delete(&mut self, key: &[u8]) -> (done: Result<(), Error>)
        requires
            key.len() <= MAX_LEN,
        ensures
            done is Ok,
            final(self)@ == old(self)@.remove(key@),
            final(self).log_bytes() == old(self).log_bytes() + (Record {
                key: key@,
                value: None,
            }).frame(),
    {
        proof {
            use_type_invariant(&*self);
        }
        let ghost before = self.log@;
        let ghost r = Record { key: key@, value: None };
        let mut taken = Self::empty();
        std::mem::swap(self, &mut taken);
        let BitCask { mut log, mut keydir } = taken;
        let at = log.write_entry(key, None);
        if at.is_ok() {
            proof {
                lemma_append_record(before, r);
                lemma_frame_decodes(before, r);
                lemma_locates_extend(keydir@, before, r.frame(), live_state(before));
                lemma_locates_delete(keydir@, log@, live_state(before), key@);
            }
            keydir.remove(key);
        }
        proof {
            use_type_invariant(&keydir);
        }
        *self = BitCask { log, keydir };
        match at {
            Ok(_) => Ok(()),
            Err(e) => Err(e),
        }
    }

    /// Starts a scan of the live pairs with a key in `range`.
    ///
    /// A range whose lower end lies after its upper end holds no key.
    pub fn scan(&mut self, range: KeyRange) -> (it: ScanIterator<'_>)
        ensures
            *final(self) == *old(self),
            lists(it.remaining(), old(self)@, range),
    {
        proof {
            use_type_invariant(&*self);
        }
        let front = scan_start(&self.keydir, &range.0);
        let back = scan_end(&self.keydir, &range.1);
        let end = if front <= back { back } else { front };
        proof {
            self.lemma_in_log();
            lemma_cut_lists(
                self.keydir.items(),
                self.log@,
                self@,
                range,
                front as int,
                back as int,
            );
        }
        ScanIterator::new(&self.log, &self.keydir, front, end)
    }

    /// The engine in figures.
    pub fn status(&self) -> (status: Result<Status, Error>)
        ensures
            status matches Ok(s) && {
                &&& s.name@ == "Bitcask"@
                &&& s.keys == self.pairs().len()
                &&& s.keys == self@.dom().len()
                &&& s.size == pairs_size(self.pairs())
                &&& s.total_disk_size == self.log_bytes().len()
                &&& s.live_disk_size == s.size + 8 * s.keys
                &&& s.garbage_disk_size == s.total_disk_size - s.live_disk_size
            },
    {
        proof {
            use_type_invariant(self);
            self.lemma_in_log();
            lemma_sizes(self.keydir.items(), self.log@);
            self.lemma_pairs();
            lemma_lists_count(self.pairs(), self@);
        }
        let keys: u64 = self.keydir.len() as u64;
        let total_disk_size: u64 = self.log.len();
        let size: u64 = self.keydir.payload_size();
        let live_disk_size: u64 = size + 8 * keys;
        let garbage_disk_size: u64 = total_disk_size - live_disk_size;
        Ok(
            Status {
                name: "Bitcask".to_owned(),
                keys,
                size,
                total_disk_size,
                live_disk_size,
                garbage_disk_size,
            },
        )
    }

    /// Writes the live pairs, in ascending key order, to a fresh log, and
    /// gives the engine on that log.
    fn write_log(&self) -> (fresh: Result<BitCask, Error>)
        ensures
            fresh matches Ok(f) && f@ == self@ && f.log_bytes() == compacted(self.pairs()),
    {
        let mut fresh = Self::empty();
        let ghost pairs = self.pairs();
        proof {
            use_type_invariant(self);
            self.lemma_pairs();
            lemma_live_state_fits(self.log@);
        }
        let n: usize = self.keydir.len();
        let mut i: usize = 0;
        while i < n
            invariant
                self.wf(),
                pairs == self.pairs(),
                lists(pairs, self@, all_keys()),
                state_fits(self@),
                i <= n,
                n == pairs.len(),
                fresh.log@ == compacted(pairs.take(i as int)),
            decreases n - i,
        {
            let key = self.keydir.key_at(i);
            let loc = self.keydir.location_at(i);
            proof {
                self.lemma_in_log();
                assert(loc == self.keydir.items()[i as int].1);
            }
            let value = match self.log.read_entry(loc.0, loc.1) {
                Ok(value) => value,
                Err(e) => {
                    return Err(e);
                },
            };
            proof {
                assert(value@ =~= pairs[i as int].1);
                assert(self@.contains_pair(pairs[i as int].0, pairs[i as int].1));
                assert(pairs.take(i + 1).drop_last() =~= pairs.take(i as int));
            }
            match fresh.put(key.as_slice(), value.as_slice()) {
                Ok(_) => {},
                Err(e) => {
                    return Err(e);
                },
            }
            i += 1;
        }
        proof {
            use_type_invariant(&fresh);
            assert(pairs.take(n as int) =~= pairs);
            lemma_compaction_keeps_state(pairs, self@);
        }
        Ok(fresh)
    }

    /// Rewrites the log so that it holds the live pairs and nothing else:
    /// one put for each live key, in ascending key order.
    ///
    /// What the engine holds does not change. The log becomes as long as its
    /// live records were before.
    pub fn compact(&mut self) -> (done: Result<(), Error>)
        ensures
            done is Ok,
            final(self)@ == old(self)@,
            final(self).pairs() == old(self).pairs(),
            final(self).log_bytes() == compacted(old(self).pairs()),
            final(self).log_bytes().len() == pairs_size(old(self).pairs()) + 8 * old(
                self,
            ).pairs().len(),
    {
        proof {
            use_type_invariant(&*self);
        }
        let fresh = match self.write_log() {
            Ok(fresh) => fresh,
            Err(e) => {
                return Err(e);
            },
        };
        proof {
            use_type_invariant(&fresh);
            old(self).lemma_pairs();
            lemma_compacted_len(old(self).pairs());
            fresh.lemma_pairs();
            lemma_lists_unique(fresh.pairs(), old(self).pairs(), fresh@, all_keys());
        }
        *self = fresh;
        Ok(())
    }
}

} // verus!
