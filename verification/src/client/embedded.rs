//! Maps on the node of the application itself.
//!
//! Times are handed in, in Unix microseconds; durations are in nanoseconds.

use rand::rngs::SmallRng;
use vstd::prelude::*;
use vstd::string::*;
use vstd::utf8::*;

use crate::chance::{lemma_shuffled, new_rng, shuffle_ids};
use crate::client::cursor::{
    found_view, glob_to_regex, keep_found, regex_fault, regex_found, regex_matches, regex_of,
    regex_refusal, BufferedCursor, PairView, ScanOptions,
};
use crate::client::dmap::{
    after_get, after_lww, after_put, counter, evicted, found, found_under, holds_lock, is_sample,
    lemma_pattern_keeps, live, looked_up, lww_applies, lww_fault, made_room, may_go, nearest,
    oldest, over, put_fault, raised, response_of, sample_size, slot_of, stamp, store_fault,
    taken_in, went, with_entries, with_expiry, without, written, DMapState,
};
use crate::client::entry::{entry_fault, Entry, EntryView};
use crate::client::error::{Error, ErrorView, StorageError, StorageFault};
use crate::client::fragment::{ascending, lemma_finite, lists, newer, Fragment};
use crate::client::types::{
    later, micros_to_nanos_i64, nanos_of, no_options, options_fault, signed_nanos, DMapOptions,
    GetResponse, PutOptions,
};
use crate::config::sections::EvictionPolicy;
use crate::hasher::Hasher;
use crate::net::number_text;
use crate::text::{
    bytes_equal, bytes_to_vec, checked_utf8, i64_refusal, parse_signed, push_decimal, signed_decimal,
    signed_decimal_bytes, str_from_utf8,
};

verus! {

/// A map on this node.
#[allow(missing_debug_implementations)]
pub struct EmbeddedDMap<H: Hasher + Copy> {
    name: String,
    options: DMapOptions,
    hasher: H,
    fragment: Fragment,
    floor: i64,
    rng: SmallRng,
}

impl<H: Hasher + Copy> View for EmbeddedDMap<H> {
    type V = DMapState<H>;

    closed spec fn view(&self) -> DMapState<H> {
        DMapState {
            name: self.name@,
            options: self.options,
            hasher: self.hasher,
            entries: self.fragment@,
            floor: self.floor,
        }
    }
}

/// A map that was just made.
pub open spec fn fresh<H>(name: Seq<char>, options: DMapOptions, hasher: H) -> DMapState<H> {
    DMapState { name, options, hasher, entries: Map::empty(), floor: 0 }
}

impl<H: Hasher + Copy> EmbeddedDMap<H> {
    /// An empty map.
    pub fn new(name: &str, options: DMapOptions, hasher: H) -> (r: Self)
        ensures
            r@ == fresh(name@, options, hasher),
    {
        EmbeddedDMap {
            name: name.to_owned(),
            options,
            hasher,
            fragment: Fragment::new(),
            floor: 0,
            rng: new_rng(),
        }
    }

    /// The name.
    pub fn name(&self) -> (r: &str)
        ensures
            r@ == self@.name,
    {
        self.name.as_str()
    }

    /// The settings.
    pub fn options(&self) -> (r: &DMapOptions)
        ensures
            *r == self@.options,
    {
        &self.options
    }

    /// The entries.
    pub fn fragment(&self) -> (r: &Fragment)
        ensures
            r@ == self@.entries,
    {
        &self.fragment
    }

    /// The hash that an entry is stored under.
    pub fn hkey_bytes(&self, key: &[u8]) -> (r: u64)
        ensures
            r == self@.hasher.hash_of(key@),
    {
        self.hasher.hash64(key)
    }

    fn hkey(&self, key: &str) -> (r: u64)
        ensures
            r == slot_of(self@, key@),
    {
        self.hasher.hash64(key.as_bytes())
    }

    /// Takes the next timestamp.
    fn next_lww_timestamp(&mut self, now: i64) -> (r: i64)
        ensures
            r == stamp(old(self)@.floor, now),
            final(self)@ == (DMapState { floor: r, ..old(self)@ }),
    {
        let next: i64 = if self.floor == i64::MAX {
            i64::MAX
        } else {
            self.floor + 1
        };
        let r: i64 = if next > now {
            next
        } else {
            now
        };
        self.floor = r;
        r
    }

    /// Notes a timestamp that came from elsewhere.
    pub fn observe_lww_timestamp(&mut self, observed: i64)
        ensures
            final(self)@ == (DMapState { floor: raised(old(self)@.floor, observed), ..old(self)@ }),
    {
        if observed > self.floor {
            self.floor = observed;
        }
    }

    /// The entry under a hash. One that has expired goes.
    fn fetch_live(&mut self, hkey: u64, now: i64) -> (r: Option<Entry>)
        ensures
            final(self)@ == looked_up(old(self)@, hkey, now),
            match live(old(self)@.entries, hkey, now) {
                Some(e) => r is Some && r->0@ == e && entry_fault(e) is None,
                None => r is None,
            },
    {
        let found: Option<Entry> = match self.fragment.get(hkey) {
            Some(e) => Some(e.clone()),
            None => None,
        };
        match found {
            None => None,
            Some(e) => if e.is_expired(now) {
                let _ = self.fragment.delete(hkey);
                None
            } else {
                Some(e)
            },
        }
    }

    /// Of the sample, the first that was used least recently.
    fn pick_oldest(&self, sample: &Vec<u64>, n: usize) -> (r: u64)
        requires
            0 < n <= sample@.len(),
            forall|i: int| 0 <= i < n ==> self@.entries.contains_key(#[trigger] sample@[i]),
        ensures
            r == oldest(self@.entries, sample@.take(n as int)),
    {
        let mut best: u64 = sample[0];
        let mut used: i64 = match self.fragment.get(best) {
            Some(e) => e.last_access_nanos,
            None => 0,
        };
        let ghost m = self@.entries;
        let mut i: usize = 1;
        assert(sample@.take(1)[0] == best);
        while i < n
            invariant
                1 <= i <= n <= sample@.len(),
                m == self@.entries,
                forall|k: int| 0 <= k < n ==> m.contains_key(#[trigger] sample@[k]),
                best == oldest(m, sample@.take(i as int)),
                used == m[best].last_access,
            decreases n - i,
        {
            assert(sample@.take(i + 1).drop_last() =~= sample@.take(i as int));
            assert(sample@.take(i + 1).last() == sample@[i as int]);
            match self.fragment.get(sample[i]) {
                Some(e) => if e.last_access_nanos < used {
                    best = sample[i];
                    used = e.last_access_nanos;
                },
                None => {},
            }
            i = i + 1;
        }
        best
    }

    /// Lets the least recently used entry of a sample go; says whether there was
    /// one.
    fn evict_one(&mut self, samples: usize) -> (r: Option<u64>)
        ensures
            match r {
                Some(k) => may_go(old(self)@.entries, k, samples as nat) && old(
                    self,
                )@.entries.contains_key(k) && final(self)@ == with_entries(
                    old(self)@,
                    old(self)@.entries.remove(k),
                ),
                None => (old(self)@.entries.dom().len() == 0 || samples == 0) && final(self)@
                    == old(self)@,
            },
    {
        let mut ids: Vec<u64> = self.fragment.hkeys();
        let ghost listed = ids@;
        let ghost m = self@.entries;
        shuffle_ids(&mut ids, &mut self.rng);
        proof {
            assert(listed.no_duplicates());
            listed.unique_seq_to_set();
            lemma_shuffled(listed, ids@);
        }
        let n: usize = if samples < ids.len() {
            samples
        } else {
            ids.len()
        };
        if n == 0 {
            return None;
        }
        proof {
            assert forall|i: int| 0 <= i < ids@.len() implies m.contains_key(
                #[trigger] ids@[i],
            ) by {
                assert(ids@.contains(ids@[i]));
                assert(listed.to_set().contains(ids@[i]));
            }
        }
        let k: u64 = self.pick_oldest(&ids, n);
        proof {
            let sample = ids@.take(n as int);
            assert(is_sample(m, sample, samples as nat));
            lemma_oldest_is_of_sample(m, sample);
        }
        let _ = self.fragment.delete(k);
        Some(k)
    }

    /// Whether the map holds more than it may.
    fn is_over(&self) -> (r: bool)
        ensures
            r == over(self@.options, self@.entries),
    {
        match self.options.eviction_policy {
            Some(EvictionPolicy::Lru) => {},
            _ => return false,
        }
        match self.options.max_keys {
            Some(n) => if self.fragment.len() as u64 > n {
                return true;
            },
            None => {},
        }
        match self.options.max_inuse {
            Some(n) => self.fragment.inuse() > n,
            None => false,
        }
    }

    /// Makes room where the map holds more than it may.
    fn evict_if_needed(&mut self)
        ensures
            made_room(old(self)@, final(self)@),
    {
        let samples: usize = match self.options.lru_samples {
            Some(n) => n as usize,
            None => 5,
        };
        let ghost start = self@;
        let ghost mut gone: Seq<u64> = Seq::empty();
        proof {
            lemma_finite(self.fragment);
        }
        while self.is_over()
            invariant
                samples == sample_size(start.options),
                self@ == with_entries(start, self@.entries),
                self@.entries.dom().finite(),
                went(start.options, start.entries, gone),
                self@.entries == without(start.entries, gone, gone.len() as int),
            ensures
                self@ == with_entries(start, self@.entries),
                evicted(start.options, start.entries, self@.entries),
            decreases self@.entries.dom().len(),
        {
            let ghost before = gone;
            let ghost now = self@.entries;
            match self.evict_one(samples) {
                None => {
                    break;
                },
                Some(k) => {
                    proof {
                        gone = before.push(k);
                        lemma_went_push(start.options, start.entries, before, k);
                    }
                },
            }
        }
    }
}

proof fn lemma_oldest_is_of_sample(m: Map<u64, EntryView>, sample: Seq<u64>)
    requires
        sample.len() > 0,
    ensures
        sample.contains(oldest(m, sample)),
    decreases sample.len(),
{
    if sample.len() == 1 {
        assert(sample.contains(sample[0]));
    } else {
        let front = sample.drop_last();
        lemma_oldest_is_of_sample(m, front);
        let i = choose|i: int| 0 <= i < front.len() && front[i] == oldest(m, front);
        assert(sample[i] == oldest(m, front));
        assert(sample.contains(sample.last()));
    }
}

proof fn lemma_without_push(m: Map<u64, EntryView>, gone: Seq<u64>, k: u64, i: int)
    requires
        0 <= i <= gone.len(),
    ensures
        without(m, gone.push(k), i) == without(m, gone, i),
    decreases i,
{
    if i > 0 {
        lemma_without_push(m, gone, k, i - 1);
    }
}

proof fn lemma_went_push(o: DMapOptions, m: Map<u64, EntryView>, gone: Seq<u64>, k: u64)
    requires
        went(o, m, gone),
        over(o, without(m, gone, gone.len() as int)),
        may_go(without(m, gone, gone.len() as int), k, sample_size(o)),
    ensures
        went(o, m, gone.push(k)),
        without(m, gone.push(k), gone.len() as int + 1) == without(m, gone, gone.len() as int).remove(k),
{
    let more = gone.push(k);
    assert forall|i: int| 0 <= i < more.len() implies {
        &&& over(o, #[trigger] without(m, more, i))
        &&& may_go(without(m, more, i), more[i], sample_size(o))
    } by {
        lemma_without_push(m, gone, k, i);
        if i < gone.len() {
            assert(over(o, without(m, gone, i)));
        }
    }
    lemma_without_push(m, gone, k, gone.len() as int);
}


impl<H: Hasher + Copy> EmbeddedDMap<H> {
    /// Stores a value.
    pub fn put(&mut self, key: &str, value: &[u8], options: PutOptions, now_micros: u64) -> (r:
        Result<(), Error>)
        ensures
            match put_fault(old(self)@, key@, value@, options, now_micros) {
                Some(e) => {
                    &&& r is Err
                    &&& r->Err_0@ == e
                    &&& final(self)@ == after_put(old(self)@, key@, value@, options, now_micros)
                },
                None => {
                    &&& r is Ok
                    &&& made_room(
                        after_put(old(self)@, key@, value@, options, now_micros),
                        final(self)@,
                    )
                },
            },
    {
        let ghost start = self@;
        match options.validate() {
            Err(e) => return Err(e),
            Ok(()) => {},
        }
        let hkey: u64 = self.hkey(key);
        let now: i64 = micros_to_nanos_i64(now_micros);
        let there: bool = self.fetch_live(hkey, now).is_some();
        if options.nx && there {
            return Err(Error::KeyAlreadyExists);
        }
        if options.xx && !there {
            return Err(Error::KeyNotExists);
        }
        let ttl_nanos: i64 = match options.ttl_at(now_micros, self.options.ttl) {
            Ok(t) => t,
            Err(e) => return Err(e),
        };
        let timestamp: i64 = match options.timestamp {
            Some(ts) => {
                self.observe_lww_timestamp(ts);
                ts
            },
            None => self.next_lww_timestamp(now),
        };
        let entry = Entry {
            key: bytes_to_vec(key.as_bytes()),
            ttl_nanos,
            timestamp_nanos: timestamp,
            last_access_nanos: now,
            value: bytes_to_vec(value),
        };
        assert(entry@ == written(start, key@, value@, options, now_micros));
        match self.fragment.put(hkey, entry) {
            Ok(()) => {},
            Err(e) => return Err(Error::Storage(e)),
        }
        assert(self@ =~= after_put(start, key@, value@, options, now_micros));
        self.evict_if_needed();
        Ok(())
    }

    /// Stores a replicated value, unless what is there is as new. Says whether it
    /// did.
    pub fn put_lww(&mut self, key: &str, value: &[u8], options: PutOptions, now_micros: u64) -> (r:
        Result<bool, Error>)
        ensures
            match lww_fault(old(self)@, key@, value@, options, now_micros) {
                Some(e) => {
                    &&& r is Err
                    &&& r->Err_0@ == e
                    &&& final(self)@ == after_lww(old(self)@, key@, value@, options, now_micros)
                },
                None => {
                    let after = after_lww(old(self)@, key@, value@, options, now_micros);
                    let applies = lww_applies(old(self)@, key@, value@, options, now_micros);
                    &&& r is Ok
                    &&& r->Ok_0 == applies
                    &&& if applies {
                        made_room(after, final(self)@)
                    } else {
                        final(self)@ == after
                    }
                },
            },
    {
        let ghost start = self@;
        let ttl_nanos: i64 = match options.ttl_at(now_micros, self.options.ttl) {
            Ok(t) => t,
            Err(e) => return Err(e),
        };
        let timestamp: i64 = match options.timestamp {
            Some(ts) => ts,
            None => return Err(
                Error::InvalidArgument(
                    "put_lww requires an explicit timestamp (primary's LWW stamp)".to_owned(),
                ),
            ),
        };
        self.observe_lww_timestamp(timestamp);
        let hkey: u64 = self.hkey(key);
        let entry = Entry {
            key: bytes_to_vec(key.as_bytes()),
            ttl_nanos,
            timestamp_nanos: timestamp,
            last_access_nanos: micros_to_nanos_i64(now_micros),
            value: bytes_to_vec(value),
        };
        assert(entry@ == written(start, key@, value@, options, now_micros));
        match self.fragment.put_lww(hkey, entry) {
            Ok(applied) => {
                assert(self@ =~= after_lww(start, key@, value@, options, now_micros));
                if applied {
                    self.evict_if_needed();
                }
                Ok(applied)
            },
            Err(e) => Err(Error::Storage(e)),
        }
    }

    /// Merges an entry of another node in, unless what is there is as new. Says
    /// whether it did.
    pub fn merge(&mut self, entry: Entry) -> (r: Result<bool, Error>)
        ensures
            match store_fault(entry@) {
                Some(e) => r is Err && r->Err_0@ == e && final(self)@ == old(self)@,
                None => {
                    &&& r is Ok
                    &&& r->Ok_0 == newer(
                        old(self)@.entries,
                        old(self)@.hasher.hash_of(entry@.key),
                        entry@,
                    )
                    &&& final(self)@ == taken_in(old(self)@, entry@)
                },
            },
    {
        let ghost start = self@;
        let timestamp: i64 = entry.timestamp_nanos;
        let hkey: u64 = self.hkey_bytes(entry.key.as_slice());
        match self.fragment.put_lww(hkey, entry) {
            Ok(won) => {
                if won {
                    self.observe_lww_timestamp(timestamp);
                }
                assert(self@ =~= taken_in(start, entry@));
                Ok(won)
            },
            Err(e) => Err(Error::Storage(e)),
        }
    }

    /// Removes the entry under a hash; says whether there was one.
    pub(crate) fn remove(&mut self, hkey: u64) -> (r: bool)
        ensures
            r == old(self)@.entries.contains_key(hkey),
            final(self)@ == with_entries(old(self)@, old(self)@.entries.remove(hkey)),
    {
        self.fragment.delete(hkey)
    }

    /// Reads a value. That it was read counts as its last use.
    pub fn get(&mut self, key: &str, now_micros: u64) -> (r: Result<GetResponse, Error>)
        ensures
            final(self)@ == after_get(old(self)@, slot_of(old(self)@, key@), nanos_of(now_micros)),
            match live(old(self)@.entries, slot_of(old(self)@, key@), nanos_of(now_micros)) {
                Some(e) => r is Ok && r->Ok_0@ == response_of(e, nanos_of(now_micros)),
                None => r is Err && r->Err_0@ == ErrorView::KeyNotFound,
            },
    {
        let ghost start = self@;
        let hkey: u64 = self.hkey(key);
        let now: i64 = micros_to_nanos_i64(now_micros);
        match self.fetch_live(hkey, now) {
            None => Err(Error::KeyNotFound),
            Some(mut entry) => {
                let resp: GetResponse = to_get_response(&entry, now);
                entry.last_access_nanos = now;
                self.fragment.store(hkey, entry);
                assert(self@ =~= after_get(start, hkey, now));
                Ok(resp)
            },
        }
    }

    /// Removes a key. Says whether there was an entry that had not expired.
    pub fn delete(&mut self, key: &str, now_micros: u64) -> (r: bool)
        ensures
            r == (live(
                old(self)@.entries,
                slot_of(old(self)@, key@),
                nanos_of(now_micros),
            ) is Some),
            final(self)@ == with_entries(
                old(self)@,
                old(self)@.entries.remove(slot_of(old(self)@, key@)),
            ),
    {
        let ghost start = self@;
        let hkey: u64 = self.hkey(key);
        let now: i64 = micros_to_nanos_i64(now_micros);
        let there: bool = self.fetch_live(hkey, now).is_some();
        let _ = self.fragment.delete(hkey);
        assert(self@.entries =~= start.entries.remove(hkey));
        there
    }

    /// The number that a key holds; 0 where there is none.
    fn count(&mut self, key: &str, now_micros: u64) -> (r: Result<i64, Error>)
        ensures
            final(self)@ == looked_up(old(self)@, slot_of(old(self)@, key@), nanos_of(now_micros)),
            match counter(old(self)@.entries, slot_of(old(self)@, key@), nanos_of(now_micros)) {
                Ok(n) => r is Ok && r->Ok_0 == n,
                Err(e) => r is Err && r->Err_0@ == e,
            },
    {
        let hkey: u64 = self.hkey(key);
        match self.fetch_live(hkey, micros_to_nanos_i64(now_micros)) {
            None => Ok(0),
            Some(e) => match checked_utf8(e.value.as_slice()) {
                Err(m) => Err(Error::Serialization(m)),
                Ok(text) => {
                    proof {
                        encode_utf8_decode_utf8(text@);
                    }
                    match parse_signed(e.value.as_slice()) {
                        Some(n) => Ok(n),
                        None => Err(
                            Error::NotANumber { expected: "integer", got: i64_refusal(text) },
                        ),
                    }
                },
            },
        }
    }

    /// Adds to the number that a key holds. What does not fit stops at the
    /// largest or the smallest number.
    fn adjust(&mut self, key: &str, by: i128, now_micros: u64) -> (r: Result<i64, Error>)
        requires
            -i64::MAX - 1 <= by <= i64::MAX + 1,
        ensures
            adjusted(old(self)@, key@, by as int, now_micros, r, final(self)@),
    {
        let ghost start = self@;
        let current: i64 = match self.count(key, now_micros) {
            Ok(n) => n,
            Err(e) => return Err(e),
        };
        let sum: i128 = current as i128 + by;
        let new: i64 = if sum > i64::MAX as i128 {
            i64::MAX
        } else if sum < i64::MIN as i128 {
            i64::MIN
        } else {
            sum as i64
        };
        let text: Vec<u8> = signed_decimal_bytes(new);
        proof {
            lemma_put_after_look(start, key@, text@, no_options(), now_micros);
        }
        match self.put(key, text.as_slice(), PutOptions::default(), now_micros) {
            Ok(()) => Ok(new),
            Err(e) => Err(e),
        }
    }

    /// Adds to the number that a key holds; without one it starts at 0.
    pub fn incr(&mut self, key: &str, delta: i64, now_micros: u64) -> (r: Result<i64, Error>)
        ensures
            adjusted(old(self)@, key@, delta as int, now_micros, r, final(self)@),
    {
        self.adjust(key, delta as i128, now_micros)
    }

    /// Takes from the number that a key holds; without one it starts at 0.
    pub fn decr(&mut self, key: &str, delta: i64, now_micros: u64) -> (r: Result<i64, Error>)
        ensures
            adjusted(old(self)@, key@, -delta, now_micros, r, final(self)@),
    {
        self.adjust(key, 0 - delta as i128, now_micros)
    }

    /// The text that a key holds, for a caller that reads it as a number of
    /// another kind.
    pub fn number_text_of(&mut self, key: &str, now_micros: u64) -> (r: Result<
        Option<String>,
        Error,
    >)
        ensures
            final(self)@ == looked_up(old(self)@, slot_of(old(self)@, key@), nanos_of(now_micros)),
            match live(old(self)@.entries, slot_of(old(self)@, key@), nanos_of(now_micros)) {
                None => r is Ok && r->Ok_0 is None,
                Some(e) => if valid_utf8(e.value) {
                    r is Ok && r->Ok_0 is Some && (r->Ok_0)->0@ == decode_utf8(e.value)
                } else {
                    r is Err && r->Err_0@ == ErrorView::Serialization(
                        crate::text::utf8_fault(e.value),
                    )
                },
            },
    {
        let hkey: u64 = self.hkey(key);
        match self.fetch_live(hkey, micros_to_nanos_i64(now_micros)) {
            None => Ok(None),
            Some(e) => match checked_utf8(e.value.as_slice()) {
                Err(m) => Err(Error::Serialization(m)),
                Ok(text) => {
                    proof {
                        encode_utf8_decode_utf8(text@);
                    }
                    Ok(Some(text.to_owned()))
                },
            },
        }
    }

    /// Stores a value, and gives back the one that it replaces.
    pub fn get_put(&mut self, key: &str, value: &[u8], now_micros: u64) -> (r: Result<
        Option<GetResponse>,
        Error,
    >)
        ensures
            match put_fault(old(self)@, key@, value@, no_options(), now_micros) {
                Some(e) => {
                    &&& r is Err
                    &&& r->Err_0@ == e
                    &&& final(self)@ == after_put(
                        old(self)@,
                        key@,
                        value@,
                        no_options(),
                        now_micros,
                    )
                },
                None => {
                    &&& made_room(
                        after_put(old(self)@, key@, value@, no_options(), now_micros),
                        final(self)@,
                    )
                    &&& r is Ok
                    &&& match live(
                        old(self)@.entries,
                        slot_of(old(self)@, key@),
                        nanos_of(now_micros),
                    ) {
                        Some(e) => r->Ok_0 is Some && (r->Ok_0)->0@ == response_of(
                            e,
                            nanos_of(now_micros),
                        ),
                        None => r->Ok_0 is None,
                    }
                },
            },
    {
        let ghost start = self@;
        let hkey: u64 = self.hkey(key);
        let now: i64 = micros_to_nanos_i64(now_micros);
        let previous: Option<GetResponse> = match self.fetch_live(hkey, now) {
            Some(e) => Some(to_get_response(&e, now)),
            None => None,
        };
        proof {
            lemma_put_after_look(start, key@, value@, no_options(), now_micros);
        }
        match self.put(key, value, PutOptions::default(), now_micros) {
            Ok(()) => Ok(previous),
            Err(e) => Err(e),
        }
    }

    /// Gives the entry under `hkey` another expiry.
    fn set_expiry(&mut self, hkey: u64, entry: Entry, duration_ns: u64, now: i64)
        requires
            now >= 0,
            old(self)@.entries.contains_key(hkey),
            old(self)@.entries[hkey] == entry@,
            entry_fault(entry@) is None,
        ensures
            final(self)@ == with_expiry(old(self)@, hkey, now, duration_ns),
    {
        let ghost start = self@;
        let mut updated = entry;
        updated.ttl_nanos = if duration_ns == 0 {
            0
        } else {
            later(now, signed_nanos(duration_ns))
        };
        updated.last_access_nanos = now;
        self.fragment.store(hkey, updated);
        assert(self@ =~= with_expiry(start, hkey, now, duration_ns));
    }

    /// Sets when a key expires; a duration of zero means never.
    pub fn expire(&mut self, key: &str, duration_ns: u64, now_micros: u64) -> (r: Result<(), Error>)
        ensures
            ({
                let hkey = slot_of(old(self)@, key@);
                let now = nanos_of(now_micros);
                match live(old(self)@.entries, hkey, now) {
                    None => {
                        &&& r is Err
                        &&& r->Err_0@ == ErrorView::KeyNotFound
                        &&& final(self)@ == looked_up(old(self)@, hkey, now)
                    },
                    Some(_) => r is Ok && final(self)@ == with_expiry(
                        old(self)@,
                        hkey,
                        now,
                        duration_ns,
                    ),
                }
            }),
    {
        let hkey: u64 = self.hkey(key);
        let now: i64 = micros_to_nanos_i64(now_micros);
        match self.fetch_live(hkey, now) {
            None => Err(Error::KeyNotFound),
            Some(entry) => {
                self.set_expiry(hkey, entry, duration_ns, now);
                Ok(())
            },
        }
    }

    /// Releases a lock that is held with this token.
    pub fn unlock_internal(&mut self, key: &str, token: &[u8], now_micros: u64) -> (r: Result<
        (),
        Error,
    >)
        ensures
            ({
                let hkey = slot_of(old(self)@, key@);
                let now = nanos_of(now_micros);
                if holds_lock(old(self)@.entries, hkey, token@, now) {
                    r is Ok && final(self)@ == with_entries(
                        old(self)@,
                        old(self)@.entries.remove(hkey),
                    )
                } else {
                    &&& r is Err
                    &&& r->Err_0@ == ErrorView::NoSuchLock
                    &&& final(self)@ == looked_up(old(self)@, hkey, now)
                }
            }),
    {
        let hkey: u64 = self.hkey(key);
        let now: i64 = micros_to_nanos_i64(now_micros);
        match self.fetch_live(hkey, now) {
            None => Err(Error::NoSuchLock),
            Some(entry) => if bytes_equal(entry.value.as_slice(), token) {
                let _ = self.fragment.delete(hkey);
                Ok(())
            } else {
                Err(Error::NoSuchLock)
            },
        }
    }

    /// Sets for how long from now a lock that is held with this token stays; a
    /// duration of zero means until it is released.
    pub fn lease_internal(
        &mut self,
        key: &str,
        token: &[u8],
        duration_ns: u64,
        now_micros: u64,
    ) -> (r: Result<(), Error>)
        ensures
            ({
                let hkey = slot_of(old(self)@, key@);
                let now = nanos_of(now_micros);
                if holds_lock(old(self)@.entries, hkey, token@, now) {
                    r is Ok && final(self)@ == with_expiry(old(self)@, hkey, now, duration_ns)
                } else {
                    &&& r is Err
                    &&& r->Err_0@ == ErrorView::NoSuchLock
                    &&& final(self)@ == looked_up(old(self)@, hkey, now)
                }
            }),
    {
        let hkey: u64 = self.hkey(key);
        let now: i64 = micros_to_nanos_i64(now_micros);
        match self.fetch_live(hkey, now) {
            None => Err(Error::NoSuchLock),
            Some(entry) => if bytes_equal(entry.value.as_slice(), token) {
                self.set_expiry(hkey, entry, duration_ns, now);
                Ok(())
            } else {
                Err(Error::NoSuchLock)
            },
        }
    }

    /// Removes every entry.
    pub fn destroy(&mut self)
        ensures
            final(self)@ == with_entries(old(self)@, Map::empty()),
    {
        self.fragment.clear();
    }

    /// The entries that have not expired and whose key is text.
    fn readable(&self, now: i64) -> (r: Vec<(String, Vec<u8>)>)
        ensures
            found_view(r@) == found(self@.entries, None, now),
    {
        let mut out: Vec<(String, Vec<u8>)> = Vec::new();
        let keys: Vec<u64> = self.fragment.hkeys();
        let ghost m = self@.entries;
        let mut i: usize = 0;
        assert(keys@.take(0) =~= Seq::empty());
        assert(found_view(out@) =~= Seq::empty());
        while i < keys.len()
            invariant
                i <= keys@.len(),
                m == self@.entries,
                lists(keys@, m.dom()),
                found_view(out@) == found_under(m, keys@.take(i as int), None, now),
            decreases keys@.len() - i,
        {
            let ghost front = keys@.take(i + 1);
            let ghost before = found_view(out@);
            assert(front.drop_last() =~= keys@.take(i as int));
            assert(front.last() == keys@[i as int]);
            assert(m.dom().contains(keys@[i as int])) by {
                assert(keys@.to_set().contains(keys@[i as int]));
            }
            if let Some(e) = self.fragment.get(keys[i]) {
                if !e.is_expired(now) {
                    if let Some(text) = str_from_utf8(e.key.as_slice()) {
                        proof {
                            encode_utf8_decode_utf8(text@);
                        }
                        let ghost added = PairView { key: text@, value: e@.value };
                        out.push((text.to_owned(), bytes_to_vec(e.value.as_slice())));
                        assert(found_view(out@) =~= before.push(added));
                    }
                }
            }
            i = i + 1;
        }
        assert(keys@.take(i as int) =~= keys@);
        out
    }

    /// The entries of a partition whose key matches the pattern. Partition 0 has
    /// all of them.
    pub fn scan(
        &self,
        partition_id: u32,
        partition_count: u32,
        options: &ScanOptions,
        now_micros: u64,
    ) -> (r: Result<BufferedCursor, Error>)
        ensures
            match scan_fault(partition_id, partition_count, pattern_view(*options)) {
                Some(e) => r is Err && r->Err_0@ == e,
                None => r is Ok && r->Ok_0@ == if partition_id == 0 {
                    found(self@.entries, pattern_view(*options), nanos_of(now_micros))
                } else {
                    Seq::empty()
                },
            },
    {
        if partition_id >= partition_count {
            let mut m: String = "partition_id ".to_owned();
            push_decimal(&mut m, partition_id as u64);
            m.append(" >= partition_count ");
            push_decimal(&mut m, partition_count as u64);
            return Err(Error::InvalidArgument(m));
        }
        if partition_id != 0 {
            let none: Vec<(String, Vec<u8>)> = Vec::new();
            assert(found_view(none@) =~= Seq::empty());
            return Ok(BufferedCursor::new(none));
        }
        let now: i64 = micros_to_nanos_i64(now_micros);
        match &options.match_pattern {
            None => Ok(BufferedCursor::new(self.readable(now))),
            Some(p) => {
                let regex: String = glob_to_regex(p.as_str());
                if let Some(m) = regex_refusal(regex.as_str()) {
                    return Err(Error::Storage(StorageError::Pattern(m)));
                }
                let all: Vec<(String, Vec<u8>)> = self.readable(now);
                let mut hits: Vec<bool> = Vec::new();
                let mut i: usize = 0;
                while i < all.len()
                    invariant
                        i <= all@.len(),
                        hits@.len() == i,
                        regex_fault(regex@) is None,
                        forall|k: int|
                            0 <= k < i ==> #[trigger] hits@[k] == regex_matches(
                                regex@,
                                found_view(all@)[k].key,
                            ),
                    decreases all@.len() - i,
                {
                    hits.push(regex_found(regex.as_str(), all[i].0.as_str()));
                    i = i + 1;
                }
                proof {
                    let l = ascending(self@.entries.dom());
                    lemma_pattern_keeps(self@.entries, l, p@, now, hits@);
                }
                Ok(BufferedCursor::new(keep_found(&all, &hits)))
            },
        }
    }
}

/// Pattern of a scan.
pub open spec fn pattern_view(o: ScanOptions) -> Option<Seq<char>> {
    match o.match_pattern {
        Some(p) => Some(p@),
        None => None,
    }
}

/// Why a scan is refused.
pub open spec fn scan_fault(
    partition_id: u32,
    partition_count: u32,
    pattern: Option<Seq<char>>,
) -> Option<ErrorView> {
    if partition_id >= partition_count {
        Some(
            ErrorView::InvalidArgument(
                "partition_id "@ + number_text(partition_id as int) + " >= partition_count "@
                    + number_text(partition_count as int),
            ),
        )
    } else if partition_id != 0 || pattern is None {
        None
    } else {
        match regex_fault(regex_of(pattern->0)) {
            Some(m) => Some(ErrorView::Storage(StorageFault::Pattern(m))),
            None => None,
        }
    }
}

/// What adding `by` to the number of a key gives.
pub open spec fn adjusted<H: Hasher>(
    s: DMapState<H>,
    key: Seq<char>,
    by: int,
    now_micros: u64,
    r: Result<i64, Error>,
    after: DMapState<H>,
) -> bool {
    let hkey = slot_of(s, key);
    match counter(s.entries, hkey, nanos_of(now_micros)) {
        Err(e) => r is Err && r->Err_0@ == e && after == looked_up(s, hkey, nanos_of(now_micros)),
        Ok(n) => {
            let value = signed_decimal(nearest(n + by) as int);
            let put = after_put(s, key, value, no_options(), now_micros);
            match put_fault(s, key, value, no_options(), now_micros) {
                Some(e) => r is Err && r->Err_0@ == e && after == put,
                None => r is Ok && r->Ok_0 == nearest(n + by) && made_room(put, after),
            }
        },
    }
}

/// That the key was looked up before changes nothing for a write.
proof fn lemma_put_after_look<H: Hasher>(
    s: DMapState<H>,
    key: Seq<char>,
    value: Seq<u8>,
    o: PutOptions,
    now_micros: u64,
)
    requires
        options_fault(o) is None,
    ensures
        ({
            let t = looked_up(s, slot_of(s, key), nanos_of(now_micros));
            &&& after_put(t, key, value, o, now_micros) == after_put(s, key, value, o, now_micros)
            &&& put_fault(t, key, value, o, now_micros) == put_fault(s, key, value, o, now_micros)
        }),
{
}

/// What a reader is told of an entry.
fn to_get_response(e: &Entry, now: i64) -> (r: GetResponse)
    requires
        now >= 0,
    ensures
        r@ == response_of(e@, now),
{
    let ttl: Option<u64> = if e.ttl_nanos == 0 {
        None
    } else if e.ttl_nanos <= now {
        Some(0)
    } else {
        Some((e.ttl_nanos - now) as u64)
    };
    GetResponse { value: bytes_to_vec(e.value.as_slice()), timestamp: e.timestamp_nanos, ttl }
}

} // verus!
