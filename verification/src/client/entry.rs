//! What a node stores under a key.

use vstd::prelude::*;

use crate::binary::{
    bits_of, from_bits, lemma_bits, lemma_little_endian, lemma_room, lemma_value_range,
    little_endian, little_endian_bytes, little_endian_value, read_little_endian, signed_of, to_bits,
};
use crate::client::error::{StorageError, StorageFault};
use crate::text::{bytes_to_vec, push_bytes};

verus! {

/// The longest key, in bytes.
pub const MAX_KEY_LEN: usize = 255;

/// Bytes of an encoded entry besides its key and value.
pub const ENTRY_OVERHEAD: usize = 29;

/// A stored value, with its key and its times. Times are in Unix nanoseconds.
#[derive(Debug, PartialEq, Eq)]
pub struct Entry {
    /// The key.
    pub key: Vec<u8>,
    /// When the entry expires; 0 for never.
    pub ttl_nanos: i64,
    /// When the entry was written. Of two writes the later one wins.
    pub timestamp_nanos: i64,
    /// When the entry was last used.
    pub last_access_nanos: i64,
    /// The value.
    pub value: Vec<u8>,
}

/// Mathematical value of an [`Entry`].
#[verifier::ext_equal]
pub ghost struct EntryView {
    pub key: Seq<u8>,
    pub ttl: i64,
    pub timestamp: i64,
    pub last_access: i64,
    pub value: Seq<u8>,
}

impl View for Entry {
    type V = EntryView;

    open spec fn view(&self) -> EntryView {
        EntryView {
            key: self.key@,
            ttl: self.ttl_nanos,
            timestamp: self.timestamp_nanos,
            last_access: self.last_access_nanos,
            value: self.value@,
        }
    }
}

/// Values of a list of entries.
pub open spec fn entries_view(s: Seq<Entry>) -> Seq<EntryView> {
    Seq::new(s.len(), |i: int| s[i]@)
}

/// Whether the entry has expired.
pub open spec fn expired(e: EntryView, now_nanos: i64) -> bool {
    e.ttl != 0 && e.ttl <= now_nanos
}

/// What keeps an entry from being stored.
pub open spec fn entry_fault(e: EntryView) -> Option<StorageFault> {
    if e.key.len() > MAX_KEY_LEN {
        Some(StorageFault::KeyTooLong)
    } else if e.value.len() > u32::MAX {
        Some(StorageFault::ValueTooLong)
    } else {
        None
    }
}

/// Length of the encoded entry.
pub open spec fn wire_len(e: EntryView) -> nat {
    e.key.len() + e.value.len() + ENTRY_OVERHEAD as nat
}

/// The encoded entry: length of the key, key, expiry, timestamp, last use,
/// length of the value, value.
pub open spec fn wire(e: EntryView) -> Seq<u8> {
    seq![e.key.len() as u8] + e.key + little_endian(bits_of(e.ttl), 8) + little_endian(
        bits_of(e.timestamp),
        8,
    ) + little_endian(bits_of(e.last_access), 8) + little_endian(e.value.len() as u64, 4) + e.value
}

/// The signed number in the eight bytes from `from` on.
pub open spec fn number_at(b: Seq<u8>, from: int) -> i64 {
    signed_of(little_endian_value(b.subrange(from, from + 8)) as u64)
}

/// The entry that bytes start with, and how many of them it takes.
pub open spec fn parsed(b: Seq<u8>) -> Option<(EntryView, int)> {
    if b.len() < 1 || b.len() < b[0] + ENTRY_OVERHEAD {
        None
    } else {
        let k = b[0] as int;
        let n = little_endian_value(b.subrange(k + 25, k + 29));
        if b.len() < k + ENTRY_OVERHEAD + n {
            None
        } else {
            Some(
                (
                    EntryView {
                        key: b.subrange(1, k + 1),
                        ttl: number_at(b, k + 1),
                        timestamp: number_at(b, k + 9),
                        last_access: number_at(b, k + 17),
                        value: b.subrange(k + 29, k + 29 + n),
                    },
                    k + ENTRY_OVERHEAD + n,
                ),
            )
        }
    }
}

/// An entry that can be stored is read back from its encoding, whatever follows
/// it.
pub proof fn law_entry_reads_back(e: EntryView, rest: Seq<u8>)
    requires
        entry_fault(e) is None,
    ensures
        wire(e).len() == wire_len(e),
        parsed(wire(e) + rest) == Some((e, wire_len(e) as int)),
{
    let b = wire(e) + rest;
    let k = e.key.len() as int;
    lemma_room(8);
    lemma_room(4);
    lemma_little_endian(bits_of(e.ttl), 8);
    lemma_little_endian(bits_of(e.timestamp), 8);
    lemma_little_endian(bits_of(e.last_access), 8);
    lemma_little_endian(e.value.len() as u64, 4);
    lemma_bits(e.ttl);
    lemma_bits(e.timestamp);
    lemma_bits(e.last_access);
    assert(b[0] == k);
    assert(b.subrange(1, k + 1) =~= e.key);
    assert(b.subrange(k + 1, k + 9) =~= little_endian(bits_of(e.ttl), 8));
    assert(b.subrange(k + 9, k + 17) =~= little_endian(bits_of(e.timestamp), 8));
    assert(b.subrange(k + 17, k + 25) =~= little_endian(bits_of(e.last_access), 8));
    assert(b.subrange(k + 25, k + 29) =~= little_endian(e.value.len() as u64, 4));
    assert(b.subrange(k + 29, k + 29 + e.value.len()) =~= e.value);
}

/// What is read can be stored.
pub proof fn lemma_parsed(b: Seq<u8>)
    ensures
        parsed(b) matches Some(p) ==> entry_fault(p.0) is None && p.1 == wire_len(p.0) && 0 < p.1
            <= b.len(),
{
    if parsed(b) is Some {
        let k = b[0] as int;
        lemma_value_range(b.subrange(k + 25, k + 29));
        lemma_room(4);
    }
}

impl Clone for Entry {
    fn clone(&self) -> (r: Self)
        ensures
            r@ == self@,
    {
        Entry {
            key: bytes_to_vec(self.key.as_slice()),
            ttl_nanos: self.ttl_nanos,
            timestamp_nanos: self.timestamp_nanos,
            last_access_nanos: self.last_access_nanos,
            value: bytes_to_vec(self.value.as_slice()),
        }
    }
}

impl Entry {
    /// Whether the entry has expired.
    pub fn is_expired(&self, now_nanos: i64) -> (r: bool)
        ensures
            r == expired(self@, now_nanos),
    {
        self.ttl_nanos != 0 && self.ttl_nanos <= now_nanos
    }

    /// Length of the encoded entry, or the largest number where it is longer.
    pub fn encoded_len(&self) -> (r: u64)
        ensures
            r == if wire_len(self@) > u64::MAX {
                u64::MAX as int
            } else {
                wire_len(self@) as int
            },
    {
        let n: u128 = self.key.len() as u128 + self.value.len() as u128 + ENTRY_OVERHEAD as u128;
        if n > u64::MAX as u128 {
            u64::MAX
        } else {
            n as u64
        }
    }

    /// Checks that the entry can be stored.
    pub fn check(&self) -> (r: Result<(), StorageError>)
        ensures
            match entry_fault(self@) {
                None => r is Ok,
                Some(f) => r is Err && r->Err_0@ == f,
            },
    {
        if self.key.len() > MAX_KEY_LEN {
            return Err(StorageError::KeyTooLong);
        }
        if self.value.len() as u64 > u32::MAX as u64 {
            return Err(StorageError::ValueTooLong);
        }
        Ok(())
    }

    /// Appends the encoded entry.
    pub fn encode_into(&self, buf: &mut Vec<u8>) -> (r: Result<(), StorageError>)
        ensures
            match entry_fault(self@) {
                None => r is Ok && final(buf)@ == old(buf)@ + wire(self@),
                Some(f) => r is Err && r->Err_0@ == f && final(buf)@ == old(buf)@,
            },
    {
        match self.check() {
            Err(e) => return Err(e),
            Ok(()) => {},
        }
        buf.push(self.key.len() as u8);
        push_bytes(buf, self.key.as_slice());
        push_bytes(buf, little_endian_bytes(to_bits(self.ttl_nanos), 8).as_slice());
        push_bytes(buf, little_endian_bytes(to_bits(self.timestamp_nanos), 8).as_slice());
        push_bytes(buf, little_endian_bytes(to_bits(self.last_access_nanos), 8).as_slice());
        push_bytes(buf, little_endian_bytes(self.value.len() as u64, 4).as_slice());
        push_bytes(buf, self.value.as_slice());
        assert(buf@ =~= old(buf)@ + wire(self@));
        Ok(())
    }

    /// Reads the entry that `buf` starts with, and says how many bytes it takes.
    pub fn decode(buf: &[u8]) -> (r: Option<(Entry, usize)>)
        ensures
            match parsed(buf@) {
                None => r is None,
                Some(p) => r is Some && (r->0).0@ == p.0 && (r->0).1 == p.1,
            },
    {
        if buf.len() < ENTRY_OVERHEAD {
            return None;
        }
        let k: usize = buf[0] as usize;
        if buf.len() - ENTRY_OVERHEAD < k {
            return None;
        }
        let n: u64 = read_little_endian(buf, k + 25, 4);
        assert(n == little_endian_value(buf@.subrange(k + 25, k + 29)));
        if ((buf.len() - ENTRY_OVERHEAD - k) as u64) < n {
            return None;
        }
        let end: usize = k + ENTRY_OVERHEAD + n as usize;
        let e = Entry {
            key: copied(buf, 1, k + 1),
            ttl_nanos: read_number(buf, k + 1),
            timestamp_nanos: read_number(buf, k + 9),
            last_access_nanos: read_number(buf, k + 17),
            value: copied(buf, k + 29, end),
        };
        Some((e, end))
    }
}

fn read_number(buf: &[u8], from: usize) -> (r: i64)
    requires
        from + 8 <= buf@.len(),
    ensures
        r == number_at(buf@, from as int),
{
    from_bits(read_little_endian(buf, from, 8))
}

fn copied(buf: &[u8], from: usize, to: usize) -> (r: Vec<u8>)
    requires
        from <= to <= buf@.len(),
    ensures
        r@ == buf@.subrange(from as int, to as int),
{
    bytes_to_vec(vstd::slice::slice_subrange(buf, from, to))
}

} // verus!
