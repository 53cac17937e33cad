//! How entries and partitions look on the wire, byte by byte.

use vstd::arithmetic::div_mod::lemma_div_denominator;
use vstd::arithmetic::power::{lemma_pow0, lemma_pow_positive, pow};
use vstd::prelude::*;

use crate::binary::{bits_of, little_endian};
use crate::client::entry::{entry_fault, wire, EntryView};
use crate::client::migration::{payload, wires};

verus! {

/// The `width` bytes from `from` on hold a number, least significant byte first.
pub open spec fn holds_number(b: Seq<u8>, from: int, width: int, n: int) -> bool {
    forall|i: int|
        0 <= i < width ==> (#[trigger] b[from + i]) as int == (n / pow(256, i as nat)) % 256
}

proof fn lemma_digit(n: u64, width: nat, i: int)
    requires
        0 <= i < width <= 8,
    ensures
        little_endian(n, width).len() == width,
        little_endian(n, width)[i] as int == (n as int / pow(256, i as nat)) % 256,
    decreases width,
{
    let rest = little_endian(n / 256, (width - 1) as nat);
    if i == 0 {
        lemma_pow0(256);
        if width > 1 {
            lemma_digit(n / 256, (width - 1) as nat, 0);
        }
    } else {
        lemma_digit(n / 256, (width - 1) as nat, i - 1);
        assert(little_endian(n, width)[i] == rest[i - 1]);
        lemma_pow_positive(256, (i - 1) as nat);
        lemma_div_denominator(n as int, 256, pow(256, (i - 1) as nat));
        assert(pow(256, i as nat) == 256 * pow(256, (i - 1) as nat)) by {
            vstd::arithmetic::power::lemma_pow_adds(256, 1, (i - 1) as nat);
            vstd::arithmetic::power::lemma_pow1(256);
        }
    }
}

/// An entry is written as the length of its key in one byte, the key, then its
/// expiry, its timestamp and its last use in eight bytes each, the length of its
/// value in four, and the value.
pub proof fn law_entries_are_laid_out(e: EntryView)
    requires
        entry_fault(e) is None,
        e.ttl >= 0,
        e.timestamp >= 0,
        e.last_access >= 0,
    ensures
        ({
            let b = wire(e);
            let k = e.key.len() as int;
            let n = e.value.len() as int;
            &&& b.len() == k + n + 29
            &&& b[0] == k
            &&& b.subrange(1, k + 1) == e.key
            &&& holds_number(b, k + 1, 8, e.ttl as int)
            &&& holds_number(b, k + 9, 8, e.timestamp as int)
            &&& holds_number(b, k + 17, 8, e.last_access as int)
            &&& holds_number(b, k + 25, 4, n)
            &&& b.subrange(k + 29, k + 29 + n) == e.value
        }),
{
    let b = wire(e);
    let k = e.key.len() as int;
    let n = e.value.len() as int;
    let x = little_endian(bits_of(e.ttl), 8);
    let y = little_endian(bits_of(e.timestamp), 8);
    let z = little_endian(bits_of(e.last_access), 8);
    let w = little_endian(n as u64, 4);
    lemma_digit(bits_of(e.ttl), 8, 0);
    lemma_digit(bits_of(e.timestamp), 8, 0);
    lemma_digit(bits_of(e.last_access), 8, 0);
    lemma_digit(n as u64, 4, 0);
    assert(b.subrange(1, k + 1) =~= e.key);
    assert(b.subrange(k + 29, k + 29 + n) =~= e.value);
    assert forall|i: int| 0 <= i < 8 implies (#[trigger] b[k + 1 + i]) as int == (e.ttl as int
        / pow(256, i as nat)) % 256 by {
        lemma_digit(bits_of(e.ttl), 8, i);
        assert(b[k + 1 + i] == x[i]);
    }
    assert forall|i: int| 0 <= i < 8 implies (#[trigger] b[k + 9 + i]) as int == (
    e.timestamp as int / pow(256, i as nat)) % 256 by {
        lemma_digit(bits_of(e.timestamp), 8, i);
        assert(b[k + 9 + i] == y[i]);
    }
    assert forall|i: int| 0 <= i < 8 implies (#[trigger] b[k + 17 + i]) as int == (
    e.last_access as int / pow(256, i as nat)) % 256 by {
        lemma_digit(bits_of(e.last_access), 8, i);
        assert(b[k + 17 + i] == z[i]);
    }
    assert forall|i: int| 0 <= i < 4 implies (#[trigger] b[k + 25 + i]) as int == (n / pow(
        256,
        i as nat,
    )) % 256 by {
        lemma_digit(n as u64, 4, i);
        assert(b[k + 25 + i] == w[i]);
    }
}

/// A partition is written as the byte 1, its number and the number of its entries
/// in four bytes each, and the entries, one behind the other.
pub proof fn law_partitions_are_laid_out(partition_id: u32, s: Seq<EntryView>, e: EntryView)
    requires
        s.len() <= u32::MAX,
    ensures
        ({
            let b = payload(partition_id, s);
            &&& b[0] == 1
            &&& holds_number(b, 1, 4, partition_id as int)
            &&& holds_number(b, 5, 4, s.len() as int)
            &&& b.skip(9) == wires(s)
        }),
        wires(Seq::empty()).len() == 0,
        wires(s.push(e)) == wires(s) + wire(e),
{
    let b = payload(partition_id, s);
    let x = little_endian(partition_id as u64, 4);
    let y = little_endian(s.len() as u64, 4);
    lemma_digit(partition_id as u64, 4, 0);
    lemma_digit(s.len() as u64, 4, 0);
    assert(b.skip(9) =~= wires(s));
    assert(s.push(e).drop_last() =~= s);
    assert forall|i: int| 0 <= i < 4 implies (#[trigger] b[1 + i]) as int == (partition_id as int
        / pow(256, i as nat)) % 256 by {
        lemma_digit(partition_id as u64, 4, i);
        assert(b[1 + i] == x[i]);
    }
    assert forall|i: int| 0 <= i < 4 implies (#[trigger] b[5 + i]) as int == (s.len() as int / pow(
        256,
        i as nat,
    )) % 256 by {
        lemma_digit(s.len() as u64, 4, i);
        assert(b[5 + i] == y[i]);
    }
}

} // verus!
