//! Wire form of the entries of a partition that moves to another node.
//!
//! A byte with the version, the partition (four bytes), the number of entries
//! (four bytes), then the entries. Numbers have their least significant byte
//! first. Bytes behind the last entry are left alone.

use vstd::prelude::*;
use vstd::string::*;

use crate::binary::{
    lemma_little_endian, lemma_room, little_endian, little_endian_bytes, little_endian_value,
    read_little_endian,
};
use crate::client::entry::{
    entries_view, entry_fault, law_entry_reads_back, lemma_parsed, parsed, wire, wire_len, Entry,
    EntryView,
};
use crate::client::error::{Error, ErrorView};
use crate::net::number_text;
use crate::text::{push_bytes, push_decimal};

verus! {

/// Version byte of the wire form.
pub const FRAGMENT_PAYLOAD_TAG_V1: u8 = 1;

/// Encoded entries, one after the other.
pub open spec fn wires(s: Seq<EntryView>) -> Seq<u8>
    decreases s.len(),
{
    if s.len() == 0 {
        Seq::empty()
    } else {
        wires(s.drop_last()) + wire(s.last())
    }
}

/// The number of entries as the header gives it.
pub open spec fn header_count(n: nat) -> u64 {
    if n > u32::MAX {
        u32::MAX as u64
    } else {
        n as u64
    }
}

/// Wire form of the entries of a partition.
pub open spec fn payload(partition_id: u32, s: Seq<EntryView>) -> Seq<u8> {
    seq![FRAGMENT_PAYLOAD_TAG_V1] + little_endian(partition_id as u64, 4) + little_endian(
        header_count(s.len()),
        4,
    ) + wires(s)
}

/// The first `n` entries that bytes hold; `None` where they hold fewer.
pub open spec fn parsed_list(b: Seq<u8>, n: nat) -> Option<Seq<EntryView>>
    decreases n,
{
    if n == 0 {
        Some(Seq::empty())
    } else {
        match parsed(b) {
            None => None,
            Some(p) => match parsed_list(b.skip(p.1), (n - 1) as nat) {
                None => None,
                Some(rest) => Some(seq![p.0] + rest),
            },
        }
    }
}

/// What the wire form stands for.
pub open spec fn read_payload(b: Seq<u8>) -> Result<(u32, Seq<EntryView>), ErrorView> {
    if b.len() == 0 {
        Err(ErrorView::InvalidArgument("empty fragment payload"@))
    } else if b[0] != FRAGMENT_PAYLOAD_TAG_V1 {
        Err(
            ErrorView::InvalidArgument(
                "unknown fragment payload tag "@ + number_text(b[0] as int),
            ),
        )
    } else if b.len() < 9 {
        Err(ErrorView::InvalidArgument("fragment payload header truncated"@))
    } else {
        match parsed_list(b.skip(9), little_endian_value(b.subrange(5, 9)) as nat) {
            None => Err(
                ErrorView::InvalidArgument("fragment entry decode failed: truncated entry"@),
            ),
            Some(s) => Ok((little_endian_value(b.subrange(1, 5)) as u32, s)),
        }
    }
}

/// The entry can be stored.
pub open spec fn all_storable(s: Seq<EntryView>) -> bool {
    forall|i: int| 0 <= i < s.len() ==> entry_fault(#[trigger] s[i]) is None
}

proof fn lemma_wires_front(s: Seq<EntryView>)
    requires
        s.len() > 0,
    ensures
        wires(s) == wire(s[0]) + wires(s.skip(1)),
    decreases s.len(),
{
    if s.len() == 1 {
        assert(s.drop_last() =~= Seq::empty());
        assert(s.skip(1) =~= Seq::empty());
        assert(wires(s) =~= wire(s[0]) + wires(s.skip(1)));
    } else {
        lemma_wires_front(s.drop_last());
        assert(s.drop_last().skip(1) =~= s.skip(1).drop_last());
        assert(wires(s) =~= wire(s[0]) + wires(s.skip(1)));
    }
}

proof fn lemma_list_reads_back(s: Seq<EntryView>, rest: Seq<u8>)
    requires
        all_storable(s),
    ensures
        parsed_list(wires(s) + rest, s.len()) == Some(s),
    decreases s.len(),
{
    let b = wires(s) + rest;
    if s.len() == 0 {
        assert(s =~= Seq::empty());
    } else {
        let tail = wires(s.skip(1)) + rest;
        lemma_wires_front(s);
        assert(b =~= wire(s[0]) + tail);
        law_entry_reads_back(s[0], tail);
        assert(b.skip(wire_len(s[0]) as int) =~= tail);
        lemma_list_reads_back(s.skip(1), rest);
        assert(seq![s[0]] + s.skip(1) =~= s);
    }
}

/// The entries of a partition are read back from their wire form, with the
/// partition, whatever follows it.
pub proof fn law_payload_reads_back(partition_id: u32, s: Seq<EntryView>, rest: Seq<u8>)
    requires
        all_storable(s),
        s.len() <= u32::MAX,
    ensures
        read_payload(payload(partition_id, s) + rest) == Ok::<(u32, Seq<EntryView>), ErrorView>(
            (partition_id, s),
        ),
{
    let b = payload(partition_id, s) + rest;
    lemma_room(4);
    lemma_little_endian(partition_id as u64, 4);
    lemma_little_endian(s.len() as u64, 4);
    assert(b.subrange(1, 5) =~= little_endian(partition_id as u64, 4));
    assert(b.subrange(5, 9) =~= little_endian(s.len() as u64, 4));
    assert(b.skip(9) =~= wires(s) + rest);
    lemma_list_reads_back(s, rest);
}

/// Encodes the entries of a partition that moves.
pub fn encode_fragment_payload(partition_id: u32, entries: &Vec<Entry>) -> (r: Vec<u8>)
    requires
        all_storable(entries_view(entries@)),
    ensures
        r@ == payload(partition_id, entries_view(entries@)),
{
    let ghost all = entries_view(entries@);
    let mut buf: Vec<u8> = Vec::new();
    buf.push(FRAGMENT_PAYLOAD_TAG_V1);
    push_bytes(&mut buf, little_endian_bytes(partition_id as u64, 4).as_slice());
    let count: u64 = if entries.len() as u64 > u32::MAX as u64 {
        u32::MAX as u64
    } else {
        entries.len() as u64
    };
    push_bytes(&mut buf, little_endian_bytes(count, 4).as_slice());
    let ghost head = buf@;
    let mut i: usize = 0;
    assert(all.take(0) =~= Seq::empty());
    assert(head + wires(all.take(0)) =~= head);
    while i < entries.len()
        invariant
            i <= entries@.len(),
            all == entries_view(entries@),
            all_storable(all),
            buf@ == head + wires(all.take(i as int)),
        decreases entries@.len() - i,
    {
        assert(all[i as int] == entries@[i as int]@);
        let _ = entries[i].encode_into(&mut buf);
        assert(all.take(i + 1).drop_last() =~= all.take(i as int));
        assert(all.take(i + 1).last() == all[i as int]);
        assert(head + wires(all.take(i as int)) + wire(all[i as int]) =~= head + wires(
            all.take(i + 1),
        ));
        i = i + 1;
    }
    assert(all.take(i as int) =~= all);
    assert(buf@ =~= payload(partition_id, all));
    buf
}

/// Reads the first `n` entries of `buf` from `from` on.
fn decode_list(buf: &[u8], from: usize, n: u64) -> (r: Option<Vec<Entry>>)
    requires
        from <= buf@.len(),
    ensures
        match parsed_list(buf@.skip(from as int), n as nat) {
            None => r is None,
            Some(s) => r is Some && entries_view(r->0@) == s,
        },
{
    let mut out: Vec<Entry> = Vec::new();
    let mut at: usize = from;
    let mut left: u64 = n;
    let ghost whole = parsed_list(buf@.skip(from as int), n as nat);
    proof {
        assert(entries_view(out@) =~= Seq::empty());
        match whole {
            Some(s) => assert(entries_view(out@) + s =~= s),
            None => {},
        }
    }
    while left > 0
        invariant
            from <= at <= buf@.len(),
            whole == parsed_list(buf@.skip(from as int), n as nat),
            match parsed_list(buf@.skip(at as int), left as nat) {
                None => whole is None,
                Some(s) => whole == Some(entries_view(out@) + s),
            },
        decreases left,
    {
        let ghost rest = buf@.skip(at as int);
        proof {
            lemma_parsed(rest);
        }
        match Entry::decode(vstd::slice::slice_subrange(buf, at, buf.len())) {
            None => {
                assert(buf@.subrange(at as int, buf@.len() as int) =~= rest);
                return None;
            },
            Some((e, used)) => {
                assert(buf@.subrange(at as int, buf@.len() as int) =~= rest);
                let ghost before = entries_view(out@);
                let ghost added = e@;
                out.push(e);
                proof {
                    assert(entries_view(out@) =~= before.push(added));
                    assert(rest.skip(used as int) =~= buf@.skip(at + used));
                    match parsed_list(buf@.skip(at + used), (left - 1) as nat) {
                        Some(s) => {
                            assert(before + (seq![added] + s) =~= before.push(added) + s);
                        },
                        None => {},
                    }
                }
                at = at + used;
                left = left - 1;
            },
        }
    }
    assert(entries_view(out@) + Seq::<EntryView>::empty() =~= entries_view(out@));
    Some(out)
}

fn invalid(m: &str) -> (r: Error)
    ensures
        r@ == ErrorView::InvalidArgument(m@),
{
    Error::InvalidArgument(m.to_owned())
}

/// Reads the entries of a partition that moves, and the partition.
pub fn decode_fragment_payload(buf: &[u8]) -> (r: Result<(u32, Vec<Entry>), Error>)
    ensures
        match read_payload(buf@) {
            Ok(p) => r is Ok && (r->Ok_0).0 == p.0 && entries_view((r->Ok_0).1@) == p.1,
            Err(e) => r is Err && r->Err_0@ == e,
        },
{
    if buf.len() == 0 {
        return Err(invalid("empty fragment payload"));
    }
    let tag: u8 = buf[0];
    if tag != FRAGMENT_PAYLOAD_TAG_V1 {
        let mut m: String = "unknown fragment payload tag ".to_owned();
        push_decimal(&mut m, tag as u64);
        return Err(Error::InvalidArgument(m));
    }
    if buf.len() < 9 {
        return Err(invalid("fragment payload header truncated"));
    }
    proof {
        lemma_room(4);
    }
    let partition_id: u64 = read_little_endian(buf, 1, 4);
    let count: u64 = read_little_endian(buf, 5, 4);
    match decode_list(buf, 9, count) {
        None => Err(invalid("fragment entry decode failed: truncated entry")),
        Some(entries) => Ok((partition_id as u32, entries)),
    }
}

/// What is read from a payload can be stored, and is at most what the header
/// can count.
pub proof fn lemma_read_storable(b: Seq<u8>)
    ensures
        read_payload(b) matches Ok(p) ==> all_storable(p.1) && p.1.len() <= u32::MAX,
{
    if b.len() >= 9 {
        lemma_room(4);
        crate::binary::lemma_value_range(b.subrange(5, 9));
        lemma_list_storable(b.skip(9), little_endian_value(b.subrange(5, 9)) as nat);
    }
}

proof fn lemma_list_storable(b: Seq<u8>, n: nat)
    ensures
        parsed_list(b, n) matches Some(s) ==> all_storable(s) && s.len() == n,
    decreases n,
{
    if n > 0 {
        lemma_parsed(b);
        match parsed(b) {
            Some(p) => lemma_list_storable(b.skip(p.1), (n - 1) as nat),
            None => {},
        }
    }
}

} // verus!
