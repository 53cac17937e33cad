//! The entries of a map, under the hashes of their keys.

use std::collections::BTreeMap;

use vstd::prelude::*;
use vstd::std_specs::cmp::OrdSpec;

use crate::client::entry::{entry_fault, expired, wire_len, Entry, EntryView};
use crate::client::error::StorageError;

verus! {

broadcast use vstd::std_specs::btree::group_btree_axioms;

/// `l` lists the numbers of `s` in ascending order.
pub open spec fn lists(l: Seq<u64>, s: Set<u64>) -> bool {
    &&& forall|i: int, j: int| 0 <= i < j < l.len() ==> #[trigger] l[i] < #[trigger] l[j]
    &&& l.to_set() == s
}

/// The numbers of a set in ascending order.
pub open spec fn ascending(s: Set<u64>) -> Seq<u64> {
    choose|l: Seq<u64>| lists(l, s)
}

proof fn lemma_last_is_same(a: Seq<u64>, b: Seq<u64>, s: Set<u64>)
    requires
        lists(a, s),
        lists(b, s),
        a.len() > 0,
    ensures
        b.len() > 0,
        a.last() == b.last(),
        lists(a.drop_last(), s.remove(a.last())),
{
    assert(s.contains(a.last()));
    assert(b.contains(a.last()));
    let i = choose|i: int| 0 <= i < b.len() && b[i] == a.last();
    assert(s.contains(b.last())) by {
        assert(b.to_set().contains(b.last()));
    }
    assert(a.contains(b.last()));
    let j = choose|j: int| 0 <= j < a.len() && a[j] == b.last();
    if i < b.len() - 1 {
        assert(b[i] < b[b.len() - 1]);
        if j < a.len() - 1 {
            assert(a[j] < a[a.len() - 1]);
        }
    }
    assert(a.drop_last().to_set() =~= s.remove(a.last())) by {
        assert forall|x: u64| s.remove(a.last()).contains(x) implies a.drop_last().to_set().contains(
            x,
        ) by {
            assert(a.to_set().contains(x));
            let k = choose|k: int| 0 <= k < a.len() && a[k] == x;
            assert(a.drop_last()[k] == x);
        }
        assert forall|x: u64| a.drop_last().to_set().contains(x) implies s.remove(
            a.last(),
        ).contains(x) by {
            let k = choose|k: int| 0 <= k < a.len() - 1 && a.drop_last()[k] == x;
            assert(a[k] == x);
            assert(a[k] < a[a.len() - 1]);
            assert(a.to_set().contains(x));
        }
    }
}

/// There is one way to list a set in ascending order.
pub proof fn lemma_one_listing(a: Seq<u64>, b: Seq<u64>, s: Set<u64>)
    requires
        lists(a, s),
        lists(b, s),
    ensures
        a == b,
    decreases a.len() + b.len(),
{
    if a.len() == 0 {
        if b.len() > 0 {
            assert(b.to_set().contains(b[0]));
            assert(a.to_set().contains(b[0]));
        }
        assert(a =~= b);
    } else {
        lemma_last_is_same(a, b, s);
        lemma_last_is_same(b, a, s);
        lemma_one_listing(a.drop_last(), b.drop_last(), s.remove(a.last()));
        assert(a =~= a.drop_last().push(a.last()));
        assert(b =~= b.drop_last().push(b.last()));
    }
}

/// A listing is the listing.
pub proof fn lemma_ascending(l: Seq<u64>, s: Set<u64>)
    requires
        lists(l, s),
    ensures
        ascending(s) == l,
{
    lemma_one_listing(l, ascending(s), s);
}

proof fn largest(s: Set<u64>) -> (m: u64)
    requires
        s.finite(),
        s.len() > 0,
    ensures
        s.contains(m),
        forall|x: u64| #[trigger] s.contains(x) ==> x <= m,
    decreases s.len(),
{
    let x = s.choose();
    if s.len() == 1 {
        assert forall|y: u64| #[trigger] s.contains(y) implies y <= x by {
            Set::lemma_is_singleton(s);
        }
        x
    } else {
        let m = largest(s.remove(x));
        assert forall|y: u64| #[trigger] s.contains(y) implies y <= (if x > m {
            x
        } else {
            m
        }) by {
            if y != x {
                assert(s.remove(x).contains(y));
            }
        }
        if x > m {
            x
        } else {
            m
        }
    }
}

/// A finite set can be listed in ascending order.
pub proof fn lemma_can_list(s: Set<u64>)
    requires
        s.finite(),
    ensures
        lists(ascending(s), s),
    decreases s.len(),
{
    let l = if s.len() == 0 {
        Seq::<u64>::empty()
    } else {
        let m = largest(s);
        lemma_can_list(s.remove(m));
        ascending(s.remove(m)).push(m)
    };
    if s.len() == 0 {
        assert(l.to_set() =~= s);
    } else {
        let m = l.last();
        let front = ascending(s.remove(m));
        assert forall|i: int, j: int| 0 <= i < j < l.len() implies #[trigger] l[i]
            < #[trigger] l[j] by {
            assert(front.to_set().contains(front[i]));
            if j < front.len() {
                assert(front[i] < front[j]);
            }
        }
        assert forall|x: u64| l.to_set().contains(x) <==> s.contains(x) by {
            if l.contains(x) {
                let k = choose|k: int| 0 <= k < l.len() && l[k] == x;
                if k < front.len() {
                    assert(front.to_set().contains(front[k]));
                }
            }
            if s.contains(x) {
                if x == m {
                    assert(l[l.len() - 1] == x);
                } else {
                    assert(front.to_set().contains(x));
                    let k = choose|k: int| 0 <= k < front.len() && front[k] == x;
                    assert(l[k] == x);
                }
            }
        }
        assert(l.to_set() =~= s);
    }
    assert(lists(l, s));
}

/// The numbers come in ascending order, none of them twice.
pub open spec fn is_ascending(l: Seq<u64>) -> bool {
    forall|i: int, j: int| 0 <= i < j < l.len() ==> #[trigger] l[i] < #[trigger] l[j]
}

/// Puts a number where it belongs, unless it is there.
pub fn insert_ascending(l: &mut Vec<u64>, x: u64)
    requires
        is_ascending(old(l)@),
    ensures
        is_ascending(final(l)@),
        final(l)@.to_set() == old(l)@.to_set().insert(x),
{
    let ghost before = l@;
    let mut i: usize = 0;
    while i < l.len() && l[i] < x
        invariant
            i <= l@.len(),
            l@ == before,
            forall|k: int| 0 <= k < i ==> #[trigger] l@[k] < x,
        decreases l@.len() - i,
    {
        i = i + 1;
    }
    if i < l.len() && l[i] == x {
        assert(before.to_set().contains(x)) by {
            assert(before[i as int] == x);
        }
        assert(before.to_set().insert(x) =~= before.to_set());
        return;
    }
    l.insert(i, x);
    proof {
        assert(l@ =~= before.insert(i as int, x));
        assert(is_ascending(l@));
        assert forall|y: u64| l@.to_set().contains(y) <==> before.to_set().insert(x).contains(y) by {
            if l@.contains(y) {
                let k = choose|k: int| 0 <= k < l@.len() && l@[k] == y;
                if k < i {
                    assert(before[k] == y);
                } else if k > i {
                    assert(before[k - 1] == y);
                }
            }
            if before.contains(y) {
                let k = choose|k: int| 0 <= k < before.len() && before[k] == y;
                if k < i {
                    assert(l@[k] == y);
                } else {
                    assert(l@[k + 1] == y);
                }
            }
            assert(l@[i as int] == x);
        }
        assert(l@.to_set() =~= before.to_set().insert(x));
    }
}

/// The entries that have not expired.
pub open spec fn unexpired(m: Map<u64, EntryView>, now: i64) -> Map<u64, EntryView> {
    Map::new(|k: u64| m.contains_key(k) && !expired(m[k], now), |k: u64| m[k])
}

/// Sum of the lengths of the encoded entries under these hashes.
pub open spec fn bytes_under(m: Map<u64, EntryView>, l: Seq<u64>) -> nat
    decreases l.len(),
{
    if l.len() == 0 {
        0
    } else {
        bytes_under(m, l.drop_last()) + wire_len(m[l.last()])
    }
}

/// How many bytes the entries take.
pub open spec fn bytes_in_use(m: Map<u64, EntryView>) -> nat {
    bytes_under(m, ascending(m.dom()))
}

/// The number, or the largest one of 64 bits.
pub open spec fn capped(n: nat) -> u64 {
    if n > u64::MAX {
        u64::MAX
    } else {
        n as u64
    }
}

/// The entries of a map on this node.
#[derive(Debug)]
pub struct Fragment {
    slots: BTreeMap<u64, Entry>,
}

impl Fragment {
    /// Every entry that is stored can be stored.
    #[verifier::type_invariant]
    spec fn wf(self) -> bool {
        holds_storable(self.slots@)
    }
}

/// Every entry of the map can be stored.
spec fn holds_storable(m: Map<u64, Entry>) -> bool {
    forall|k: u64| #[trigger] m.contains_key(k) ==> entry_fault(m[k]@) is None
}

impl View for Fragment {
    type V = Map<u64, EntryView>;

    /// The entries, by the hash of their key.
    closed spec fn view(&self) -> Map<u64, EntryView> {
        self.slots@.map_values(|e: Entry| e@)
    }
}

impl Default for Fragment {
    fn default() -> (r: Self)
        ensures
            r@ == Map::<u64, EntryView>::empty(),
    {
        Fragment::new()
    }
}

impl Fragment {
    /// No entries.
    pub fn new() -> (r: Self)
        ensures
            r@ == Map::<u64, EntryView>::empty(),
    {
        let r = Fragment { slots: BTreeMap::new() };
        assert(r@ =~= Map::<u64, EntryView>::empty());
        r
    }

    /// Stores an entry in place of the one that was there.
    pub fn put(&mut self, hkey: u64, entry: Entry) -> (r: Result<(), StorageError>)
        ensures
            match entry_fault(entry@) {
                None => r is Ok && final(self)@ == old(self)@.insert(hkey, entry@),
                Some(f) => r is Err && r->Err_0@ == f && final(self)@ == old(self)@,
            },
    {
        match entry.check() {
            Err(e) => return Err(e),
            Ok(()) => {},
        }
        self.store(hkey, entry);
        Ok(())
    }

    /// Stores an entry that is known to be storable.
    pub(crate) fn store(&mut self, hkey: u64, entry: Entry)
        requires
            entry_fault(entry@) is None,
        ensures
            final(self)@ == old(self)@.insert(hkey, entry@),
    {
        proof {
            use_type_invariant(&*self);
        }
        let ghost before = self@;
        let mut slots: BTreeMap<u64, Entry> = BTreeMap::new();
        std::mem::swap(&mut slots, &mut self.slots);
        let _ = slots.insert(hkey, entry);
        self.slots = slots;
        assert(self@ =~= before.insert(hkey, entry@));
    }

    /// Stores an entry unless the one that is there was written at the same time
    /// or later. Says whether it did.
    pub fn put_lww(&mut self, hkey: u64, entry: Entry) -> (r: Result<bool, StorageError>)
        ensures
            match entry_fault(entry@) {
                None => r is Ok && r->Ok_0 == newer(old(self)@, hkey, entry@) && final(self)@
                    == merged(old(self)@, hkey, entry@),
                Some(f) => r is Err && r->Err_0@ == f && final(self)@ == old(self)@,
            },
    {
        match entry.check() {
            Err(e) => return Err(e),
            Ok(()) => {},
        }
        match self.get(hkey) {
            Some(existing) => if existing.timestamp_nanos >= entry.timestamp_nanos {
                return Ok(false);
            },
            None => {},
        }
        match self.put(hkey, entry) {
            Ok(()) => Ok(true),
            Err(e) => Err(e),
        }
    }

    /// The entry under a hash.
    pub fn get(&self, hkey: u64) -> (r: Option<&Entry>)
        ensures
            match r {
                Some(e) => self@.contains_key(hkey) && self@[hkey] == e@ && entry_fault(
                    e@,
                ) is None,
                None => !self@.contains_key(hkey),
            },
    {
        proof {
            use_type_invariant(self);
        }
        self.slots.get(&hkey)
    }

    /// Removes the entry under a hash, and says whether there was one.
    pub fn delete(&mut self, hkey: u64) -> (r: bool)
        ensures
            r == old(self)@.contains_key(hkey),
            final(self)@ == old(self)@.remove(hkey),
    {
        proof {
            use_type_invariant(&*self);
        }
        let ghost before = self@;
        let mut slots: BTreeMap<u64, Entry> = BTreeMap::new();
        std::mem::swap(&mut slots, &mut self.slots);
        let removed = slots.remove(&hkey);
        self.slots = slots;
        assert(self@ =~= before.remove(hkey));
        removed.is_some()
    }

    /// Removes everything.
    pub fn clear(&mut self)
        ensures
            final(self)@ == Map::<u64, EntryView>::empty(),
    {
        self.slots = BTreeMap::new();
        assert(self@ =~= Map::<u64, EntryView>::empty());
    }

    /// The hashes under which there are entries, in ascending order.
    pub fn hkeys(&self) -> (r: Vec<u64>)
        ensures
            lists(r@, self@.dom()),
            r@ == ascending(self@.dom()),
    {
        let mut out: Vec<u64> = Vec::new();
        for kv in it: self.slots.iter()
            invariant
                out@.len() == it.index(),
                forall|i: int| 0 <= i < out@.len() ==> #[trigger] out@[i] == *it.seq()[i].0,
                vstd::std_specs::btree::increasing_seq(
                    it.seq().map_values(|kv: (&u64, &Entry)| *kv.0),
                ),
                forall|i: int|
                    0 <= i < it.seq().len() ==> self.slots@.contains_key(
                        *(#[trigger] it.seq()[i]).0,
                    ),
                forall|k: u64| #[trigger]
                    self.slots@.contains_key(k) ==> it.seq().contains((&k, &self.slots@[k])),
                forall|i: int, j: int|
                    0 <= i < j < out@.len() ==> #[trigger] out@[i] < #[trigger] out@[j],
                forall|i: int|
                    0 <= i < out@.len() ==> self.slots@.contains_key(#[trigger] out@[i]),
                it.index() == it.seq().len() ==> forall|k: u64| #[trigger]
                    self.slots@.contains_key(k) ==> out@.contains(k),
        {
            let ghost mapped = it.seq().map_values(|kv: (&u64, &Entry)| *kv.0);
            out.push(*kv.0);
            proof {
                assert forall|i: int, j: int| 0 <= i < j < out@.len() implies #[trigger] out@[i]
                    < #[trigger] out@[j] by {
                    assert(mapped[i] == out@[i]);
                    assert(mapped[j] == out@[j]);
                    assert(mapped[i].cmp_spec(&mapped[j]) is Less);
                }
                assert forall|k: u64|
                    out@.len() == it.seq().len() && #[trigger] self.slots@.contains_key(
                        k,
                    ) implies out@.contains(k) by {
                    let i = choose|i: int|
                        0 <= i < it.seq().len() && it.seq()[i] == (&k, &self.slots@[k]);
                    assert(out@[i] == k);
                }
            }
        }
        proof {
            assert(self@.dom() =~= self.slots@.dom());
            assert(out@.to_set() =~= self@.dom());
            lemma_ascending(out@, self@.dom());
        }
        out
    }

    /// How many entries there are.
    pub fn len(&self) -> (r: usize)
        ensures
            r == self@.dom().len(),
    {
        assert(self@.dom() =~= self.slots@.dom());
        self.slots.len()
    }

    /// How many entries have not expired, and how many bytes they take.
    pub fn usage(&self, now: i64) -> (r: (usize, u64))
        ensures
            r.0 == unexpired(self@, now).dom().len(),
            r.1 == capped(bytes_in_use(unexpired(self@, now))),
    {
        let keys: Vec<u64> = self.hkeys();
        let ghost m = unexpired(self@, now);
        let ghost mut l: Seq<u64> = Seq::empty();
        let mut count: usize = 0;
        let mut total: u64 = 0;
        let mut i: usize = 0;
        while i < keys.len()
            invariant
                i <= keys@.len(),
                lists(keys@, self@.dom()),
                m == unexpired(self@, now),
                count == l.len(),
                count <= i,
                is_ascending(l),
                forall|k: int|
                    0 <= k < l.len() ==> m.contains_key(#[trigger] l[k]) && keys@.take(
                        i as int,
                    ).contains(l[k]),
                forall|k: int|
                    0 <= k < i && m.contains_key(#[trigger] keys@[k]) ==> l.contains(keys@[k]),
                total == capped(bytes_under(m, l)),
            decreases keys@.len() - i,
        {
            assert(self@.dom().contains(keys@[i as int])) by {
                assert(keys@.to_set().contains(keys@[i as int]));
            }
            let ghost next = keys@[i as int];
            let ghost seen = l;
            assert forall|k: int| 0 <= k < l.len() implies #[trigger] l[k] < next && keys@.take(
                i + 1,
            ).contains(l[k]) by {
                let j = choose|j: int| 0 <= j < i && keys@.take(i as int)[j] == l[k];
                assert(keys@[j] == l[k]);
                assert(keys@.take(i + 1)[j] == l[k]);
            }
            match self.get(keys[i]) {
                Some(e) => {
                    if !e.is_expired(now) {
                        count = count + 1;
                        total = total.saturating_add(e.encoded_len());
                        proof {
                            l = seen.push(next);
                            assert(l.drop_last() =~= seen);
                            assert(m[next] == e@);
                            assert(keys@.take(i + 1)[i as int] == next);
                            assert(l[seen.len() as int] == next);
                        }
                    }
                },
                None => {},
            }
            proof {
                assert forall|k: int|
                    0 <= k < i + 1 && m.contains_key(#[trigger] keys@[k]) implies l.contains(
                    keys@[k],
                ) by {
                    if k < i {
                        assert(seen.contains(keys@[k]));
                        let j = choose|j: int| 0 <= j < seen.len() && seen[j] == keys@[k];
                        assert(l[j] == keys@[k]);
                    } else {
                        assert(l[l.len() - 1] == next);
                    }
                }
            }
            i = i + 1;
        }
        proof {
            assert forall|x: u64| m.dom().contains(x) implies l.to_set().contains(x) by {
                assert(keys@.to_set().contains(x));
                let k = choose|k: int| 0 <= k < keys@.len() && keys@[k] == x;
                assert(l.contains(keys@[k]));
            }
            assert forall|x: u64| l.to_set().contains(x) implies m.dom().contains(x) by {
                let k = choose|k: int| 0 <= k < l.len() && l[k] == x;
                assert(m.contains_key(l[k]));
            }
            assert(l.to_set() =~= m.dom());
            lemma_ascending(l, m.dom());
            assert(l.no_duplicates());
            l.unique_seq_to_set();
        }
        (count, total)
    }

    /// How many bytes the entries take, or the largest number where they take
    /// more.
    pub fn inuse(&self) -> (r: u64)
        ensures
            r == capped(bytes_in_use(self@)),
    {
        let keys: Vec<u64> = self.hkeys();
        let mut total: u64 = 0;
        let mut i: usize = 0;
        assert(keys@.take(0) =~= Seq::empty());
        while i < keys.len()
            invariant
                i <= keys@.len(),
                lists(keys@, self@.dom()),
                total == capped(bytes_under(self@, keys@.take(i as int))),
            decreases keys@.len() - i,
        {
            let ghost front = keys@.take(i + 1);
            assert(front.drop_last() =~= keys@.take(i as int));
            assert(front.last() == keys@[i as int]);
            assert(self@.dom().contains(keys@[i as int])) by {
                assert(keys@.to_set().contains(keys@[i as int]));
            }
            match self.get(keys[i]) {
                Some(e) => {
                    total = total.saturating_add(e.encoded_len());
                },
                None => {},
            }
            i = i + 1;
        }
        assert(keys@.take(i as int) =~= keys@);
        total
    }
}

/// A fragment holds finitely many entries.
pub proof fn lemma_finite(f: Fragment)
    ensures
        f@.dom().finite(),
{
    assert(f@.dom() =~= f.slots@.dom());
}

/// Whether an entry wins over the one that is there.
pub open spec fn newer(m: Map<u64, EntryView>, hkey: u64, e: EntryView) -> bool {
    m.contains_key(hkey) ==> m[hkey].timestamp < e.timestamp
}

/// The entries once `e` was merged in.
pub open spec fn merged(m: Map<u64, EntryView>, hkey: u64, e: EntryView) -> Map<u64, EntryView> {
    if newer(m, hkey, e) {
        m.insert(hkey, e)
    } else {
        m
    }
}

/// Two entries of different times give the same map in whatever order they are
/// merged in.
pub proof fn law_merge_order_is_irrelevant(
    m: Map<u64, EntryView>,
    hkey: u64,
    a: EntryView,
    b: EntryView,
)
    requires
        a.timestamp != b.timestamp,
    ensures
        merged(merged(m, hkey, a), hkey, b) == merged(merged(m, hkey, b), hkey, a),
{
    assert(merged(merged(m, hkey, a), hkey, b) =~= merged(merged(m, hkey, b), hkey, a));
}

/// To merge an entry in twice changes nothing more, and no merge lets the
/// timestamp under a hash go back.
pub proof fn law_merge_is_idempotent(m: Map<u64, EntryView>, hkey: u64, e: EntryView)
    ensures
        merged(merged(m, hkey, e), hkey, e) == merged(m, hkey, e),
        merged(m, hkey, e).contains_key(hkey),
        merged(m, hkey, e)[hkey].timestamp >= e.timestamp,
        m.contains_key(hkey) ==> merged(m, hkey, e)[hkey].timestamp >= m[hkey].timestamp,
{
}

} // verus!
