//! The maps of a node.

use vstd::prelude::*;
use vstd::string::*;
use vstd::utf8::*;

use crate::client::dmap::{with_entries, DMapState};
use crate::client::embedded::{fresh, EmbeddedDMap};
use crate::client::entry::{entries_view, expired, Entry, EntryView};
use crate::client::error::{Error, ErrorView};
use crate::client::fragment::{
    ascending, bytes_in_use, capped, insert_ascending, is_ascending, lemma_ascending, lists, newer,
    unexpired,
};
use crate::client::migration::{
    all_storable, decode_fragment_payload, encode_fragment_payload, lemma_read_storable, payload,
    read_payload,
};
use crate::client::stats::{DMapStats, FigureView, Stats, StatsOptions};
use crate::client::types::{micros_to_nanos_i64, nanos_of, no_settings, DMapOptions};
use crate::cluster::routing::table::partition_for;
use crate::hasher::Hasher;
use crate::net::number_text;
use crate::text::{bytes_less, lemma_lex_total, lex_less, push_decimal, str_equal};

verus! {

/// A map under the name that it is registered under.
#[allow(missing_debug_implementations)]
struct Named<H: Hasher + Copy> {
    name: String,
    map: EmbeddedDMap<H>,
}

/// Mathematical value of a registered map.
pub ghost struct NamedState<H> {
    pub name: Seq<char>,
    pub map: DMapState<H>,
}

/// Mathematical value of an [`EmbeddedClient`].
#[verifier::ext_equal]
pub ghost struct ClientState<H> {
    pub hasher: H,
    pub partition_count: u32,
    /// The maps, in the order of their names.
    pub maps: Seq<NamedState<H>>,
}

/// Order of names.
pub open spec fn name_less(a: Seq<char>, b: Seq<char>) -> bool {
    lex_less(encode_utf8(a), encode_utf8(b))
}

/// The maps stand in the order of their names.
pub open spec fn in_order<H>(maps: Seq<NamedState<H>>) -> bool {
    forall|i: int, j: int|
        0 <= i < j < maps.len() ==> name_less(
            (#[trigger] maps[i]).name,
            (#[trigger] maps[j]).name,
        )
}

/// Where a name stands, or would stand.
pub open spec fn place<H>(maps: Seq<NamedState<H>>, name: Seq<char>, from: int) -> int
    decreases maps.len() - from,
{
    if 0 <= from < maps.len() && name_less(maps[from].name, name) {
        place(maps, name, from + 1)
    } else {
        from
    }
}

/// A map with this name is registered.
pub open spec fn registered<H>(maps: Seq<NamedState<H>>, name: Seq<char>) -> bool {
    place(maps, name, 0) < maps.len() && maps[place(maps, name, 0)].name == name
}

/// The map with this name.
pub open spec fn map_named<H>(maps: Seq<NamedState<H>>, name: Seq<char>) -> DMapState<H> {
    maps[place(maps, name, 0)].map
}

/// The maps once there is one with this name.
pub open spec fn with_map<H>(
    s: ClientState<H>,
    name: Seq<char>,
    options: DMapOptions,
) -> ClientState<H> {
    if registered(s.maps, name) {
        s
    } else {
        ClientState {
            maps: s.maps.insert(
                place(s.maps, name, 0),
                NamedState { name, map: fresh(name, options, s.hasher) },
            ),
            ..s
        }
    }
}

/// The maps with another state of a registered one.
pub open spec fn with_state<H>(
    s: ClientState<H>,
    name: Seq<char>,
    map: DMapState<H>,
) -> ClientState<H> {
    ClientState {
        maps: s.maps.update(place(s.maps, name, 0), NamedState { name, map }),
        ..s
    }
}

/// Partition of a key of a map.
pub open spec fn partition_of<H: Hasher>(
    hasher: H,
    count: u32,
    name: Seq<char>,
    key: Seq<u8>,
) -> u32 {
    (hasher.hash_of(encode_utf8(name) + key) as int % count as int) as u32
}

/// In an ordered list a name stands at its place, and nowhere else.
pub proof fn lemma_place<H>(maps: Seq<NamedState<H>>, name: Seq<char>, from: int)
    requires
        0 <= from <= maps.len(),
        in_order(maps),
        forall|i: int| 0 <= i < from ==> name_less((#[trigger] maps[i]).name, name),
    ensures
        from <= place(maps, name, from) <= maps.len(),
        forall|i: int|
            0 <= i < place(maps, name, from) ==> name_less((#[trigger] maps[i]).name, name),
        forall|i: int|
            place(maps, name, from) <= i < maps.len() ==> !name_less(
                (#[trigger] maps[i]).name,
                name,
            ),
        forall|i: int|
            place(maps, name, from) < i < maps.len() ==> name_less(name, (#[trigger] maps[i]).name),
        forall|i: int|
            0 <= i < maps.len() && (#[trigger] maps[i]).name == name ==> i == place(
                maps,
                name,
                from,
            ),
        place(maps, name, from) < maps.len() ==> maps[place(maps, name, from)].name == name
            || name_less(name, maps[place(maps, name, from)].name),
    decreases maps.len() - from,
{
    if from < maps.len() && name_less(maps[from].name, name) {
        lemma_place(maps, name, from + 1);
    } else {
        assert forall|i: int| from <= i < maps.len() implies !name_less(
            (#[trigger] maps[i]).name,
            name,
        ) && (i > from ==> name_less(name, maps[i].name)) by {
            lemma_names(maps[from].name, name);
            lemma_names(maps[i].name, name);
            if i > from {
                assert(name_less(maps[from].name, maps[i].name));
                if name_less(name, maps[from].name) {
                    crate::text::lemma_lex_transitive(
                        encode_utf8(name),
                        encode_utf8(maps[from].name),
                        encode_utf8(maps[i].name),
                    );
                }
            }
        }
        if from < maps.len() {
            lemma_names(maps[from].name, name);
        }
        lemma_names(name, name);
    }
}

proof fn lemma_names(a: Seq<char>, b: Seq<char>)
    ensures
        !name_less(a, a),
        name_less(a, b) ==> !name_less(b, a),
        name_less(a, b) || name_less(b, a) || a == b,
{
    lemma_lex_total(encode_utf8(a), encode_utf8(b));
    lemma_lex_total(encode_utf8(a), encode_utf8(a));
    encode_utf8_decode_utf8(a);
    encode_utf8_decode_utf8(b);
}

/// A new state of a map leaves the names as they are.
pub proof fn lemma_with_state<H>(s: ClientState<H>, name: Seq<char>, map: DMapState<H>)
    requires
        in_order(s.maps),
        registered(s.maps, name),
    ensures
        in_order(with_state(s, name, map).maps),
        registered(with_state(s, name, map).maps, name),
        map_named(with_state(s, name, map).maps, name) == map,
        place(with_state(s, name, map).maps, name, 0) == place(s.maps, name, 0),
{
    let t = with_state(s, name, map).maps;
    lemma_place(s.maps, name, 0);
    assert forall|i: int, j: int| 0 <= i < j < t.len() implies name_less(
        (#[trigger] t[i]).name,
        (#[trigger] t[j]).name,
    ) by {
        assert(name_less(s.maps[i].name, s.maps[j].name));
    }
    lemma_place(t, name, 0);
    assert(t[place(s.maps, name, 0)].name == name);
}

/// The maps of a node.
#[allow(missing_debug_implementations)]
pub struct EmbeddedClient<H: Hasher + Copy> {
    hasher: H,
    partition_count: u32,
    maps: Vec<Named<H>>,
}

impl<H: Hasher + Copy> View for EmbeddedClient<H> {
    type V = ClientState<H>;

    closed spec fn view(&self) -> ClientState<H> {
        ClientState {
            hasher: self.hasher,
            partition_count: self.partition_count,
            maps: Seq::new(
                self.maps@.len(),
                |i: int| NamedState { name: self.maps@[i].name@, map: self.maps@[i].map@ },
            ),
        }
    }
}

impl<H: Hasher + Copy> EmbeddedClient<H> {
    /// The maps stand in the order of their names.
    pub open spec fn wf(&self) -> bool {
        in_order(self@.maps)
    }

    /// No maps yet.
    pub fn new(hasher: H, partition_count: u32) -> (r: Self)
        ensures
            r.wf(),
            r@ == (ClientState { hasher, partition_count, maps: Seq::empty() }),
    {
        let r = EmbeddedClient { hasher, partition_count, maps: Vec::new() };
        assert(r@.maps =~= Seq::empty());
        r
    }

    /// Number of partitions.
    pub fn partition_count(&self) -> (r: u32)
        ensures
            r == self@.partition_count,
    {
        self.partition_count
    }

    fn position(&self, name: &str) -> (r: usize)
        requires
            self.wf(),
        ensures
            r == place(self@.maps, name@, 0),
            r <= self@.maps.len(),
    {
        let mut i: usize = 0;
        while i < self.maps.len() && bytes_less(
            self.maps[i].name.as_str().as_bytes(),
            name.as_bytes(),
        )
            invariant
                i <= self.maps@.len(),
                self.maps@.len() == self@.maps.len(),
                place(self@.maps, name@, 0) == place(self@.maps, name@, i as int),
            decreases self.maps@.len() - i,
        {
            assert(self@.maps[i as int].name == self.maps@[i as int].name@);
            i = i + 1;
        }
        i
    }

    fn is_at(&self, i: usize, name: &str) -> (r: bool)
        ensures
            r == (i < self@.maps.len() && self@.maps[i as int].name == name@),
    {
        i < self.maps.len() && str_equal(self.maps[i].name.as_str(), name)
    }

    /// The map with this name.
    pub fn dmap(&self, name: &str) -> (r: Option<&EmbeddedDMap<H>>)
        requires
            self.wf(),
        ensures
            match r {
                Some(m) => registered(self@.maps, name@) && m@ == map_named(self@.maps, name@),
                None => !registered(self@.maps, name@),
            },
    {
        let i: usize = self.position(name);
        if self.is_at(i, name) {
            Some(&self.maps[i].map)
        } else {
            None
        }
    }

    /// The maps, in the order of their names.
    pub fn registered_dmaps(&self) -> (r: Vec<&EmbeddedDMap<H>>)
        ensures
            r@.len() == self@.maps.len(),
            forall|i: int| 0 <= i < r@.len() ==> (#[trigger] r@[i])@ == self@.maps[i].map,
    {
        let mut out: Vec<&EmbeddedDMap<H>> = Vec::new();
        let mut i: usize = 0;
        while i < self.maps.len()
            invariant
                i <= self.maps@.len(),
                self.maps@.len() == self@.maps.len(),
                out@.len() == i,
                forall|k: int| 0 <= k < i ==> (#[trigger] out@[k])@ == self@.maps[k].map,
            decreases self.maps@.len() - i,
        {
            out.push(&self.maps[i].map);
            i = i + 1;
        }
        out
    }

    /// The map with this name.
    pub fn dmap_mut(&mut self, name: &str) -> (r: Option<&mut EmbeddedDMap<H>>)
        requires
            old(self).wf(),
        ensures
            match r {
                Some(m) => {
                    &&& registered(old(self)@.maps, name@)
                    &&& m@ == map_named(old(self)@.maps, name@)
                    &&& final(self)@ == with_state(old(self)@, name@, final(m)@)
                },
                None => !registered(old(self)@.maps, name@) && final(self)@ == old(self)@,
            },
            final(self).wf(),
    {
        let i: usize = self.position(name);
        if self.is_at(i, name) {
            proof {
                lemma_place(self@.maps, name@, 0);
                assert(self@.maps[i as int].map == self.maps@[i as int].map@);
                let s = self@;
                assert forall|m: DMapState<H>| in_order(
                    (#[trigger] with_state(s, name@, m)).maps,
                ) by {
                    lemma_with_state(s, name@, m);
                }
            }
            Some(&mut self.maps[i].map)
        } else {
            None
        }
    }

    /// Registers an empty map under this name, unless there is one.
    fn ensure_dmap(&mut self, name: &str, options: DMapOptions) -> (r: usize)
        requires
            old(self).wf(),
        ensures
            final(self).wf(),
            final(self)@ == with_map(old(self)@, name@, options),
            r == place(final(self)@.maps, name@, 0),
            r < final(self)@.maps.len(),
            final(self)@.maps[r as int].name == name@,
    {
        let i: usize = self.position(name);
        let ghost start = self@;
        proof {
            lemma_place(start.maps, name@, 0);
        }
        if !self.is_at(i, name) {
            let map = EmbeddedDMap::new(name, options, self.hasher);
            self.maps.insert(i, Named { name: name.to_owned(), map });
            proof {
                assert(self@ =~= with_map(start, name@, options));
                assert forall|a: int, b: int| 0 <= a < b < self@.maps.len() implies name_less(
                    (#[trigger] self@.maps[a]).name,
                    (#[trigger] self@.maps[b]).name,
                ) by {
                    if a < i && b > i {
                        assert(name_less(start.maps[a].name, start.maps[b - 1].name));
                    } else if a > i {
                        assert(name_less(start.maps[a - 1].name, start.maps[b - 1].name));
                    } else if b < i {
                        assert(name_less(start.maps[a].name, start.maps[b].name));
                    } else if a == i {
                        lemma_names(start.maps[b - 1].name, name@);
                        assert(!name_less(start.maps[b - 1].name, name@));
                    } else {
                        assert(name_less(start.maps[a].name, name@));
                    }
                }
                lemma_place(self@.maps, name@, 0);
                assert(self@.maps[i as int].name == name@);
            }
        }
        i
    }

    /// The map with this name. It is made with these settings where there is
    /// none; the settings of one that is there stay.
    pub fn get_or_create(&mut self, name: &str, options: DMapOptions) -> (r: &mut EmbeddedDMap<H>)
        requires
            old(self).wf(),
        ensures
            r@ == map_named(with_map(old(self)@, name@, options).maps, name@),
            final(self)@ == with_state(with_map(old(self)@, name@, options), name@, final(r)@),
            final(self).wf(),
    {
        let i: usize = self.ensure_dmap(name, options);
        proof {
            assert(self@.maps[i as int].map == self.maps@[i as int].map@);
            let s = self@;
            assert forall|m: DMapState<H>| in_order(
                (#[trigger] with_state(s, name@, m)).maps,
            ) by {
                lemma_with_state(s, name@, m);
            }
        }
        &mut self.maps[i].map
    }

    /// Forgets all maps.
    pub fn close(&mut self)
        ensures
            final(self).wf(),
            final(self)@ == (ClientState { maps: Seq::empty(), ..old(self)@ }),
    {
        self.maps = Vec::new();
        assert(self@.maps =~= Seq::empty());
    }

    /// Pinging a node is not for a client that has none.
    pub fn ping(&self, _addr: &str) -> (r: Result<(), Error>)
        ensures
            r is Err,
            r->Err_0@ == ErrorView::Unsupported("ping"@),
    {
        Err(Error::Unsupported("ping"))
    }

    /// There is no metadata to refresh.
    pub fn refresh_metadata(&self) -> (r: Result<(), Error>)
        ensures
            r is Err,
            r->Err_0@ == ErrorView::Unsupported("refresh_metadata"@),
    {
        Err(Error::Unsupported("refresh_metadata"))
    }
}

// ---------------------------------------------------------------------------
// Partitions
// ---------------------------------------------------------------------------

/// Of the entries under these hashes, those of a partition that have not
/// expired.
pub open spec fn exported_under<H: Hasher>(
    s: ClientState<H>,
    name: Seq<char>,
    l: Seq<u64>,
    partition_id: u32,
    now: i64,
) -> Seq<EntryView>
    decreases l.len(),
{
    if l.len() == 0 {
        Seq::empty()
    } else {
        let front = exported_under(s, name, l.drop_last(), partition_id, now);
        let e = map_named(s.maps, name).entries[l.last()];
        if !expired(e, now) && partition_of(s.hasher, s.partition_count, name, e.key)
            == partition_id {
            front.push(e)
        } else {
            front
        }
    }
}

/// The entries of a partition that have not expired; none where there is no such
/// map.
pub open spec fn exported<H: Hasher>(
    s: ClientState<H>,
    name: Seq<char>,
    partition_id: u32,
    now: i64,
) -> Seq<EntryView> {
    if registered(s.maps, name) {
        exported_under(
            s,
            name,
            ascending(map_named(s.maps, name).entries.dom()),
            partition_id,
            now,
        )
    } else {
        Seq::empty()
    }
}

/// The map once these entries of another node were merged in, one by one.
pub open spec fn imported<H: Hasher>(s: DMapState<H>, entries: Seq<EntryView>) -> DMapState<H>
    decreases entries.len(),
{
    if entries.len() == 0 {
        s
    } else {
        crate::client::dmap::taken_in(imported(s, entries.drop_last()), entries.last())
    }
}

/// How many of the entries were newer than what was there.
pub open spec fn applied_count<H: Hasher>(s: DMapState<H>, entries: Seq<EntryView>) -> nat
    decreases entries.len(),
{
    if entries.len() == 0 {
        0
    } else {
        let before = imported(s, entries.drop_last());
        let e = entries.last();
        applied_count(s, entries.drop_last()) + if newer(
            before.entries,
            before.hasher.hash_of(e.key),
            e,
        ) {
            1nat
        } else {
            0nat
        }
    }
}

/// Why the entries of a partition are refused.
pub open spec fn import_fault(partition_id: u32, bytes: Seq<u8>) -> Option<ErrorView> {
    match read_payload(bytes) {
        Err(e) => Some(e),
        Ok(p) => if p.0 != partition_id {
            Some(
                ErrorView::InvalidArgument(
                    "fragment payload partition_id "@ + number_text(p.0 as int)
                        + " != verb partition_id "@ + number_text(partition_id as int),
                ),
            )
        } else {
            None
        },
    }
}

/// The entries that a payload brings.
pub open spec fn brought(bytes: Seq<u8>) -> Seq<EntryView> {
    match read_payload(bytes) {
        Ok(p) => p.1,
        Err(_) => Seq::empty(),
    }
}

/// The entries that are not of this partition.
pub open spec fn cleared<H: Hasher>(
    s: ClientState<H>,
    name: Seq<char>,
    partition_id: u32,
) -> Map<u64, EntryView> {
    let m = map_named(s.maps, name).entries;
    m.restrict(
        m.dom().filter(
            |k: u64|
                partition_of(s.hasher, s.partition_count, name, m[k].key) != partition_id,
        ),
    )
}

/// The partitions that a map has entries of which have not expired.
pub open spec fn partitions_held<H: Hasher>(s: ClientState<H>, i: int, now: i64) -> Set<u64> {
    let m = s.maps[i].map.entries;
    Set::new(
        |p: u64|
            exists|k: u64| #[trigger]
                m.contains_key(k) && !expired(m[k], now) && p == partition_of(
                    s.hasher,
                    s.partition_count,
                    s.maps[i].name,
                    m[k].key,
                ),
    )
}

/// A partition of a map.
pub ghost struct PlaceView {
    pub name: Seq<char>,
    pub partition: u64,
}

/// The partitions that the first `n` maps have entries of which have not
/// expired, by name and number.
pub open spec fn places<H: Hasher>(s: ClientState<H>, n: int, now: i64) -> Seq<PlaceView>
    decreases n,
{
    if n <= 0 {
        Seq::empty()
    } else {
        let ids = ascending(partitions_held(s, n - 1, now));
        places(s, n - 1, now) + Seq::new(
            ids.len(),
            |k: int| PlaceView { name: s.maps[n - 1].name, partition: ids[k] },
        )
    }
}

/// Values of a list of partitions.
pub open spec fn places_view(l: Seq<(String, u32)>) -> Seq<PlaceView> {
    Seq::new(l.len(), |i: int| PlaceView { name: l[i].0@, partition: l[i].1 as u64 })
}

/// Figures of the first `n` maps.
pub open spec fn figures<H>(s: ClientState<H>, n: int, now: i64) -> Seq<FigureView> {
    Seq::new(
        n as nat,
        |i: int|
            FigureView {
                name: s.maps[i].name,
                stats: DMapStats {
                    len: unexpired(s.maps[i].map.entries, now).dom().len() as usize,
                    inuse: capped(bytes_in_use(unexpired(s.maps[i].map.entries, now))),
                },
            },
    )
}

impl<H: Hasher + Copy> EmbeddedClient<H> {
    /// Partition of a key of a map.
    pub fn partition_for(&self, dmap: &str, key: &[u8]) -> (r: u32)
        requires
            self@.partition_count > 0,
        ensures
            r == partition_of(self@.hasher, self@.partition_count, dmap@, key@),
            r < self@.partition_count,
    {
        partition_for(&self.hasher, dmap.as_bytes(), key, self.partition_count)
    }

    /// Figures of each map.
    pub fn stats(&self, _options: StatsOptions, now_micros: u64) -> (r: Stats)
        ensures
            r@ == figures(self@, self@.maps.len() as int, nanos_of(now_micros)),
    {
        let mut out: Stats = Stats::default();
        let now: i64 = micros_to_nanos_i64(now_micros);
        let mut i: usize = 0;
        assert(figures(self@, 0, now) =~= Seq::empty());
        while i < self.maps.len()
            invariant
                i <= self.maps@.len(),
                self.maps@.len() == self@.maps.len(),
                out@ == figures(self@, i as int, now),
            decreases self.maps@.len() - i,
        {
            assert(self@.maps[i as int].map == self.maps@[i as int].map@);
            assert(self@.maps[i as int].name == self.maps@[i as int].name@);
            let ghost before = out@;
            let (len, inuse) = self.maps[i].map.fragment().usage(now);
            let ghost next = FigureView {
                name: self@.maps[i as int].name,
                stats: DMapStats { len, inuse },
            };
            out.dmaps.push((self.maps[i].name.as_str().to_owned(), DMapStats { len, inuse }));
            assert(out@ =~= before.push(next));
            assert(out@ =~= figures(self@, i + 1, now));
            i = i + 1;
        }
        out
    }

    /// The partitions that the `i`th map has entries of which have not expired.
    fn partitions_at(&self, i: usize, now: i64) -> (r: Vec<u64>)
        requires
            i < self@.maps.len(),
            self@.partition_count > 0,
        ensures
            r@ == ascending(partitions_held(self@, i as int, now)),
            forall|k: int| 0 <= k < r@.len() ==> #[trigger] r@[k] < self@.partition_count,
    {
        let fragment = self.maps[i].map.fragment();
        let keys: Vec<u64> = fragment.hkeys();
        let ghost s = self@;
        let ghost m = s.maps[i as int].map.entries;
        assert(s.maps[i as int].map == self.maps@[i as int].map@);
        let mut out: Vec<u64> = Vec::new();
        let mut k: usize = 0;
        assert(out@.to_set() =~= Set::empty());
        while k < keys.len()
            invariant
                k <= keys@.len(),
                i < self.maps@.len(),
                s == self@,
                s.partition_count > 0,
                s.maps[i as int].map.entries == m,
                s.maps[i as int].name == self.maps@[i as int].name@,
                fragment@ == m,
                lists(keys@, m.dom()),
                is_ascending(out@),
                forall|x: u64| #[trigger]
                    out@.to_set().contains(x) <==> exists|j: int|
                        0 <= j < k && !expired(m[#[trigger] keys@[j]], now) && x
                            == partition_of(
                            s.hasher,
                            s.partition_count,
                            s.maps[i as int].name,
                            m[keys@[j]].key,
                        ),
                forall|x: u64| #[trigger] out@.to_set().contains(x) ==> x < s.partition_count,
            decreases keys@.len() - k,
        {
            assert(m.dom().contains(keys@[k as int])) by {
                assert(keys@.to_set().contains(keys@[k as int]));
            }
            match fragment.get(keys[k]) {
                Some(e) => if !e.is_expired(now) {
                    let p: u32 = self.partition_for(
                        self.maps[i].name.as_str(),
                        e.key.as_slice(),
                    );
                    let ghost before = out@.to_set();
                    insert_ascending(&mut out, p as u64);
                    assert forall|x: u64| #[trigger]
                        out@.to_set().contains(x) <==> exists|j: int|
                            0 <= j < k + 1 && !expired(m[#[trigger] keys@[j]], now) && x
                                == partition_of(
                                s.hasher,
                                s.partition_count,
                                s.maps[i as int].name,
                                m[keys@[j]].key,
                            ) by {
                        assert(m[keys@[k as int]] == e@);
                        assert(out@.to_set().contains(x) <==> before.contains(x) || x == p);
                    }
                },
                None => {},
            }
            k = k + 1;
        }
        proof {
            let held = partitions_held(s, i as int, now);
            assert forall|x: u64| out@.to_set().contains(x) <==> held.contains(x) by {
                if held.contains(x) {
                    let h = choose|h: u64| #[trigger]
                        m.contains_key(h) && !expired(m[h], now) && x == partition_of(
                            s.hasher,
                            s.partition_count,
                            s.maps[i as int].name,
                            m[h].key,
                        );
                    assert(keys@.to_set().contains(h));
                    let j = choose|j: int| 0 <= j < keys@.len() && keys@[j] == h;
                    assert(m[keys@[j]] == m[h]);
                }
                if out@.to_set().contains(x) {
                    let j = choose|j: int|
                        0 <= j < k && !expired(m[#[trigger] keys@[j]], now) && x
                            == partition_of(
                            s.hasher,
                            s.partition_count,
                            s.maps[i as int].name,
                            m[keys@[j]].key,
                        );
                    assert(keys@.to_set().contains(keys@[j]));
                    assert(m.contains_key(keys@[j]));
                }
            }
            assert(out@.to_set() =~= held);
            lemma_ascending(out@, held);
            assert forall|k: int| 0 <= k < out@.len() implies #[trigger] out@[k]
                < s.partition_count by {
                assert(out@.to_set().contains(out@[k]));
            }
        }
        out
    }

    /// The partitions that this node has entries of which have not expired, by
    /// name and number.
    pub fn local_partitions(&self, now_micros: u64) -> (r: Vec<(String, u32)>)
        requires
            self@.partition_count > 0,
        ensures
            places_view(r@) == places(self@, self@.maps.len() as int, nanos_of(now_micros)),
    {
        let now: i64 = micros_to_nanos_i64(now_micros);
        let mut out: Vec<(String, u32)> = Vec::new();
        let mut i: usize = 0;
        assert(places_view(out@) =~= Seq::empty());
        while i < self.maps.len()
            invariant
                i <= self.maps@.len(),
                self.maps@.len() == self@.maps.len(),
                self@.partition_count > 0,
                places_view(out@) == places(self@, i as int, now),
            decreases self.maps@.len() - i,
        {
            let ids: Vec<u64> = self.partitions_at(i, now);
            let ghost before = places_view(out@);
            let ghost name = self@.maps[i as int].name;
            let mut k: usize = 0;
            let ghost added = Seq::new(
                ids@.len(),
                |k: int| PlaceView { name, partition: ids@[k] },
            );
            assert(before + added.take(0) =~= before);
            while k < ids.len()
                invariant
                    k <= ids@.len(),
                    i < self.maps@.len(),
                    name == self.maps@[i as int].name@,
                    forall|j: int| 0 <= j < ids@.len() ==> #[trigger] ids@[j] <= u32::MAX,
                    added == Seq::new(
                        ids@.len(),
                        |k: int| PlaceView { name, partition: ids@[k] },
                    ),
                    places_view(out@) == before + added.take(k as int),
                decreases ids@.len() - k,
            {
                let ghost front = places_view(out@);
                out.push((self.maps[i].name.as_str().to_owned(), ids[k] as u32));
                assert(places_view(out@) =~= front.push(added[k as int]));
                assert(added.take(k + 1) =~= added.take(k as int).push(added[k as int]));
                assert(places_view(out@) =~= before + added.take(k + 1));
                k = k + 1;
            }
            assert(added.take(k as int) =~= added);
            i = i + 1;
        }
        out
    }

    /// The entries of a partition, for a node that takes it over.
    pub fn export_partition(&self, dmap: &str, partition_id: u32, now_micros: u64) -> (r: Vec<u8>)
        requires
            self.wf(),
            self@.partition_count > 0,
        ensures
            r@ == payload(
                partition_id,
                exported(self@, dmap@, partition_id, nanos_of(now_micros)),
            ),
    {
        let mut entries: Vec<Entry> = Vec::new();
        let now: i64 = micros_to_nanos_i64(now_micros);
        let ghost s = self@;
        assert(entries_view(entries@) =~= Seq::empty());
        match self.dmap(dmap) {
            None => {},
            Some(map) => {
                let fragment = map.fragment();
                let keys: Vec<u64> = fragment.hkeys();
                let ghost m = map_named(s.maps, dmap@).entries;
                let mut i: usize = 0;
                assert(keys@.take(0) =~= Seq::empty());
                while i < keys.len()
                    invariant
                        i <= keys@.len(),
                        s == self@,
                        s.partition_count > 0,
                        fragment@ == m,
                        m == map_named(s.maps, dmap@).entries,
                        lists(keys@, m.dom()),
                        all_storable(entries_view(entries@)),
                        entries_view(entries@) == exported_under(
                            s,
                            dmap@,
                            keys@.take(i as int),
                            partition_id,
                            now,
                        ),
                    decreases keys@.len() - i,
                {
                    let ghost front = keys@.take(i + 1);
                    let ghost before = entries_view(entries@);
                    assert(front.drop_last() =~= keys@.take(i as int));
                    assert(front.last() == keys@[i as int]);
                    assert(m.dom().contains(keys@[i as int])) by {
                        assert(keys@.to_set().contains(keys@[i as int]));
                    }
                    match fragment.get(keys[i]) {
                        Some(e) => {
                            if !e.is_expired(now) && self.partition_for(dmap, e.key.as_slice())
                                == partition_id {
                                entries.push(e.clone());
                                assert(entries_view(entries@) =~= before.push(e@));
                            }
                        },
                        None => {},
                    }
                    i = i + 1;
                }
                assert(keys@.take(i as int) =~= keys@);
            },
        }
        encode_fragment_payload(partition_id, &entries)
    }

    /// Takes in the entries of a partition. An entry goes in unless what is there
    /// is as new; says how many did.
    pub fn import_partition(&mut self, dmap: &str, partition_id: u32, bytes: &[u8]) -> (r: Result<
        u32,
        Error,
    >)
        requires
            old(self).wf(),
        ensures
            final(self).wf(),
            match import_fault(partition_id, bytes@) {
                Some(e) => r is Err && r->Err_0@ == e && final(self)@ == old(self)@,
                None => {
                    let there = with_map(old(self)@, dmap@, no_settings());
                    let map = map_named(there.maps, dmap@);
                    &&& r is Ok
                    &&& r->Ok_0 == applied_count(map, brought(bytes@))
                    &&& final(self)@ == with_state(there, dmap@, imported(map, brought(bytes@)))
                },
            },
    {
        let (part, entries) = match decode_fragment_payload(bytes) {
            Ok(p) => p,
            Err(e) => return Err(e),
        };
        if part != partition_id {
            let mut m: String = "fragment payload partition_id ".to_owned();
            push_decimal(&mut m, part as u64);
            m.append(" != verb partition_id ");
            push_decimal(&mut m, partition_id as u64);
            return Err(Error::InvalidArgument(m));
        }
        proof {
            lemma_read_storable(bytes@);
        }
        let ghost all = entries_view(entries@);
        let map = self.get_or_create(dmap, DMapOptions::default());
        let ghost start = map@;
        let mut applied: u32 = 0;
        let mut i: usize = 0;
        assert(all.take(0) =~= Seq::empty());
        while i < entries.len()
            invariant
                i <= entries@.len(),
                all == entries_view(entries@),
                all.len() <= u32::MAX,
                all_storable(all),
                applied <= i,
                applied == applied_count(start, all.take(i as int)),
                map@ == imported(start, all.take(i as int)),
            decreases entries@.len() - i,
        {
            assert(all[i as int] == entries@[i as int]@);
            assert(all.take(i + 1).drop_last() =~= all.take(i as int));
            assert(all.take(i + 1).last() == all[i as int]);
            match map.merge(entries[i].clone()) {
                Ok(won) => if won {
                    applied = applied + 1;
                },
                Err(_) => {},
            }
            i = i + 1;
        }
        assert(all.take(i as int) =~= all);
        Ok(applied)
    }

    /// Removes the entries of a partition; says how many there were, or the
    /// largest number where there were more.
    pub fn clear_partition(&mut self, dmap: &str, partition_id: u32) -> (r: u32)
        requires
            old(self).wf(),
            old(self)@.partition_count > 0,
        ensures
            final(self).wf(),
            if registered(old(self)@.maps, dmap@) {
                let m = map_named(old(self)@.maps, dmap@);
                let rest = cleared(old(self)@, dmap@, partition_id);
                let n = m.entries.dom().difference(rest.dom()).len();
                &&& final(self)@ == with_state(old(self)@, dmap@, with_entries(m, rest))
                &&& r == if n > u32::MAX {
                    u32::MAX as int
                } else {
                    n as int
                }
            } else {
                r == 0 && final(self)@ == old(self)@
            },
    {
        let at: usize = self.position(dmap);
        if !self.is_at(at, dmap) {
            return 0;
        }
        let ghost s = self@;
        let ghost start = map_named(s.maps, dmap@);
        let ghost m = start.entries;
        let ghost rest = cleared(s, dmap@, partition_id);
        proof {
            lemma_place(s.maps, dmap@, 0);
            assert(s.maps[at as int].map == self.maps@[at as int].map@);
        }
        let keys: Vec<u64> = self.maps[at].map.fragment().hkeys();
        let mut victims: Vec<u64> = Vec::new();
        let mut i: usize = 0;
        while i < keys.len()
            invariant
                i <= keys@.len(),
                s == self@,
                at < self.maps@.len(),
                self.maps@[at as int].map@.entries == m,
                m == map_named(s.maps, dmap@).entries,
                s.partition_count > 0,
                lists(keys@, m.dom()),
                rest == cleared(s, dmap@, partition_id),
                is_ascending(victims@),
                forall|k: int|
                    0 <= k < victims@.len() ==> m.contains_key(#[trigger] victims@[k])
                        && !rest.contains_key(victims@[k]) && keys@.take(i as int).contains(
                        victims@[k],
                    ),
                forall|k: int|
                    0 <= k < i && !rest.contains_key(#[trigger] keys@[k]) ==> victims@.contains(
                        keys@[k],
                    ),
            decreases keys@.len() - i,
        {
            let ghost next = keys@[i as int];
            let ghost seen = victims@;
            assert(m.dom().contains(next)) by {
                assert(keys@.to_set().contains(next));
            }
            assert forall|k: int| 0 <= k < seen.len() implies #[trigger] seen[k] < next
                && keys@.take(i + 1).contains(seen[k]) by {
                let j = choose|j: int| 0 <= j < i && keys@.take(i as int)[j] == seen[k];
                assert(keys@[j] == seen[k]);
                assert(keys@.take(i + 1)[j] == seen[k]);
            }
            match self.maps[at].map.fragment().get(keys[i]) {
                Some(e) => {
                    if self.partition_for(dmap, e.key.as_slice()) == partition_id {
                        victims.push(keys[i]);
                        assert(keys@.take(i + 1)[i as int] == next);
                        assert(victims@[seen.len() as int] == next);
                    }
                },
                None => {},
            }
            assert forall|k: int|
                0 <= k < i + 1 && !rest.contains_key(#[trigger] keys@[k]) implies victims@.contains(
                keys@[k],
            ) by {
                if k < i {
                    let j = choose|j: int| 0 <= j < seen.len() && seen[j] == keys@[k];
                    assert(victims@[j] == keys@[k]);
                } else {
                    assert(victims@[victims@.len() - 1] == next);
                }
            }
            i = i + 1;
        }
        proof {
            let gone = m.dom().difference(rest.dom());
            assert forall|x: u64| gone.contains(x) implies victims@.to_set().contains(x) by {
                assert(keys@.to_set().contains(x));
                let k = choose|k: int| 0 <= k < keys@.len() && keys@[k] == x;
                assert(victims@.contains(keys@[k]));
            }
            assert(victims@.to_set() =~= gone);
            assert(victims@.no_duplicates());
            victims@.unique_seq_to_set();
        }
        let count: usize = victims.len();
        let map = &mut self.maps[at].map;
        let mut k: usize = 0;
        while k < victims.len()
            invariant
                k <= victims@.len(),
                is_ascending(victims@),
                map@ == with_entries(start, map@.entries),
                forall|x: u64| #[trigger]
                    map@.entries.contains_key(x) <==> m.contains_key(x) && !victims@.take(
                        k as int,
                    ).contains(x),
                forall|x: u64| #[trigger] map@.entries.contains_key(x) ==> map@.entries[x] == m[x],
            decreases victims@.len() - k,
        {
            let ghost before = victims@.take(k as int);
            let ghost more = victims@.take(k + 1);
            assert(more =~= before.push(victims@[k as int]));
            assert forall|x: u64| #[trigger] more.contains(x) <==> before.contains(x) || x
                == victims@[k as int] by {
                if before.contains(x) {
                    let j = choose|j: int| 0 <= j < before.len() && before[j] == x;
                    assert(more[j] == x);
                }
                assert(more[k as int] == victims@[k as int]);
            }
            let _ = map.remove(victims[k]);
            k = k + 1;
        }
        proof {
            assert(victims@.take(k as int) =~= victims@);
            assert forall|x: u64| map@.entries.contains_key(x) <==> rest.contains_key(x) by {
                assert(victims@.contains(x) <==> victims@.to_set().contains(x));
            }
            assert(map@.entries =~= rest);
            lemma_with_state(s, dmap@, with_entries(start, rest));
        }
        assert(self@ =~= with_state(s, dmap@, with_entries(start, rest)));
        if count as u64 > u32::MAX as u64 {
            u32::MAX
        } else {
            count as u32
        }
    }
}

} // verus!
