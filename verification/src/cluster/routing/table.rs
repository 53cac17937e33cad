//! The routing table: which members own each partition.

use std::collections::HashMap;

use vstd::prelude::*;

use crate::cluster::routing::ring::{assign, backup_ids, ids_of, primary_ids, Assignment};
use crate::hasher::Hasher;
use crate::ids::MemberId;
use crate::member::{members_view, Member, MemberView};
use crate::text::push_bytes;

verus! {

broadcast use vstd::std_specs::hash::group_hash_axioms;

/// Current schema of the routing table.
pub const ROUTING_SCHEMA_VERSION: u16 = 1;

/// Cluster-wide partition map.
#[derive(Debug)]
pub struct RoutingTable {
    /// Schema that the table was written with.
    pub schema_version: u16,
    /// Clock that the coordinator advances on every change of the topology. A
    /// node takes a table only if its signature is above that of its own.
    pub signature: u64,
    /// Members, sorted by birthdate and id: the first was the coordinator when
    /// the table was built.
    pub members: Vec<Member>,
    /// Owners of each partition: the current primary, then earlier ones that
    /// may still hold a part of the data.
    pub primary: HashMap<u32, Vec<Member>>,
    /// Backups of each partition, nearest on the ring first.
    pub backup: HashMap<u32, Vec<Member>>,
}

/// Mathematical value of a [`RoutingTable`].
pub ghost struct TableView {
    pub schema_version: u16,
    pub signature: u64,
    pub members: Seq<MemberView>,
    pub primary: Map<u32, Seq<MemberView>>,
    pub backup: Map<u32, Seq<MemberView>>,
}

/// Values of a map of member lists.
pub open spec fn lists_view(m: Map<u32, Vec<Member>>) -> Map<u32, Seq<MemberView>> {
    m.map_values(|v: Vec<Member>| members_view(v@))
}

impl View for RoutingTable {
    type V = TableView;

    open spec fn view(&self) -> TableView {
        TableView {
            schema_version: self.schema_version,
            signature: self.signature,
            members: members_view(self.members@),
            primary: lists_view(self.primary@),
            backup: lists_view(self.backup@),
        }
    }
}

/// The last of the members with this id.
pub open spec fn member_with(members: Seq<MemberView>, id: MemberId) -> MemberView
    decreases members.len(),
{
    if members.len() <= 1 || members.last().id == id {
        members.last()
    } else {
        member_with(members.drop_last(), id)
    }
}

/// The members with these ids.
pub open spec fn members_with(members: Seq<MemberView>, ids: Seq<MemberId>) -> Seq<MemberView> {
    Seq::new(ids.len(), |i: int| member_with(members, ids[i]))
}

/// Number of backups for a number of replicas, which counts the primary.
pub open spec fn backups_wanted(replica_count: u32) -> nat {
    if replica_count == 0 {
        0
    } else {
        (replica_count - 1) as nat
    }
}

/// The table that is built for these members: of each partition the assigned
/// primary and backups.
pub open spec fn table_for<H: Hasher>(
    h: &H,
    members: Seq<MemberView>,
    partition_count: u32,
    vnodes: u32,
    capacity: u32,
    replica_count: u32,
    signature: u64,
) -> TableView {
    let ids = member_ids(members);
    let primary = primary_ids(h, ids, vnodes as nat, capacity as nat, partition_count as nat);
    let backup = backup_ids(
        h,
        ids,
        vnodes as nat,
        capacity as nat,
        partition_count as nat,
        backups_wanted(replica_count),
    );
    TableView {
        schema_version: ROUTING_SCHEMA_VERSION,
        signature,
        members,
        primary: Map::new(
            |p: u32| p < partition_count,
            |p: u32| seq![member_with(members, primary[p as int])],
        ),
        backup: Map::new(
            |p: u32| p < partition_count,
            |p: u32| members_with(members, backup[p as int]),
        ),
    }
}

/// Ids of a list of members.
pub open spec fn member_ids(members: Seq<MemberView>) -> Seq<u64> {
    Seq::new(members.len(), |i: int| members[i].id.0)
}

/// A copy of the last member with this id, or of the first member where none
/// has it.
fn find_member(members: &Vec<Member>, id: MemberId) -> (r: Member)
    requires
        members@.len() > 0,
    ensures
        r@ == member_with(members_view(members@), id),
{
    let ghost all = members_view(members@);
    let mut i: usize = members.len();
    assert(all.take(i as int) =~= all);
    while i > 1 && members[i - 1].id != id
        invariant
            1 <= i <= members@.len(),
            all == members_view(members@),
            member_with(all, id) == member_with(all.take(i as int), id),
        decreases i,
    {
        let ghost front = all.take(i as int);
        assert(front.last() == all[i - 1]);
        assert(front.drop_last() =~= all.take(i - 1));
        i = i - 1;
    }
    assert(all.take(i as int).last() == all[i - 1]);
    members[i - 1].clone()
}

/// Copies of the members with these ids.
fn find_members(members: &Vec<Member>, ids: &Vec<MemberId>) -> (r: Vec<Member>)
    requires
        members@.len() > 0,
    ensures
        members_view(r@) == members_with(members_view(members@), ids@),
{
    let mut out: Vec<Member> = Vec::new();
    let mut i: usize = 0;
    while i < ids.len()
        invariant
            i <= ids@.len(),
            members@.len() > 0,
            out@.len() == i,
            forall|j: int|
                0 <= j < i ==> (#[trigger] out@[j])@ == member_with(
                    members_view(members@),
                    ids@[j],
                ),
        decreases ids@.len() - i,
    {
        out.push(find_member(members, ids[i]));
        i = i + 1;
    }
    assert(members_view(out@) =~= members_with(members_view(members@), ids@));
    out
}

impl RoutingTable {
    /// Builds the table for `members`: each partition has its assigned primary
    /// as its only owner. `None` comes back where there is no member or no
    /// partition.
    pub fn build<H: Hasher>(
        members: Vec<Member>,
        hasher: &H,
        partition_count: u32,
        virtual_nodes_per_member: u32,
        capacity: u32,
        replica_count: u32,
        signature: u64,
    ) -> (r: Option<Self>)
        requires
            members@.len() > 0 && partition_count > 0 ==> virtual_nodes_per_member > 0,
        ensures
            r is None <==> members@.len() == 0 || partition_count == 0,
            r matches Some(t) ==> {
                &&& t@ == table_for(
                    hasher,
                    members_view(members@),
                    partition_count,
                    virtual_nodes_per_member,
                    capacity,
                    replica_count,
                    signature,
                )
                &&& t@.primary.dom().finite() && t@.primary.dom().len() == partition_count
            },
    {
        let found: Option<Assignment> = assign(
            hasher,
            &members,
            partition_count,
            virtual_nodes_per_member,
            capacity,
            replica_count,
        );
        let assignment: Assignment = match found {
            None => {
                return None;
            },
            Some(a) => a,
        };
        let ghost all = members_view(members@);
        let ghost prims = primary_ids(
            hasher,
            member_ids(all),
            virtual_nodes_per_member as nat,
            capacity as nat,
            partition_count as nat,
        );
        let ghost backs = backup_ids(
            hasher,
            member_ids(all),
            virtual_nodes_per_member as nat,
            capacity as nat,
            partition_count as nat,
            backups_wanted(replica_count),
        );
        proof {
            assert(member_ids(all) =~= ids_of(members@));
            crate::cluster::routing::ring::lemma_primaries_len(
                crate::cluster::routing::ring::owners(
                    crate::cluster::routing::ring::ring_of(
                        hasher,
                        member_ids(all),
                        virtual_nodes_per_member as nat,
                    ),
                ),
                crate::cluster::routing::ring::starts_of(
                    hasher,
                    crate::cluster::routing::ring::ring_of(
                        hasher,
                        member_ids(all),
                        virtual_nodes_per_member as nat,
                    ),
                    partition_count as nat,
                ),
                capacity as nat,
                partition_count as nat,
            );
            assert(prims.len() == partition_count);
            assert(crate::cluster::routing::ring::id_lists(assignment.backups@).len()
                == backs.len());
        }
        let mut primary: HashMap<u32, Vec<Member>> = HashMap::new();
        let mut backup: HashMap<u32, Vec<Member>> = HashMap::new();
        let mut p: u32 = 0;
        while p < partition_count
            invariant
                p <= partition_count,
                members@.len() > 0,
                all == members_view(members@),
                assignment.primary@ == prims,
                prims.len() == partition_count,
                crate::cluster::routing::ring::id_lists(assignment.backups@) == backs,
                assignment.backups@.len() == partition_count,
                primary@.dom().finite(),
                primary@.dom().len() == p,
                forall|q: u32| #[trigger] primary@.contains_key(q) <==> q < p,
                forall|q: u32| #[trigger] backup@.contains_key(q) <==> q < p,
                forall|q: u32|
                    q < p ==> members_view((#[trigger] primary@[q])@) == seq![
                        member_with(all, prims[q as int]),
                    ],
                forall|q: u32|
                    q < p ==> members_view((#[trigger] backup@[q])@) == members_with(
                        all,
                        backs[q as int],
                    ),
            decreases partition_count - p,
        {
            let mut owners: Vec<Member> = Vec::new();
            owners.push(find_member(&members, assignment.primary[p as usize]));
            assert(members_view(owners@) =~= seq![member_with(all, prims[p as int])]);
            let ghost first = members_view(owners@);
            let nearest: Vec<Member> = find_members(&members, &assignment.backups[p as usize]);
            assert(backs[p as int] == assignment.backups@[p as int]@);
            assert(!primary@.contains_key(p));
            primary.insert(p, owners);
            backup.insert(p, nearest);
            p = p + 1;
        }
        let table: RoutingTable = RoutingTable {
            schema_version: ROUTING_SCHEMA_VERSION,
            signature,
            members,
            primary,
            backup,
        };
        proof {
            let want = table_for(
                hasher,
                all,
                partition_count,
                virtual_nodes_per_member,
                capacity,
                replica_count,
                signature,
            );
            assert(table@.primary =~= want.primary);
            assert(table@.backup =~= want.backup);
            assert(table@.primary.dom() =~= primary@.dom());
        }
        Some(table)
    }

    /// Number of partitions that the table describes.
    pub fn partition_count(&self) -> (r: u32)
        ensures
            self@.primary.dom().len() <= u32::MAX ==> r == self@.primary.dom().len(),
            self@.primary.dom().len() > u32::MAX ==> r == u32::MAX,
    {
        assert(self@.primary.dom() =~= self.primary@.dom());
        let n: usize = self.primary.len();
        if n as u64 > u32::MAX as u64 {
            u32::MAX
        } else {
            n as u32
        }
    }

    /// Primary owner of a partition, or `None` where the table does not know
    /// it.
    pub fn primary_for(&self, partition_id: u32) -> (r: Option<&Member>)
        ensures
            match r {
                Some(m) => self@.primary.contains_key(partition_id)
                    && self@.primary[partition_id].len() > 0 && m@
                    == self@.primary[partition_id][0],
                None => !self@.primary.contains_key(partition_id)
                    || self@.primary[partition_id].len() == 0,
            },
    {
        match self.primary.get(&partition_id) {
            Some(v) => {
                assert(self@.primary[partition_id] == members_view(v@));
                if v.len() == 0 {
                    None
                } else {
                    Some(&v[0])
                }
            },
            None => None,
        }
    }

    /// Owners of a partition, the current one first; empty where the table does
    /// not know it.
    pub fn owners_for(&self, partition_id: u32) -> (r: &[Member])
        ensures
            members_view(r@) == owners_in(self@, partition_id),
    {
        match self.primary.get(&partition_id) {
            Some(v) => v.as_slice(),
            None => no_members(),
        }
    }

    /// Backups of a partition; empty where the table does not know it.
    pub fn backups_for(&self, partition_id: u32) -> (r: &[Member])
        ensures
            members_view(r@) == backups_in(self@, partition_id),
    {
        match self.backup.get(&partition_id) {
            Some(v) => v.as_slice(),
            None => no_members(),
        }
    }
}

/// Owners of a partition in a table.
pub open spec fn owners_in(t: TableView, partition: u32) -> Seq<MemberView> {
    if t.primary.contains_key(partition) {
        t.primary[partition]
    } else {
        Seq::empty()
    }
}

/// Backups of a partition in a table.
pub open spec fn backups_in(t: TableView, partition: u32) -> Seq<MemberView> {
    if t.backup.contains_key(partition) {
        t.backup[partition]
    } else {
        Seq::empty()
    }
}

fn no_members<'a>() -> (r: &'a [Member])
    ensures
        members_view(r@) == Seq::<MemberView>::empty(),
{
    let r: &'a [Member] = &[];
    assert(members_view(r@) =~= Seq::<MemberView>::empty());
    r
}

impl Clone for RoutingTable {
    fn clone(&self) -> (r: Self)
        ensures
            r@ == self@,
    {
        let mut members: Vec<Member> = Vec::new();
        let mut i: usize = 0;
        while i < self.members.len()
            invariant
                i <= self.members@.len(),
                members@.len() == i,
                forall|j: int| 0 <= j < i ==> (#[trigger] members@[j])@ == self.members@[j]@,
            decreases self.members@.len() - i,
        {
            members.push(self.members[i].clone());
            i = i + 1;
        }
        assert(members_view(members@) =~= members_view(self.members@));
        RoutingTable {
            schema_version: self.schema_version,
            signature: self.signature,
            members,
            primary: self.primary.clone(),
            backup: self.backup.clone(),
        }
    }
}

impl Default for RoutingTable {
    fn default() -> (r: Self)
        ensures
            r@ == (TableView {
                schema_version: 0,
                signature: 0,
                members: Seq::empty(),
                primary: Map::empty(),
                backup: Map::empty(),
            }),
    {
        let r: RoutingTable = RoutingTable {
            schema_version: 0,
            signature: 0,
            members: Vec::new(),
            primary: HashMap::new(),
            backup: HashMap::new(),
        };
        assert(r@.members =~= Seq::empty());
        assert(r@.primary =~= Map::empty());
        assert(r@.backup =~= Map::empty());
        r
    }
}

/// Partition of a key of a map: the hash of the name and the key, joined,
/// modulo the number of partitions.
pub fn partition_for<H: Hasher>(hasher: &H, dmap_name: &[u8], key: &[u8], partition_count: u32) -> (r:
    u32)
    requires
        partition_count > 0,
    ensures
        r == hasher.hash_of(dmap_name@ + key@) as int % partition_count as int,
        r < partition_count,
{
    let mut buf: Vec<u8> = Vec::new();
    push_bytes(&mut buf, dmap_name);
    push_bytes(&mut buf, key);
    assert(buf@ =~= dmap_name@ + key@);
    let hash: u64 = hasher.hash64(buf.as_slice());
    (hash % partition_count as u64) as u32
}

} // verus!
