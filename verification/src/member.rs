//! Cluster members.

use vstd::prelude::*;
use vstd::string::*;

use crate::ids::MemberId;
use crate::net::SocketAddr;

verus! {

/// A cluster member as the local node sees it. Members are equal when their
/// ids are; they are ordered by birthdate, then id, so that all nodes that know
/// the same members agree on the first one, the coordinator.
#[derive(Debug)]
pub struct Member {
    /// Identifier; breaks ties between equal birthdates.
    pub id: MemberId,
    /// Display name.
    pub name: String,
    /// Address of the RESP server.
    pub addr: SocketAddr,
    /// Address that the membership protocol is bound to.
    pub discovery_addr: SocketAddr,
    /// When the member joined, in Unix nanoseconds.
    pub birthdate: u64,
    /// Whether the local node takes this member for the coordinator.
    pub is_coordinator: bool,
}

/// Mathematical value of a [`Member`].
pub ghost struct MemberView {
    pub id: MemberId,
    pub name: Seq<char>,
    pub addr: SocketAddr,
    pub discovery_addr: SocketAddr,
    pub birthdate: u64,
    pub is_coordinator: bool,
}

impl View for Member {
    type V = MemberView;

    open spec fn view(&self) -> MemberView {
        MemberView {
            id: self.id,
            name: self.name@,
            addr: self.addr,
            discovery_addr: self.discovery_addr,
            birthdate: self.birthdate,
            is_coordinator: self.is_coordinator,
        }
    }
}

/// `(a, x)` comes before `(b, y)`: by birthdate, then by id.
pub open spec fn key_before(a: u64, x: u64, b: u64, y: u64) -> bool {
    a < b || (a == b && x < y)
}

/// `a` comes before `b` in the order of members.
pub open spec fn before(a: MemberView, b: MemberView) -> bool {
    key_before(a.birthdate, a.id.0, b.birthdate, b.id.0)
}

impl Member {
    /// A member that is not (yet) known as the coordinator.
    pub fn new(
        id: MemberId,
        name: &str,
        addr: SocketAddr,
        discovery_addr: SocketAddr,
        birthdate: u64,
    ) -> (r: Self)
        ensures
            r@ == (MemberView {
                id,
                name: name@,
                addr,
                discovery_addr,
                birthdate,
                is_coordinator: false,
            }),
    {
        Member {
            id,
            name: name.to_owned(),
            addr,
            discovery_addr,
            birthdate,
            is_coordinator: false,
        }
    }

    /// Ordering key: birthdate, then id.
    pub fn coord_key(&self) -> (r: (u64, u64))
        ensures
            r == (self@.birthdate, self@.id.0),
    {
        (self.birthdate, self.id.0)
    }

    /// Whether this member comes before `other`.
    pub fn is_before(&self, other: &Member) -> (r: bool)
        ensures
            r == before(self@, other@),
    {
        self.birthdate < other.birthdate || (self.birthdate == other.birthdate && self.id.0
            < other.id.0)
    }
}

impl Clone for Member {
    fn clone(&self) -> (r: Self)
        ensures
            r@ == self@,
    {
        Member {
            id: self.id,
            name: self.name.clone(),
            addr: self.addr,
            discovery_addr: self.discovery_addr,
            birthdate: self.birthdate,
            is_coordinator: self.is_coordinator,
        }
    }
}

impl PartialEq for Member {
    fn eq(&self, other: &Self) -> (r: bool) {
        self.id == other.id
    }
}

impl vstd::std_specs::cmp::PartialEqSpecImpl for Member {
    open spec fn obeys_eq_spec() -> bool {
        true
    }

    open spec fn eq_spec(&self, other: &Self) -> bool {
        self.id == other.id
    }
}

impl Eq for Member {

}

/// Values of a list of members.
pub open spec fn members_view(s: Seq<Member>) -> Seq<MemberView> {
    Seq::new(s.len(), |i: int| s[i]@)
}

/// No member of `s` comes before an earlier one.
pub open spec fn members_sorted(s: Seq<MemberView>) -> bool {
    forall|i: int, j: int| 0 <= i < j < s.len() ==> !before(#[trigger] s[j], #[trigger] s[i])
}

/// A copy of `v`, sorted by birthdate, then id.
pub fn sort_members(v: &Vec<Member>) -> (r: Vec<Member>)
    ensures
        members_sorted(members_view(r@)),
        members_view(r@).to_multiset() == members_view(v@).to_multiset(),
{
    let mut out: Vec<Member> = Vec::new();
    let mut i: usize = 0;
    assert(members_view(out@) =~= members_view(v@).take(0));
    while i < v.len()
        invariant
            i <= v@.len(),
            members_sorted(members_view(out@)),
            members_view(out@).to_multiset() == members_view(v@).take(i as int).to_multiset(),
        decreases v@.len() - i,
    {
        let x: Member = v[i].clone();
        let mut pos: usize = 0;
        while pos < out.len() && !x.is_before(&out[pos])
            invariant
                pos <= out@.len(),
                forall|j: int| 0 <= j < pos ==> !before(x@, #[trigger] members_view(out@)[j]),
            decreases out@.len() - pos,
        {
            assert(members_view(out@)[pos as int] == out@[pos as int]@);
            pos = pos + 1;
        }
        let ghost olds = members_view(out@);
        assert(pos < out@.len() ==> before(x@, olds[pos as int]));
        out.insert(pos, x);
        proof {
            let news = members_view(out@);
            assert(news =~= olds.insert(pos as int, x@));
            vstd::seq_lib::to_multiset_insert(olds, pos as int, x@);
            assert(members_view(v@).take(i + 1) =~= members_view(v@).take(i as int).push(x@));
            vstd::seq_lib::to_multiset_build(members_view(v@).take(i as int), x@);
            assert forall|a: int, b: int| 0 <= a < b < news.len() implies !before(
                #[trigger] news[b],
                #[trigger] news[a],
            ) by {
                let oa: int = if a < pos {
                    a
                } else {
                    a - 1
                };
                let ob: int = if b < pos {
                    b
                } else {
                    b - 1
                };
                if a != pos {
                    assert(news[a] == olds[oa]);
                }
                if b != pos {
                    assert(news[b] == olds[ob]);
                }
                if a == pos && ob != pos {
                    assert(!before(olds[ob], olds[pos as int]));
                }
            }
        }
        i = i + 1;
    }
    assert(members_view(v@).take(i as int) =~= members_view(v@));
    out
}

/// Sorted members stand in the order of their birth; those born at the same time
/// in the order of their ids.
pub proof fn law_sorted_members_go_by_birth(s: Seq<MemberView>)
    ensures
        members_sorted(s) <==> forall|i: int, j: int|
            0 <= i < j < s.len() ==> (#[trigger] s[i]).birthdate < (#[trigger] s[j]).birthdate || (
            s[i].birthdate == s[j].birthdate && s[i].id.0 <= s[j].id.0),
{
    if members_sorted(s) {
        assert forall|i: int, j: int| 0 <= i < j < s.len() implies (#[trigger] s[i]).birthdate < (
        #[trigger] s[j]).birthdate || (s[i].birthdate == s[j].birthdate && s[i].id.0
            <= s[j].id.0) by {
            assert(!before(s[j], s[i]));
        }
    }
}

} // verus!
