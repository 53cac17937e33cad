//! Stable per-process identifiers.

use rand::Rng;
use std::cmp::Ordering;
use vstd::prelude::*;
use vstd::std_specs::cmp::{PartialOrdIs, PartialOrdSpec};

use crate::text::{ascii_chars, hex, push_hex};

verus! {

/// Identifier of a node, drawn at boot. It breaks ties when the coordinator is
/// chosen.
#[derive(Debug, Clone, Copy, PartialEq, Eq, Structural, Ord, Hash)]
pub struct MemberId(pub u64);

/// `rand::thread_rng().gen::<u64>()`: any number may come out.
#[verifier::external_body]
fn random_u64() -> (r: u64) {
    rand::thread_rng().gen::<u64>()
}

impl MemberId {
    /// A fresh random id. A process draws one at start-up and keeps it. Which
    /// id comes out is left to chance.
    pub fn new_random() -> Self {
        MemberId(random_u64())
    }

    /// The id with these bits.
    pub fn from_raw(raw: u64) -> (r: Self)
        ensures
            r == MemberId(raw),
    {
        MemberId(raw)
    }

    /// The bits of the id.
    pub fn as_u64(self) -> (r: u64)
        ensures
            r == self.0,
    {
        self.0
    }

    /// The id as sixteen hexadecimal digits.
    pub fn to_text(self) -> (r: String)
        ensures
            r@ == ascii_chars(hex(self.0 as nat, 16)),
    {
        let mut out: String = String::new();
        push_hex(&mut out, self.0, 16);
        assert(out@ =~= ascii_chars(hex(self.0 as nat, 16)));
        out
    }
}

impl PartialOrd for MemberId {
    fn partial_cmp(&self, other: &Self) -> (r: Option<Ordering>) {
        if self.0 < other.0 {
            Some(Ordering::Less)
        } else if self.0 == other.0 {
            Some(Ordering::Equal)
        } else {
            Some(Ordering::Greater)
        }
    }
}

/// Ids are ordered by their bits.
impl vstd::std_specs::cmp::PartialOrdSpecImpl for MemberId {
    open spec fn obeys_partial_cmp_spec() -> bool {
        true
    }

    open spec fn partial_cmp_spec(&self, other: &Self) -> Option<Ordering> {
        if self.0 < other.0 {
            Some(Ordering::Less)
        } else if self.0 == other.0 {
            Some(Ordering::Equal)
        } else {
            Some(Ordering::Greater)
        }
    }
}

/// Ids come in the order of the numbers that they are made of.
pub proof fn law_ids_follow_their_numbers(x: u64, y: u64)
    ensures
        MemberId::obeys_partial_cmp_spec(),
        MemberId(x).is_lt(&MemberId(y)) <==> x < y,
        MemberId(x).is_le(&MemberId(y)) <==> x <= y,
        MemberId(x).is_gt(&MemberId(y)) <==> x > y,
        MemberId(x).is_ge(&MemberId(y)) <==> x >= y,
{
}

} // verus!
