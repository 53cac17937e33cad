//! Chance.

use rand::rngs::SmallRng;
use rand::seq::SliceRandom;
use rand::{RngCore, SeedableRng};
use vstd::prelude::*;

verus! {

/// The generator of random numbers.
#[verifier::external_type_specification]
#[verifier::external_body]
pub struct ExSmallRng(SmallRng);

/// `SmallRng::from_entropy`: a generator in a state that is left to chance.
#[verifier::external_body]
pub(crate) fn new_rng() -> SmallRng {
    SmallRng::from_entropy()
}

/// `SliceRandom::choose`: one of the elements, unless there is none. Which one
/// is left to chance.
#[verifier::external_body]
pub(crate) fn choose_id(ids: &Vec<u64>, rng: &mut SmallRng) -> (r: Option<u64>)
    ensures
        r is Some <==> ids@.len() > 0,
        r matches Some(id) ==> ids@.contains(id),
{
    ids.choose(rng).copied()
}

/// `SliceRandom::shuffle`: the same elements in another order, which is left to
/// chance.
#[verifier::external_body]
pub(crate) fn shuffle_ids(ids: &mut Vec<u64>, rng: &mut SmallRng)
    ensures
        final(ids)@.to_multiset() == old(ids)@.to_multiset(),
{
    ids.shuffle(rng)
}

/// `RngCore::fill_bytes` on the generator of the thread: overwrites each byte,
/// with what is left to chance.
#[verifier::external_body]
pub(crate) fn fill_random(buf: &mut Vec<u8>)
    ensures
        final(buf)@.len() == old(buf)@.len(),
{
    rand::thread_rng().fill_bytes(buf)
}

/// Shuffling neither adds nor drops anything.
pub(crate) proof fn lemma_shuffled(a: Seq<u64>, b: Seq<u64>)
    requires
        a.to_multiset() == b.to_multiset(),
    ensures
        a.len() == b.len(),
        forall|x: u64| #[trigger] a.contains(x) <==> b.contains(x),
        a.no_duplicates() ==> b.no_duplicates(),
{
    a.to_multiset_ensures();
    b.to_multiset_ensures();
    assert forall|x: u64| #[trigger] a.contains(x) <==> b.contains(x) by {
        assert(a.contains(x) <==> a.to_multiset().count(x) > 0);
        assert(b.contains(x) <==> b.to_multiset().count(x) > 0);
    }
    if a.no_duplicates() {
        a.lemma_multiset_has_no_duplicates();
        b.lemma_multiset_has_no_duplicates_conv();
    }
}

} // verus!
