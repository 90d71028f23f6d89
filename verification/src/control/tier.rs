//! Markers for the tiers whose copies of a block are tracked per node.

use vstd::prelude::*;

use crate::base::keys;
use crate::proto::{Location, LocationView, Tier};

verus! {

/// A tier as a type.
pub trait TierMarker: Sized {
    /// The tier.
    spec fn spec_tier() -> Tier;

    /// The tier.
    fn tier() -> (t: Tier)
        ensures
            t == Self::spec_tier(),
    ;
}

/// Device memory.
#[derive(Clone, Copy, Debug, Default)]
pub struct TierL0;

/// Host memory.
#[derive(Clone, Copy, Debug, Default)]
pub struct TierL1;

/// Local durable storage.
#[derive(Clone, Copy, Debug, Default)]
pub struct TierL2;

impl TierMarker for TierL0 {
    open spec fn spec_tier() -> Tier {
        Tier::L0
    }

    fn tier() -> (t: Tier) {
        Tier::L0
    }
}

impl TierMarker for TierL1 {
    open spec fn spec_tier() -> Tier {
        Tier::L1
    }

    fn tier() -> (t: Tier) {
        Tier::L1
    }
}

impl TierMarker for TierL2 {
    open spec fn spec_tier() -> Tier {
        Tier::L2
    }

    fn tier() -> (t: Tier) {
        Tier::L2
    }
}

/// Some copy is in the tier.
pub open spec fn on_tier(locations: Seq<LocationView>, tier: Tier) -> bool {
    exists|i: int| 0 <= i < locations.len() && (#[trigger] locations[i]).tier == tier.spec_number()
}

/// Some copy is in the tier of the node.
pub open spec fn on_tier_of(locations: Seq<LocationView>, tier: Tier, node_id: Seq<char>) -> bool {
    exists|i: int|
        0 <= i < locations.len() && (#[trigger] locations[i]).tier == tier.spec_number()
            && locations[i].node_id == node_id
}

/// Tells whether some copy is in the marked tier.
pub fn has_block<M: TierMarker>(locations: &Vec<Location>) -> (b: bool)
    ensures
        b == on_tier(keys::views(locations@), M::spec_tier()),
{
    has_tier(locations, M::tier())
}

/// Tells whether some copy is in the tier.
pub fn has_tier(locations: &Vec<Location>, tier: Tier) -> (b: bool)
    ensures
        b == on_tier(keys::views(locations@), tier),
{
    let n: i32 = tier.number();
    let ghost ls = keys::views(locations@);
    let mut i: usize = 0;
    while i < locations.len()
        invariant
            i <= locations@.len() == ls.len(),
            ls == keys::views(locations@),
            n == tier.spec_number(),
            forall|j: int| 0 <= j < i ==> (#[trigger] ls[j]).tier != n,
        decreases locations@.len() - i,
    {
        assert(ls[i as int] == locations@[i as int]@);
        if locations[i].tier == n {
            return true;
        }
        i += 1;
    }
    false
}

/// Tells whether some copy is in the tier of the node.
pub fn has_tier_on(locations: &Vec<Location>, tier: Tier, node_id: &str) -> (b: bool)
    ensures
        b == on_tier_of(keys::views(locations@), tier, node_id@),
{
    let n: i32 = tier.number();
    let node = node_id.to_owned();
    let ghost ls = keys::views(locations@);
    let mut i: usize = 0;
    while i < locations.len()
        invariant
            i <= locations@.len() == ls.len(),
            ls == keys::views(locations@),
            n == tier.spec_number(),
            node@ == node_id@,
            forall|j: int|
                0 <= j < i ==> (#[trigger] ls[j]).tier != n || ls[j].node_id != node_id@,
        decreases locations@.len() - i,
    {
        assert(ls[i as int] == locations@[i as int]@);
        if locations[i].tier == n && locations[i].node_id == node {
            return true;
        }
        i += 1;
    }
    false
}

} // verus!
