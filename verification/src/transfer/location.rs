//! Which tiers have segments to copy from.

use vstd::prelude::*;

use crate::proto::{Location, LocationView, Tier};
use crate::transfer::error::TransferError;

verus! {

/// The tier keeps blocks in segments: L0, L1 or L2.
pub open spec fn segmented(tier: i32) -> bool {
    ||| tier == Tier::L0.spec_number()
    ||| tier == Tier::L1.spec_number()
    ||| tier == Tier::L2.spec_number()
}

/// What is wrong with a location to copy from.
pub open spec fn tier_verdict(loc: LocationView) -> Result<(), TransferError> {
    if segmented(loc.tier) {
        Ok(())
    } else {
        Err(TransferError::InvalidTier(loc.tier))
    }
}

/// Refuses a location on object storage, on no tier or on an unknown one.
pub fn validate_location_tier(loc: &Location) -> (r: Result<(), TransferError>)
    ensures
        r == tier_verdict(loc@),
{
    if loc.tier == Tier::L0.number() || loc.tier == Tier::L1.number() || loc.tier
        == Tier::L2.number() {
        Ok(())
    } else {
        Err(TransferError::InvalidTier(loc.tier))
    }
}

} // verus!
