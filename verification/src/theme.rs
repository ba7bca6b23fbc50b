//! The glyphs that stand for a concept's trust tier and lifecycle status.

use vstd::prelude::*;
use crate::trust::{Status, TrustTier};

verus! {

/// The glyph of a trust tier: `◆` human-reviewed, `●` machine-confirmed,
/// `○` unverified.
pub fn tier_glyph(tier: TrustTier) -> (r: &'static str)
    ensures
        r@ == (match tier {
            TrustTier::HumanReviewed => "◆"@,
            TrustTier::MachineConfirmed => "●"@,
            TrustTier::Unverified => "○"@,
        }),
{
    match tier {
        TrustTier::HumanReviewed => "◆",
        TrustTier::MachineConfirmed => "●",
        TrustTier::Unverified => "○",
    }
}

/// The glyph of a lifecycle status: `●` stable (and any other value), `◐`
/// draft, `◌` deprecated.
pub fn status_glyph(status: &Status) -> (r: &'static str)
    ensures
        r@ == (match status {
            Status::Draft => "◐"@,
            Status::Deprecated => "◌"@,
            _ => "●"@,
        }),
{
    match status {
        Status::Draft => "◐",
        Status::Deprecated => "◌",
        _ => "●",
    }
}

} // verus!
