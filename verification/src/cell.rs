//! The records stored at lattice sites: organism cells at gift sites and
//! structure cells at branch sites.

use vstd::prelude::*;

use crate::hex::{BranchPoint, GiftPoint};

verus! {

/// A strain budget: how much load a branch tier may carry.
#[derive(Clone, Copy, Debug, PartialEq, Eq, Hash, Structural)]
pub enum IntOrInfinite {
    Infinite,
    Finite(u32),
}

/// The organism kinds that can occupy a gift site.
#[derive(Clone, Copy, Debug, PartialEq, Eq, Hash, Structural)]
pub enum Gift {
    Leaves,
    Flowers,
    Berries,
    Nuts,
    Beehive,
    Birdnest,
    Squirrel,
}

/// The record at a gift site. `suppressed` is the moss flag: a suppressed
/// cell is frozen and holds no organism. `parent` is the branch the site was
/// grown from.
#[derive(Clone, Copy, Debug, PartialEq)]
pub struct GiftCell {
    pub gift: Option<Gift>,
    pub suppressed: bool,
    pub parent: BranchPoint,
}

/// The record at a branch site. `branch_upgrade` is the thickness tier in
/// `0..=3`; `parent` is the gift site the branch hangs from, `None` only for
/// the root.
#[derive(Clone, Copy, Debug, PartialEq)]
pub struct BranchCell {
    pub branch_strain_current: usize,
    pub branch_upgrade: usize,
    pub parent: Option<GiftPoint>,
}

impl GiftCell {
    /// A fresh, empty, unfrozen cell attached to `parent`.
    pub fn new(parent: BranchPoint) -> (c: GiftCell)
        ensures
            c == (GiftCell { gift: None, suppressed: false, parent }),
    {
        GiftCell { gift: None, suppressed: false, parent }
    }
}

impl BranchCell {
    /// A fresh branch at the thinnest tier, hanging from `parent`.
    pub fn new(parent: Option<GiftPoint>) -> (c: BranchCell)
        ensures
            c == (BranchCell { branch_strain_current: 0, branch_upgrade: 0, parent }),
    {
        BranchCell { branch_strain_current: 0, branch_upgrade: 0, parent }
    }

    /// The strain budget of each thickness tier; the top tier carries
    /// anything.
    pub fn branch_strain_maximum(&self) -> (m: IntOrInfinite)
        requires
            self.branch_upgrade <= 3,
        ensures
            m == spec_strain_maximum(self.branch_upgrade as int),
    {
        match self.branch_upgrade {
            0 => IntOrInfinite::Finite(5),
            1 => IntOrInfinite::Finite(25),
            2 => IntOrInfinite::Finite(125),
            _ => IntOrInfinite::Infinite,
        }
    }
}

/// The strain budget table behind `branch_strain_maximum`.
pub open spec fn spec_strain_maximum(tier: int) -> IntOrInfinite {
    if tier == 0 {
        IntOrInfinite::Finite(5)
    } else if tier == 1 {
        IntOrInfinite::Finite(25)
    } else if tier == 2 {
        IntOrInfinite::Finite(125)
    } else {
        IntOrInfinite::Infinite
    }
}

} // verus!
