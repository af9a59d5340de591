//! The live garden: a single tree of structure and organism records on the
//! lattice, the two-resource economy that gates construction, and the
//! fixed-interval generation clock that drives the automaton.
//!
//! Resource amounts are measured in integer units of a tenth of a point:
//! the base production of one generation is two units, so every cost and
//! every production figure is exact integer arithmetic.

use vstd::prelude::*;

use crate::cell::{BranchCell, Gift, GiftCell};
use crate::hex::{
    is_adjacent, lemma_adjacent_symm, lemma_branch_nbrs_props, lemma_gift_nbrs_props, spec_center,
    spec_in_region, BranchPoint, GiftPoint, HexPoint, InBoundsPoint,
};
use crate::life::{
    branch_stats_ok, gift_count, gift_stats_ok, kind_pred, spec_zero_stats, tier0_pred,
    upgraded_pred, Stats,
};
use crate::store::{
    count_matching, in_box, lemma_count_insert, lemma_count_ge_one, lemma_count_le_dom,
    lemma_count_lt_dom, lemma_distinct_box_points_bounded, lemma_map_of_dom, lemma_map_of_index,
    lemma_map_of_len, BranchMap, GiftMap,
};

verus! {

/// Base production of one generation, in tenth-of-a-point units.
pub const BASE_UNITS: u64 = 2;

/// The cap on the stored resource.
pub const MAX_BOUNTY_UNITS: u64 = 3000;

/// Cost of attaching a new branch.
pub const ATTACH_COST: u64 = 10;

/// Cost of growing a branch from the thinnest tier.
pub const UPGRADE_COST_T0: u64 = 50;

/// Cost of growing a branch from the middle tier.
pub const UPGRADE_COST_T1: u64 = 250;

/// Cost of growing a branch to the thickest tier.
pub const UPGRADE_COST_T2: u64 = 1250;

/// Length of one generation interval, in milliseconds.
pub const TURN_DURATION_MS: u64 = 2000;

/// Why an attach was refused.
#[derive(Clone, Copy, Debug, PartialEq, Eq, Structural)]
pub enum AttachError {
    NotAdjacentToTree,
    WouldCycle,
    InsufficientResource,
}

/// Why an upgrade was refused.
#[derive(Clone, Copy, Debug, PartialEq, Eq, Structural)]
pub enum UpgradeError {
    ParentNotStrongEnough,
    TooStrained,
    AlreadyMaxTier,
    InsufficientResource,
}

/// A site key in the ghost rank map.
pub open spec fn bkey(b: BranchPoint) -> InBoundsPoint {
    InBoundsPoint::BranchPoint(b)
}

/// A site key in the ghost rank map.
pub open spec fn gkey(g: GiftPoint) -> InBoundsPoint {
    InBoundsPoint::GiftPoint(g)
}

/// Value-local conditions on every branch record: tiers stay in range, and
/// every branch but the root sits in the region on the border sublattice and
/// hangs from an adjacent cell center.
pub open spec fn branches_local_ok(
    branches: Map<BranchPoint, BranchCell>,
    root: BranchPoint,
) -> bool {
    forall|b: BranchPoint| #[trigger]
        branches.contains_key(b) ==> {
            &&& branches[b].branch_upgrade <= 3
            &&& if b == root {
                branches[b].parent is None
            } else {
                &&& spec_in_region(b.hex_point)
                &&& !spec_center(b.hex_point)
                &&& branches[b].parent is Some
                &&& is_adjacent(b.hex_point, branches[b].parent->Some_0.hex_point)
            }
        }
}

/// Value-local conditions on every gift record: in-region cell centers,
/// each hanging from an adjacent branch site; a suppressed cell holds no
/// organism.
pub open spec fn gifts_local_ok(gifts: Map<GiftPoint, GiftCell>) -> bool {
    forall|g: GiftPoint| #[trigger]
        gifts.contains_key(g) ==> {
            &&& spec_in_region(g.hex_point)
            &&& spec_center(g.hex_point)
            &&& is_adjacent(g.hex_point, gifts[g].parent.hex_point)
            &&& (gifts[g].suppressed ==> gifts[g].gift is None)
        }
}

/// Every parent reference lands on a record that is present.
pub open spec fn links_ok(
    branches: Map<BranchPoint, BranchCell>,
    gifts: Map<GiftPoint, GiftCell>,
    root: BranchPoint,
) -> bool {
    &&& branches.contains_key(root)
    &&& forall|b: BranchPoint| #[trigger]
        branches.contains_key(b) && b != root ==> gifts.contains_key(
            branches[b].parent->Some_0,
        )
    &&& forall|g: GiftPoint| #[trigger]
        gifts.contains_key(g) ==> branches.contains_key(gifts[g].parent)
}

/// Every parent reference strictly descends in the ghost rank map: the
/// witness that parent chains cannot cycle.
pub open spec fn ranks_ok(
    branches: Map<BranchPoint, BranchCell>,
    gifts: Map<GiftPoint, GiftCell>,
    root: BranchPoint,
    ranks: Map<InBoundsPoint, nat>,
) -> bool {
    &&& forall|b: BranchPoint| #[trigger]
        branches.contains_key(b) && b != root ==> ranks[gkey(branches[b].parent->Some_0)]
            < ranks[bkey(b)]
    &&& forall|g: GiftPoint| #[trigger]
        gifts.contains_key(g) ==> ranks[bkey(gifts[g].parent)] < ranks[gkey(g)]
}

/// The growth-simulation core: the tree, its statistics, the economy and
/// the generation clock.
pub struct Garden {
    /// The fixed root structure site, just outside the lower region edge.
    pub root_point: BranchPoint,
    /// The structure records.
    pub branches: BranchMap,
    /// The organism records.
    pub gifts: GiftMap,
    /// Aggregate statistics, maintained incrementally.
    pub stats: Stats,
    /// The stored resource, in tenth-of-a-point units, capped.
    pub bounty_amount: u64,
    /// The production rate of the last generation, in the same units.
    pub life_amount: u64,
    /// Time carried past the last generation boundary, in milliseconds.
    pub residual_ms: u64,
    /// Length of one generation interval, in milliseconds.
    pub turn_duration_ms: u64,
    /// Ghost witness that parent references strictly descend toward the
    /// root.
    pub ranks: Ghost<Map<InBoundsPoint, nat>>,
}

impl Garden {
    /// The standing well-formedness of the garden: a single rooted tree
    /// with sane records, statistics that equal a full rescan, and the
    /// stored resource within its cap.
    pub open spec fn wf(&self) -> bool {
        &&& self.branches.inv()
        &&& self.gifts.inv()
        &&& self.root_point == (BranchPoint { hex_point: HexPoint { q: 0, r: 1 } })
        &&& branches_local_ok(self.branches@, self.root_point)
        &&& gifts_local_ok(self.gifts@)
        &&& links_ok(self.branches@, self.gifts@, self.root_point)
        &&& self.branches@[self.root_point].branch_upgrade == 3
        &&& ranks_ok(self.branches@, self.gifts@, self.root_point, self.ranks@)
        &&& gift_stats_ok(self.stats, self.gifts@)
        &&& branch_stats_ok(self.stats, self.branches@)
        &&& self.bounty_amount <= MAX_BOUNTY_UNITS
        &&& 1 <= self.turn_duration_ms <= 1_000_000_000
        &&& self.residual_ms <= self.turn_duration_ms
        &&& self.life_amount <= 30_000_000
    }

    /// A fresh garden: the root branch at the thickest tier, one suppressed
    /// organism record at the origin hanging from it, zeroed statistics, and
    /// the starting resource.
    pub fn new() -> (g: Garden)
        ensures
            g.wf(),
            g.root_point == (BranchPoint { hex_point: HexPoint { q: 0, r: 1 } }),
            g.branches@ == Map::<BranchPoint, BranchCell>::empty().insert(
                g.root_point,
                BranchCell { branch_strain_current: 0, branch_upgrade: 3, parent: None },
            ),
            g.gifts@ == Map::<GiftPoint, GiftCell>::empty().insert(
                GiftPoint { hex_point: HexPoint { q: 0, r: 0 } },
                GiftCell {
                    gift: None,
                    suppressed: true,
                    parent: BranchPoint { hex_point: HexPoint { q: 0, r: 1 } },
                },
            ),
            g.stats == spec_zero_stats(),
            g.bounty_amount == 50,
            g.life_amount == 0,
            g.residual_ms == 0,
            g.turn_duration_ms == TURN_DURATION_MS,
    {
        let root_point = BranchPoint::new(HexPoint::new(0, 1));
        let origin = GiftPoint::new(HexPoint::new(0, 0));
        let mut branches = BranchMap::new();
        let mut root_cell = BranchCell::new(None);
        root_cell.branch_upgrade = 3;
        let ghost branches0 = branches@;
        branches.insert(root_point, root_cell);
        let mut gifts = GiftMap::new();
        let mut origin_cell = GiftCell::new(root_point);
        origin_cell.suppressed = true;
        let ghost gifts0 = gifts@;
        gifts.insert(origin, origin_cell);
        let stats = Stats::zero();
        let ghost ranks: Map<InBoundsPoint, nat> = Map::empty().insert(bkey(root_point), 0nat)
            .insert(gkey(origin), 1nat);
        let g = Garden {
            root_point,
            branches,
            gifts,
            stats,
            bounty_amount: 50,
            life_amount: 0,
            residual_ms: 0,
            turn_duration_ms: TURN_DURATION_MS,
            ranks: Ghost(ranks),
        };
        proof {
            crate::store::lemma_count_empty(branches0, tier0_pred());
            crate::store::lemma_count_empty(branches0, upgraded_pred());
            lemma_count_insert(branches0, tier0_pred(), root_point, root_cell);
            lemma_count_insert(branches0, upgraded_pred(), root_point, root_cell);
            crate::store::lemma_count_empty(gifts0, kind_pred(Some(Gift::Leaves)));
            crate::store::lemma_count_empty(gifts0, kind_pred(Some(Gift::Flowers)));
            crate::store::lemma_count_empty(gifts0, kind_pred(Some(Gift::Beehive)));
            crate::store::lemma_count_empty(gifts0, kind_pred(Some(Gift::Berries)));
            crate::store::lemma_count_empty(gifts0, kind_pred(Some(Gift::Nuts)));
            crate::store::lemma_count_empty(gifts0, kind_pred(Some(Gift::Birdnest)));
            crate::store::lemma_count_empty(gifts0, kind_pred(Some(Gift::Squirrel)));
            lemma_count_insert(gifts0, kind_pred(Some(Gift::Leaves)), origin, origin_cell);
            lemma_count_insert(gifts0, kind_pred(Some(Gift::Flowers)), origin, origin_cell);
            lemma_count_insert(gifts0, kind_pred(Some(Gift::Beehive)), origin, origin_cell);
            lemma_count_insert(gifts0, kind_pred(Some(Gift::Berries)), origin, origin_cell);
            lemma_count_insert(gifts0, kind_pred(Some(Gift::Nuts)), origin, origin_cell);
            lemma_count_insert(gifts0, kind_pred(Some(Gift::Birdnest)), origin, origin_cell);
            lemma_count_insert(gifts0, kind_pred(Some(Gift::Squirrel)), origin, origin_cell);
            assert(is_adjacent(origin.hex_point, root_point.hex_point)) by {
                assert(root_point.hex_point == crate::hex::spec_nbr(origin.hex_point, 3));
            }
        }
        g
    }

    /// The record at a branch site, if any.
    pub fn branch_at(&self, b: BranchPoint) -> (r: Option<BranchCell>)
        requires
            self.wf(),
        ensures
            r == if self.branches@.contains_key(b) {
                Some(self.branches@[b])
            } else {
                None::<BranchCell>
            },
    {
        self.branches.get(b)
    }

    /// The record at a gift site, if any.
    pub fn gift_at(&self, g: GiftPoint) -> (r: Option<GiftCell>)
        requires
            self.wf(),
        ensures
            r == if self.gifts@.contains_key(g) {
                Some(self.gifts@[g])
            } else {
                None::<GiftCell>
            },
    {
        self.gifts.get(g)
    }
}

/// One step up the structure: a branch's parent branch, found through its
/// parent gift site.
pub open spec fn spec_branch_parent(
    branches: Map<BranchPoint, BranchCell>,
    gifts: Map<GiftPoint, GiftCell>,
    b: BranchPoint,
) -> Option<BranchPoint> {
    if branches.contains_key(b) {
        match branches[b].parent {
            Some(g) => if gifts.contains_key(g) {
                Some(gifts[g].parent)
            } else {
                None
            },
            None => None,
        }
    } else {
        None
    }
}

/// `n` steps up the structure, `Some` only when every record on the way is
/// present.
pub open spec fn spec_nth_parent(
    branches: Map<BranchPoint, BranchCell>,
    gifts: Map<GiftPoint, GiftCell>,
    b: BranchPoint,
    n: nat,
) -> Option<BranchPoint>
    decreases n,
{
    if n == 0 {
        if branches.contains_key(b) {
            Some(b)
        } else {
            None
        }
    } else {
        match spec_branch_parent(branches, gifts, b) {
            Some(pb) => spec_nth_parent(branches, gifts, pb, (n - 1) as nat),
            None => None,
        }
    }
}

impl Garden {
    /// One step up the structure.
    fn branch_parent_branch(&self, b: BranchPoint) -> (r: Option<BranchPoint>)
        requires
            self.branches.inv(),
            self.gifts.inv(),
        ensures
            r == spec_branch_parent(self.branches@, self.gifts@, b),
    {
        match self.branches.get(b) {
            Some(cell) => match cell.parent {
                Some(g) => match self.gifts.get(g) {
                    Some(gift_cell) => Some(gift_cell.parent),
                    None => None,
                },
                None => None,
            },
            None => None,
        }
    }

    /// `n` steps up the structure.
    fn branch_nth_parent_point(&self, b: BranchPoint, n: u8) -> (r: Option<BranchPoint>)
        requires
            self.branches.inv(),
            self.gifts.inv(),
        ensures
            r == spec_nth_parent(self.branches@, self.gifts@, b, n as nat),
        decreases n,
    {
        if n == 0 {
            if self.branches.contains(b) {
                Some(b)
            } else {
                None
            }
        } else {
            match self.branch_parent_branch(b) {
                Some(pb) => self.branch_nth_parent_point(pb, n - 1),
                None => None,
            }
        }
    }

    /// The gift sites that hang from a branch: its children in the tree.
    fn branch_children(&self, p: BranchPoint) -> (v: Vec<GiftPoint>)
        requires
            self.gifts.inv(),
            gifts_local_ok(self.gifts@),
            spec_in_region(p.hex_point),
        ensures
            v@.no_duplicates(),
            forall|g: GiftPoint| #[trigger]
                v@.contains(g) <==> self.gifts@.contains_key(g) && self.gifts@[g].parent == p,
    {
        proof {
            assert(crate::hex::coords_roomy(p.hex_point)) by {
                assert(crate::hex::s_of(p.hex_point) < 21 && crate::hex::s_of(p.hex_point) >= 0);
            }
            lemma_gift_nbrs_props(p.hex_point);
        }
        let nbrs = p.gift_neighbours();
        let mut v: Vec<GiftPoint> = Vec::new();
        let mut i: usize = 0;
        while i < nbrs.len()
            invariant
                self.gifts.inv(),
                gifts_local_ok(self.gifts@),
                spec_in_region(p.hex_point),
                nbrs@ == crate::hex::gift_nbrs(p.hex_point),
                nbrs@.no_duplicates(),
                i <= nbrs@.len(),
                v@.no_duplicates(),
                forall|g: GiftPoint| #[trigger]
                    v@.contains(g) <==> exists|j: int|
                        0 <= j < i && nbrs@[j] == g && self.gifts@.contains_key(g)
                            && self.gifts@[g].parent == p,
            decreases nbrs@.len() - i,
        {
            let g = nbrs[i];
            let keep = match self.gifts.get(g) {
                Some(cell) => {
                    let pp: BranchPoint = cell.parent;
                    pp.hex_point.q == p.hex_point.q && pp.hex_point.r == p.hex_point.r
                },
                None => false,
            };
            if keep {
                proof {
                    assert(!v@.contains(nbrs@[i as int]));
                }
                let ghost vpre = v@;
                v.push(g);
                proof {
                    assert forall|x: GiftPoint| #[trigger] v@.contains(x) implies exists|j: int|
                        0 <= j < i + 1 && nbrs@[j] == x && self.gifts@.contains_key(x)
                            && self.gifts@[x].parent == p by {
                        let n = choose|n: int| 0 <= n < v@.len() && v@[n] == x;
                        if n < vpre.len() {
                            assert(vpre[n] == x);
                            assert(vpre.contains(x));
                        } else {
                            assert(nbrs@[i as int] == x);
                        }
                    }
                    assert forall|x: GiftPoint|
                        (exists|j: int|
                            0 <= j < i + 1 && nbrs@[j] == x && self.gifts@.contains_key(x)
                                && self.gifts@[x].parent == p) implies #[trigger] v@.contains(
                        x,
                    ) by {
                        let j = choose|j: int|
                            0 <= j < i + 1 && nbrs@[j] == x && self.gifts@.contains_key(x)
                                && self.gifts@[x].parent == p;
                        if j < i {
                            assert(vpre.contains(x));
                            let n = choose|n: int| 0 <= n < vpre.len() && vpre[n] == x;
                            assert(v@[n] == x);
                        } else {
                            assert(v@[v@.len() - 1] == x);
                        }
                    }
                }
            }
            i = i + 1;
        }
        proof {
            assert forall|g: GiftPoint|
                self.gifts@.contains_key(g) && self.gifts@[g].parent == p implies #[trigger] v@
                .contains(g) by {
                lemma_adjacent_symm(p.hex_point, g.hex_point);
                assert(crate::hex::gift_nbrs(p.hex_point).contains(g));
                let j = choose|j: int| 0 <= j < nbrs@.len() && nbrs@[j] == g;
            }
        }
        v
    }

    /// The branch sites that hang from a gift site: its children in the
    /// tree. The root never appears: it hangs from nothing.
    fn gift_children(&self, g: GiftPoint) -> (v: Vec<BranchPoint>)
        requires
            self.branches.inv(),
            branches_local_ok(self.branches@, self.root_point),
            spec_in_region(g.hex_point),
        ensures
            v@.no_duplicates(),
            forall|b: BranchPoint| #[trigger]
                v@.contains(b) <==> self.branches@.contains_key(b) && self.branches@[b].parent
                    == Some(g),
    {
        proof {
            assert(crate::hex::coords_roomy(g.hex_point)) by {
                assert(crate::hex::s_of(g.hex_point) < 21 && crate::hex::s_of(g.hex_point) >= 0);
            }
            lemma_branch_nbrs_props(g.hex_point);
        }
        let nbrs = g.branch_neighbours();
        let mut v: Vec<BranchPoint> = Vec::new();
        let mut i: usize = 0;
        while i < nbrs.len()
            invariant
                self.branches.inv(),
                branches_local_ok(self.branches@, self.root_point),
                spec_in_region(g.hex_point),
                nbrs@ == crate::hex::branch_nbrs(g.hex_point),
                nbrs@.no_duplicates(),
                i <= nbrs@.len(),
                v@.no_duplicates(),
                forall|b: BranchPoint| #[trigger]
                    v@.contains(b) <==> exists|j: int|
                        0 <= j < i && nbrs@[j] == b && self.branches@.contains_key(b)
                            && self.branches@[b].parent == Some(g),
            decreases nbrs@.len() - i,
        {
            let b = nbrs[i];
            let keep = match self.branches.get(b) {
                Some(cell) => match cell.parent {
                    Some(pg) => pg.hex_point.q == g.hex_point.q && pg.hex_point.r == g.hex_point.r,
                    None => false,
                },
                None => false,
            };
            if keep {
                proof {
                    assert(!v@.contains(nbrs@[i as int]));
                }
                let ghost vpre = v@;
                v.push(b);
                proof {
                    assert forall|x: BranchPoint| #[trigger] v@.contains(x) implies exists|j: int|
                        0 <= j < i + 1 && nbrs@[j] == x && self.branches@.contains_key(x)
                            && self.branches@[x].parent == Some(g) by {
                        let n = choose|n: int| 0 <= n < v@.len() && v@[n] == x;
                        if n < vpre.len() {
                            assert(vpre[n] == x);
                            assert(vpre.contains(x));
                        } else {
                            assert(nbrs@[i as int] == x);
                        }
                    }
                    assert forall|x: BranchPoint|
                        (exists|j: int|
                            0 <= j < i + 1 && nbrs@[j] == x && self.branches@.contains_key(x)
                                && self.branches@[x].parent == Some(g)) implies #[trigger] v@
                        .contains(x) by {
                        let j = choose|j: int|
                            0 <= j < i + 1 && nbrs@[j] == x && self.branches@.contains_key(x)
                                && self.branches@[x].parent == Some(g);
                        if j < i {
                            assert(vpre.contains(x));
                            let n = choose|n: int| 0 <= n < vpre.len() && vpre[n] == x;
                            assert(v@[n] == x);
                        } else {
                            assert(v@[v@.len() - 1] == x);
                        }
                    }
                }
            }
            i = i + 1;
        }
        proof {
            assert forall|b: BranchPoint|
                self.branches@.contains_key(b) && self.branches@[b].parent == Some(
                    g,
                ) implies #[trigger] v@.contains(b) by {
                assert(b != self.root_point);
                lemma_adjacent_symm(g.hex_point, b.hex_point);
                assert(crate::hex::branch_nbrs(g.hex_point).contains(b));
                let j = choose|j: int| 0 <= j < nbrs@.len() && nbrs@[j] == b;
            }
        }
        v
    }
}

/// Whether some branch record hangs from the gift site.
pub open spec fn has_branch_child(branches: Map<BranchPoint, BranchCell>, g: GiftPoint) -> bool {
    exists|b: BranchPoint| #[trigger] branches.contains_key(b) && branches[b].parent == Some(g)
}

impl Garden {
    /// Clear the organism at a gift site, decrementing its statistic; when
    /// the cleared site bears no structural children, toggle its moss flag
    /// (this is how moss is both applied and removed). A missing site is
    /// left alone; the record itself is never removed here.
    pub fn clear_organism(&mut self, g: GiftPoint)
        requires
            old(self).wf(),
        ensures
            final(self).wf(),
            final(self).branches@ == old(self).branches@,
            final(self).root_point == old(self).root_point,
            final(self).bounty_amount == old(self).bounty_amount,
            final(self).life_amount == old(self).life_amount,
            final(self).residual_ms == old(self).residual_ms,
            final(self).turn_duration_ms == old(self).turn_duration_ms,
            final(self).stats.moss_count == old(self).stats.moss_count,
            final(self).stats.branch_lv1_count == old(self).stats.branch_lv1_count,
            final(self).stats.branch_lv2_count == old(self).stats.branch_lv2_count,
            final(self).stats.branch_length3_count == old(self).stats.branch_length3_count,
            final(self).stats.branch_length4_count == old(self).stats.branch_length4_count,
            final(self).stats.branch_length5_count == old(self).stats.branch_length5_count,
            final(self).stats.branches_max == old(self).stats.branches_max,
            final(self).stats.bounty_max == old(self).stats.bounty_max,
            !old(self).gifts@.contains_key(g) ==> final(self).gifts@ == old(self).gifts@
                && final(self).stats == old(self).stats,
            old(self).gifts@.contains_key(g) ==> final(self).gifts@ == old(self).gifts@.insert(
                g,
                GiftCell {
                    gift: None,
                    suppressed: if has_branch_child(old(self).branches@, g) {
                        old(self).gifts@[g].suppressed
                    } else {
                        !old(self).gifts@[g].suppressed
                    },
                    parent: old(self).gifts@[g].parent,
                },
            ),
    {
        match self.gifts.get(g) {
            None => (),
            Some(cell) => {
                proof {
                    lemma_map_of_dom(self.gifts.entries@);
                    if cell.gift is Some {
                        lemma_count_ge_one(self.gifts@, kind_pred(cell.gift), g);
                    }
                }
                match cell.gift {
                    Some(Gift::Leaves) => self.stats.leaf_count = self.stats.leaf_count - 1,
                    Some(Gift::Flowers) => self.stats.flower_count = self.stats.flower_count - 1,
                    Some(Gift::Beehive) => self.stats.beehive_count = self.stats.beehive_count - 1,
                    Some(Gift::Berries) => self.stats.berry_count = self.stats.berry_count - 1,
                    Some(Gift::Nuts) => self.stats.nut_count = self.stats.nut_count - 1,
                    Some(Gift::Birdnest) => self.stats.birdnest_count = self.stats.birdnest_count
                        - 1,
                    Some(Gift::Squirrel) => self.stats.squirrel_count = self.stats.squirrel_count
                        - 1,
                    None => (),
                }
                let cleared = GiftCell { gift: None, ..cell };
                let ghost pre = self.gifts@;
                self.gifts.insert(g, cleared);
                proof {
                    lemma_count_insert(pre, kind_pred(Some(Gift::Leaves)), g, cleared);
                    lemma_count_insert(pre, kind_pred(Some(Gift::Flowers)), g, cleared);
                    lemma_count_insert(pre, kind_pred(Some(Gift::Beehive)), g, cleared);
                    lemma_count_insert(pre, kind_pred(Some(Gift::Berries)), g, cleared);
                    lemma_count_insert(pre, kind_pred(Some(Gift::Nuts)), g, cleared);
                    lemma_count_insert(pre, kind_pred(Some(Gift::Birdnest)), g, cleared);
                    lemma_count_insert(pre, kind_pred(Some(Gift::Squirrel)), g, cleared);
                }
                let children = self.gift_children(g);
                if children.len() == 0 {
                    proof {
                        assert(!has_branch_child(self.branches@, g)) by {
                            if has_branch_child(self.branches@, g) {
                                let b = choose|b: BranchPoint| #[trigger] self.branches@
                                    .contains_key(b) && self.branches@[b].parent == Some(g);
                                assert(children@.contains(b));
                            }
                        }
                    }
                    let toggled = GiftCell {
                        gift: None,
                        suppressed: !cell.suppressed,
                        parent: cell.parent,
                    };
                    let ghost pre2 = self.gifts@;
                    self.gifts.insert(g, toggled);
                    proof {
                        lemma_count_insert(pre2, kind_pred(Some(Gift::Leaves)), g, toggled);
                        lemma_count_insert(pre2, kind_pred(Some(Gift::Flowers)), g, toggled);
                        lemma_count_insert(pre2, kind_pred(Some(Gift::Beehive)), g, toggled);
                        lemma_count_insert(pre2, kind_pred(Some(Gift::Berries)), g, toggled);
                        lemma_count_insert(pre2, kind_pred(Some(Gift::Nuts)), g, toggled);
                        lemma_count_insert(pre2, kind_pred(Some(Gift::Birdnest)), g, toggled);
                        lemma_count_insert(pre2, kind_pred(Some(Gift::Squirrel)), g, toggled);
                        assert(self.gifts@ =~= old(self).gifts@.insert(g, toggled));
                    }
                } else {
                    proof {
                        assert(has_branch_child(self.branches@, g)) by {
                            assert(children@.contains(children@[0]));
                        }
                        assert(self.gifts@ =~= old(self).gifts@.insert(g, cleared));
                    }
                }
            },
        }
    }
}

/// How many sites of a sequence hold a record.
pub open spec fn present_count(s: Seq<GiftPoint>, m: Map<GiftPoint, GiftCell>) -> nat
    decreases s.len(),
{
    if s.len() == 0 {
        0
    } else {
        present_count(s.drop_last(), m) + if m.contains_key(s.last()) {
            1nat
        } else {
            0nat
        }
    }
}

/// How many sites of a sequence hold no record.
pub open spec fn absent_count(s: Seq<GiftPoint>, m: Map<GiftPoint, GiftCell>) -> nat
    decreases s.len(),
{
    if s.len() == 0 {
        0
    } else {
        absent_count(s.drop_last(), m) + if m.contains_key(s.last()) {
            0nat
        } else {
            1nat
        }
    }
}

proof fn lemma_present_le(s: Seq<GiftPoint>, m: Map<GiftPoint, GiftCell>)
    ensures
        present_count(s, m) <= s.len(),
    decreases s.len(),
{
    if s.len() > 0 {
        lemma_present_le(s.drop_last(), m);
    }
}

proof fn lemma_absent_le(s: Seq<GiftPoint>, m: Map<GiftPoint, GiftCell>)
    ensures
        absent_count(s, m) <= s.len(),
    decreases s.len(),
{
    if s.len() > 0 {
        lemma_absent_le(s.drop_last(), m);
    }
}

proof fn lemma_present_one(s: Seq<GiftPoint>, m: Map<GiftPoint, GiftCell>, g: GiftPoint)
    requires
        s.contains(g),
        m.contains_key(g),
    ensures
        present_count(s, m) >= 1,
    decreases s.len(),
{
    if s.last() != g {
        let j = choose|j: int| 0 <= j < s.len() && s[j] == g;
        assert(s.drop_last()[j] == g);
        lemma_present_one(s.drop_last(), m, g);
    }
}

proof fn lemma_present_two(
    s: Seq<GiftPoint>,
    m: Map<GiftPoint, GiftCell>,
    g1: GiftPoint,
    g2: GiftPoint,
)
    requires
        s.no_duplicates(),
        s.contains(g1),
        s.contains(g2),
        g1 != g2,
        m.contains_key(g1),
        m.contains_key(g2),
    ensures
        present_count(s, m) >= 2,
    decreases s.len(),
{
    let j1 = choose|j: int| 0 <= j < s.len() && s[j] == g1;
    let j2 = choose|j: int| 0 <= j < s.len() && s[j] == g2;
    if s.last() == g1 {
        assert(j2 < s.len() - 1);
        assert(s.drop_last()[j2] == g2);
        lemma_present_one(s.drop_last(), m, g2);
    } else if s.last() == g2 {
        assert(j1 < s.len() - 1);
        assert(s.drop_last()[j1] == g1);
        lemma_present_one(s.drop_last(), m, g1);
    } else {
        assert(j1 < s.len() - 1 && j2 < s.len() - 1);
        assert(s.drop_last()[j1] == g1 && s.drop_last()[j2] == g2);
        assert(s.drop_last().no_duplicates());
        lemma_present_two(s.drop_last(), m, g1, g2);
    }
}

proof fn lemma_absent_one(s: Seq<GiftPoint>, m: Map<GiftPoint, GiftCell>, g: GiftPoint)
    requires
        s.contains(g),
        !m.contains_key(g),
    ensures
        absent_count(s, m) >= 1,
    decreases s.len(),
{
    if s.last() != g {
        let j = choose|j: int| 0 <= j < s.len() && s[j] == g;
        assert(s.drop_last()[j] == g);
        lemma_absent_one(s.drop_last(), m, g);
    }
}

proof fn lemma_absent_two(
    s: Seq<GiftPoint>,
    m: Map<GiftPoint, GiftCell>,
    g1: GiftPoint,
    g2: GiftPoint,
)
    requires
        s.no_duplicates(),
        s.contains(g1),
        s.contains(g2),
        g1 != g2,
        !m.contains_key(g1),
        !m.contains_key(g2),
    ensures
        absent_count(s, m) >= 2,
    decreases s.len(),
{
    let j1 = choose|j: int| 0 <= j < s.len() && s[j] == g1;
    let j2 = choose|j: int| 0 <= j < s.len() && s[j] == g2;
    if s.last() == g1 {
        assert(j2 < s.len() - 1);
        assert(s.drop_last()[j2] == g2);
        lemma_absent_one(s.drop_last(), m, g2);
    } else if s.last() == g2 {
        assert(j1 < s.len() - 1);
        assert(s.drop_last()[j1] == g1);
        lemma_absent_one(s.drop_last(), m, g1);
    } else {
        assert(j1 < s.len() - 1 && j2 < s.len() - 1);
        assert(s.drop_last()[j1] == g1 && s.drop_last()[j2] == g2);
        assert(s.drop_last().no_duplicates());
        lemma_absent_two(s.drop_last(), m, g1, g2);
    }
}

/// A saturating step of an event counter.
pub open spec fn sat_inc(x: usize, grow: bool) -> usize {
    if grow && x < usize::MAX {
        (x + 1) as usize
    } else {
        x
    }
}

/// What `try_attach` decides, from the state alone: an occupied site or a
/// second present neighbour would close a cycle; success needs exactly one
/// present and one empty neighbour, and the attach cost in store.
pub open spec fn attach_decision(
    branches: Map<BranchPoint, BranchCell>,
    gifts: Map<GiftPoint, GiftCell>,
    bounty: u64,
    p: BranchPoint,
) -> Result<(), AttachError> {
    let nbrs = crate::hex::gift_nbrs(p.hex_point);
    let full = present_count(nbrs, gifts);
    let empty = absent_count(nbrs, gifts);
    if branches.contains_key(p) || full >= 2 {
        Err(AttachError::WouldCycle)
    } else if full == 1 && empty == 1 {
        if bounty < ATTACH_COST {
            Err(AttachError::InsufficientResource)
        } else {
            Ok(())
        }
    } else {
        Err(AttachError::NotAdjacentToTree)
    }
}

/// The state change of a successful attach at `p`: `fg` is the one present
/// neighbour (the new branch's parent, cleared and suppressed), `eg` the one
/// empty neighbour (the new organism record's site).
pub open spec fn attach_ok_post(
    pre: Garden,
    post: Garden,
    p: BranchPoint,
    fg: GiftPoint,
    eg: GiftPoint,
) -> bool {
    let nbrs = crate::hex::gift_nbrs(p.hex_point);
    &&& nbrs.contains(fg) && pre.gifts@.contains_key(fg)
    &&& nbrs.contains(eg) && !pre.gifts@.contains_key(eg)
    &&& forall|g: GiftPoint|
        nbrs.contains(g) && #[trigger] pre.gifts@.contains_key(g) ==> g == fg
    &&& forall|g: GiftPoint|
        #[trigger] nbrs.contains(g) && !pre.gifts@.contains_key(g) ==> g == eg
    &&& post.branches@ == pre.branches@.insert(
        p,
        BranchCell { branch_strain_current: 0, branch_upgrade: 0, parent: Some(fg) },
    )
    &&& post.gifts@ == pre.gifts@.insert(eg, GiftCell { gift: None, suppressed: false, parent: p })
        .insert(fg, GiftCell { gift: None, suppressed: true, parent: pre.gifts@[fg].parent })
    &&& post.bounty_amount == pre.bounty_amount - ATTACH_COST
    &&& post.stats.branch_length3_count == sat_inc(
        pre.stats.branch_length3_count,
        spec_nth_parent(pre.branches@, pre.gifts@, pre.gifts@[fg].parent, 2) is Some,
    )
    &&& post.stats.branch_length4_count == sat_inc(
        pre.stats.branch_length4_count,
        spec_nth_parent(pre.branches@, pre.gifts@, pre.gifts@[fg].parent, 3) is Some,
    )
    &&& post.stats.branch_length5_count == sat_inc(
        pre.stats.branch_length5_count,
        spec_nth_parent(pre.branches@, pre.gifts@, pre.gifts@[fg].parent, 4) is Some,
    )
    &&& post.stats.moss_count == pre.stats.moss_count
    &&& post.stats.branches_max == pre.stats.branches_max
    &&& post.stats.bounty_max == pre.stats.bounty_max
    &&& post.life_amount == pre.life_amount
    &&& post.residual_ms == pre.residual_ms
    &&& post.turn_duration_ms == pre.turn_duration_ms
    &&& post.root_point == pre.root_point
}

impl Garden {
    /// The structure records never outnumber the sites of the coordinate
    /// box that holds the region and the root.
    proof fn lemma_branch_card(&self)
        requires
            self.branches.inv(),
            branches_local_ok(self.branches@, self.root_point),
            self.root_point == (BranchPoint { hex_point: HexPoint { q: 0, r: 1 } }),
        ensures
            self.branches.entries@.len() <= 903,
            self.branches@.dom().len() <= 903,
    {
        let es = self.branches.entries@;
        let ps = es.map_values(|e: (BranchPoint, BranchCell)| e.0.hex_point);
        assert forall|i: int, j: int| 0 <= i < j < ps.len() implies ps[i] != ps[j] by {
            assert(es[i].0 != es[j].0);
        }
        assert(ps.no_duplicates());
        assert forall|i: int| 0 <= i < ps.len() implies in_box(#[trigger] ps[i]) by {
            lemma_map_of_index(es, i);
            assert(self.branches@.contains_key(es[i].0));
            if es[i].0 != self.root_point {
                assert(spec_in_region(es[i].0.hex_point));
                assert(crate::hex::s_of(es[i].0.hex_point) < 21 && crate::hex::s_of(
                    es[i].0.hex_point,
                ) >= 0);
            }
        }
        lemma_distinct_box_points_bounded(ps);
        lemma_map_of_len(es);
    }

    /// The organism records never outnumber the sites of the coordinate box.
    proof fn lemma_gift_card(&self)
        requires
            self.gifts.inv(),
            gifts_local_ok(self.gifts@),
        ensures
            self.gifts.entries@.len() <= 903,
            self.gifts@.dom().len() <= 903,
    {
        let es = self.gifts.entries@;
        let ps = es.map_values(|e: (GiftPoint, GiftCell)| e.0.hex_point);
        assert forall|i: int, j: int| 0 <= i < j < ps.len() implies ps[i] != ps[j] by {
            assert(es[i].0 != es[j].0);
        }
        assert(ps.no_duplicates());
        assert forall|i: int| 0 <= i < ps.len() implies in_box(#[trigger] ps[i]) by {
            lemma_map_of_index(es, i);
            assert(self.gifts@.contains_key(es[i].0));
            assert(spec_in_region(es[i].0.hex_point));
            assert(crate::hex::s_of(es[i].0.hex_point) < 21 && crate::hex::s_of(es[i].0.hex_point)
                >= 0);
        }
        lemma_distinct_box_points_bounded(ps);
        lemma_map_of_len(es);
    }

    /// Attach a new branch at an empty structure site. Valid only when the
    /// site has exactly one present and one empty adjacent gift site; an
    /// occupied site or a second present neighbour would close a cycle. On
    /// success the branch is created at the thinnest tier hanging from the
    /// present neighbour, a fresh organism record is created at the empty
    /// neighbour, the present neighbour is cleared and suppressed, and the
    /// attach cost is debited; on failure nothing changes.
    #[verifier::spinoff_prover]
    #[verifier::rlimit(100)]
    pub fn try_attach(&mut self, p: BranchPoint) -> (r: Result<(), AttachError>)
        requires
            old(self).wf(),
            spec_in_region(p.hex_point),
            !spec_center(p.hex_point),
        ensures
            final(self).wf(),
            r == attach_decision(old(self).branches@, old(self).gifts@, old(self).bounty_amount, p),
            r is Err ==> *final(self) == *old(self),
            r is Ok ==> exists|fg: GiftPoint, eg: GiftPoint|
                attach_ok_post(*old(self), *final(self), p, fg, eg),
    {
        proof {
            assert(crate::hex::coords_roomy(p.hex_point)) by {
                assert(crate::hex::s_of(p.hex_point) < 21 && crate::hex::s_of(p.hex_point) >= 0);
            }
            lemma_gift_nbrs_props(p.hex_point);
        }
        if self.branches.contains(p) {
            return Err(AttachError::WouldCycle);
        }
        let nbrs = p.gift_neighbours();
        let mut full_count: usize = 0;
        let mut empty_count: usize = 0;
        let mut first_full: Option<GiftPoint> = None;
        let mut first_empty: Option<GiftPoint> = None;
        let mut i: usize = 0;
        while i < nbrs.len()
            invariant
                self.gifts.inv(),
                nbrs@ == crate::hex::gift_nbrs(p.hex_point),
                i <= nbrs@.len(),
                full_count == present_count(nbrs@.take(i as int), self.gifts@),
                empty_count == absent_count(nbrs@.take(i as int), self.gifts@),
                first_full is None <==> full_count == 0,
                first_empty is None <==> empty_count == 0,
                first_full matches Some(g) ==> exists|j: int|
                    0 <= j < i && nbrs@[j] == g && self.gifts@.contains_key(g),
                first_empty matches Some(g) ==> exists|j: int|
                    0 <= j < i && nbrs@[j] == g && !self.gifts@.contains_key(g),
            decreases nbrs@.len() - i,
        {
            proof {
                assert(nbrs@.take(i + 1 as int).drop_last() =~= nbrs@.take(i as int));
                assert(nbrs@.take(i + 1 as int).last() == nbrs@[i as int]);
                lemma_present_le(nbrs@.take(i as int), self.gifts@);
                lemma_absent_le(nbrs@.take(i as int), self.gifts@);
            }
            let g = nbrs[i];
            if self.gifts.contains(g) {
                full_count = full_count + 1;
                if first_full.is_none() {
                    first_full = Some(g);
                }
            } else {
                empty_count = empty_count + 1;
                if first_empty.is_none() {
                    first_empty = Some(g);
                }
            }
            i = i + 1;
        }
        proof {
            assert(nbrs@.take(nbrs@.len() as int) =~= nbrs@);
        }
        let ghost nbrseq = nbrs@;
        if full_count >= 2 {
            return Err(AttachError::WouldCycle);
        }
        if !(full_count == 1 && empty_count == 1) {
            return Err(AttachError::NotAdjacentToTree);
        }
        if self.bounty_amount < ATTACH_COST {
            return Err(AttachError::InsufficientResource);
        }
        let fg = first_full.unwrap();
        let eg = first_empty.unwrap();
        proof {
            assert forall|g: GiftPoint|
                nbrseq.contains(g) && #[trigger] self.gifts@.contains_key(g) implies g == fg by {
                if g != fg {
                    lemma_present_two(nbrseq, self.gifts@, g, fg);
                }
            }
            assert forall|g: GiftPoint|
                #[trigger] nbrseq.contains(g) && !self.gifts@.contains_key(g) implies g == eg by {
                if g != eg {
                    lemma_absent_two(nbrseq, self.gifts@, g, eg);
                }
            }
            assert(nbrseq.contains(fg) && nbrseq.contains(eg));
            assert(is_adjacent(p.hex_point, fg.hex_point));
            assert(is_adjacent(p.hex_point, eg.hex_point));
            assert(spec_in_region(eg.hex_point) && spec_center(eg.hex_point));
            assert(spec_in_region(fg.hex_point) && spec_center(fg.hex_point));
        }
        let full_cell = self.gifts.get(fg).unwrap();
        let pb = full_cell.parent;
        let l3 = self.branch_nth_parent_point(pb, 2).is_some();
        let l4 = self.branch_nth_parent_point(pb, 3).is_some();
        let l5 = self.branch_nth_parent_point(pb, 4).is_some();
        proof {
            self.lemma_branch_card();
            self.lemma_gift_card();
            lemma_map_of_dom(self.branches.entries@);
            lemma_map_of_dom(self.gifts.entries@);
            lemma_count_le_dom(self.branches@, tier0_pred());
            if full_cell.gift is Some {
                lemma_count_ge_one(self.gifts@, kind_pred(full_cell.gift), fg);
            }
        }
        self.bounty_amount = self.bounty_amount - ATTACH_COST;
        self.stats.branch_lv1_count = self.stats.branch_lv1_count + 1;
        if l3 && self.stats.branch_length3_count < usize::MAX {
            self.stats.branch_length3_count = self.stats.branch_length3_count + 1;
        }
        if l4 && self.stats.branch_length4_count < usize::MAX {
            self.stats.branch_length4_count = self.stats.branch_length4_count + 1;
        }
        if l5 && self.stats.branch_length5_count < usize::MAX {
            self.stats.branch_length5_count = self.stats.branch_length5_count + 1;
        }
        match full_cell.gift {
            Some(Gift::Leaves) => self.stats.leaf_count = self.stats.leaf_count - 1,
            Some(Gift::Flowers) => self.stats.flower_count = self.stats.flower_count - 1,
            Some(Gift::Beehive) => self.stats.beehive_count = self.stats.beehive_count - 1,
            Some(Gift::Berries) => self.stats.berry_count = self.stats.berry_count - 1,
            Some(Gift::Nuts) => self.stats.nut_count = self.stats.nut_count - 1,
            Some(Gift::Birdnest) => self.stats.birdnest_count = self.stats.birdnest_count - 1,
            Some(Gift::Squirrel) => self.stats.squirrel_count = self.stats.squirrel_count - 1,
            None => (),
        }
        let new_branch = BranchCell::new(Some(fg));
        let ghost bpre = self.branches@;
        self.branches.insert(p, new_branch);
        proof {
            lemma_count_insert(bpre, tier0_pred(), p, new_branch);
            lemma_count_insert(bpre, upgraded_pred(), p, new_branch);
        }
        let new_gift = GiftCell::new(p);
        let ghost gpre = self.gifts@;
        self.gifts.insert(eg, new_gift);
        proof {
            lemma_count_insert(gpre, kind_pred(Some(Gift::Leaves)), eg, new_gift);
            lemma_count_insert(gpre, kind_pred(Some(Gift::Flowers)), eg, new_gift);
            lemma_count_insert(gpre, kind_pred(Some(Gift::Beehive)), eg, new_gift);
            lemma_count_insert(gpre, kind_pred(Some(Gift::Berries)), eg, new_gift);
            lemma_count_insert(gpre, kind_pred(Some(Gift::Nuts)), eg, new_gift);
            lemma_count_insert(gpre, kind_pred(Some(Gift::Birdnest)), eg, new_gift);
            lemma_count_insert(gpre, kind_pred(Some(Gift::Squirrel)), eg, new_gift);
        }
        let subsumed = GiftCell { gift: None, suppressed: true, parent: full_cell.parent };
        let ghost gpre2 = self.gifts@;
        self.gifts.insert(fg, subsumed);
        proof {
            lemma_count_insert(gpre2, kind_pred(Some(Gift::Leaves)), fg, subsumed);
            lemma_count_insert(gpre2, kind_pred(Some(Gift::Flowers)), fg, subsumed);
            lemma_count_insert(gpre2, kind_pred(Some(Gift::Beehive)), fg, subsumed);
            lemma_count_insert(gpre2, kind_pred(Some(Gift::Berries)), fg, subsumed);
            lemma_count_insert(gpre2, kind_pred(Some(Gift::Nuts)), fg, subsumed);
            lemma_count_insert(gpre2, kind_pred(Some(Gift::Birdnest)), fg, subsumed);
            lemma_count_insert(gpre2, kind_pred(Some(Gift::Squirrel)), fg, subsumed);
        }
        let ghost rk = self.ranks@[gkey(fg)];
        proof {
            assert(p != old(self).root_point);
        }
        self.ranks = Ghost(
            self.ranks@.insert(bkey(p), (rk + 1) as nat).insert(gkey(eg), (rk + 2) as nat),
        );
        proof {
            let pre = *old(self);
            let post = *self;
            assert(post.gifts@[fg].parent == pre.gifts@[fg].parent);
            assert forall|b: BranchPoint| #[trigger]
                post.branches@.contains_key(b) && b != post.root_point implies post.ranks@[gkey(
                post.branches@[b].parent->Some_0,
            )] < post.ranks@[bkey(b)] by {
                if b == p {
                    assert(post.branches@[p].parent == Some(fg));
                    assert(gkey(fg) != bkey(p) && gkey(fg) != gkey(eg));
                    assert(post.ranks@[bkey(p)] == rk + 1);
                } else {
                    assert(pre.branches@.contains_key(b));
                    let gp = pre.branches@[b].parent->Some_0;
                    assert(pre.gifts@.contains_key(gp));
                    assert(gp != eg);
                    assert(bkey(b) != bkey(p) && bkey(b) != gkey(eg));
                    assert(post.ranks@[gkey(gp)] == pre.ranks@[gkey(gp)]);
                    assert(post.ranks@[bkey(b)] == pre.ranks@[bkey(b)]);
                }
            }
            assert forall|g: GiftPoint| #[trigger]
                post.gifts@.contains_key(g) implies post.ranks@[bkey(post.gifts@[g].parent)]
                < post.ranks@[gkey(g)] by {
                if g == eg {
                    assert(post.gifts@[eg].parent == p);
                    assert(post.ranks@[gkey(eg)] == rk + 2);
                    assert(post.ranks@[bkey(p)] == rk + 1);
                } else if g == fg {
                    assert(pre.gifts@.contains_key(fg));
                    let bb = pre.gifts@[fg].parent;
                    assert(pre.branches@.contains_key(bb));
                    assert(bb != p);
                    assert(post.ranks@[bkey(bb)] == pre.ranks@[bkey(bb)]);
                    assert(post.ranks@[gkey(fg)] == pre.ranks@[gkey(fg)]);
                } else {
                    assert(pre.gifts@.contains_key(g));
                    let bb = pre.gifts@[g].parent;
                    assert(pre.branches@.contains_key(bb));
                    assert(bb != p);
                    assert(post.ranks@[bkey(bb)] == pre.ranks@[bkey(bb)]);
                    assert(post.ranks@[gkey(g)] == pre.ranks@[gkey(g)]);
                }
            }
            lemma_adjacent_symm(p.hex_point, eg.hex_point);
            assert(attach_ok_post(pre, post, p, fg, eg));
        }
        Ok(())
    }
}

/// The cost of growing a branch from the given tier, in resource units.
pub open spec fn spec_upgrade_cost(t: int) -> u64 {
    if t == 0 {
        UPGRADE_COST_T0
    } else if t == 1 {
        UPGRADE_COST_T1
    } else {
        UPGRADE_COST_T2
    }
}

/// What `try_upgrade` decides, from the state alone. The parent one
/// structure generation up must be strictly thicker (the root stands in
/// when the walk runs out); the ancestor two structure generations up must
/// be thicker than the target's next tier, unless that walk runs out or
/// lands on the root.
pub open spec fn upgrade_decision(
    branches: Map<BranchPoint, BranchCell>,
    gifts: Map<GiftPoint, GiftCell>,
    root: BranchPoint,
    bounty: u64,
    p: BranchPoint,
) -> Result<(), UpgradeError>
    recommends
        branches.contains_key(p),
{
    let t = branches[p].branch_upgrade;
    if t >= 3 {
        Err(UpgradeError::AlreadyMaxTier)
    } else {
        let parent_t: int = match spec_nth_parent(branches, gifts, p, 1) {
            Some(b1) => branches[b1].branch_upgrade as int,
            None => 3,
        };
        if !(t < parent_t) {
            Err(UpgradeError::ParentNotStrongEnough)
        } else {
            let strain_ok = match spec_nth_parent(branches, gifts, p, 2) {
                None => true,
                Some(b2) => b2 == root || branches[b2].branch_upgrade > t + 1,
            };
            if !strain_ok {
                Err(UpgradeError::TooStrained)
            } else if bounty < spec_upgrade_cost(t as int) {
                Err(UpgradeError::InsufficientResource)
            } else {
                Ok(())
            }
        }
    }
}

/// A successful ancestor walk ends at a present record.
proof fn lemma_nth_parent_present(
    branches: Map<BranchPoint, BranchCell>,
    gifts: Map<GiftPoint, GiftCell>,
    b: BranchPoint,
    n: nat,
)
    ensures
        spec_nth_parent(branches, gifts, b, n) matches Some(x) ==> branches.contains_key(x),
    decreases n,
{
    if n > 0 {
        match spec_branch_parent(branches, gifts, b) {
            Some(pb) => lemma_nth_parent_present(branches, gifts, pb, (n - 1) as nat),
            None => (),
        }
    }
}

impl Garden {
    /// Grow a branch one thickness tier, debiting the tier's cost. Valid
    /// only below the parent's tier and within the ancestor strain budget;
    /// on failure nothing changes.
    #[verifier::spinoff_prover]
    #[verifier::rlimit(100)]
    pub fn try_upgrade(&mut self, p: BranchPoint) -> (r: Result<(), UpgradeError>)
        requires
            old(self).wf(),
            old(self).branches@.contains_key(p),
        ensures
            final(self).wf(),
            r == upgrade_decision(
                old(self).branches@,
                old(self).gifts@,
                old(self).root_point,
                old(self).bounty_amount,
                p,
            ),
            r is Err ==> *final(self) == *old(self),
            r is Ok ==> final(self).branches@ == old(self).branches@.insert(
                p,
                BranchCell {
                    branch_upgrade: (old(self).branches@[p].branch_upgrade + 1) as usize,
                    ..old(self).branches@[p]
                },
            ),
            r is Ok ==> final(self).bounty_amount == old(self).bounty_amount - spec_upgrade_cost(
                old(self).branches@[p].branch_upgrade as int,
            ),
            r is Ok ==> final(self).gifts@ == old(self).gifts@ && final(self).stats.moss_count
                == old(self).stats.moss_count && final(self).stats.branch_length3_count == old(
                self,
            ).stats.branch_length3_count && final(self).stats.branch_length4_count == old(
                self,
            ).stats.branch_length4_count && final(self).stats.branch_length5_count == old(
                self,
            ).stats.branch_length5_count && final(self).stats.branches_max == old(
                self,
            ).stats.branches_max && final(self).stats.bounty_max == old(self).stats.bounty_max
                && final(self).life_amount == old(self).life_amount && final(self).residual_ms
                == old(self).residual_ms && final(self).turn_duration_ms == old(
                self,
            ).turn_duration_ms && final(self).root_point == old(self).root_point,
    {
        let cell = self.branches.get(p).unwrap();
        if cell.branch_upgrade >= 3 {
            return Err(UpgradeError::AlreadyMaxTier);
        }
        proof {
            lemma_nth_parent_present(self.branches@, self.gifts@, p, 1);
            lemma_nth_parent_present(self.branches@, self.gifts@, p, 2);
        }
        let parent_t: usize = match self.branch_nth_parent_point(p, 1) {
            Some(b1) => self.branches.get(b1).unwrap().branch_upgrade,
            None => 3,
        };
        if !(cell.branch_upgrade < parent_t) {
            return Err(UpgradeError::ParentNotStrongEnough);
        }
        let strain_ok = match self.branch_nth_parent_point(p, 2) {
            None => true,
            Some(b2) => {
                if b2.hex_point.q == self.root_point.hex_point.q && b2.hex_point.r
                    == self.root_point.hex_point.r {
                    true
                } else {
                    self.branches.get(b2).unwrap().branch_upgrade > cell.branch_upgrade + 1
                }
            },
        };
        if !strain_ok {
            return Err(UpgradeError::TooStrained);
        }
        let cost = if cell.branch_upgrade == 0 {
            UPGRADE_COST_T0
        } else if cell.branch_upgrade == 1 {
            UPGRADE_COST_T1
        } else {
            UPGRADE_COST_T2
        };
        if self.bounty_amount < cost {
            return Err(UpgradeError::InsufficientResource);
        }
        proof {
            lemma_map_of_dom(self.branches.entries@);
            crate::store::lemma_map_of_len(self.branches.entries@);
            assert(self.branches.entries@.len() <= usize::MAX) by {
                broadcast use vstd::std_specs::vec::axiom_spec_len;

                assert(vstd::std_specs::vec::spec_vec_len(&self.branches.entries) <= usize::MAX);
            }
            if cell.branch_upgrade == 0 {
                lemma_count_ge_one(self.branches@, tier0_pred(), p);
                lemma_count_lt_dom(self.branches@, upgraded_pred(), p);
            }
        }
        self.bounty_amount = self.bounty_amount - cost;
        if cell.branch_upgrade == 0 {
            self.stats.branch_lv1_count = self.stats.branch_lv1_count - 1;
            self.stats.branch_lv2_count = self.stats.branch_lv2_count + 1;
        }
        let upgraded_cell = BranchCell { branch_upgrade: cell.branch_upgrade + 1, ..cell };
        let ghost bpre = self.branches@;
        self.branches.insert(p, upgraded_cell);
        proof {
            lemma_count_insert(bpre, tier0_pred(), p, upgraded_cell);
            lemma_count_insert(bpre, upgraded_pred(), p, upgraded_cell);
            assert(p != old(self).root_point ==> upgraded_cell.parent is Some);
        }
        Ok(())
    }
}

/// Whether a site of either kind holds a record.
pub open spec fn present_in(
    branches: Map<BranchPoint, BranchCell>,
    gifts: Map<GiftPoint, GiftCell>,
    x: InBoundsPoint,
) -> bool {
    match x {
        InBoundsPoint::BranchPoint(b) => branches.contains_key(b),
        InBoundsPoint::GiftPoint(g) => gifts.contains_key(g),
    }
}

/// One step up the tree from a site of either kind.
pub open spec fn parent_of(
    branches: Map<BranchPoint, BranchCell>,
    gifts: Map<GiftPoint, GiftCell>,
    x: InBoundsPoint,
) -> Option<InBoundsPoint> {
    match x {
        InBoundsPoint::BranchPoint(b) => if branches.contains_key(b) {
            match branches[b].parent {
                Some(g) => Some(gkey(g)),
                None => None,
            }
        } else {
            None
        },
        InBoundsPoint::GiftPoint(g) => if gifts.contains_key(g) {
            Some(bkey(gifts[g].parent))
        } else {
            None
        },
    }
}

/// The parent chain from `x` arrives at `t` in exactly `k` steps.
pub open spec fn reaches(
    branches: Map<BranchPoint, BranchCell>,
    gifts: Map<GiftPoint, GiftCell>,
    x: InBoundsPoint,
    t: InBoundsPoint,
    k: nat,
) -> bool
    decreases k,
{
    if k == 0 {
        x == t
    } else {
        parent_of(branches, gifts, x) matches Some(y) && reaches(
            branches,
            gifts,
            y,
            t,
            (k - 1) as nat,
        )
    }
}

/// `t` lies on the parent chain of `x`: the sites a prune at `t` removes.
pub open spec fn is_descendant(
    branches: Map<BranchPoint, BranchCell>,
    gifts: Map<GiftPoint, GiftCell>,
    x: InBoundsPoint,
    t: InBoundsPoint,
) -> bool {
    exists|k: nat| reaches(branches, gifts, x, t, k)
}

/// Along a parent chain the ghost rank strictly descends, so the chain's
/// end ranks no higher than its start.
proof fn lemma_reaches_rank(
    branches: Map<BranchPoint, BranchCell>,
    gifts: Map<GiftPoint, GiftCell>,
    root: BranchPoint,
    ranks: Map<InBoundsPoint, nat>,
    x: InBoundsPoint,
    t: InBoundsPoint,
    k: nat,
)
    requires
        ranks_ok(branches, gifts, root, ranks),
        branches.contains_key(root) ==> branches[root].parent is None,
        reaches(branches, gifts, x, t, k),
    ensures
        ranks[t] <= ranks[x],
        k >= 1 ==> ranks[t] < ranks[x],
    decreases k,
{
    if k >= 1 {
        let y = parent_of(branches, gifts, x)->Some_0;
        match x {
            InBoundsPoint::BranchPoint(b) => {
                assert(branches.contains_key(b));
                assert(b != root);
                assert(ranks[y] < ranks[x]);
                lemma_reaches_rank(branches, gifts, root, ranks, y, t, (k - 1) as nat);
            },
            InBoundsPoint::GiftPoint(g) => {
                assert(ranks[y] < ranks[x]);
                lemma_reaches_rank(branches, gifts, root, ranks, y, t, (k - 1) as nat);
            },
        }
    }
}

/// In a pruned state whose remaining records kept their values and their
/// parents, nothing that descended from the removed target can remain: its
/// chain would need the target itself.
proof fn lemma_descendant_gone(
    ob: Map<BranchPoint, BranchCell>,
    og: Map<GiftPoint, GiftCell>,
    nb: Map<BranchPoint, BranchCell>,
    ng: Map<GiftPoint, GiftCell>,
    root: BranchPoint,
    start: InBoundsPoint,
    x: InBoundsPoint,
    k: nat,
)
    requires
        forall|b: BranchPoint| #[trigger] nb.contains_key(b) ==> ob.contains_key(b) && nb[b] == ob[b],
        forall|g: GiftPoint| #[trigger] ng.contains_key(g) ==> og.contains_key(g) && ng[g] == og[g],
        links_ok(nb, ng, root),
        ob.contains_key(root) && ob[root].parent is None,
        !present_in(nb, ng, start),
        reaches(ob, og, x, start, k),
    ensures
        !present_in(nb, ng, x),
    decreases k,
{
    if k > 0 && present_in(nb, ng, x) {
        let y = parent_of(ob, og, x)->Some_0;
        match x {
            InBoundsPoint::BranchPoint(b) => {
                assert(nb.contains_key(b));
                assert(b != root) by {
                    assert(ob[root].parent is None);
                }
                assert(ng.contains_key(nb[b].parent->Some_0));
                assert(y == gkey(ob[b].parent->Some_0));
                assert(present_in(nb, ng, y));
                lemma_descendant_gone(ob, og, nb, ng, root, start, y, (k - 1) as nat);
            },
            InBoundsPoint::GiftPoint(g) => {
                assert(ng.contains_key(g));
                assert(nb.contains_key(ng[g].parent));
                assert(y == bkey(og[g].parent));
                assert(present_in(nb, ng, y));
                lemma_descendant_gone(ob, og, nb, ng, root, start, y, (k - 1) as nat);
            },
        }
    }
}

/// The state change of a prune at `start`: exactly the sites whose parent
/// chain passes through `start` are gone, every other record is untouched,
/// and the economy and event counters are untouched.
pub open spec fn prune_post(pre: Garden, post: Garden, start: InBoundsPoint) -> bool {
    &&& forall|b: BranchPoint| #[trigger]
        post.branches@.contains_key(b) <==> pre.branches@.contains_key(b) && !is_descendant(
            pre.branches@,
            pre.gifts@,
            bkey(b),
            start,
        )
    &&& forall|b: BranchPoint| #[trigger]
        post.branches@.contains_key(b) ==> post.branches@[b] == pre.branches@[b]
    &&& forall|g: GiftPoint| #[trigger]
        post.gifts@.contains_key(g) <==> pre.gifts@.contains_key(g) && !is_descendant(
            pre.branches@,
            pre.gifts@,
            gkey(g),
            start,
        )
    &&& forall|g: GiftPoint| #[trigger]
        post.gifts@.contains_key(g) ==> post.gifts@[g] == pre.gifts@[g]
    &&& post.bounty_amount == pre.bounty_amount
    &&& post.life_amount == pre.life_amount
    &&& post.residual_ms == pre.residual_ms
    &&& post.turn_duration_ms == pre.turn_duration_ms
    &&& post.root_point == pre.root_point
    &&& post.stats.moss_count == pre.stats.moss_count
    &&& post.stats.branch_length3_count == pre.stats.branch_length3_count
    &&& post.stats.branch_length4_count == pre.stats.branch_length4_count
    &&& post.stats.branch_length5_count == pre.stats.branch_length5_count
    &&& post.stats.branches_max == pre.stats.branches_max
    &&& post.stats.bounty_max == pre.stats.bounty_max
}

impl Garden {
    /// Remove the whole subtree rooted at `start`: a worklist removes each
    /// scheduled record and schedules its children, so exactly the sites
    /// whose parent chain passes through `start` are removed.
    #[verifier::spinoff_prover]
    #[verifier::rlimit(100)]
    fn prune_from(&mut self, start: InBoundsPoint)
        requires
            old(self).wf(),
            present_in(old(self).branches@, old(self).gifts@, start),
            start != bkey(old(self).root_point),
        ensures
            final(self).wf(),
            prune_post(*old(self), *final(self), start),
    {
        let ghost ob = old(self).branches@;
        let ghost og = old(self).gifts@;
        let ghost rks = old(self).ranks@;
        let ghost root = old(self).root_point;
        let mut stack: Vec<InBoundsPoint> = Vec::new();
        stack.push(start);
        proof {
            assert(reaches(ob, og, start, start, 0));
            assert(is_descendant(ob, og, start, start));
            assert(stack@[0] == start);
            assert(stack@.contains(start));
        }
        while stack.len() > 0
            invariant
                ob == old(self).branches@,
                og == old(self).gifts@,
                rks == old(self).ranks@,
                root == old(self).root_point,
                ranks_ok(ob, og, root, rks),
                ob.contains_key(root),
                ob[root].parent is None,
                start != bkey(root),
                self.root_point == root,
                self.ranks@ == rks,
                self.bounty_amount == old(self).bounty_amount,
                self.life_amount == old(self).life_amount,
                self.residual_ms == old(self).residual_ms,
                self.turn_duration_ms == old(self).turn_duration_ms,
                self.stats.moss_count == old(self).stats.moss_count,
                self.stats.branch_length3_count == old(self).stats.branch_length3_count,
                self.stats.branch_length4_count == old(self).stats.branch_length4_count,
                self.stats.branch_length5_count == old(self).stats.branch_length5_count,
                self.stats.branches_max == old(self).stats.branches_max,
                self.stats.bounty_max == old(self).stats.bounty_max,
                self.branches.inv(),
                self.gifts.inv(),
                branches_local_ok(self.branches@, root),
                gifts_local_ok(self.gifts@),
                ranks_ok(self.branches@, self.gifts@, root, rks),
                gift_stats_ok(self.stats, self.gifts@),
                branch_stats_ok(self.stats, self.branches@),
                self.branches@.contains_key(root),
                self.branches@[root] == ob[root],
                forall|b: BranchPoint| #[trigger]
                    self.branches@.contains_key(b) ==> ob.contains_key(b) && self.branches@[b]
                        == ob[b],
                forall|g: GiftPoint| #[trigger]
                    self.gifts@.contains_key(g) ==> og.contains_key(g) && self.gifts@[g] == og[g],
                forall|b: BranchPoint| #[trigger]
                    ob.contains_key(b) && !self.branches@.contains_key(b) ==> is_descendant(
                        ob,
                        og,
                        bkey(b),
                        start,
                    ),
                forall|g: GiftPoint| #[trigger]
                    og.contains_key(g) && !self.gifts@.contains_key(g) ==> is_descendant(
                        ob,
                        og,
                        gkey(g),
                        start,
                    ),
                stack@.no_duplicates(),
                forall|i: int|
                    0 <= i < stack@.len() ==> present_in(
                        self.branches@,
                        self.gifts@,
                        #[trigger] stack@[i],
                    ),
                forall|i: int|
                    0 <= i < stack@.len() ==> is_descendant(ob, og, #[trigger] stack@[i], start),
                forall|i: int|
                    0 <= i < stack@.len() ==> (#[trigger] stack@[i] == start || (parent_of(
                        ob,
                        og,
                        stack@[i],
                    ) matches Some(y) && !present_in(self.branches@, self.gifts@, y))),
                forall|b: BranchPoint| #[trigger]
                    self.branches@.contains_key(b) && b != root ==> (self.gifts@.contains_key(
                        self.branches@[b].parent->Some_0,
                    ) || stack@.contains(bkey(b))),
                forall|g: GiftPoint| #[trigger]
                    self.gifts@.contains_key(g) ==> (self.branches@.contains_key(
                        self.gifts@[g].parent,
                    ) || stack@.contains(gkey(g))),
                stack@.contains(start) || !present_in(self.branches@, self.gifts@, start),
            decreases self.branches.entries@.len() + self.gifts.entries@.len(),
        {
            let ghost head_stack = stack@;
            let ghost hb = self.branches@;
            let ghost hg = self.gifts@;
            let x = stack.pop().unwrap();
            proof {
                assert(x == head_stack[head_stack.len() - 1]);
                assert(stack@ =~= head_stack.subrange(0, head_stack.len() - 1));
                assert(present_in(hb, hg, x));
                assert(is_descendant(ob, og, x, start));
                assert(stack@.no_duplicates());
                assert forall|i: int| 0 <= i < stack@.len() implies #[trigger] stack@[i] != x by {
                    assert(head_stack[i] == stack@[i] && head_stack[head_stack.len() - 1] == x);
                }
            }
            match x {
                InBoundsPoint::BranchPoint(b) => {
                    proof {
                        assert(b != root) by {
                            if b == root {
                                let k = choose|k: nat| reaches(ob, og, bkey(root), start, k);
                                if k != 0 {
                                    assert(ob[root].parent is None);
                                    assert(!(parent_of(ob, og, bkey(root)) matches Some(y)));
                                }
                            }
                        }
                        assert(spec_in_region(b.hex_point));
                        lemma_map_of_dom(self.branches.entries@);
                        if hb[b].branch_upgrade == 0 {
                            lemma_count_ge_one(self.branches@, tier0_pred(), b);
                        } else {
                            lemma_count_ge_one(self.branches@, upgraded_pred(), b);
                        }
                    }
                    let cell = self.branches.get(b).unwrap();
                    if cell.branch_upgrade == 0 {
                        self.stats.branch_lv1_count = self.stats.branch_lv1_count - 1;
                    } else {
                        self.stats.branch_lv2_count = self.stats.branch_lv2_count - 1;
                    }
                    let ghost bpre = self.branches@;
                    self.branches.remove(b);
                    proof {
                        crate::store::lemma_count_remove(bpre, tier0_pred(), b);
                        crate::store::lemma_count_remove(bpre, upgraded_pred(), b);
                    }
                    let children = self.branch_children(b);
                    let mut kids: Vec<InBoundsPoint> = Vec::new();
                    let mut j: usize = 0;
                    while j < children.len()
                        invariant
                            j <= children@.len(),
                            kids@.len() == j,
                            forall|jj: int| 0 <= jj < j ==> kids@[jj] == gkey(children@[jj]),
                        decreases children@.len() - j,
                    {
                        kids.push(InBoundsPoint::GiftPoint(children[j]));
                        j = j + 1;
                    }
                    let ghost kidseq = kids@;
                    let ghost tail = stack@;
                    proof {
                        let kb = choose|k: nat| reaches(ob, og, bkey(b), start, k);
                        assert(kidseq.no_duplicates()) by {
                            assert forall|i1: int, i2: int|
                                0 <= i1 < i2 < kidseq.len() implies kidseq[i1] != kidseq[i2] by {
                                assert(children@[i1] != children@[i2]);
                            }
                        }
                        assert forall|i: int| 0 <= i < kidseq.len() implies {
                            &&& present_in(self.branches@, self.gifts@, #[trigger] kidseq[i])
                            &&& is_descendant(ob, og, kidseq[i], start)
                            &&& parent_of(ob, og, kidseq[i]) == Some(bkey(b))
                            &&& kidseq[i] != start
                        } by {
                            let c = children@[i];
                            assert(children@.contains(c));
                            assert(self.gifts@.contains_key(c) && self.gifts@[c].parent == b);
                            assert(og.contains_key(c) && og[c].parent == b);
                            assert(parent_of(ob, og, gkey(c)) == Some(bkey(b)));
                            assert(reaches(ob, og, gkey(c), start, (kb + 1) as nat));
                            assert(kidseq[i] != start) by {
                                if gkey(c) == start {
                                    lemma_reaches_rank(ob, og, root, rks, bkey(b), start, kb);
                                    assert(rks[bkey(og[c].parent)] < rks[gkey(c)]);
                                }
                            }
                        }
                        assert forall|i1: int, i2: int|
                            0 <= i1 < tail.len() && 0 <= i2 < kidseq.len() implies tail[i1]
                            != kidseq[i2] by {
                            let s = tail[i1];
                            assert(head_stack[i1] == s);
                            if s == kidseq[i2] {
                                assert(s != start);
                                assert(parent_of(ob, og, s) matches Some(z) && !present_in(
                                    hb,
                                    hg,
                                    z,
                                ));
                                assert(parent_of(ob, og, s) == Some(bkey(b)));
                                assert(present_in(hb, hg, bkey(b)));
                            }
                        }
                    }
                    stack.append(&mut kids);
                    proof {
                        vstd::seq_lib::lemma_no_dup_in_concat(tail, kidseq);
                        assert(stack@ == tail + kidseq);
                        assert forall|i: int|
                            0 <= i < stack@.len() implies present_in(
                            self.branches@,
                            self.gifts@,
                            #[trigger] stack@[i],
                        ) && is_descendant(ob, og, stack@[i], start) && (stack@[i] == start || (
                        parent_of(ob, og, stack@[i]) matches Some(y) && !present_in(
                            self.branches@,
                            self.gifts@,
                            y,
                        ))) by {
                            if i < tail.len() {
                                assert(stack@[i] == tail[i]);
                                assert(tail[i] != bkey(b));
                            } else {
                                assert(stack@[i] == kidseq[i - tail.len()]);
                            }
                        }
                        assert forall|b2: BranchPoint| #[trigger]
                            self.branches@.contains_key(b2) && b2 != root implies (
                        self.gifts@.contains_key(self.branches@[b2].parent->Some_0)
                            || stack@.contains(bkey(b2))) by {
                            if !self.gifts@.contains_key(self.branches@[b2].parent->Some_0) {
                                assert(hb.contains_key(b2));
                                assert(head_stack.contains(bkey(b2)));
                                let i = choose|i: int|
                                    0 <= i < head_stack.len() && head_stack[i] == bkey(b2);
                                assert(i < head_stack.len() - 1);
                                assert(stack@[i] == bkey(b2));
                            }
                        }
                        assert forall|g2: GiftPoint| #[trigger]
                            self.gifts@.contains_key(g2) implies (self.branches@.contains_key(
                            self.gifts@[g2].parent,
                        ) || stack@.contains(gkey(g2))) by {
                            if !self.branches@.contains_key(self.gifts@[g2].parent) {
                                if self.gifts@[g2].parent == b {
                                    assert(children@.contains(g2));
                                    let i = choose|i: int|
                                        0 <= i < children@.len() && children@[i] == g2;
                                    assert(stack@[tail.len() + i] == gkey(g2));
                                } else {
                                    assert(hb.contains_key(hg[g2].parent)
                                        || head_stack.contains(gkey(g2)));
                                    let i = choose|i: int|
                                        0 <= i < head_stack.len() && head_stack[i] == gkey(g2);
                                    assert(i < head_stack.len() - 1);
                                    assert(stack@[i] == gkey(g2));
                                }
                            }
                        }
                        assert(stack@.contains(start) || !present_in(
                            self.branches@,
                            self.gifts@,
                            start,
                        )) by {
                            if present_in(self.branches@, self.gifts@, start) {
                                assert(head_stack.contains(start));
                                let i = choose|i: int|
                                    0 <= i < head_stack.len() && head_stack[i] == start;
                                assert(i < head_stack.len() - 1);
                                assert(stack@[i] == start);
                            }
                        }
                    }
                },
                InBoundsPoint::GiftPoint(g) => {
                    proof {
                        assert(spec_in_region(g.hex_point));
                        lemma_map_of_dom(self.gifts.entries@);
                        if hg[g].gift is Some {
                            lemma_count_ge_one(self.gifts@, kind_pred(hg[g].gift), g);
                        }
                    }
                    let cell = self.gifts.get(g).unwrap();
                    match cell.gift {
                        Some(Gift::Leaves) => self.stats.leaf_count = self.stats.leaf_count - 1,
                        Some(Gift::Flowers) => self.stats.flower_count = self.stats.flower_count
                            - 1,
                        Some(Gift::Beehive) => self.stats.beehive_count = self.stats.beehive_count
                            - 1,
                        Some(Gift::Berries) => self.stats.berry_count = self.stats.berry_count - 1,
                        Some(Gift::Nuts) => self.stats.nut_count = self.stats.nut_count - 1,
                        Some(Gift::Birdnest) => self.stats.birdnest_count =
                            self.stats.birdnest_count - 1,
                        Some(Gift::Squirrel) => self.stats.squirrel_count =
                            self.stats.squirrel_count - 1,
                        None => (),
                    }
                    let ghost gpre = self.gifts@;
                    self.gifts.remove(g);
                    proof {
                        crate::store::lemma_count_remove(gpre, kind_pred(Some(Gift::Leaves)), g);
                        crate::store::lemma_count_remove(gpre, kind_pred(Some(Gift::Flowers)), g);
                        crate::store::lemma_count_remove(gpre, kind_pred(Some(Gift::Beehive)), g);
                        crate::store::lemma_count_remove(gpre, kind_pred(Some(Gift::Berries)), g);
                        crate::store::lemma_count_remove(gpre, kind_pred(Some(Gift::Nuts)), g);
                        crate::store::lemma_count_remove(gpre, kind_pred(Some(Gift::Birdnest)), g);
                        crate::store::lemma_count_remove(gpre, kind_pred(Some(Gift::Squirrel)), g);
                    }
                    let children = self.gift_children(g);
                    let mut kids: Vec<InBoundsPoint> = Vec::new();
                    let mut j: usize = 0;
                    while j < children.len()
                        invariant
                            j <= children@.len(),
                            kids@.len() == j,
                            forall|jj: int| 0 <= jj < j ==> kids@[jj] == bkey(children@[jj]),
                        decreases children@.len() - j,
                    {
                        kids.push(InBoundsPoint::BranchPoint(children[j]));
                        j = j + 1;
                    }
                    let ghost kidseq = kids@;
                    let ghost tail = stack@;
                    proof {
                        let kg = choose|k: nat| reaches(ob, og, gkey(g), start, k);
                        assert(kidseq.no_duplicates()) by {
                            assert forall|i1: int, i2: int|
                                0 <= i1 < i2 < kidseq.len() implies kidseq[i1] != kidseq[i2] by {
                                assert(children@[i1] != children@[i2]);
                            }
                        }
                        assert forall|i: int| 0 <= i < kidseq.len() implies {
                            &&& present_in(self.branches@, self.gifts@, #[trigger] kidseq[i])
                            &&& is_descendant(ob, og, kidseq[i], start)
                            &&& parent_of(ob, og, kidseq[i]) == Some(gkey(g))
                            &&& kidseq[i] != start
                        } by {
                            let c = children@[i];
                            assert(children@.contains(c));
                            assert(self.branches@.contains_key(c) && self.branches@[c].parent
                                == Some(g));
                            assert(ob.contains_key(c) && ob[c].parent == Some(g));
                            assert(c != root) by {
                                assert(ob[root].parent is None);
                            }
                            assert(parent_of(ob, og, bkey(c)) == Some(gkey(g)));
                            assert(reaches(ob, og, bkey(c), start, (kg + 1) as nat));
                            assert(kidseq[i] != start) by {
                                if bkey(c) == start {
                                    lemma_reaches_rank(ob, og, root, rks, gkey(g), start, kg);
                                    assert(rks[gkey(ob[c].parent->Some_0)] < rks[bkey(c)]);
                                }
                            }
                        }
                        assert forall|i1: int, i2: int|
                            0 <= i1 < tail.len() && 0 <= i2 < kidseq.len() implies tail[i1]
                            != kidseq[i2] by {
                            let s = tail[i1];
                            assert(head_stack[i1] == s);
                            if s == kidseq[i2] {
                                assert(s != start);
                                assert(parent_of(ob, og, s) matches Some(z) && !present_in(
                                    hb,
                                    hg,
                                    z,
                                ));
                                assert(parent_of(ob, og, s) == Some(gkey(g)));
                                assert(present_in(hb, hg, gkey(g)));
                            }
                        }
                    }
                    stack.append(&mut kids);
                    proof {
                        vstd::seq_lib::lemma_no_dup_in_concat(tail, kidseq);
                        assert(stack@ == tail + kidseq);
                        assert forall|i: int|
                            0 <= i < stack@.len() implies present_in(
                            self.branches@,
                            self.gifts@,
                            #[trigger] stack@[i],
                        ) && is_descendant(ob, og, stack@[i], start) && (stack@[i] == start || (
                        parent_of(ob, og, stack@[i]) matches Some(y) && !present_in(
                            self.branches@,
                            self.gifts@,
                            y,
                        ))) by {
                            if i < tail.len() {
                                assert(stack@[i] == tail[i]);
                                assert(tail[i] != gkey(g));
                            } else {
                                assert(stack@[i] == kidseq[i - tail.len()]);
                            }
                        }
                        assert forall|b2: BranchPoint| #[trigger]
                            self.branches@.contains_key(b2) && b2 != root implies (
                        self.gifts@.contains_key(self.branches@[b2].parent->Some_0)
                            || stack@.contains(bkey(b2))) by {
                            if !self.gifts@.contains_key(self.branches@[b2].parent->Some_0) {
                                if self.branches@[b2].parent == Some(g) {
                                    assert(children@.contains(b2));
                                    let i = choose|i: int|
                                        0 <= i < children@.len() && children@[i] == b2;
                                    assert(stack@[tail.len() + i] == bkey(b2));
                                } else {
                                    assert(hg.contains_key(hb[b2].parent->Some_0)
                                        || head_stack.contains(bkey(b2)));
                                    let i = choose|i: int|
                                        0 <= i < head_stack.len() && head_stack[i] == bkey(b2);
                                    assert(i < head_stack.len() - 1);
                                    assert(stack@[i] == bkey(b2));
                                }
                            }
                        }
                        assert forall|g2: GiftPoint| #[trigger]
                            self.gifts@.contains_key(g2) implies (self.branches@.contains_key(
                            self.gifts@[g2].parent,
                        ) || stack@.contains(gkey(g2))) by {
                            if !self.branches@.contains_key(self.gifts@[g2].parent) {
                                assert(hb.contains_key(hg[g2].parent) || head_stack.contains(
                                    gkey(g2),
                                ));
                                let i = choose|i: int|
                                    0 <= i < head_stack.len() && head_stack[i] == gkey(g2);
                                assert(i < head_stack.len() - 1);
                                assert(stack@[i] == gkey(g2));
                            }
                        }
                        assert(stack@.contains(start) || !present_in(
                            self.branches@,
                            self.gifts@,
                            start,
                        )) by {
                            if present_in(self.branches@, self.gifts@, start) && head_stack
                                .contains(start) {
                                let i = choose|i: int|
                                    0 <= i < head_stack.len() && head_stack[i] == start;
                                if i < head_stack.len() - 1 {
                                    assert(stack@[i] == start);
                                }
                            }
                        }
                    }
                },
            }
        }
        proof {
            assert(links_ok(self.branches@, self.gifts@, root));
            assert(!present_in(self.branches@, self.gifts@, start));
            assert forall|b: BranchPoint| #[trigger]
                self.branches@.contains_key(b) implies !is_descendant(ob, og, bkey(b), start) by {
                if is_descendant(ob, og, bkey(b), start) {
                    let k = choose|k: nat| reaches(ob, og, bkey(b), start, k);
                    lemma_descendant_gone(
                        ob,
                        og,
                        self.branches@,
                        self.gifts@,
                        root,
                        start,
                        bkey(b),
                        k,
                    );
                }
            }
            assert forall|g: GiftPoint| #[trigger]
                self.gifts@.contains_key(g) implies !is_descendant(ob, og, gkey(g), start) by {
                if is_descendant(ob, og, gkey(g), start) {
                    let k = choose|k: nat| reaches(ob, og, gkey(g), start, k);
                    lemma_descendant_gone(
                        ob,
                        og,
                        self.branches@,
                        self.gifts@,
                        root,
                        start,
                        gkey(g),
                        k,
                    );
                }
            }
        }
    }

    /// Prune the subtree rooted at a branch site; a site with no record is
    /// left alone.
    pub fn prune_branch(&mut self, t: BranchPoint)
        requires
            old(self).wf(),
            spec_in_region(t.hex_point),
        ensures
            final(self).wf(),
            !old(self).branches@.contains_key(t) ==> *final(self) == *old(self),
            old(self).branches@.contains_key(t) ==> prune_post(*old(self), *final(self), bkey(t)),
    {
        if self.branches.contains(t) {
            proof {
                assert(t != self.root_point);
            }
            self.prune_from(InBoundsPoint::BranchPoint(t));
        }
    }

    /// Prune the subtree rooted at a gift site; a site with no record is
    /// left alone.
    pub fn prune_gift(&mut self, t: GiftPoint)
        requires
            old(self).wf(),
        ensures
            final(self).wf(),
            !old(self).gifts@.contains_key(t) ==> *final(self) == *old(self),
            old(self).gifts@.contains_key(t) ==> prune_post(*old(self), *final(self), gkey(t)),
    {
        if self.gifts.contains(t) {
            self.prune_from(InBoundsPoint::GiftPoint(t));
        }
    }
}

/// Being a suppressed record with no structural children: the sites drawn
/// as moss.
pub open spec fn moss_pred(branches: Map<BranchPoint, BranchCell>) -> spec_fn(
    GiftPoint,
    GiftCell,
) -> bool {
    |g: GiftPoint, c: GiftCell| c.suppressed && !has_branch_child(branches, g)
}

/// One generation's production, in resource units: the base, multiplied up
/// by the organism population, with birdnests multiplying the rest.
pub open spec fn spec_production(m: Map<GiftPoint, GiftCell>) -> int {
    let t: int = gift_count(m, Gift::Leaves) as int + gift_count(m, Gift::Flowers) + 4 * gift_count(
        m,
        Gift::Beehive,
    ) + 6 * gift_count(m, Gift::Berries) + 6 * gift_count(m, Gift::Nuts) + 8 * gift_count(
        m,
        Gift::Squirrel,
    );
    BASE_UNITS + BASE_UNITS * t + gift_count(m, Gift::Birdnest) * t
}

/// `n` whole generations: each computes its production from the organisms
/// it starts with, adds it to the store up to the cap, and then steps every
/// organism site simultaneously.
pub open spec fn spec_gens(
    gifts: Map<GiftPoint, GiftCell>,
    branches: Map<BranchPoint, BranchCell>,
    bounty: int,
    rate: int,
    n: nat,
) -> (Map<GiftPoint, GiftCell>, int, int)
    decreases n,
{
    if n == 0 {
        (gifts, bounty, rate)
    } else {
        let r = spec_production(gifts);
        let b2 = if bounty + r > MAX_BOUNTY_UNITS {
            MAX_BOUNTY_UNITS as int
        } else {
            bounty + r
        };
        spec_gens(
            crate::life::spec_step_gifts(gifts, branches),
            branches,
            b2,
            r,
            (n - 1) as nat,
        )
    }
}

/// How many whole generation intervals a carried-over time span covers; the
/// interval boundary itself is left pending.
pub open spec fn gens_due(residual: int, d: int) -> nat
    decreases residual,
{
    if d >= 1 && residual > d {
        1 + gens_due(residual - d, d)
    } else {
        0
    }
}

impl Garden {
    /// The current generation's production, computed from the maintained
    /// statistics, which the invariant ties to a full scan.
    pub fn production_units(&self) -> (r: u64)
        requires
            self.gifts.inv(),
            gifts_local_ok(self.gifts@),
            gift_stats_ok(self.stats, self.gifts@),
        ensures
            r as int == spec_production(self.gifts@),
            r <= 30_000_000,
    {
        proof {
            self.lemma_gift_card();
            lemma_map_of_dom(self.gifts.entries@);
            lemma_count_le_dom(self.gifts@, kind_pred(Some(Gift::Leaves)));
            lemma_count_le_dom(self.gifts@, kind_pred(Some(Gift::Flowers)));
            lemma_count_le_dom(self.gifts@, kind_pred(Some(Gift::Beehive)));
            lemma_count_le_dom(self.gifts@, kind_pred(Some(Gift::Berries)));
            lemma_count_le_dom(self.gifts@, kind_pred(Some(Gift::Nuts)));
            lemma_count_le_dom(self.gifts@, kind_pred(Some(Gift::Birdnest)));
            lemma_count_le_dom(self.gifts@, kind_pred(Some(Gift::Squirrel)));
        }
        let t: u64 = self.stats.leaf_count as u64 + self.stats.flower_count as u64 + 4
            * (self.stats.beehive_count as u64) + 6 * (self.stats.berry_count as u64) + 6
            * (self.stats.nut_count as u64) + 8 * (self.stats.squirrel_count as u64);
        let bn: u64 = self.stats.birdnest_count as u64;
        proof {
            assert(t <= 23478);
            assert(bn <= 903);
            assert(bn * t <= 903 * 23478) by (nonlinear_arith)
                requires
                    bn <= 903,
                    t <= 23478,
                    0 <= bn,
                    0 <= t,
            ;
        }
        BASE_UNITS + BASE_UNITS * t + bn * t
    }

    /// Count the moss sites by a full scan: the suppressed records that
    /// bear no structural children.
    fn recompute_moss(&self) -> (n: usize)
        requires
            self.branches.inv(),
            self.gifts.inv(),
            branches_local_ok(self.branches@, self.root_point),
            gifts_local_ok(self.gifts@),
        ensures
            n == count_matching(self.gifts@, moss_pred(self.branches@)),
    {
        proof {
            crate::store::lemma_count_empty(
                Map::<GiftPoint, GiftCell>::empty(),
                moss_pred(self.branches@),
            );
        }
        let mut n: usize = 0;
        let mut i: usize = 0;
        while i < self.gifts.entries.len()
            invariant
                self.branches.inv(),
                self.gifts.inv(),
                branches_local_ok(self.branches@, self.root_point),
                gifts_local_ok(self.gifts@),
                i <= self.gifts.entries@.len(),
                n == count_matching(
                    crate::store::map_of(self.gifts.entries@.take(i as int)),
                    moss_pred(self.branches@),
                ),
            decreases self.gifts.entries@.len() - i,
        {
            let ghost pre = crate::store::map_of(self.gifts.entries@.take(i as int));
            proof {
                lemma_map_of_dom(self.gifts.entries@.take(i as int));
                crate::store::lemma_map_of_len(self.gifts.entries@.take(i as int));
                lemma_count_le_dom(pre, moss_pred(self.branches@));
                assert(self.gifts.entries@.take(i + 1 as int).drop_last() =~= self.gifts.entries@
                    .take(i as int));
                assert(!pre.contains_key(self.gifts.entries@[i as int].0)) by {
                    if pre.contains_key(self.gifts.entries@[i as int].0) {
                        let j = choose|j: int|
                            0 <= j < i && #[trigger] self.gifts.entries@.take(i as int)[j].0
                                == self.gifts.entries@[i as int].0;
                        assert(self.gifts.entries@[j].0 == self.gifts.entries@[i as int].0);
                    }
                }
                lemma_count_insert(
                    pre,
                    moss_pred(self.branches@),
                    self.gifts.entries@[i as int].0,
                    self.gifts.entries@[i as int].1,
                );
                lemma_map_of_index(self.gifts.entries@, i as int);
            }
            let e = self.gifts.entries[i];
            if e.1.suppressed {
                let children = self.gift_children(e.0);
                if children.len() == 0 {
                    proof {
                        assert(!has_branch_child(self.branches@, e.0)) by {
                            if has_branch_child(self.branches@, e.0) {
                                let b = choose|b: BranchPoint| #[trigger] self.branches@
                                    .contains_key(b) && self.branches@[b].parent == Some(e.0);
                                assert(children@.contains(b));
                            }
                        }
                    }
                    n = n + 1;
                } else {
                    proof {
                        assert(has_branch_child(self.branches@, e.0)) by {
                            assert(children@.contains(children@[0]));
                        }
                    }
                }
            }
            i = i + 1;
        }
        proof {
            assert(self.gifts.entries@.take(self.gifts.entries@.len() as int) =~= self.gifts
                .entries@);
        }
        n
    }
}

impl Garden {
    /// Advance the clock by an elapsed span, running one full generation
    /// per whole interval it covers: each generation recomputes the
    /// production rate from the organisms, adds it to the store up to the
    /// cap, and steps the automaton against the frozen previous generation.
    /// Afterwards the moss count and the historical maxima are refreshed.
    /// The result is a pure function of the prior state: identical
    /// snapshots and structure maps give identical outcomes. Returns the
    /// updated statistics.
    #[verifier::spinoff_prover]
    #[verifier::rlimit(100)]
    pub fn tick(&mut self, elapsed_ms: u64) -> (s: Stats)
        requires
            old(self).wf(),
            elapsed_ms <= 0x1000_0000_0000_0000,
        ensures
            final(self).wf(),
            s == final(self).stats,
            final(self).gifts@ == spec_gens(
                old(self).gifts@,
                old(self).branches@,
                old(self).bounty_amount as int,
                old(self).life_amount as int,
                gens_due(old(self).residual_ms + elapsed_ms, old(self).turn_duration_ms as int),
            ).0,
            final(self).bounty_amount as int == spec_gens(
                old(self).gifts@,
                old(self).branches@,
                old(self).bounty_amount as int,
                old(self).life_amount as int,
                gens_due(old(self).residual_ms + elapsed_ms, old(self).turn_duration_ms as int),
            ).1,
            final(self).life_amount as int == spec_gens(
                old(self).gifts@,
                old(self).branches@,
                old(self).bounty_amount as int,
                old(self).life_amount as int,
                gens_due(old(self).residual_ms + elapsed_ms, old(self).turn_duration_ms as int),
            ).2,
            final(self).residual_ms as int == old(self).residual_ms + elapsed_ms - gens_due(
                old(self).residual_ms + elapsed_ms,
                old(self).turn_duration_ms as int,
            ) * (old(self).turn_duration_ms as int),
            final(self).branches@ == old(self).branches@,
            final(self).root_point == old(self).root_point,
            final(self).turn_duration_ms == old(self).turn_duration_ms,
            final(self).stats.branch_length3_count == old(self).stats.branch_length3_count,
            final(self).stats.branch_length4_count == old(self).stats.branch_length4_count,
            final(self).stats.branch_length5_count == old(self).stats.branch_length5_count,
            final(self).stats.moss_count == count_matching(
                final(self).gifts@,
                moss_pred(final(self).branches@),
            ),
            final(self).stats.branches_max as int == if old(self).stats.branches_max as int
                >= final(self).stats.branch_lv1_count + final(self).stats.branch_lv2_count {
                old(self).stats.branches_max as int
            } else {
                final(self).stats.branch_lv1_count + final(self).stats.branch_lv2_count
            },
            final(self).stats.bounty_max as int == if old(self).stats.bounty_max as int
                >= final(self).life_amount as int / 10 {
                old(self).stats.bounty_max as int
            } else {
                final(self).life_amount as int / 10
            },
    {
        let ghost ob = old(self).branches@;
        let ghost og0 = old(self).gifts@;
        let ghost bounty0 = old(self).bounty_amount as int;
        let ghost life0 = old(self).life_amount as int;
        let ghost d: int = old(self).turn_duration_ms as int;
        self.residual_ms = self.residual_ms + elapsed_ms;
        let ghost big_r: int = self.residual_ms as int;
        let ghost total = spec_gens(og0, ob, bounty0, life0, gens_due(big_r, d));
        let ghost mut done: nat = 0nat;
        while self.residual_ms > self.turn_duration_ms
            invariant
                self.branches.inv(),
                self.gifts.inv(),
                self.root_point == old(self).root_point,
                self.ranks@ == old(self).ranks@,
                self.branches@ == ob,
                branches_local_ok(self.branches@, self.root_point),
                gifts_local_ok(self.gifts@),
                links_ok(self.branches@, self.gifts@, self.root_point),
                self.branches@[self.root_point].branch_upgrade == 3,
                ranks_ok(self.branches@, self.gifts@, self.root_point, self.ranks@),
                gift_stats_ok(self.stats, self.gifts@),
                branch_stats_ok(self.stats, self.branches@),
                self.root_point == (BranchPoint { hex_point: HexPoint { q: 0, r: 1 } }),
                self.bounty_amount <= MAX_BOUNTY_UNITS,
                self.turn_duration_ms == old(self).turn_duration_ms,
                d == self.turn_duration_ms as int,
                1 <= self.turn_duration_ms <= 1_000_000_000,
                self.life_amount <= 30_000_000,
                self.stats.branch_length3_count == old(self).stats.branch_length3_count,
                self.stats.branch_length4_count == old(self).stats.branch_length4_count,
                self.stats.branch_length5_count == old(self).stats.branch_length5_count,
                self.stats.moss_count == old(self).stats.moss_count,
                self.stats.branches_max == old(self).stats.branches_max,
                self.stats.bounty_max == old(self).stats.bounty_max,
                spec_gens(
                    self.gifts@,
                    ob,
                    self.bounty_amount as int,
                    self.life_amount as int,
                    gens_due(self.residual_ms as int, d),
                ) == total,
                gens_due(big_r, d) == done + gens_due(self.residual_ms as int, d),
                self.residual_ms as int == big_r - d * done,
            decreases self.residual_ms,
        {
            let ghost gens_left = gens_due(self.residual_ms as int, d);
            proof {
                assert(gens_left == 1 + gens_due(self.residual_ms as int - d, d));
            }
            let rate = self.production_units();
            self.life_amount = rate;
            let grown = self.bounty_amount + rate;
            self.bounty_amount = if grown > MAX_BOUNTY_UNITS {
                MAX_BOUNTY_UNITS
            } else {
                grown
            };
            self.residual_ms = self.residual_ms - self.turn_duration_ms;
            let ghost gifts_pre = self.gifts@;
            crate::life::life_cycle(&mut self.gifts, &self.branches, &mut self.stats);
            proof {
                let stepped = crate::life::spec_step_gifts(gifts_pre, ob);
                assert forall|g: GiftPoint| #[trigger]
                    self.gifts@.contains_key(g) implies self.gifts@[g].parent
                    == gifts_pre[g].parent && self.gifts@[g].suppressed == gifts_pre[g].suppressed
                    && (self.gifts@[g].suppressed ==> self.gifts@[g].gift is None) by {
                    assert(stepped.contains_key(g) && gifts_pre.contains_key(g));
                    assert(self.gifts@[g] == crate::life::stepped_cell(gifts_pre, ob, g));
                }
                assert(done + 1 + gens_due(self.residual_ms as int, d) == gens_due(big_r, d));
                let done_old = done;
                done = done + 1nat;
                assert(d * (done_old + 1) == d * done_old + d) by (nonlinear_arith);
            }
        }
        proof {
            assert(gens_due(self.residual_ms as int, d) == 0);
            assert(done == gens_due(big_r, d));
            assert(self.residual_ms as int == big_r - d * done);
            assert(d * done == done * d) by (nonlinear_arith);
            assert(self.residual_ms as int == big_r - gens_due(big_r, d) * d);
        }
        let moss = self.recompute_moss();
        self.stats.moss_count = moss;
        proof {
            self.lemma_branch_card();
            lemma_map_of_dom(self.branches.entries@);
            lemma_count_le_dom(self.branches@, tier0_pred());
            lemma_count_le_dom(self.branches@, upgraded_pred());
        }
        let active = self.stats.branch_lv1_count + self.stats.branch_lv2_count;
        if active > self.stats.branches_max {
            self.stats.branches_max = active;
        }
        let bounty_points = (self.life_amount / 10) as usize;
        if bounty_points > self.stats.bounty_max {
            self.stats.bounty_max = bounty_points;
        }
        self.stats
    }
}

/// Tree connectivity: from every record present, following parent
/// references reaches the root in a finite number of steps.
pub proof fn lemma_tree_connected(gd: &Garden, x: InBoundsPoint)
    requires
        gd.wf(),
        present_in(gd.branches@, gd.gifts@, x),
    ensures
        is_descendant(gd.branches@, gd.gifts@, x, bkey(gd.root_point)),
    decreases gd.ranks@[x],
{
    let root = gd.root_point;
    match x {
        InBoundsPoint::BranchPoint(b) => {
            if b == root {
                assert(reaches(gd.branches@, gd.gifts@, x, bkey(root), 0));
            } else {
                let g = gd.branches@[b].parent->Some_0;
                assert(gd.gifts@.contains_key(g));
                assert(gd.ranks@[gkey(g)] < gd.ranks@[bkey(b)]);
                lemma_tree_connected(gd, gkey(g));
                let k = choose|k: nat| reaches(gd.branches@, gd.gifts@, gkey(g), bkey(root), k);
                assert(parent_of(gd.branches@, gd.gifts@, x) == Some(gkey(g)));
                assert(reaches(gd.branches@, gd.gifts@, x, bkey(root), (k + 1) as nat));
            }
        },
        InBoundsPoint::GiftPoint(g) => {
            let b = gd.gifts@[g].parent;
            assert(gd.branches@.contains_key(b));
            assert(gd.ranks@[bkey(b)] < gd.ranks@[gkey(g)]);
            lemma_tree_connected(gd, bkey(b));
            let k = choose|k: nat| reaches(gd.branches@, gd.gifts@, bkey(b), bkey(root), k);
            assert(parent_of(gd.branches@, gd.gifts@, x) == Some(bkey(b)));
            assert(reaches(gd.branches@, gd.gifts@, x, bkey(root), (k + 1) as nat));
        },
    }
}

/// No cycles: no parent chain of one or more steps returns to its start,
/// so no site repeats along any chain.
pub proof fn lemma_parent_chain_acyclic(gd: &Garden, x: InBoundsPoint, k: nat)
    requires
        gd.wf(),
        k >= 1,
    ensures
        !reaches(gd.branches@, gd.gifts@, x, x, k),
{
    if reaches(gd.branches@, gd.gifts@, x, x, k) {
        assert(gd.branches@.contains_key(gd.root_point));
        assert(gd.branches@[gd.root_point].parent is None);
        lemma_reaches_rank(gd.branches@, gd.gifts@, gd.root_point, gd.ranks@, x, x, k);
    }
}

/// The aggregate statistics equal a full rescan of the maps at every
/// observation point, in particular right after a cascading prune.
pub proof fn lemma_stats_match_scan(gd: &Garden)
    requires
        gd.wf(),
    ensures
        gift_stats_ok(gd.stats, gd.gifts@),
        branch_stats_ok(gd.stats, gd.branches@),
{
}

/// The stored resource stays within its cap; being unsigned it can never
/// go negative either.
pub proof fn lemma_bounty_within_cap(gd: &Garden)
    requires
        gd.wf(),
    ensures
        gd.bounty_amount <= MAX_BOUNTY_UNITS,
{
}

/// Attach rejection: at a site with two empty adjacent gift sites, or two
/// present ones, the attach decision is always a refusal, and `try_attach`
/// then leaves every part of the state unchanged.
pub proof fn lemma_attach_rejection(
    branches: Map<BranchPoint, BranchCell>,
    gifts: Map<GiftPoint, GiftCell>,
    bounty: u64,
    p: BranchPoint,
)
    requires
        absent_count(crate::hex::gift_nbrs(p.hex_point), gifts) >= 2 || present_count(
            crate::hex::gift_nbrs(p.hex_point),
            gifts,
        ) >= 2,
    ensures
        attach_decision(branches, gifts, bounty, p) is Err,
{
}

impl Garden {
    /// Prune the subtree rooted at a site of either kind; a site with no
    /// record is left alone.
    pub fn prune(&mut self, p: InBoundsPoint)
        requires
            old(self).wf(),
            p matches InBoundsPoint::BranchPoint(b) ==> spec_in_region(b.hex_point),
        ensures
            final(self).wf(),
            !present_in(old(self).branches@, old(self).gifts@, p) ==> *final(self) == *old(self),
            present_in(old(self).branches@, old(self).gifts@, p) ==> prune_post(
                *old(self),
                *final(self),
                p,
            ),
    {
        match p {
            InBoundsPoint::BranchPoint(b) => self.prune_branch(b),
            InBoundsPoint::GiftPoint(g) => self.prune_gift(g),
        }
    }
}

} // verus!
