//! The organism automaton: a discrete-generation, neighbour-counting rule
//! that evolves the organism at every unfrozen gift site, reading a frozen
//! snapshot of the previous generation and the live structure map.

use vstd::prelude::*;

use crate::cell::{Gift, GiftCell};
use crate::hex::{gift_nbrs2, branch_nbrs, spec_in_region, BranchPoint, GiftPoint};
use crate::store::{
    count_matching, lemma_count_ge_one, lemma_count_insert, lemma_map_of_dom, lemma_map_of_index,
    BranchMap, GiftMap,
};

verus! {

/// Aggregate statistics, maintained incrementally: per-kind organism counts,
/// branch tier counts, chain-length event counters and historical maxima.
#[derive(Clone, Copy, Debug, PartialEq, Eq, Structural)]
pub struct Stats {
    pub leaf_count: usize,
    pub flower_count: usize,
    pub beehive_count: usize,
    pub berry_count: usize,
    pub nut_count: usize,
    pub birdnest_count: usize,
    pub squirrel_count: usize,
    pub moss_count: usize,
    pub branch_lv1_count: usize,
    pub branch_lv2_count: usize,
    pub branch_length3_count: usize,
    pub branch_length4_count: usize,
    pub branch_length5_count: usize,
    pub branches_max: usize,
    pub bounty_max: usize,
}

impl Stats {
    /// All counters at zero.
    pub fn zero() -> (s: Stats)
        ensures
            s == spec_zero_stats(),
    {
        Stats {
            leaf_count: 0,
            flower_count: 0,
            beehive_count: 0,
            berry_count: 0,
            nut_count: 0,
            birdnest_count: 0,
            squirrel_count: 0,
            moss_count: 0,
            branch_lv1_count: 0,
            branch_lv2_count: 0,
            branch_length3_count: 0,
            branch_length4_count: 0,
            branch_length5_count: 0,
            branches_max: 0,
            bounty_max: 0,
        }
    }
}

/// The all-zero statistics record.
pub open spec fn spec_zero_stats() -> Stats {
    Stats {
        leaf_count: 0,
        flower_count: 0,
        beehive_count: 0,
        berry_count: 0,
        nut_count: 0,
        birdnest_count: 0,
        squirrel_count: 0,
        moss_count: 0,
        branch_lv1_count: 0,
        branch_lv2_count: 0,
        branch_length3_count: 0,
        branch_length4_count: 0,
        branch_length5_count: 0,
        branches_max: 0,
        bounty_max: 0,
    }
}

/// Holding an organism of the given kind.
pub open spec fn kind_pred(kind: Option<Gift>) -> spec_fn(GiftPoint, GiftCell) -> bool {
    |g: GiftPoint, c: GiftCell| c.gift == kind
}

/// How many gift sites hold an organism of the given kind.
pub open spec fn gift_count(m: Map<GiftPoint, GiftCell>, kind: Gift) -> nat {
    count_matching(m, kind_pred(Some(kind)))
}

/// Being a branch still at the thinnest tier (the root never is).
pub open spec fn tier0_pred() -> spec_fn(BranchPoint, crate::cell::BranchCell) -> bool {
    |b: BranchPoint, c: crate::cell::BranchCell| c.branch_upgrade == 0
}

/// Being a non-root branch grown past the thinnest tier.
pub open spec fn upgraded_pred() -> spec_fn(BranchPoint, crate::cell::BranchCell) -> bool {
    |b: BranchPoint, c: crate::cell::BranchCell| c.branch_upgrade >= 1 && c.parent is Some
}

/// The per-kind organism counts of the statistics equal a full scan of the
/// gift map.
pub open spec fn gift_stats_ok(s: Stats, m: Map<GiftPoint, GiftCell>) -> bool {
    &&& s.leaf_count == gift_count(m, Gift::Leaves)
    &&& s.flower_count == gift_count(m, Gift::Flowers)
    &&& s.beehive_count == gift_count(m, Gift::Beehive)
    &&& s.berry_count == gift_count(m, Gift::Berries)
    &&& s.nut_count == gift_count(m, Gift::Nuts)
    &&& s.birdnest_count == gift_count(m, Gift::Birdnest)
    &&& s.squirrel_count == gift_count(m, Gift::Squirrel)
}

/// The branch tier counts of the statistics equal a full scan of the branch
/// map.
pub open spec fn branch_stats_ok(s: Stats, m: Map<BranchPoint, crate::cell::BranchCell>) -> bool {
    &&& s.branch_lv1_count == count_matching(m, tier0_pred())
    &&& s.branch_lv2_count == count_matching(m, upgraded_pred())
}

/// The organism value the automaton reads at a site: a missing or suppressed
/// site counts as holding no organism.
pub open spec fn value_at(m: Map<GiftPoint, GiftCell>, g: GiftPoint) -> Option<Gift> {
    if m.contains_key(g) && !m[g].suppressed {
        m[g].gift
    } else {
        None
    }
}

/// How many sites of a sequence read as the given organism value.
pub open spec fn count_value(s: Seq<GiftPoint>, m: Map<GiftPoint, GiftCell>, kind: Option<
    Gift,
>) -> nat
    decreases s.len(),
{
    if s.len() == 0 {
        0
    } else {
        count_value(s.drop_last(), m, kind) + if value_at(m, s.last()) == kind {
            1nat
        } else {
            0nat
        }
    }
}

/// The neighbour tallies a site's transition is decided by.
#[derive(Clone, Copy, Debug, PartialEq, Eq, Structural)]
pub struct GiftCounts {
    pub none_count: usize,
    pub leaves: usize,
    pub flowers: usize,
    pub berries: usize,
    pub nuts: usize,
    pub beehives: usize,
}

/// The tallies over a site's distance-2 neighbourhood in the previous
/// generation.
pub open spec fn spec_counts_at(m: Map<GiftPoint, GiftCell>, g: GiftPoint) -> GiftCounts {
    let nbrs = gift_nbrs2(g.hex_point);
    GiftCounts {
        none_count: count_value(nbrs, m, None) as usize,
        leaves: count_value(nbrs, m, Some(Gift::Leaves)) as usize,
        flowers: count_value(nbrs, m, Some(Gift::Flowers)) as usize,
        berries: count_value(nbrs, m, Some(Gift::Berries)) as usize,
        nuts: count_value(nbrs, m, Some(Gift::Nuts)) as usize,
        beehives: count_value(nbrs, m, Some(Gift::Beehive)) as usize,
    }
}

/// How many sites of a sequence hold a branch grown past the thinnest tier.
pub open spec fn count_support(s: Seq<BranchPoint>, m: Map<BranchPoint, crate::cell::BranchCell>) -> nat
    decreases s.len(),
{
    if s.len() == 0 {
        0
    } else {
        count_support(s.drop_last(), m) + if m.contains_key(s.last()) && m[s.last()].branch_upgrade
            >= 1 {
            1nat
        } else {
            0nat
        }
    }
}

/// A site's support: its adjacent branch sites grown past the thinnest tier.
pub open spec fn spec_support(m: Map<BranchPoint, crate::cell::BranchCell>, g: GiftPoint) -> nat {
    count_support(branch_nbrs(g.hex_point), m)
}

/// The transition table, conditions tried top to bottom, first match wins.
pub open spec fn spec_transition(cur: Option<Gift>, c: GiftCounts, support: nat) -> Option<Gift> {
    match cur {
        None => if c.nuts >= 2 {
            Some(Gift::Squirrel)
        } else if support > 0 && c.flowers > 0 && c.leaves > 0 {
            Some(Gift::Nuts)
        } else if c.berries >= 2 {
            Some(Gift::Birdnest)
        } else if c.beehives > 0 && c.leaves >= 2 {
            Some(Gift::Berries)
        } else if c.flowers >= 2 {
            Some(Gift::Beehive)
        } else if c.none_count >= 2 {
            Some(Gift::Leaves)
        } else {
            None
        },
        Some(Gift::Leaves) => if c.none_count == 0 {
            None
        } else if c.leaves >= 2 {
            Some(Gift::Flowers)
        } else {
            Some(Gift::Leaves)
        },
        Some(Gift::Flowers) => if c.leaves == 0 {
            None
        } else if support > 0 && c.flowers > 0 && c.leaves > 0 {
            Some(Gift::Nuts)
        } else if c.beehives > 0 && c.leaves >= 2 {
            Some(Gift::Berries)
        } else {
            Some(Gift::Flowers)
        },
        Some(Gift::Berries) => if c.beehives == 0 || c.leaves == 0 {
            Some(Gift::Flowers)
        } else {
            Some(Gift::Berries)
        },
        Some(Gift::Nuts) => if support == 0 || c.flowers == 0 || c.leaves == 0 {
            Some(Gift::Flowers)
        } else {
            Some(Gift::Nuts)
        },
        Some(Gift::Beehive) => if c.flowers == 0 {
            None
        } else {
            Some(Gift::Beehive)
        },
        Some(Gift::Birdnest) => if c.berries < 2 {
            None
        } else {
            Some(Gift::Birdnest)
        },
        Some(Gift::Squirrel) => if c.nuts < 2 {
            None
        } else {
            Some(Gift::Squirrel)
        },
    }
}

/// One generation's result at one site: a suppressed cell is frozen, any
/// other cell's organism follows the transition table.
pub open spec fn stepped_cell(
    gifts: Map<GiftPoint, GiftCell>,
    branches: Map<BranchPoint, crate::cell::BranchCell>,
    g: GiftPoint,
) -> GiftCell {
    let c = gifts[g];
    if c.suppressed {
        c
    } else {
        GiftCell {
            gift: spec_transition(c.gift, spec_counts_at(gifts, g), spec_support(branches, g)),
            ..c
        }
    }
}

/// One whole generation: every site present stays present, each stepped
/// simultaneously against the previous generation.
pub open spec fn spec_step_gifts(
    gifts: Map<GiftPoint, GiftCell>,
    branches: Map<BranchPoint, crate::cell::BranchCell>,
) -> Map<GiftPoint, GiftCell> {
    Map::new(|g: GiftPoint| gifts.contains_key(g), |g: GiftPoint| stepped_cell(gifts, branches, g))
}

/// One site's transition: the table applied to the previous value, the
/// neighbour tallies and the support count.
pub fn next_gift(cur: Option<Gift>, counts: &GiftCounts, support: usize) -> (r: Option<Gift>)
    ensures
        r == spec_transition(cur, *counts, support as nat),
{
    match cur {
        None => if counts.nuts >= 2 {
            Some(Gift::Squirrel)
        } else if support > 0 && counts.flowers > 0 && counts.leaves > 0 {
            Some(Gift::Nuts)
        } else if counts.berries >= 2 {
            Some(Gift::Birdnest)
        } else if counts.beehives > 0 && counts.leaves >= 2 {
            Some(Gift::Berries)
        } else if counts.flowers >= 2 {
            Some(Gift::Beehive)
        } else if counts.none_count >= 2 {
            Some(Gift::Leaves)
        } else {
            None
        },
        Some(Gift::Leaves) => if counts.none_count == 0 {
            None
        } else if counts.leaves >= 2 {
            Some(Gift::Flowers)
        } else {
            Some(Gift::Leaves)
        },
        Some(Gift::Flowers) => if counts.leaves == 0 {
            None
        } else if support > 0 && counts.flowers > 0 && counts.leaves > 0 {
            Some(Gift::Nuts)
        } else if counts.beehives > 0 && counts.leaves >= 2 {
            Some(Gift::Berries)
        } else {
            Some(Gift::Flowers)
        },
        Some(Gift::Berries) => if counts.beehives == 0 || counts.leaves == 0 {
            Some(Gift::Flowers)
        } else {
            Some(Gift::Berries)
        },
        Some(Gift::Nuts) => if support == 0 || counts.flowers == 0 || counts.leaves == 0 {
            Some(Gift::Flowers)
        } else {
            Some(Gift::Nuts)
        },
        Some(Gift::Beehive) => if counts.flowers == 0 {
            None
        } else {
            Some(Gift::Beehive)
        },
        Some(Gift::Birdnest) => if counts.berries < 2 {
            None
        } else {
            Some(Gift::Birdnest)
        },
        Some(Gift::Squirrel) => if counts.nuts < 2 {
            None
        } else {
            Some(Gift::Squirrel)
        },
    }
}

/// A value tally never exceeds the number of sites tallied.
proof fn lemma_count_value_le(s: Seq<GiftPoint>, m: Map<GiftPoint, GiftCell>, kind: Option<Gift>)
    ensures
        count_value(s, m, kind) <= s.len(),
    decreases s.len(),
{
    if s.len() > 0 {
        lemma_count_value_le(s.drop_last(), m, kind);
    }
}

/// A support tally never exceeds the number of sites tallied.
proof fn lemma_count_support_le(s: Seq<BranchPoint>, m: Map<BranchPoint, crate::cell::BranchCell>)
    ensures
        count_support(s, m) <= s.len(),
    decreases s.len(),
{
    if s.len() > 0 {
        lemma_count_support_le(s.drop_last(), m);
    }
}

/// Tally the previous-generation organism values over a site's distance-2
/// neighbourhood.
pub fn count_gifts_at(snap: &GiftMap, g: GiftPoint) -> (c: GiftCounts)
    requires
        snap.inv(),
        spec_in_region(g.hex_point),
    ensures
        c == spec_counts_at(snap@, g),
{
    proof {
        assert(crate::hex::coords_roomy(g.hex_point)) by {
            assert(crate::hex::s_of(g.hex_point) < 21 && crate::hex::s_of(g.hex_point) >= 0);
        }
    }
    let nbrs = g.gift_neighbours();
    let mut c = GiftCounts { none_count: 0, leaves: 0, flowers: 0, berries: 0, nuts: 0, beehives: 0 };
    let mut i: usize = 0;
    while i < nbrs.len()
        invariant
            snap.inv(),
            nbrs@ == gift_nbrs2(g.hex_point),
            i <= nbrs@.len(),
            c.none_count == count_value(nbrs@.take(i as int), snap@, None),
            c.leaves == count_value(nbrs@.take(i as int), snap@, Some(Gift::Leaves)),
            c.flowers == count_value(nbrs@.take(i as int), snap@, Some(Gift::Flowers)),
            c.berries == count_value(nbrs@.take(i as int), snap@, Some(Gift::Berries)),
            c.nuts == count_value(nbrs@.take(i as int), snap@, Some(Gift::Nuts)),
            c.beehives == count_value(nbrs@.take(i as int), snap@, Some(Gift::Beehive)),
        decreases nbrs@.len() - i,
    {
        proof {
            lemma_count_value_le(nbrs@.take(i as int), snap@, None);
            lemma_count_value_le(nbrs@.take(i as int), snap@, Some(Gift::Leaves));
            lemma_count_value_le(nbrs@.take(i as int), snap@, Some(Gift::Flowers));
            lemma_count_value_le(nbrs@.take(i as int), snap@, Some(Gift::Berries));
            lemma_count_value_le(nbrs@.take(i as int), snap@, Some(Gift::Nuts));
            lemma_count_value_le(nbrs@.take(i as int), snap@, Some(Gift::Beehive));
            assert(nbrs@.take(i + 1 as int).drop_last() =~= nbrs@.take(i as int));
            assert(nbrs@.take(i + 1 as int).last() == nbrs@[i as int]);
        }
        let p = nbrs[i];
        let v: Option<Gift> = match snap.get(p) {
            Some(cell) => if cell.suppressed {
                None
            } else {
                cell.gift
            },
            None => None,
        };
        assert(v == value_at(snap@, p));
        match v {
            None => c.none_count = c.none_count + 1,
            Some(Gift::Leaves) => c.leaves = c.leaves + 1,
            Some(Gift::Flowers) => c.flowers = c.flowers + 1,
            Some(Gift::Berries) => c.berries = c.berries + 1,
            Some(Gift::Nuts) => c.nuts = c.nuts + 1,
            Some(Gift::Beehive) => c.beehives = c.beehives + 1,
            Some(_) => (),
        }
        i = i + 1;
    }
    proof {
        assert(nbrs@.take(nbrs@.len() as int) =~= nbrs@);
    }
    c
}

/// Count a site's supporting branches: adjacent branch sites grown past the
/// thinnest tier.
pub fn support_at(branches: &BranchMap, g: GiftPoint) -> (s: usize)
    requires
        branches.inv(),
        spec_in_region(g.hex_point),
    ensures
        s == spec_support(branches@, g),
{
    proof {
        assert(crate::hex::coords_roomy(g.hex_point)) by {
            assert(crate::hex::s_of(g.hex_point) < 21 && crate::hex::s_of(g.hex_point) >= 0);
        }
    }
    let nbrs = g.branch_neighbours();
    let mut s: usize = 0;
    let mut i: usize = 0;
    while i < nbrs.len()
        invariant
            branches.inv(),
            nbrs@ == branch_nbrs(g.hex_point),
            i <= nbrs@.len(),
            s == count_support(nbrs@.take(i as int), branches@),
        decreases nbrs@.len() - i,
    {
        proof {
            lemma_count_support_le(nbrs@.take(i as int), branches@);
            assert(nbrs@.take(i + 1 as int).drop_last() =~= nbrs@.take(i as int));
            assert(nbrs@.take(i + 1 as int).last() == nbrs@[i as int]);
        }
        let b = nbrs[i];
        match branches.get(b) {
            Some(cell) => if cell.branch_upgrade >= 1 {
                s = s + 1;
            },
            None => (),
        }
        i = i + 1;
    }
    proof {
        assert(nbrs@.take(nbrs@.len() as int) =~= nbrs@);
    }
    s
}

/// Advance every gift site by one generation, simultaneously against the
/// frozen previous generation, keeping the per-kind statistics equal to a
/// full rescan. Suppressed sites are skipped; no site appears or vanishes.
pub fn life_cycle(gifts: &mut GiftMap, branches: &BranchMap, stats: &mut Stats)
    requires
        old(gifts).inv(),
        branches.inv(),
        gift_stats_ok(*old(stats), old(gifts)@),
        forall|g: GiftPoint| old(gifts)@.contains_key(g) ==> spec_in_region(g.hex_point),
    ensures
        final(gifts).inv(),
        final(gifts)@ == spec_step_gifts(old(gifts)@, branches@),
        gift_stats_ok(*final(stats), final(gifts)@),
        final(stats).moss_count == old(stats).moss_count,
        final(stats).branch_lv1_count == old(stats).branch_lv1_count,
        final(stats).branch_lv2_count == old(stats).branch_lv2_count,
        final(stats).branch_length3_count == old(stats).branch_length3_count,
        final(stats).branch_length4_count == old(stats).branch_length4_count,
        final(stats).branch_length5_count == old(stats).branch_length5_count,
        final(stats).branches_max == old(stats).branches_max,
        final(stats).bounty_max == old(stats).bounty_max,
{
    let ghost old_map = old(gifts)@;
    let snap = gifts.snapshot();
    let ghost sentries = snap.entries@;
    proof {
        lemma_map_of_dom(sentries);
        assert forall|j: int| 0 <= j < sentries.len() implies gifts@[sentries[j].0]
            == sentries[j].1 by {
            lemma_map_of_index(sentries, j);
        }
    }
    let mut i: usize = 0;
    while i < snap.entries.len()
        invariant
            branches.inv(),
            snap.inv(),
            snap@ == old_map,
            snap.entries@ == sentries,
            gifts.inv(),
            i <= sentries.len(),
            forall|g: GiftPoint| #[trigger]
                gifts@.contains_key(g) <==> old_map.contains_key(g),
            forall|j: int|
                0 <= j < i ==> gifts@[sentries[j].0] == stepped_cell(
                    old_map,
                    branches@,
                    sentries[j].0,
                ),
            forall|j: int| i <= j < sentries.len() ==> gifts@[sentries[j].0] == sentries[j].1,
            gift_stats_ok(*stats, gifts@),
            stats.moss_count == old(stats).moss_count,
            stats.branch_lv1_count == old(stats).branch_lv1_count,
            stats.branch_lv2_count == old(stats).branch_lv2_count,
            stats.branch_length3_count == old(stats).branch_length3_count,
            stats.branch_length4_count == old(stats).branch_length4_count,
            stats.branch_length5_count == old(stats).branch_length5_count,
            stats.branches_max == old(stats).branches_max,
            stats.bounty_max == old(stats).bounty_max,
            forall|g: GiftPoint| old_map.contains_key(g) ==> spec_in_region(g.hex_point),
        decreases sentries.len() - i,
    {
        let (g, cell) = snap.entries[i];
        proof {
            lemma_map_of_index(sentries, i as int);
            assert(old_map.contains_key(g) && old_map[g] == cell);
            assert(gifts@[g] == cell);
        }
        if !cell.suppressed {
            let counts = count_gifts_at(&snap, g);
            let support = support_at(branches, g);
            let new_gift = next_gift(cell.gift, &counts, support);
            let new_cell = GiftCell { gift: new_gift, ..cell };
            let ghost pre_map = gifts@;
            proof {
                lemma_map_of_dom(gifts.entries@);
                crate::store::lemma_map_of_len(gifts.entries@);
                assert(gifts.entries@.len() <= usize::MAX) by {
                    broadcast use vstd::std_specs::vec::axiom_spec_len;

                    assert(vstd::std_specs::vec::spec_vec_len(&gifts.entries) <= usize::MAX);
                }
                if cell.gift is Some {
                    lemma_count_ge_one(pre_map, kind_pred(cell.gift), g);
                }
                if new_gift is Some {
                    if new_gift != cell.gift {
                        crate::store::lemma_count_lt_dom(pre_map, kind_pred(new_gift), g);
                    }
                    crate::store::lemma_count_le_dom(pre_map, kind_pred(new_gift));
                }
            }
            match cell.gift {
                Some(Gift::Leaves) => stats.leaf_count = stats.leaf_count - 1,
                Some(Gift::Flowers) => stats.flower_count = stats.flower_count - 1,
                Some(Gift::Beehive) => stats.beehive_count = stats.beehive_count - 1,
                Some(Gift::Berries) => stats.berry_count = stats.berry_count - 1,
                Some(Gift::Nuts) => stats.nut_count = stats.nut_count - 1,
                Some(Gift::Birdnest) => stats.birdnest_count = stats.birdnest_count - 1,
                Some(Gift::Squirrel) => stats.squirrel_count = stats.squirrel_count - 1,
                None => (),
            }
            match new_gift {
                Some(Gift::Leaves) => stats.leaf_count = stats.leaf_count + 1,
                Some(Gift::Flowers) => stats.flower_count = stats.flower_count + 1,
                Some(Gift::Beehive) => stats.beehive_count = stats.beehive_count + 1,
                Some(Gift::Berries) => stats.berry_count = stats.berry_count + 1,
                Some(Gift::Nuts) => stats.nut_count = stats.nut_count + 1,
                Some(Gift::Birdnest) => stats.birdnest_count = stats.birdnest_count + 1,
                Some(Gift::Squirrel) => stats.squirrel_count = stats.squirrel_count + 1,
                None => (),
            }
            gifts.insert(g, new_cell);
            proof {
                lemma_count_insert(pre_map, kind_pred(Some(Gift::Leaves)), g, new_cell);
                lemma_count_insert(pre_map, kind_pred(Some(Gift::Flowers)), g, new_cell);
                lemma_count_insert(pre_map, kind_pred(Some(Gift::Beehive)), g, new_cell);
                lemma_count_insert(pre_map, kind_pred(Some(Gift::Berries)), g, new_cell);
                lemma_count_insert(pre_map, kind_pred(Some(Gift::Nuts)), g, new_cell);
                lemma_count_insert(pre_map, kind_pred(Some(Gift::Birdnest)), g, new_cell);
                lemma_count_insert(pre_map, kind_pred(Some(Gift::Squirrel)), g, new_cell);
                assert(gifts@[g] == new_cell);
                assert(new_cell == stepped_cell(old_map, branches@, g));
            }
        } else {
            proof {
                assert(gifts@[g] == stepped_cell(old_map, branches@, g));
            }
        }
        i = i + 1;
    }
    proof {
        assert forall|g: GiftPoint|
            old_map.contains_key(g) implies gifts@[g] == stepped_cell(old_map, branches@, g) by {
            let j = choose|j: int| 0 <= j < sentries.len() && #[trigger] sentries[j].0 == g;
            assert(gifts@[sentries[j].0] == stepped_cell(old_map, branches@, sentries[j].0));
        }
        assert(gifts@ =~= spec_step_gifts(old_map, branches@));
    }
}

} // verus!
