use hexgarden::cell::Gift;
use hexgarden::garden::{AttachError, Garden, UpgradeError, MAX_BOUNTY_UNITS};
use hexgarden::hex::{BranchPoint, GiftPoint, HexPoint};

fn bp(q: i32, r: i32) -> BranchPoint {
    BranchPoint::new(HexPoint::new(q, r))
}

fn gp(q: i32, r: i32) -> GiftPoint {
    GiftPoint::new(HexPoint::new(q, r))
}

#[test]
fn fresh_garden() {
    let g = Garden::new();
    assert_eq!(g.bounty_amount, 50);
    assert_eq!(g.life_amount, 0);
    let root = g.branch_at(bp(0, 1)).unwrap();
    assert_eq!(root.branch_upgrade, 3);
    assert_eq!(root.parent, None);
    let origin = g.gift_at(gp(0, 0)).unwrap();
    assert!(origin.suppressed);
    assert_eq!(origin.gift, None);
    assert_eq!(g.stats.leaf_count, 0);
    assert_eq!(g.stats.branch_lv1_count, 0);
}

#[test]
fn attach_creates_branch_and_gift() {
    let mut g = Garden::new();
    assert_eq!(g.try_attach(bp(0, -1)), Ok(()));
    assert_eq!(g.bounty_amount, 40);
    assert_eq!(g.stats.branch_lv1_count, 1);
    let cell = g.branch_at(bp(0, -1)).unwrap();
    assert_eq!(cell.branch_upgrade, 0);
    assert_eq!(cell.parent, Some(gp(0, 0)));
    let new_gift = g.gift_at(gp(0, -2)).unwrap();
    assert_eq!(new_gift.gift, None);
    assert!(!new_gift.suppressed);
    assert_eq!(new_gift.parent, bp(0, -1));
    // the subsumed neighbour stays suppressed
    assert!(g.gift_at(gp(0, 0)).unwrap().suppressed);
}

#[test]
fn attach_on_occupied_site_would_cycle() {
    let mut g = Garden::new();
    assert_eq!(g.try_attach(bp(0, -1)), Ok(()));
    assert_eq!(g.try_attach(bp(0, -1)), Err(AttachError::WouldCycle));
}

#[test]
fn attach_far_from_tree_rejected_without_change() {
    let mut g = Garden::new();
    let before_bounty = g.bounty_amount;
    let before_stats = g.stats;
    // both gift neighbours of (5,-6) are empty: not connected to the tree
    assert_eq!(g.try_attach(bp(5, -6)), Err(AttachError::NotAdjacentToTree));
    assert_eq!(g.bounty_amount, before_bounty);
    assert_eq!(g.stats, before_stats);
    assert_eq!(g.branch_at(bp(5, -6)), None);
}

#[test]
fn attach_between_two_full_cells_rejected() {
    let mut g = Garden::new();
    assert_eq!(g.try_attach(bp(0, -1)), Ok(()));
    assert_eq!(g.try_attach(bp(1, -1)), Ok(()));
    // (1,-2) sits between the gifts at (0,-2) and (2,-2), both present:
    // joining them would close a cycle, and nothing changes
    let stats = g.stats;
    let bounty = g.bounty_amount;
    assert_eq!(g.try_attach(bp(1, -2)), Err(AttachError::WouldCycle));
    assert_eq!(g.branch_at(bp(1, -2)), None);
    assert_eq!(g.stats, stats);
    assert_eq!(g.bounty_amount, bounty);
}

#[test]
fn attach_runs_out_of_resource() {
    let mut g = Garden::new();
    assert_eq!(g.try_attach(bp(0, -1)), Ok(()));
    assert_eq!(g.try_attach(bp(0, -3)), Ok(()));
    assert_eq!(g.try_attach(bp(0, -5)), Ok(()));
    assert_eq!(g.try_attach(bp(0, -7)), Ok(()));
    assert_eq!(g.try_attach(bp(0, -9)), Ok(()));
    assert_eq!(g.bounty_amount, 0);
    let before = g.stats;
    assert_eq!(g.try_attach(bp(0, -11)), Err(AttachError::InsufficientResource));
    assert_eq!(g.stats, before);
    assert_eq!(g.branch_at(bp(0, -11)), None);
}

#[test]
fn chain_length_counters_grow() {
    let mut g = Garden::new();
    assert_eq!(g.try_attach(bp(0, -1)), Ok(()));
    assert_eq!(g.try_attach(bp(0, -3)), Ok(()));
    assert_eq!(g.try_attach(bp(0, -5)), Ok(()));
    assert_eq!(g.stats.branch_length3_count, 1);
    assert_eq!(g.try_attach(bp(0, -7)), Ok(()));
    assert_eq!(g.stats.branch_length3_count, 2);
    assert_eq!(g.stats.branch_length4_count, 1);
    assert_eq!(g.try_attach(bp(0, -9)), Ok(()));
    assert_eq!(g.stats.branch_length5_count, 1);
}

#[test]
fn upgrade_root_already_at_maximum() {
    let mut g = Garden::new();
    assert_eq!(g.try_upgrade(bp(0, 1)), Err(UpgradeError::AlreadyMaxTier));
}

#[test]
fn upgrade_needs_resource_then_succeeds() {
    let mut g = Garden::new();
    assert_eq!(g.try_attach(bp(0, -1)), Ok(()));
    assert_eq!(g.bounty_amount, 40);
    assert_eq!(g.try_upgrade(bp(0, -1)), Err(UpgradeError::InsufficientResource));
    // five whole intervals: 2 units, then 4 once the leaf has grown
    g.tick(10_001);
    assert_eq!(g.bounty_amount, 58);
    assert_eq!(g.stats.leaf_count, 1);
    assert_eq!(g.try_upgrade(bp(0, -1)), Ok(()));
    assert_eq!(g.bounty_amount, 8);
    assert_eq!(g.branch_at(bp(0, -1)).unwrap().branch_upgrade, 1);
    assert_eq!(g.stats.branch_lv1_count, 0);
    assert_eq!(g.stats.branch_lv2_count, 1);
}

#[test]
fn upgrade_gated_by_parent_tier() {
    let mut g = Garden::new();
    assert_eq!(g.try_attach(bp(0, -1)), Ok(()));
    assert_eq!(g.try_attach(bp(0, -3)), Ok(()));
    // the child is as thick as its tier-0 parent: parent must grow first
    assert_eq!(g.try_upgrade(bp(0, -3)), Err(UpgradeError::ParentNotStrongEnough));
}

#[test]
fn upgrade_strained_by_thin_ancestors() {
    let mut g = Garden::new();
    assert_eq!(g.try_attach(bp(0, -1)), Ok(()));
    assert_eq!(g.try_attach(bp(0, -3)), Ok(()));
    assert_eq!(g.try_attach(bp(0, -5)), Ok(()));
    g.tick(2_000_000);
    assert_eq!(g.bounty_amount, MAX_BOUNTY_UNITS);
    assert_eq!(g.try_upgrade(bp(0, -1)), Ok(()));
    assert_eq!(g.try_upgrade(bp(0, -3)), Ok(()));
    // the ancestor two structure generations up is tier 1, not above
    // the target's next tier: too strained
    assert_eq!(g.try_upgrade(bp(0, -5)), Err(UpgradeError::TooStrained));
}

#[test]
fn prune_cascades_to_the_whole_subtree() {
    let mut g = Garden::new();
    assert_eq!(g.try_attach(bp(0, -1)), Ok(()));
    assert_eq!(g.try_attach(bp(0, -3)), Ok(()));
    let bounty_before = g.bounty_amount;
    g.prune_branch(bp(0, -1));
    assert_eq!(g.branch_at(bp(0, -1)), None);
    assert_eq!(g.gift_at(gp(0, -2)), None);
    assert_eq!(g.branch_at(bp(0, -3)), None);
    assert_eq!(g.gift_at(gp(0, -4)), None);
    // the root and the origin stay
    assert!(g.branch_at(bp(0, 1)).is_some());
    assert!(g.gift_at(gp(0, 0)).is_some());
    assert_eq!(g.stats.branch_lv1_count, 0);
    assert_eq!(g.stats.branch_lv2_count, 0);
    assert_eq!(g.bounty_amount, bounty_before);
}

#[test]
fn prune_gift_keeps_the_branch_above() {
    let mut g = Garden::new();
    assert_eq!(g.try_attach(bp(0, -1)), Ok(()));
    assert_eq!(g.try_attach(bp(0, -3)), Ok(()));
    g.prune_gift(gp(0, -2));
    assert_eq!(g.gift_at(gp(0, -2)), None);
    assert_eq!(g.branch_at(bp(0, -3)), None);
    assert_eq!(g.gift_at(gp(0, -4)), None);
    // the pruned site's parent branch stays
    assert!(g.branch_at(bp(0, -1)).is_some());
}

#[test]
fn prune_missing_site_is_a_no_op() {
    let mut g = Garden::new();
    let stats = g.stats;
    g.prune_branch(bp(3, -4));
    assert_eq!(g.stats, stats);
    assert!(g.branch_at(bp(0, 1)).is_some());
}

#[test]
fn prune_decrements_organism_counts() {
    let mut g = Garden::new();
    assert_eq!(g.try_attach(bp(0, -1)), Ok(()));
    g.tick(2_001);
    assert_eq!(g.stats.leaf_count, 1);
    g.prune_branch(bp(0, -1));
    assert_eq!(g.stats.leaf_count, 0);
}

#[test]
fn clear_organism_toggles_moss() {
    let mut g = Garden::new();
    assert_eq!(g.try_attach(bp(0, -1)), Ok(()));
    g.tick(2_001);
    assert_eq!(g.gift_at(gp(0, -2)).unwrap().gift, Some(Gift::Leaves));
    g.clear_organism(gp(0, -2));
    let cell = g.gift_at(gp(0, -2)).unwrap();
    assert_eq!(cell.gift, None);
    assert!(cell.suppressed);
    assert_eq!(g.stats.leaf_count, 0);
    // a suppressed cell is frozen: the automaton leaves it alone
    g.tick(2_001);
    assert_eq!(g.gift_at(gp(0, -2)).unwrap().gift, None);
    assert_eq!(g.stats.moss_count, 1);
    // a second clear lifts the moss
    g.clear_organism(gp(0, -2));
    assert!(!g.gift_at(gp(0, -2)).unwrap().suppressed);
    g.tick(2_001);
    assert_eq!(g.stats.moss_count, 0);
}

#[test]
fn tick_advances_one_generation_per_interval() {
    let mut g = Garden::new();
    assert_eq!(g.try_attach(bp(0, -1)), Ok(()));
    // less than one whole interval: nothing happens
    g.tick(1_000);
    assert_eq!(g.stats.leaf_count, 0);
    assert_eq!(g.bounty_amount, 40);
    // the rest of the interval plus a bit: one generation
    g.tick(1_500);
    assert_eq!(g.stats.leaf_count, 1);
    assert_eq!(g.bounty_amount, 42);
    assert_eq!(g.life_amount, 2);
}

#[test]
fn tick_catches_up_missed_intervals() {
    let mut g = Garden::new();
    assert_eq!(g.try_attach(bp(0, -1)), Ok(()));
    // five whole intervals in one observation
    let stats = g.tick(10_001);
    assert_eq!(stats.leaf_count, 1);
    assert_eq!(g.bounty_amount, 58);
    assert_eq!(g.life_amount, 4);
}

#[test]
fn tick_is_deterministic() {
    let mut a = Garden::new();
    let mut b = Garden::new();
    assert_eq!(a.try_attach(bp(0, -1)), Ok(()));
    assert_eq!(b.try_attach(bp(0, -1)), Ok(()));
    let sa = a.tick(50_001);
    let sb = b.tick(50_001);
    assert_eq!(sa, sb);
    assert_eq!(a.bounty_amount, b.bounty_amount);
    assert_eq!(a.life_amount, b.life_amount);
    assert_eq!(a.gift_at(gp(0, -2)), b.gift_at(gp(0, -2)));
}

#[test]
fn stored_resource_never_exceeds_the_cap() {
    let mut g = Garden::new();
    assert_eq!(g.try_attach(bp(0, -1)), Ok(()));
    g.tick(1_500_000);
    assert_eq!(g.bounty_amount, MAX_BOUNTY_UNITS);
    g.tick(100_000);
    assert!(g.bounty_amount <= MAX_BOUNTY_UNITS);
    assert_eq!(g.bounty_amount, MAX_BOUNTY_UNITS);
}

#[test]
fn production_rate_formula() {
    let mut g = Garden::new();
    assert_eq!(g.try_attach(bp(0, -1)), Ok(()));
    g.tick(2_001);
    // one leaf: rate is base times (1 + 1), i.e. four units of a tenth
    // of a point each
    assert_eq!(g.production_units(), 4);
}

#[test]
fn bounty_maximum_is_recorded() {
    let mut g = Garden::new();
    assert_eq!(g.try_attach(bp(0, -1)), Ok(()));
    g.tick(50_001);
    // the rate stays at 4 units, well under ten units a point
    assert_eq!(g.stats.bounty_max, 0);
    assert_eq!(g.stats.branches_max, 1);
}

#[test]
fn parent_chain_reaches_the_root() {
    let mut g = Garden::new();
    assert_eq!(g.try_attach(bp(0, -1)), Ok(()));
    assert_eq!(g.try_attach(bp(0, -3)), Ok(()));
    assert_eq!(g.try_attach(bp(0, -5)), Ok(()));
    // follow parent references from the deepest organism record upward
    let mut branch = g.gift_at(gp(0, -6)).unwrap().parent;
    let mut steps = 0;
    let mut visited = vec![];
    loop {
        assert!(!visited.contains(&branch), "a parent chain revisited a site");
        visited.push(branch);
        let cell = g.branch_at(branch).unwrap();
        match cell.parent {
            Some(gift) => branch = g.gift_at(gift).unwrap().parent,
            None => break,
        }
        steps += 1;
        assert!(steps < 100, "parent chain failed to terminate");
    }
    assert_eq!(branch, bp(0, 1));
}

#[test]
fn crowded_leaves_bloom_into_flowers() {
    let mut g = Garden::new();
    assert_eq!(g.try_attach(bp(0, -1)), Ok(()));
    assert_eq!(g.try_attach(bp(1, -1)), Ok(()));
    assert_eq!(g.try_attach(bp(-1, 0)), Ok(()));
    // first generation: every fresh organism site sprouts leaves
    g.tick(2_001);
    assert_eq!(g.stats.leaf_count, 3);
    assert_eq!(g.stats.flower_count, 0);
    // second generation: the middle site sees two leaves at distance two
    g.tick(2_000);
    assert_eq!(g.gift_at(gp(0, -2)).unwrap().gift, Some(Gift::Flowers));
    assert_eq!(g.stats.flower_count, 1);
    assert_eq!(g.stats.leaf_count, 2);
}
