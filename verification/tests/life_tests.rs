use hexgarden::cell::Gift;
use hexgarden::life::{next_gift, GiftCounts};

fn counts(
    none_count: usize,
    leaves: usize,
    flowers: usize,
    berries: usize,
    nuts: usize,
    beehives: usize,
) -> GiftCounts {
    GiftCounts { none_count, leaves, flowers, berries, nuts, beehives }
}

#[test]
fn empty_site_with_two_empty_neighbours_grows_leaves() {
    // exactly two distance-2 neighbours valued None, nothing else
    assert_eq!(next_gift(None, &counts(2, 0, 0, 0, 0, 0), 0), Some(Gift::Leaves));
}

#[test]
fn empty_site_with_one_empty_neighbour_stays_empty() {
    assert_eq!(next_gift(None, &counts(1, 0, 0, 0, 0, 0), 0), None);
}

#[test]
fn leaf_without_empty_neighbours_dies() {
    assert_eq!(next_gift(Some(Gift::Leaves), &counts(0, 0, 0, 0, 0, 0), 0), None);
}

#[test]
fn leaf_with_two_leaf_neighbours_flowers() {
    assert_eq!(next_gift(Some(Gift::Leaves), &counts(3, 2, 0, 0, 0, 0), 0), Some(Gift::Flowers));
}

#[test]
fn flower_near_supported_flower_and_leaf_grows_nuts() {
    // a thick branch beside it, at least one flower and one leaf neighbour
    assert_eq!(next_gift(Some(Gift::Flowers), &counts(2, 1, 1, 0, 0, 0), 1), Some(Gift::Nuts));
}

#[test]
fn flower_without_leaves_dies() {
    assert_eq!(next_gift(Some(Gift::Flowers), &counts(4, 0, 2, 0, 0, 0), 1), None);
}

#[test]
fn birdnest_with_one_berry_neighbour_dies() {
    assert_eq!(next_gift(Some(Gift::Birdnest), &counts(3, 0, 0, 1, 0, 0), 0), None);
    assert_eq!(
        next_gift(Some(Gift::Birdnest), &counts(3, 0, 0, 2, 0, 0), 0),
        Some(Gift::Birdnest)
    );
}

#[test]
fn squirrels_come_and_go_with_nuts() {
    assert_eq!(next_gift(None, &counts(0, 0, 0, 0, 2, 0), 0), Some(Gift::Squirrel));
    assert_eq!(next_gift(Some(Gift::Squirrel), &counts(0, 0, 0, 0, 1, 0), 0), None);
}

#[test]
fn transition_priority_first_match_wins() {
    // nuts outrank berries for an empty site
    assert_eq!(next_gift(None, &counts(0, 0, 0, 2, 2, 0), 0), Some(Gift::Squirrel));
    // supported nuts growth outranks the birdnest rule
    assert_eq!(next_gift(None, &counts(0, 1, 1, 2, 0, 0), 1), Some(Gift::Nuts));
}

#[test]
fn beehive_rules() {
    assert_eq!(next_gift(None, &counts(0, 0, 2, 0, 0, 0), 0), Some(Gift::Beehive));
    assert_eq!(next_gift(Some(Gift::Beehive), &counts(0, 0, 0, 0, 0, 0), 0), None);
    assert_eq!(
        next_gift(Some(Gift::Beehive), &counts(0, 0, 1, 0, 0, 0), 0),
        Some(Gift::Beehive)
    );
}

#[test]
fn berries_need_beehive_and_leaves() {
    assert_eq!(next_gift(None, &counts(0, 2, 0, 0, 0, 1), 0), Some(Gift::Berries));
    assert_eq!(
        next_gift(Some(Gift::Berries), &counts(0, 2, 0, 0, 0, 1), 0),
        Some(Gift::Berries)
    );
    assert_eq!(next_gift(Some(Gift::Berries), &counts(0, 2, 0, 0, 0, 0), 0), Some(Gift::Flowers));
}

#[test]
fn nuts_decay_without_support() {
    assert_eq!(next_gift(Some(Gift::Nuts), &counts(0, 1, 1, 0, 0, 0), 0), Some(Gift::Flowers));
    assert_eq!(next_gift(Some(Gift::Nuts), &counts(0, 1, 1, 0, 0, 0), 1), Some(Gift::Nuts));
}
