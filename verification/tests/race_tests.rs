use hexgarden::checkpoint::{
    at_checkpoint, backward, checkpoint_to_lap, checkpoint_to_section, forward, point_to_section,
    update_checkpoint,
};
use hexgarden::hex::{HexPoint, HexVector};
use hexgarden::cell::{BranchCell, IntOrInfinite};
use hexgarden::race::{Action, Ai, Bomb, Car, CellContents, DrawableObject, Powerup, Racer};

#[test]
fn sections_go_around() {
    assert_eq!(point_to_section(HexPoint::new(3, -1)), 0);
    assert_eq!(point_to_section(HexPoint::new(1, -2)), 1);
    assert_eq!(point_to_section(HexPoint::new(0, -3)), 2);
    assert_eq!(point_to_section(HexPoint::new(-3, 1)), 3);
    assert_eq!(point_to_section(HexPoint::new(-1, 3)), 4);
    assert_eq!(point_to_section(HexPoint::new(2, 1)), 5);
}

#[test]
fn checkpoint_lines() {
    assert!(at_checkpoint(HexPoint::new(0, -4)));
    assert!(at_checkpoint(HexPoint::new(4, 0)));
    assert!(at_checkpoint(HexPoint::new(-4, 4)));
    assert!(!at_checkpoint(HexPoint::new(3, -1)));
}

#[test]
fn forward_and_backward_directions() {
    let p = HexPoint::new(3, -1);
    assert_eq!(forward(p), 2);
    assert_eq!(backward(p), 5);
    // on a checkpoint line, backward aims one section earlier
    let c = HexPoint::new(4, 0);
    assert_eq!(forward(c), 2);
    assert_eq!(backward(c), 4);
}

#[test]
fn checkpoint_section_is_nonnegative_modulo() {
    assert_eq!(checkpoint_to_section(0), 0);
    assert_eq!(checkpoint_to_section(7), 1);
    assert_eq!(checkpoint_to_section(-1), 5);
    assert_eq!(checkpoint_to_section(-6), 0);
    assert_eq!(checkpoint_to_section(-7), 5);
}

#[test]
fn update_checkpoint_counts_crossings() {
    // section 0 -> section 1: one line crossed forward
    assert_eq!(update_checkpoint(0, HexPoint::new(1, -2)), 1);
    // section 0 -> section 2: two lines
    assert_eq!(update_checkpoint(0, HexPoint::new(0, -3)), 2);
    // section 0 -> section 5: one line backward
    assert_eq!(update_checkpoint(0, HexPoint::new(2, 1)), -1);
    // section 0 -> section 4: two lines backward
    assert_eq!(update_checkpoint(0, HexPoint::new(-1, 3)), -2);
    // same section: unchanged
    assert_eq!(update_checkpoint(6, HexPoint::new(3, -1)), 6);
    // opposite section: unchanged
    assert_eq!(update_checkpoint(0, HexPoint::new(-3, 1)), 0);
}

#[test]
fn laps_round_towards_minus_infinity() {
    assert_eq!(checkpoint_to_lap(0), 0);
    assert_eq!(checkpoint_to_lap(5), 0);
    assert_eq!(checkpoint_to_lap(6), 1);
    assert_eq!(checkpoint_to_lap(-1), -1);
    assert_eq!(checkpoint_to_lap(-6), -1);
    assert_eq!(checkpoint_to_lap(-7), -2);
}

#[test]
fn racer_starts_facing_forward() {
    let r = Racer::new(1, HexPoint::new(3, -1));
    assert_eq!(r.checkpoint, 0);
    assert_eq!(r.direction_index, 2);
    let left = r.turn_left();
    assert_eq!(left.direction_index, 3);
    let right = r.turn_right();
    assert_eq!(right.direction_index, 1);
    let car = r.to_car();
    assert_eq!(car.car_number, 1);
    assert_eq!(car.direction, HexVector::new(-1, 1));
}

#[test]
fn turning_six_times_comes_back() {
    let mut r = Racer::new(0, HexPoint::new(3, -1));
    let start = r.direction_index;
    for _ in 0..6 {
        r = r.turn_left();
    }
    assert_eq!(r.direction_index, start);
}

#[test]
fn driver_goes_forward_when_aligned() {
    let r = Racer::new(0, HexPoint::new(3, -1));
    assert_eq!(Ai::new(r).next_action(), Action::GoForward);
    assert_eq!(Ai::new(r.turn_left()).next_action(), Action::TurnLeft);
}

#[test]
fn bomb_countdown() {
    let b = Bomb::new(3);
    let b = b.decrement().unwrap();
    assert_eq!(b.fuse_length, 2);
    let b = b.decrement().unwrap().decrement().unwrap();
    assert_eq!(b.fuse_length, 0);
    assert_eq!(b.decrement(), None);
    assert_eq!(Bomb::new(5).trigger_chain_reaction().fuse_length, 0);
}

#[test]
fn powerup_cycle() {
    let mut p = Powerup::first();
    let mut seen = vec![p];
    while let Some(next) = p.next() {
        seen.push(next);
        p = next;
    }
    assert_eq!(seen, vec![Powerup::Bomb, Powerup::Kick, Powerup::Zip, Powerup::SpikeShield]);
}

#[test]
fn cars_carry_their_number() {
    let c = Car::new(2, HexVector::new(0, -1));
    assert_eq!(c.car_number, 2);
    assert_eq!(c.direction, HexVector::new(0, -1));
}

#[test]
fn strain_budget_per_tier() {
    let mut c = BranchCell::new(None);
    assert_eq!(c.branch_strain_maximum(), IntOrInfinite::Finite(5));
    c.branch_upgrade = 1;
    assert_eq!(c.branch_strain_maximum(), IntOrInfinite::Finite(25));
    c.branch_upgrade = 2;
    assert_eq!(c.branch_strain_maximum(), IntOrInfinite::Finite(125));
    c.branch_upgrade = 3;
    assert_eq!(c.branch_strain_maximum(), IntOrInfinite::Infinite);
}

#[test]
fn cell_contents_variants() {
    let bomb = CellContents::Bomb(Bomb::new(2));
    let car = CellContents::Car(Car::new(0, HexVector::new(1, 0)));
    assert_ne!(bomb, CellContents::Wall);
    assert_ne!(car, CellContents::Wall);
    match DrawableObject::DrawableCar(Car::new(1, HexVector::new(0, 1))) {
        DrawableObject::DrawableCar(c) => assert_eq!(c.car_number, 1),
    }
}
