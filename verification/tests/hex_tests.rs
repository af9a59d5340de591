use hexgarden::hex::{hit_test, BranchPoint, GiftPoint, HexPoint, HexVector, InBoundsPoint, Orientation, PlanePoint};

#[test]
fn axial_coordinates_sum_to_zero() {
    let p = HexPoint::new(3, -5);
    assert_eq!(p.s(), 2);
    assert_eq!(p.q + p.r + p.s(), 0);
    assert_eq!(p.y(), -7);
}

#[test]
fn six_neighbours_up_then_counter_clockwise() {
    let p = HexPoint::new(0, 0);
    let ns = p.neighbours();
    assert_eq!(ns.len(), 6);
    assert_eq!(ns[0], HexPoint::new(0, -1));
    assert_eq!(ns[1], HexPoint::new(-1, 0));
    assert_eq!(ns[2], HexPoint::new(-1, 1));
    assert_eq!(ns[3], HexPoint::new(0, 1));
    assert_eq!(ns[4], HexPoint::new(1, 0));
    assert_eq!(ns[5], HexPoint::new(1, -1));
}

#[test]
fn double_step_neighbours_stay_on_centers() {
    let p = HexPoint::new(0, -2);
    let ns = p.neighbours2();
    assert_eq!(ns.len(), 6);
    for n in ns {
        // both coordinates stay even: the distance-2 neighbourhood stays on
        // the gift sublattice
        assert_eq!(n.q % 2, 0);
        assert_eq!(n.r % 2, 0);
    }
}

#[test]
fn direction_index_round_trip() {
    for i in 0..6 {
        let v = HexVector::from_index(i);
        assert!(v.q.abs() <= 1 && v.r.abs() <= 1);
    }
    assert_eq!(HexVector::from_index(0), HexVector::new(0, -1));
    assert_eq!(HexVector::from_index(5), HexVector::new(1, -1));
}

#[test]
fn origin_is_a_gift_site() {
    let p = HexPoint::new(0, 0);
    match p.is_in_bounds() {
        Some(InBoundsPoint::GiftPoint(g)) => assert_eq!(g.hex_point, p),
        other => panic!("expected a gift site, got {:?}", other),
    }
}

#[test]
fn root_position_is_outside_the_region() {
    // the root branch sits one row below the region edge
    assert_eq!(HexPoint::new(0, 1).is_in_bounds(), None);
}

#[test]
fn border_position_is_a_branch_site() {
    match HexPoint::new(0, -1).is_in_bounds() {
        Some(InBoundsPoint::BranchPoint(b)) => assert_eq!(b.hex_point, HexPoint::new(0, -1)),
        other => panic!("expected a branch site, got {:?}", other),
    }
}

#[test]
fn region_edges_rejected() {
    assert_eq!(HexPoint::new(11, -2).is_in_bounds(), None);
    assert_eq!(HexPoint::new(-11, 0).is_in_bounds(), None);
    assert_eq!(HexPoint::new(0, -21).is_in_bounds(), None);
    assert_eq!(HexPoint::new(2, -30).is_in_bounds(), None);
}

#[test]
fn orientation_of_vertical_branch() {
    // (0,-1) has a cell center straight up at (0,-2)
    assert_eq!(BranchPoint::new(HexPoint::new(0, -1)).orientation(), Orientation::Vert);
    // (1,-2) has no center up (1,-3) nor at direction five (2,-3): anti-diagonal
    assert_eq!(BranchPoint::new(HexPoint::new(1, -2)).orientation(), Orientation::AntiDiag);
    // (1,-1) has a center at direction five (2,-2)
    assert_eq!(BranchPoint::new(HexPoint::new(1, -1)).orientation(), Orientation::Diag);
}

#[test]
fn branch_gift_neighbours_at_most_two() {
    let b = BranchPoint::new(HexPoint::new(0, -1));
    let gs = b.gift_neighbours();
    assert_eq!(gs.len(), 2);
    assert!(gs.contains(&GiftPoint::new(HexPoint::new(0, -2))));
    assert!(gs.contains(&GiftPoint::new(HexPoint::new(0, 0))));
}

#[test]
fn gift_branch_neighbours_filter_region() {
    let g = GiftPoint::new(HexPoint::new(0, 0));
    let bs = g.branch_neighbours();
    // the root row (r = 1) is outside the region, so only three remain
    assert_eq!(bs.len(), 3);
    assert!(bs.contains(&BranchPoint::new(HexPoint::new(0, -1))));
    assert!(bs.contains(&BranchPoint::new(HexPoint::new(-1, 0))));
    assert!(bs.contains(&BranchPoint::new(HexPoint::new(1, -1))));
}

#[test]
fn plane_round_trip_on_lattice_points() {
    for q in -10..=10 {
        for r in -20..=0 {
            let p = HexPoint::new(q, r);
            let pp = p.to_plane();
            assert_eq!(HexPoint::from_plane(pp), p);
        }
    }
}

#[test]
fn plane_mapping_exact_units() {
    let p = HexPoint::new(2, -3);
    let pp = p.to_plane();
    assert_eq!(pp, PlanePoint { x: 6, y: -4 });
}

#[test]
fn from_plane_snaps_to_nearest() {
    // one unit off the exact image of (0,0) still snaps back
    assert_eq!(HexPoint::from_plane(PlanePoint { x: 1, y: 0 }), HexPoint::new(0, 0));
    assert_eq!(HexPoint::from_plane(PlanePoint { x: -1, y: 0 }), HexPoint::new(0, 0));
    // the exact midpoint between two rows rounds away from zero
    assert_eq!(HexPoint::from_plane(PlanePoint { x: 0, y: -1 }), HexPoint::new(0, -1));
    assert_eq!(HexPoint::from_plane(PlanePoint { x: 0, y: -3 }), HexPoint::new(0, -2));
}

#[test]
fn hit_test_classifies() {
    let g = HexPoint::new(0, -2);
    match hit_test(g.to_plane()) {
        Some(InBoundsPoint::GiftPoint(gp)) => assert_eq!(gp.hex_point, g),
        other => panic!("expected a gift site, got {:?}", other),
    }
    let b = HexPoint::new(0, -1);
    match hit_test(b.to_plane()) {
        Some(InBoundsPoint::BranchPoint(bp)) => assert_eq!(bp.hex_point, b),
        other => panic!("expected a branch site, got {:?}", other),
    }
    assert_eq!(hit_test(HexPoint::new(0, 5).to_plane()), None);
}
