//! The coordinate lattice: flat-topped axial hex coordinates, the six unit
//! directions, the parity split into gift sites (cell centers) and branch
//! sites (cell borders), the bounded playable region, and the integer plane
//! mapping used for hit-testing.

use vstd::prelude::*;

verus! {

/// A lattice position in axial coordinates.
#[derive(Clone, Copy, Debug, PartialEq, Eq, Hash, Structural)]
pub struct HexPoint {
    pub q: i32,
    pub r: i32,
}

/// A displacement between lattice positions.
#[derive(Clone, Copy, Debug, PartialEq, Eq, Hash, Structural)]
pub struct HexVector {
    pub q: i32,
    pub r: i32,
}

/// An in-region position on the border sublattice: a structure site.
#[derive(Clone, Copy, Debug, PartialEq, Eq, Hash, Structural)]
pub struct BranchPoint {
    pub hex_point: HexPoint,
}

/// An in-region position on the center sublattice: an organism site.
#[derive(Clone, Copy, Debug, PartialEq, Eq, Hash, Structural)]
pub struct GiftPoint {
    pub hex_point: HexPoint,
}

/// A position classified by the sublattice it belongs to.
#[derive(Clone, Copy, Debug, PartialEq, Eq, Hash, Structural)]
pub enum InBoundsPoint {
    BranchPoint(BranchPoint),
    GiftPoint(GiftPoint),
}

/// The drawing orientation of a branch site, determined by which of its
/// neighbours are cell centers.
#[derive(Clone, Copy, Debug, PartialEq, Eq, Hash, Structural)]
pub enum Orientation {
    Vert,
    Diag,
    AntiDiag,
}

/// Index of one of the six unit directions, in `0..6`.
pub type DirectionIndex = i32;

/// The third axial coordinate, determined by the other two.
pub open spec fn s_of(p: HexPoint) -> int {
    -p.q - p.r
}

/// The vertical coordinate of a position in half-cell-height units.
pub open spec fn y_of(p: HexPoint) -> int {
    2 * p.r + p.q
}

/// Whether a position is a cell center, i.e. a gift site.
pub open spec fn spec_center(p: HexPoint) -> bool {
    p.q % 2 == 0 && p.r % 2 == 0
}

/// The one-row adjustment that gives the region its ragged lower edge.
pub open spec fn region_adj(q: int) -> int {
    if (q + 100) % 4 == 2 {
        1
    } else {
        0
    }
}

/// The bounded playable region, as closed-form inequalities.
pub open spec fn spec_in_region(p: HexPoint) -> bool {
    &&& p.r <= 0
    &&& s_of(p) >= 0
    &&& -10 <= p.q
    &&& p.q <= 10
    &&& y_of(p) + region_adj(p.q as int) >= -33
    &&& s_of(p) < 21
}

/// The classification `is_in_bounds` must return.
pub open spec fn spec_is_in_bounds(p: HexPoint) -> Option<InBoundsPoint> {
    if spec_in_region(p) {
        if spec_center(p) {
            Some(InBoundsPoint::GiftPoint(GiftPoint { hex_point: p }))
        } else {
            Some(InBoundsPoint::BranchPoint(BranchPoint { hex_point: p }))
        }
    } else {
        None
    }
}

/// The six unit directions: up, then counter-clockwise.
pub open spec fn spec_dir(i: int) -> HexVector {
    if i == 0 {
        HexVector { q: 0i32, r: -1i32 }
    } else if i == 1 {
        HexVector { q: -1i32, r: 0i32 }
    } else if i == 2 {
        HexVector { q: -1i32, r: 1i32 }
    } else if i == 3 {
        HexVector { q: 0i32, r: 1i32 }
    } else if i == 4 {
        HexVector { q: 1i32, r: 0i32 }
    } else {
        HexVector { q: 1i32, r: -1i32 }
    }
}

impl HexPoint {
    pub fn new(q: i32, r: i32) -> (p: HexPoint)
        ensures
            p == (HexPoint { q, r }),
    {
        HexPoint { q, r }
    }

    /// The third axial coordinate; the three always sum to zero.
    pub fn s(self) -> (v: i32)
        requires
            i32::MIN < self.q,
            i32::MIN <= s_of(self) <= i32::MAX,
        ensures
            v as int == s_of(self),
    {
        -self.q - self.r
    }

    /// Vertical position in half-cell-height units.
    pub fn y(self) -> (v: i32)
        requires
            i32::MIN <= y_of(self) <= i32::MAX,
            i32::MIN <= 2 * self.r <= i32::MAX,
        ensures
            v as int == y_of(self),
    {
        self.r * 2 + self.q
    }

    /// Translate by a displacement.
    pub fn plus(self, other: HexVector) -> (p: HexPoint)
        requires
            i32::MIN <= self.q + other.q <= i32::MAX,
            i32::MIN <= self.r + other.r <= i32::MAX,
        ensures
            p.q == self.q + other.q,
            p.r == self.r + other.r,
    {
        HexPoint { q: self.q + other.q, r: self.r + other.r }
    }

    fn would_be_cell_center(self) -> (b: bool)
        ensures
            b == spec_center(self),
    {
        self.q % 2 == 0 && self.r % 2 == 0
    }

    /// Region membership, with the in-region points classified by sublattice.
    pub fn is_in_bounds(self) -> (r: Option<InBoundsPoint>)
        ensures
            r == spec_is_in_bounds(self),
    {
        if self.q < -10 || self.q > 10 || self.r > 0 || self.r < -40 {
            assert(-10 <= self.q <= 10 && self.r < -40 ==> s_of(self) >= 21);
            None
        } else {
            let s: i32 = -self.q - self.r;
            let y: i32 = self.r * 2 + self.q;
            let adj: i32 = if (self.q + 100) % 4 == 2 {
                1
            } else {
                0
            };
            if s >= 0 && y + adj >= -33 && s < 21 {
                if self.would_be_cell_center() {
                    Some(InBoundsPoint::GiftPoint(GiftPoint { hex_point: self }))
                } else {
                    Some(InBoundsPoint::BranchPoint(BranchPoint { hex_point: self }))
                }
            } else {
                None
            }
        }
    }
}

impl HexVector {
    pub fn new(q: i32, r: i32) -> (v: HexVector)
        ensures
            v == (HexVector { q, r }),
    {
        HexVector { q, r }
    }

    /// The unit direction with the given index: up, then counter-clockwise.
    pub fn from_index(direction_index: DirectionIndex) -> (v: HexVector)
        requires
            0 <= direction_index < 6,
        ensures
            v == spec_dir(direction_index as int),
    {
        match direction_index {
            0 => HexVector { q: 0, r: -1 },
            1 => HexVector { q: -1, r: 0 },
            2 => HexVector { q: -1, r: 1 },
            3 => HexVector { q: 0, r: 1 },
            4 => HexVector { q: 1, r: 0 },
            _ => HexVector { q: 1, r: -1 },
        }
    }

    /// Scale a displacement by an integer factor.
    pub fn times(self, factor: i32) -> (v: HexVector)
        requires
            i32::MIN <= self.q * factor <= i32::MAX,
            i32::MIN <= self.r * factor <= i32::MAX,
        ensures
            v.q == self.q * factor,
            v.r == self.r * factor,
    {
        HexVector { q: self.q * factor, r: self.r * factor }
    }
}

/// The neighbour of `p` one unit step in direction `i`.
pub open spec fn spec_nbr(p: HexPoint, i: int) -> HexPoint {
    HexPoint {
        q: (p.q + spec_dir(i).q) as i32,
        r: (p.r + spec_dir(i).r) as i32,
    }
}

/// The neighbour of `p` two unit steps in direction `i`: the distance-2
/// neighbour used by the automaton, which stays on the same sublattice.
pub open spec fn spec_nbr2(p: HexPoint, i: int) -> HexPoint {
    HexPoint {
        q: (p.q + 2 * spec_dir(i).q) as i32,
        r: (p.r + 2 * spec_dir(i).r) as i32,
    }
}

/// Coordinates far enough from the representation limits that all six
/// neighbours can be formed exactly.
pub open spec fn coords_roomy(p: HexPoint) -> bool {
    &&& i32::MIN + 2 <= p.q <= i32::MAX - 2
    &&& i32::MIN + 2 <= p.r <= i32::MAX - 2
}

impl HexPoint {
    /// The six adjacent positions, up first, then counter-clockwise.
    pub fn neighbours(self) -> (v: Vec<HexPoint>)
        requires
            coords_roomy(self),
        ensures
            v@.len() == 6,
            forall|i: int| 0 <= i < 6 ==> v@[i] == spec_nbr(self, i),
    {
        let mut v: Vec<HexPoint> = Vec::new();
        let mut i: i32 = 0;
        while i < 6
            invariant
                0 <= i <= 6,
                coords_roomy(self),
                v@.len() == i,
                forall|j: int| 0 <= j < i ==> v@[j] == spec_nbr(self, j),
            decreases 6 - i,
        {
            let d = HexVector::from_index(i);
            v.push(self.plus(d));
            i = i + 1;
        }
        v
    }

    /// The six positions a double unit step away, on the same sublattice.
    pub fn neighbours2(self) -> (v: Vec<HexPoint>)
        requires
            coords_roomy(self),
        ensures
            v@.len() == 6,
            forall|i: int| 0 <= i < 6 ==> v@[i] == spec_nbr2(self, i),
    {
        let mut v: Vec<HexPoint> = Vec::new();
        let mut i: i32 = 0;
        while i < 6
            invariant
                0 <= i <= 6,
                coords_roomy(self),
                v@.len() == i,
                forall|j: int| 0 <= j < i ==> v@[j] == spec_nbr2(self, j),
            decreases 6 - i,
        {
            let d = HexVector::from_index(i).times(2);
            v.push(self.plus(d));
            i = i + 1;
        }
        v
    }
}

/// Whether the neighbour of `p` in direction `i` is an in-region gift site.
pub open spec fn gift_at_dir(p: HexPoint, i: int) -> bool {
    spec_in_region(spec_nbr(p, i)) && spec_center(spec_nbr(p, i))
}

/// Whether the neighbour of `p` in direction `i` is an in-region branch site.
pub open spec fn branch_at_dir(p: HexPoint, i: int) -> bool {
    spec_in_region(spec_nbr(p, i)) && !spec_center(spec_nbr(p, i))
}

/// Whether the distance-2 neighbour of `p` in direction `i` is an in-region
/// gift site.
pub open spec fn gift_at_dir2(p: HexPoint, i: int) -> bool {
    spec_in_region(spec_nbr2(p, i)) && spec_center(spec_nbr2(p, i))
}

/// The in-region gift sites among the first `k` neighbours of `p`.
pub open spec fn gift_nbrs_upto(p: HexPoint, k: int) -> Seq<GiftPoint>
    decreases k,
{
    if k <= 0 {
        Seq::empty()
    } else if gift_at_dir(p, k - 1) {
        gift_nbrs_upto(p, k - 1).push(GiftPoint { hex_point: spec_nbr(p, k - 1) })
    } else {
        gift_nbrs_upto(p, k - 1)
    }
}

/// The adjacent in-region gift sites of `p`, in direction order.
pub open spec fn gift_nbrs(p: HexPoint) -> Seq<GiftPoint> {
    gift_nbrs_upto(p, 6)
}

/// The in-region branch sites among the first `k` neighbours of `p`.
pub open spec fn branch_nbrs_upto(p: HexPoint, k: int) -> Seq<BranchPoint>
    decreases k,
{
    if k <= 0 {
        Seq::empty()
    } else if branch_at_dir(p, k - 1) {
        branch_nbrs_upto(p, k - 1).push(BranchPoint { hex_point: spec_nbr(p, k - 1) })
    } else {
        branch_nbrs_upto(p, k - 1)
    }
}

/// The adjacent in-region branch sites of `p`, in direction order.
pub open spec fn branch_nbrs(p: HexPoint) -> Seq<BranchPoint> {
    branch_nbrs_upto(p, 6)
}

/// The in-region gift sites among the first `k` distance-2 neighbours of `p`.
pub open spec fn gift_nbrs2_upto(p: HexPoint, k: int) -> Seq<GiftPoint>
    decreases k,
{
    if k <= 0 {
        Seq::empty()
    } else if gift_at_dir2(p, k - 1) {
        gift_nbrs2_upto(p, k - 1).push(GiftPoint { hex_point: spec_nbr2(p, k - 1) })
    } else {
        gift_nbrs2_upto(p, k - 1)
    }
}

/// The in-region gift sites a double unit step from `p`, in direction order.
pub open spec fn gift_nbrs2(p: HexPoint) -> Seq<GiftPoint> {
    gift_nbrs2_upto(p, 6)
}

impl BranchPoint {
    pub fn new(hex_point: HexPoint) -> (p: BranchPoint)
        ensures
            p == (BranchPoint { hex_point }),
    {
        BranchPoint { hex_point }
    }

    /// The drawing orientation: which neighbours are cell centers.
    pub fn orientation(self) -> (o: Orientation)
        requires
            coords_roomy(self.hex_point),
        ensures
            o == spec_orientation(self),
    {
        if self.hex_point.plus(HexVector::from_index(0)).would_be_cell_center() {
            Orientation::Vert
        } else if self.hex_point.plus(HexVector::from_index(5)).would_be_cell_center() {
            Orientation::Diag
        } else {
            Orientation::AntiDiag
        }
    }

    /// The adjacent in-region gift sites: at most two of them.
    pub fn gift_neighbours(self) -> (v: Vec<GiftPoint>)
        requires
            coords_roomy(self.hex_point),
        ensures
            v@ == gift_nbrs(self.hex_point),
    {
        let p = self.hex_point;
        let mut v: Vec<GiftPoint> = Vec::new();
        let mut i: i32 = 0;
        while i < 6
            invariant
                0 <= i <= 6,
                coords_roomy(p),
                v@ == gift_nbrs_upto(p, i as int),
            decreases 6 - i,
        {
            let n = p.plus(HexVector::from_index(i));
            match n.is_in_bounds() {
                Some(InBoundsPoint::GiftPoint(g)) => v.push(g),
                _ => (),
            }
            i = i + 1;
        }
        v
    }
}

/// The orientation `BranchPoint::orientation` must return.
pub open spec fn spec_orientation(p: BranchPoint) -> Orientation {
    if spec_center(spec_nbr(p.hex_point, 0)) {
        Orientation::Vert
    } else if spec_center(spec_nbr(p.hex_point, 5)) {
        Orientation::Diag
    } else {
        Orientation::AntiDiag
    }
}

impl GiftPoint {
    pub fn new(hex_point: HexPoint) -> (p: GiftPoint)
        ensures
            p == (GiftPoint { hex_point }),
    {
        GiftPoint { hex_point }
    }

    /// The adjacent in-region branch sites: up to six of them.
    pub fn branch_neighbours(self) -> (v: Vec<BranchPoint>)
        requires
            coords_roomy(self.hex_point),
        ensures
            v@ == branch_nbrs(self.hex_point),
    {
        let p = self.hex_point;
        let mut v: Vec<BranchPoint> = Vec::new();
        let mut i: i32 = 0;
        while i < 6
            invariant
                0 <= i <= 6,
                coords_roomy(p),
                v@ == branch_nbrs_upto(p, i as int),
            decreases 6 - i,
        {
            let n = p.plus(HexVector::from_index(i));
            match n.is_in_bounds() {
                Some(InBoundsPoint::BranchPoint(b)) => v.push(b),
                _ => (),
            }
            i = i + 1;
        }
        v
    }

    /// The in-region gift sites a double unit step away: the automaton's
    /// distance-2 neighbourhood.
    pub fn gift_neighbours(self) -> (v: Vec<GiftPoint>)
        requires
            coords_roomy(self.hex_point),
        ensures
            v@ == gift_nbrs2(self.hex_point),
    {
        let p = self.hex_point;
        let mut v: Vec<GiftPoint> = Vec::new();
        let mut i: i32 = 0;
        while i < 6
            invariant
                0 <= i <= 6,
                coords_roomy(p),
                v@ == gift_nbrs2_upto(p, i as int),
            decreases 6 - i,
        {
            let n = p.plus(HexVector::from_index(i).times(2));
            match n.is_in_bounds() {
                Some(InBoundsPoint::GiftPoint(g)) => v.push(g),
                _ => (),
            }
            i = i + 1;
        }
        v
    }
}

/// One unit step apart on the lattice.
pub open spec fn is_adjacent(a: HexPoint, b: HexPoint) -> bool {
    exists|i: int| 0 <= i < 6 && b == spec_nbr(a, i)
}

/// One double unit step apart on the lattice.
pub open spec fn is_adjacent2(a: HexPoint, b: HexPoint) -> bool {
    exists|i: int| 0 <= i < 6 && b == spec_nbr2(a, i)
}

/// For an in-region point the six neighbours are formed without wrap-around
/// and are pairwise distinct.
proof fn lemma_nbrs_distinct(p: HexPoint)
    requires
        spec_in_region(p),
    ensures
        forall|i: int, j: int|
            0 <= i < 6 && 0 <= j < 6 && i != j ==> spec_nbr(p, i) != spec_nbr(p, j),
        forall|i: int, j: int|
            0 <= i < 6 && 0 <= j < 6 && i != j ==> spec_nbr2(p, i) != spec_nbr2(p, j),
{
    assert forall|i: int, j: int|
        0 <= i < 6 && 0 <= j < 6 && i != j implies spec_nbr(p, i) != spec_nbr(p, j) by {
        assert(-10 <= p.q <= 10);
        assert(-31 <= p.r <= 0) by {
            assert(s_of(p) < 21 && s_of(p) >= 0);
        }
        assert(spec_nbr(p, i).q == p.q + spec_dir(i).q);
        assert(spec_nbr(p, j).q == p.q + spec_dir(j).q);
        assert(spec_nbr(p, i).r == p.r + spec_dir(i).r);
        assert(spec_nbr(p, j).r == p.r + spec_dir(j).r);
    }
    assert forall|i: int, j: int|
        0 <= i < 6 && 0 <= j < 6 && i != j implies spec_nbr2(p, i) != spec_nbr2(p, j) by {
        assert(-10 <= p.q <= 10);
        assert(-31 <= p.r <= 0) by {
            assert(s_of(p) < 21 && s_of(p) >= 0);
        }
        assert(spec_nbr2(p, i).q == p.q + 2 * spec_dir(i).q);
        assert(spec_nbr2(p, j).q == p.q + 2 * spec_dir(j).q);
        assert(spec_nbr2(p, i).r == p.r + 2 * spec_dir(i).r);
        assert(spec_nbr2(p, j).r == p.r + 2 * spec_dir(j).r);
    }
}

proof fn lemma_gift_nbrs_upto_props(p: HexPoint, k: int)
    requires
        spec_in_region(p),
        0 <= k <= 6,
    ensures
        gift_nbrs_upto(p, k).no_duplicates(),
        forall|g: GiftPoint|
            gift_nbrs_upto(p, k).contains(g) <==> exists|i: int|
                0 <= i < k && gift_at_dir(p, i) && g.hex_point == spec_nbr(p, i),
    decreases k,
{
    lemma_nbrs_distinct(p);
    if k > 0 {
        lemma_gift_nbrs_upto_props(p, k - 1);
        let s = gift_nbrs_upto(p, k - 1);
        if gift_at_dir(p, k - 1) {
            let gk = GiftPoint { hex_point: spec_nbr(p, k - 1) };
            assert(!s.contains(gk));
            assert forall|g: GiftPoint| #[trigger] s.push(gk).contains(g) implies exists|i: int|
                0 <= i < k && gift_at_dir(p, i) && g.hex_point == spec_nbr(p, i) by {
                let n = choose|n: int| 0 <= n < s.push(gk).len() && s.push(gk)[n] == g;
                if n < s.len() {
                    assert(s.contains(g));
                } else {
                    assert(g == gk);
                    assert(0 <= k - 1 < k && gift_at_dir(p, k - 1) && g.hex_point == spec_nbr(
                        p,
                        k - 1,
                    ));
                }
            }
            assert forall|g: GiftPoint|
                (exists|i: int|
                    0 <= i < k && gift_at_dir(p, i) && g.hex_point == spec_nbr(
                        p,
                        i,
                    )) implies s.push(gk).contains(g) by {
                let i = choose|i: int|
                    0 <= i < k && gift_at_dir(p, i) && g.hex_point == spec_nbr(p, i);
                if i < k - 1 {
                    assert(s.contains(g));
                    let n = choose|n: int| 0 <= n < s.len() && s[n] == g;
                    assert(s.push(gk)[n] == g);
                } else {
                    assert(g == gk);
                    assert(s.push(gk)[s.len() as int] == gk);
                }
            }
        }
    }
}

proof fn lemma_branch_nbrs_upto_props(p: HexPoint, k: int)
    requires
        spec_in_region(p),
        0 <= k <= 6,
    ensures
        branch_nbrs_upto(p, k).no_duplicates(),
        forall|b: BranchPoint|
            branch_nbrs_upto(p, k).contains(b) <==> exists|i: int|
                0 <= i < k && branch_at_dir(p, i) && b.hex_point == spec_nbr(p, i),
    decreases k,
{
    lemma_nbrs_distinct(p);
    if k > 0 {
        lemma_branch_nbrs_upto_props(p, k - 1);
        let s = branch_nbrs_upto(p, k - 1);
        if branch_at_dir(p, k - 1) {
            let bk = BranchPoint { hex_point: spec_nbr(p, k - 1) };
            assert(!s.contains(bk));
            assert forall|b: BranchPoint| #[trigger] s.push(bk).contains(b) implies exists|i: int|
                0 <= i < k && branch_at_dir(p, i) && b.hex_point == spec_nbr(p, i) by {
                let n = choose|n: int| 0 <= n < s.push(bk).len() && s.push(bk)[n] == b;
                if n < s.len() {
                    assert(s.contains(b));
                } else {
                    assert(b == bk);
                    assert(0 <= k - 1 < k && branch_at_dir(p, k - 1) && b.hex_point == spec_nbr(
                        p,
                        k - 1,
                    ));
                }
            }
            assert forall|b: BranchPoint|
                (exists|i: int|
                    0 <= i < k && branch_at_dir(p, i) && b.hex_point == spec_nbr(
                        p,
                        i,
                    )) implies s.push(bk).contains(b) by {
                let i = choose|i: int|
                    0 <= i < k && branch_at_dir(p, i) && b.hex_point == spec_nbr(p, i);
                if i < k - 1 {
                    assert(s.contains(b));
                    let n = choose|n: int| 0 <= n < s.len() && s[n] == b;
                    assert(s.push(bk)[n] == b);
                } else {
                    assert(b == bk);
                    assert(s.push(bk)[s.len() as int] == bk);
                }
            }
        }
    }
}

/// What the adjacent-gift-site sequence holds: exactly the in-region cell
/// centers one step away, each once.
pub proof fn lemma_gift_nbrs_props(p: HexPoint)
    requires
        spec_in_region(p),
    ensures
        gift_nbrs(p).no_duplicates(),
        forall|g: GiftPoint|
            gift_nbrs(p).contains(g) <==> is_adjacent(p, g.hex_point) && spec_in_region(
                g.hex_point,
            ) && spec_center(g.hex_point),
{
    lemma_gift_nbrs_upto_props(p, 6);
    assert forall|g: GiftPoint|
        gift_nbrs(p).contains(g) <==> is_adjacent(p, g.hex_point) && spec_in_region(g.hex_point)
            && spec_center(g.hex_point) by {
        if is_adjacent(p, g.hex_point) && spec_in_region(g.hex_point) && spec_center(g.hex_point) {
            let i = choose|i: int| 0 <= i < 6 && g.hex_point == spec_nbr(p, i);
            assert(gift_at_dir(p, i));
        }
    }
}

/// What the adjacent-branch-site sequence holds: exactly the in-region
/// non-center positions one step away, each once.
pub proof fn lemma_branch_nbrs_props(p: HexPoint)
    requires
        spec_in_region(p),
    ensures
        branch_nbrs(p).no_duplicates(),
        forall|b: BranchPoint|
            branch_nbrs(p).contains(b) <==> is_adjacent(p, b.hex_point) && spec_in_region(
                b.hex_point,
            ) && !spec_center(b.hex_point),
{
    lemma_branch_nbrs_upto_props(p, 6);
    assert forall|b: BranchPoint|
        branch_nbrs(p).contains(b) <==> is_adjacent(p, b.hex_point) && spec_in_region(b.hex_point)
            && !spec_center(b.hex_point) by {
        if is_adjacent(p, b.hex_point) && spec_in_region(b.hex_point) && !spec_center(b.hex_point) {
            let i = choose|i: int| 0 <= i < 6 && b.hex_point == spec_nbr(p, i);
            assert(branch_at_dir(p, i));
        }
    }
}

/// Adjacency between in-region points is symmetric: each unit direction has
/// an opposite one.
pub proof fn lemma_adjacent_symm(a: HexPoint, b: HexPoint)
    requires
        spec_in_region(a),
        spec_in_region(b),
    ensures
        is_adjacent(a, b) <==> is_adjacent(b, a),
{
    assert(-31 <= a.r <= 0 && -31 <= b.r <= 0) by {
        assert(s_of(a) < 21 && s_of(a) >= 0 && s_of(b) < 21 && s_of(b) >= 0);
    }
    if is_adjacent(a, b) {
        let i = choose|i: int| 0 <= i < 6 && b == spec_nbr(a, i);
        let j: int = if i < 3 {
            i + 3
        } else {
            i - 3
        };
        assert(a == spec_nbr(b, j));
    }
    if is_adjacent(b, a) {
        let i = choose|i: int| 0 <= i < 6 && a == spec_nbr(b, i);
        let j: int = if i < 3 {
            i + 3
        } else {
            i - 3
        };
        assert(b == spec_nbr(a, j));
    }
}

/// A point of the continuous drawing plane, in lattice units: `x` counts
/// quarter cell widths, `y` counts half cell heights. The host scales pixel
/// coordinates into these units before hit-testing.
#[derive(Clone, Copy, Debug, PartialEq, Eq, Hash, Structural)]
pub struct PlanePoint {
    pub x: i64,
    pub y: i64,
}

/// Division rounded to the nearest integer, halves away from zero; the
/// rounding used when a plane point is snapped to the lattice.
pub open spec fn spec_round_div(a: int, b: int) -> int {
    if a >= 0 {
        (a + b / 2) / b
    } else {
        -((-a + b / 2) / b)
    }
}

fn round_div(a: i64, b: i64) -> (r: i64)
    requires
        1 <= b <= 8,
        -0x2000_0000_0000_0000 <= a <= 0x2000_0000_0000_0000,
    ensures
        r as int == spec_round_div(a as int, b as int),
{
    if a >= 0 {
        (a + b / 2) / b
    } else {
        -((-a + b / 2) / b)
    }
}

/// Where a lattice position sits on the plane.
pub open spec fn spec_to_plane(p: HexPoint) -> PlanePoint {
    PlanePoint { x: (3 * p.q) as i64, y: (p.q + 2 * p.r) as i64 }
}

/// The lattice position nearest to a plane point: first the column, then the
/// row within it.
pub open spec fn spec_from_plane(pp: PlanePoint) -> HexPoint {
    let q = spec_round_div(pp.x as int, 3);
    let r = spec_round_div(pp.y - q, 2);
    HexPoint { q: q as i32, r: r as i32 }
}

impl HexPoint {
    /// Forward mapping to the plane, for drawing and for hit-test tests.
    pub fn to_plane(self) -> (pp: PlanePoint)
        ensures
            pp == spec_to_plane(self),
    {
        PlanePoint { x: 3 * (self.q as i64), y: (self.q as i64) + 2 * (self.r as i64) }
    }

    /// Inverse mapping: the lattice position nearest to a plane point.
    pub fn from_plane(pp: PlanePoint) -> (p: HexPoint)
        requires
            -2_000_000_000 <= pp.x <= 2_000_000_000,
            -2_000_000_000 <= pp.y <= 2_000_000_000,
        ensures
            p == spec_from_plane(pp),
    {
        let q: i64 = round_div(pp.x, 3);
        assert(-1_000_000_000 <= q <= 1_000_000_000);
        let r: i64 = round_div(pp.y - q, 2);
        assert(-2_000_000_000 <= r <= 2_000_000_000);
        HexPoint { q: q as i32, r: r as i32 }
    }
}

/// Hit-testing: snap a plane point to the lattice and classify it, `None`
/// when the nearest position lies outside the region.
pub fn hit_test(pp: PlanePoint) -> (r: Option<InBoundsPoint>)
    requires
        -2_000_000_000 <= pp.x <= 2_000_000_000,
        -2_000_000_000 <= pp.y <= 2_000_000_000,
    ensures
        r == spec_is_in_bounds(spec_from_plane(pp)),
{
    HexPoint::from_plane(pp).is_in_bounds()
}

/// Round trip: snapping the plane image of any lattice position returns that
/// position exactly.
pub proof fn lemma_plane_round_trip(p: HexPoint)
    ensures
        spec_from_plane(spec_to_plane(p)) == p,
{
    let x: int = 3 * p.q;
    let y: int = p.q + 2 * p.r;
    assert(spec_to_plane(p).x == x && spec_to_plane(p).y == y);
    assert(spec_round_div(x, 3) == p.q) by {
        if p.q >= 0 {
            assert((3 * p.q + 1) / 3 == p.q);
        } else {
            assert((-(3 * p.q) + 1) / 3 == -p.q);
        }
    }
    let q: int = spec_round_div(x, 3);
    assert(y - q == 2 * p.r);
    assert(spec_round_div(2 * p.r, 2) == p.r) by {
        if p.r >= 0 {
            assert((2 * p.r + 1) / 2 == p.r);
        } else {
            assert((-(2 * p.r) + 1) / 2 == -p.r);
        }
    }
}

} // verus!
