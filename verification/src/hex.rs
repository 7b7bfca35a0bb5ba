//! Axial coordinates on a hexagonal grid.
//!
//! A position is a pair `(q, r)`; the third cube coordinate is `s = -q - r`.
//! The six neighbours of a cell are numbered clockwise starting east, so that
//! direction `(d + 3) % 6` always points back to where direction `d` came from.
use vstd::prelude::*;

verus! {

/// The offset of the neighbour in direction `d` (taken modulo 6).
pub open spec fn direction_offset(d: int) -> (int, int) {
    let d = d % 6;
    if d == 0 {
        (1, 0)
    } else if d == 1 {
        (1, -1)
    } else if d == 2 {
        (0, -1)
    } else if d == 3 {
        (-1, 0)
    } else if d == 4 {
        (-1, 1)
    } else {
        (0, 1)
    }
}

/// The cell next to `p` in direction `d`.
pub open spec fn neighbor_of(p: (int, int), d: int) -> (int, int) {
    (p.0 + direction_offset(d).0, p.1 + direction_offset(d).1)
}

/// The direction that points back: `(d + 3) % 6`.
pub open spec fn opposite(d: int) -> int {
    (d + 3) % 6
}

/// A position on the hexagonal grid in axial coordinates.
#[derive(Clone, Copy, Debug, PartialEq, Eq, Hash, Structural)]
pub struct HexPosition(pub i32, pub i32);

impl View for HexPosition {
    type V = (int, int);

    open spec fn view(&self) -> (int, int) {
        (self.0 as int, self.1 as int)
    }
}

/// Whether all three cube coordinates of `p` and their absolute values fit in `i32`.
pub open spec fn cube_coords_fit(p: (int, int)) -> bool {
    &&& i32::MIN < p.0 <= i32::MAX
    &&& i32::MIN < p.1 <= i32::MAX
    &&& i32::MIN < -p.0 - p.1 <= i32::MAX
}

/// Whether every neighbour of `p` has coordinates that fit in `i32`.
pub open spec fn neighbors_fit(p: (int, int)) -> bool {
    &&& i32::MIN < p.0 < i32::MAX
    &&& i32::MIN < p.1 < i32::MAX
}

impl HexPosition {
    /// The origin of the grid.
    pub fn center() -> (p: HexPosition)
        ensures
            p@ == (0int, 0int),
    {
        HexPosition(0, 0)
    }

    pub fn new(q: i32, r: i32) -> (p: HexPosition)
        ensures
            p@ == (q as int, r as int),
    {
        HexPosition(q, r)
    }

    pub fn q(self) -> (q: i32)
        ensures
            q == self@.0,
    {
        self.0
    }

    pub fn r(self) -> (r: i32)
        ensures
            r == self@.1,
    {
        self.1
    }

    /// The third cube coordinate, `-q - r`.
    pub fn s(self) -> (s: i32)
        requires
            i32::MIN < self.0,
            i32::MIN <= -self.0 - self.1 <= i32::MAX,
        ensures
            s == -self@.0 - self@.1,
    {
        -self.0 - self.1
    }

    pub fn add(self, rhs: HexPosition) -> (p: HexPosition)
        requires
            i32::MIN <= self.0 + rhs.0 <= i32::MAX,
            i32::MIN <= self.1 + rhs.1 <= i32::MAX,
        ensures
            p@ == (self@.0 + rhs@.0, self@.1 + rhs@.1),
    {
        HexPosition(self.0 + rhs.0, self.1 + rhs.1)
    }

    pub fn sub(self, rhs: HexPosition) -> (p: HexPosition)
        requires
            i32::MIN <= self.0 - rhs.0 <= i32::MAX,
            i32::MIN <= self.1 - rhs.1 <= i32::MAX,
        ensures
            p@ == (self@.0 - rhs@.0, self@.1 - rhs@.1),
    {
        HexPosition(self.0 - rhs.0, self.1 - rhs.1)
    }

    pub fn mul(self, rhs: i32) -> (p: HexPosition)
        requires
            i32::MIN <= self.0 * rhs <= i32::MAX,
            i32::MIN <= self.1 * rhs <= i32::MAX,
        ensures
            p@ == (self@.0 * rhs, self@.1 * rhs),
    {
        HexPosition(self.0 * rhs, self.1 * rhs)
    }

    /// The cell next to this one in direction `d`.
    pub fn neighbor(self, d: usize) -> (p: HexPosition)
        requires
            d < 6,
            neighbors_fit(self@),
        ensures
            p@ == neighbor_of(self@, d as int),
    {
        if d == 0 {
            HexPosition(self.0 + 1, self.1)
        } else if d == 1 {
            HexPosition(self.0 + 1, self.1 - 1)
        } else if d == 2 {
            HexPosition(self.0, self.1 - 1)
        } else if d == 3 {
            HexPosition(self.0 - 1, self.1)
        } else if d == 4 {
            HexPosition(self.0 - 1, self.1 + 1)
        } else {
            HexPosition(self.0, self.1 + 1)
        }
    }

    /// The six neighbours, in direction order.
    pub fn neighbors(self) -> (n: [HexPosition; 6])
        requires
            neighbors_fit(self@),
        ensures
            forall|d: int| 0 <= d < 6 ==> #[trigger] n@[d]@ == neighbor_of(self@, d),
    {
        [
            self.neighbor(0),
            self.neighbor(1),
            self.neighbor(2),
            self.neighbor(3),
            self.neighbor(4),
            self.neighbor(5),
        ]
    }
}

/// Stepping in direction `d` and then in the opposite direction returns to the start,
/// and no step stays in place.
pub proof fn lemma_opposite_neighbor(p: (int, int), d: int)
    requires
        0 <= d < 6,
    ensures
        neighbor_of(neighbor_of(p, d), opposite(d)) == p,
        neighbor_of(p, d) != p,
        0 <= opposite(d) < 6,
        opposite(opposite(d)) == d,
{
}

/// Two different directions lead to two different cells.
pub proof fn lemma_neighbors_distinct(p: (int, int), d1: int, d2: int)
    requires
        0 <= d1 < 6,
        0 <= d2 < 6,
        d1 != d2,
    ensures
        neighbor_of(p, d1) != neighbor_of(p, d2),
{
}

} // verus!
