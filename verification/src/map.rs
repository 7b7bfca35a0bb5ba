//! A hexagon-shaped board of cells stored densely in one vector.
//!
//! A board of radius `R` holds every position `(q, r)` with `|q|, |r|, |q + r| <= R`,
//! which are `3R² + 3R + 1` cells. They are stored column by column (by `q`, then by
//! `r`), and the index of a cell is computed in closed form.
use vstd::prelude::*;
use crate::hex::{HexPosition, cube_coords_fit, neighbors_fit, neighbor_of};

verus! {

/// Whether `p` lies on a board of the given radius.
pub open spec fn in_radius(p: (int, int), radius: int) -> bool {
    &&& -radius <= p.0 <= radius
    &&& -radius <= p.1 <= radius
    &&& -radius <= p.0 + p.1 <= radius
}

/// The number of cells of a board of the given radius.
pub open spec fn cell_count(radius: int) -> int {
    3 * radius * radius + 3 * radius + 1
}

/// The largest radius whose cell count fits in an `i32`.
pub open spec fn radius_fits(radius: int) -> bool {
    0 <= radius && cell_count(radius) <= i32::MAX
}

/// `(n - 1) * n / 2`, the number of cells that the columns left of column `n` lack
/// compared to full columns.
pub open spec fn tri(n: int) -> int {
    (n - 1) * n / 2
}

/// The offset of a cell in the right half (`q >= 0`) from the centre cell.
pub open spec fn half_offset(q: int, r: int, radius: int) -> int {
    r + q * (2 * radius + 1) - tri(q)
}

/// The position of cell `p` in the storage of a board of the given radius.
pub open spec fn hex_index(p: (int, int), radius: int) -> int {
    let center = cell_count(radius) / 2;
    if p.0 >= 0 {
        center + half_offset(p.0, p.1, radius)
    } else {
        center - half_offset(-p.0, -p.1, radius)
    }
}

proof fn lemma_tri_step(n: int)
    ensures
        tri(n + 1) == tri(n) + n,
        2 * tri(n) == (n - 1) * n,
{
    let k = n / 2;
    let m: int = if n % 2 == 0 {
        assert((n - 1) * n == 2 * ((n - 1) * k)) by (nonlinear_arith)
            requires
                n == 2 * k,
        ;
        (n - 1) * k
    } else {
        assert((n - 1) * n == 2 * (k * n)) by (nonlinear_arith)
            requires
                n == 2 * k + 1,
        ;
        k * n
    };
    assert((n - 1) * n == 2 * m);
    assert(tri(n) == m);
    assert((n + 1 - 1) * (n + 1) == (n - 1) * n + 2 * n) by (nonlinear_arith);
    assert(tri(n + 1) == m + n);
}

proof fn lemma_center(radius: int)
    requires
        radius >= 0,
    ensures
        cell_count(radius) / 2 * 2 + 1 == cell_count(radius),
        cell_count(radius) / 2 == 3 * tri(radius + 1),
        half_offset(radius, 0, radius) == cell_count(radius) / 2,
{
    lemma_tri_step(radius);
    lemma_tri_step(radius + 1);
    assert(radius * (radius + 1) == radius * radius + radius) by (nonlinear_arith);
    assert(3 * radius * radius == 3 * (radius * radius)) by (nonlinear_arith);
    assert(2 * radius * radius == 2 * (radius * radius)) by (nonlinear_arith);
    assert((radius + 1 - 1) * (radius + 1) == radius * radius + radius) by (nonlinear_arith);
    assert(cell_count(radius) == 6 * tri(radius + 1) + 1);
    assert(radius * (2 * radius + 1) == 2 * radius * radius + radius) by (nonlinear_arith);
    assert((radius - 1) * radius == radius * radius - radius) by (nonlinear_arith);
}

/// The last cell of column `q` is followed by the first cell of column `q + 1`.
proof fn lemma_column_step(q: int, radius: int)
    requires
        0 <= q < radius,
    ensures
        half_offset(q, radius - q, radius) + 1 == half_offset(q + 1, -radius, radius),
{
    lemma_tri_step(q);
    assert((q + 1) * (2 * radius + 1) == q * (2 * radius + 1) + 2 * radius + 1) by (nonlinear_arith);
}

/// Columns are ordered: every cell of column `q1` comes before every cell of column `q2 > q1`.
proof fn lemma_columns_ordered(q1: int, q2: int, radius: int)
    requires
        0 <= q1 < q2 <= radius,
    ensures
        half_offset(q1, radius - q1, radius) < half_offset(q2, -radius, radius),
    decreases q2 - q1,
{
    lemma_column_step(q1, radius);
    if q2 > q1 + 1 {
        lemma_columns_ordered(q1 + 1, q2, radius);
    }
}

/// Offsets in the right half are ordered by column, then by row, and stay in
/// `[-radius, center]`.
proof fn lemma_half_bounds(q: int, r: int, radius: int)
    requires
        0 <= q <= radius,
        -radius <= r <= radius - q,
    ensures
        -radius <= half_offset(q, r, radius) <= cell_count(radius) / 2,
        q >= 1 ==> half_offset(q, r, radius) > radius,
{
    lemma_center(radius);
    if q >= 1 {
        lemma_columns_ordered(0, q, radius);
    }
    if q < radius {
        lemma_columns_ordered(q, radius, radius);
    }
}

/// Within the right half, different cells have different offsets.
proof fn lemma_half_injective(q1: int, r1: int, q2: int, r2: int, radius: int)
    requires
        0 <= q1 <= radius,
        -radius <= r1 <= radius - q1,
        0 <= q2 <= radius,
        -radius <= r2 <= radius - q2,
        (q1, r1) != (q2, r2),
    ensures
        half_offset(q1, r1, radius) != half_offset(q2, r2, radius),
{
    if q1 < q2 {
        lemma_columns_ordered(q1, q2, radius);
    } else if q2 < q1 {
        lemma_columns_ordered(q2, q1, radius);
    }
}

/// Every cell of a board has an index below the cell count, and different cells
/// have different indices.
pub proof fn lemma_hex_index_bounds(p: (int, int), radius: int)
    requires
        radius >= 0,
        in_radius(p, radius),
    ensures
        0 <= hex_index(p, radius) < cell_count(radius),
{
    lemma_center(radius);
    if p.0 >= 0 {
        lemma_half_bounds(p.0, p.1, radius);
    } else {
        lemma_half_bounds(-p.0, -p.1, radius);
    }
}

/// Different cells of a board are stored at different indices.
pub proof fn lemma_hex_index_injective(p1: (int, int), p2: (int, int), radius: int)
    requires
        radius >= 0,
        in_radius(p1, radius),
        in_radius(p2, radius),
        p1 != p2,
    ensures
        hex_index(p1, radius) != hex_index(p2, radius),
{
    lemma_center(radius);
    if p1.0 >= 0 && p2.0 >= 0 {
        lemma_half_injective(p1.0, p1.1, p2.0, p2.1, radius);
    } else if p1.0 < 0 && p2.0 < 0 {
        lemma_half_injective(-p1.0, -p1.1, -p2.0, -p2.1, radius);
    } else if p1.0 >= 0 {
        lemma_half_bounds(p1.0, p1.1, radius);
        lemma_half_bounds(-p2.0, -p2.1, radius);
    } else {
        lemma_half_bounds(-p1.0, -p1.1, radius);
        lemma_half_bounds(p2.0, p2.1, radius);
    }
}

/// Inside a column, the next row is stored right after the previous one; the last
/// cell of a column is followed by the first cell of the next column; the board
/// starts at index 0.
pub proof fn lemma_hex_index_order(radius: int)
    requires
        radius >= 0,
    ensures
        hex_index((-radius, 0), radius) == 0,
        forall|q: int, r: int|
            #![trigger hex_index((q, r), radius)]
            in_radius((q, r), radius) && in_radius((q, r + 1), radius) ==> hex_index((q, r + 1), radius)
                == hex_index((q, r), radius) + 1,
        forall|q: int|
            #![trigger hex_index((q, column_end(q, radius)), radius)]
            -radius <= q < radius ==> hex_index((q, column_end(q, radius)), radius) + 1
                == hex_index((q + 1, column_start(q + 1, radius)), radius),
{
    lemma_center(radius);
    lemma_tri_step(0);
    lemma_tri_step(1);
    if radius > 0 {
        assert(hex_index((-radius, 0), radius) == cell_count(radius) / 2 - half_offset(radius, 0, radius));
    } else {
        assert(half_offset(0, 0, 0) == 0);
    }
    assert forall|q: int|
        #![trigger hex_index((q, column_end(q, radius)), radius)]
        -radius <= q < radius implies hex_index((q, column_end(q, radius)), radius)
            + 1 == hex_index((q + 1, column_start(q + 1, radius)), radius) by {
        let c = cell_count(radius) / 2;
        if q >= 0 {
            lemma_column_step(q, radius);
            assert(hex_index((q, column_end(q, radius)), radius) == c + half_offset(q, radius - q, radius));
            assert(hex_index((q + 1, column_start(q + 1, radius)), radius) == c + half_offset(q + 1, -radius, radius));
        } else if q == -1 {
            assert(hex_index((q, column_end(q, radius)), radius) == c - half_offset(1, -radius, radius));
            assert(hex_index((q + 1, column_start(q + 1, radius)), radius) == c + half_offset(0, -radius, radius));
        } else {
            lemma_column_step(-q - 1, radius);
            assert(hex_index((q, column_end(q, radius)), radius) == c - half_offset(-q, -radius, radius));
            assert(hex_index((q + 1, column_start(q + 1, radius)), radius) == c - half_offset(-q - 1, radius + q + 1, radius));
        }
    }
}

/// Every cell of the board appears in a list of positions that holds, at each index
/// `i`, a cell whose storage index is `i`.
pub proof fn lemma_keys_cover(keys: Seq<HexPosition>, radius: int, p: (int, int))
    requires
        radius >= 0,
        keys.len() == cell_count(radius),
        forall|i: int|
            0 <= i < keys.len() ==> in_radius(#[trigger] keys[i]@, radius) && hex_index(keys[i]@, radius)
                == i,
        in_radius(p, radius),
    ensures
        0 <= hex_index(p, radius) < keys.len(),
        keys[hex_index(p, radius)]@ == p,
{
    lemma_hex_index_bounds(p, radius);
    let i = hex_index(p, radius);
    if keys[i]@ != p {
        lemma_hex_index_injective(keys[i]@, p, radius);
    }
}

/// Every cell of a board whose cell count fits in an `i32`, and every neighbour of
/// such a cell, has cube coordinates that fit in an `i32`.
pub proof fn lemma_in_radius_fits(p: (int, int), radius: int)
    requires
        radius_fits(radius),
        in_radius(p, radius),
    ensures
        cube_coords_fit(p),
        neighbors_fit(p),
        forall|d: int| 0 <= d < 6 ==> cube_coords_fit(#[trigger] neighbor_of(p, d)),
{
    assert(radius <= 30000) by (nonlinear_arith)
        requires
            0 <= radius,
            3 * radius * radius + 3 * radius + 1 <= i32::MAX,
    ;
}

/// Every cell within two steps of a board whose cell count fits in an `i32` has
/// coordinates that fit, and so do its neighbours.
pub proof fn lemma_near_board_fits(p: (int, int), radius: int)
    requires
        radius_fits(radius),
        in_radius(p, radius + 2),
    ensures
        cube_coords_fit(p),
        neighbors_fit(p),
        forall|d: int| 0 <= d < 6 ==> cube_coords_fit(#[trigger] neighbor_of(p, d)),
        forall|d: int| 0 <= d < 6 ==> in_radius(#[trigger] neighbor_of(p, d), radius + 3),
{
    assert(radius <= 30000) by (nonlinear_arith)
        requires
            0 <= radius,
            3 * radius * radius + 3 * radius + 1 <= i32::MAX,
    ;
}

/// The first row of column `q` on a board of the given radius.
pub open spec fn column_start(q: int, radius: int) -> int {
    if q < 0 {
        -radius - q
    } else {
        -radius
    }
}

/// The last row of column `q` on a board of the given radius.
pub open spec fn column_end(q: int, radius: int) -> int {
    if q < 0 {
        radius
    } else {
        radius - q
    }
}

/// A hexagon-shaped board of cells, each holding a `T`.
#[derive(Clone, Debug)]
pub struct HexMap<T> {
    radius: i32,
    elements: Vec<T>,
}

impl<T> View for HexMap<T> {
    type V = Map<(int, int), T>;

    /// The board as a map from positions to values.
    open spec fn view(&self) -> Map<(int, int), T> {
        Map::new(
            |p: (int, int)| in_radius(p, self.spec_radius()),
            |p: (int, int)| self.cells()[hex_index(p, self.spec_radius())],
        )
    }
}

impl<T> HexMap<T> {
    /// The radius of the board.
    pub closed spec fn spec_radius(&self) -> int {
        self.radius as int
    }

    /// The cells in storage order.
    pub closed spec fn cells(&self) -> Seq<T> {
        self.elements@
    }

    /// The board is well formed: its radius is not negative, its cell count fits
    /// in an `i32` and it stores exactly one value per cell.
    pub closed spec fn wf(&self) -> bool {
        &&& radius_fits(self.radius as int)
        &&& self.elements@.len() == cell_count(self.radius as int)
    }

    /// The value stored at `p`.
    pub open spec fn at(&self, p: (int, int)) -> T {
        self.cells()[hex_index(p, self.spec_radius())]
    }

    pub proof fn lemma_wf(&self)
        requires
            self.wf(),
        ensures
            radius_fits(self.spec_radius()),
            self.cells().len() == cell_count(self.spec_radius()),
    {
    }

    /// Writing the value of one cell in storage changes the board at that cell only.
    pub proof fn lemma_update_view(before: &Self, after: &Self, pos: (int, int), v: T)
        requires
            before.wf(),
            in_radius(pos, before.spec_radius()),
            after.spec_radius() == before.spec_radius(),
            after.cells() == before.cells().update(hex_index(pos, before.spec_radius()), v),
        ensures
            after@ == before@.insert(pos, v),
    {
        let rad = before.spec_radius();
        lemma_hex_index_bounds(pos, rad);
        assert forall|p: (int, int)| #[trigger] after@.dom().contains(p) implies after@[p]
            == before@.insert(pos, v)[p] by {
            if p != pos {
                lemma_hex_index_injective(p, pos, rad);
                lemma_hex_index_bounds(p, rad);
            }
        }
        assert(after@ =~= before@.insert(pos, v));
    }

    /// All positions of the board, in storage order.
    pub fn keys(&self) -> (keys: Vec<HexPosition>)
        requires
            self.wf(),
        ensures
            keys@.len() == cell_count(self.spec_radius()),
            forall|i: int|
                0 <= i < keys@.len() ==> in_radius(#[trigger] keys@[i]@, self.spec_radius())
                    && hex_index(keys@[i]@, self.spec_radius()) == i,
    {
        let radius = self.radius;
        let ghost rad = radius as int;
        proof {
            lemma_hex_index_order(rad);
        }
        let mut keys: Vec<HexPosition> = Vec::new();
        let mut q: i32 = -radius;
        while q <= radius
            invariant
                rad == radius,
                radius_fits(rad),
                -rad <= q <= rad + 1,
                q <= rad ==> keys@.len() == hex_index((q as int, column_start(q as int, rad)), rad),
                q == rad + 1 ==> keys@.len() == cell_count(rad),
                forall|i: int|
                    0 <= i < keys@.len() ==> in_radius(#[trigger] keys@[i]@, rad) && hex_index(
                        keys@[i]@,
                        rad,
                    ) == i,
                forall|q: int, r: int|
                    #![trigger hex_index((q, r), rad)]
                    in_radius((q, r), rad) && in_radius((q, r + 1), rad) ==> hex_index((q, r + 1), rad)
                        == hex_index((q, r), rad) + 1,
                forall|q: int|
                    #![trigger hex_index((q, column_end(q, rad)), rad)]
                    -rad <= q < rad ==> hex_index((q, column_end(q, rad)), rad) + 1
                        == hex_index((q + 1, column_start(q + 1, rad)), rad),
            decreases rad + 1 - q,
        {
            let mut r: i32 = if q < 0 {
                -radius - q
            } else {
                -radius
            };
            let r_end: i32 = if q < 0 {
                radius
            } else {
                radius - q
            };
            while r <= r_end
                invariant
                    rad == radius,
                    radius_fits(rad),
                    -rad <= q <= rad,
                    r_end == column_end(q as int, rad),
                    column_start(q as int, rad) <= r <= r_end + 1,
                    r <= r_end ==> keys@.len() == hex_index((q as int, r as int), rad),
                    r == r_end + 1 ==> keys@.len() == hex_index((q as int, r_end as int), rad) + 1,
                    forall|i: int|
                        0 <= i < keys@.len() ==> in_radius(#[trigger] keys@[i]@, rad) && hex_index(
                            keys@[i]@,
                            rad,
                        ) == i,
                    forall|q: int, r: int|
                        #![trigger hex_index((q, r), rad)]
                        in_radius((q, r), rad) && in_radius((q, r + 1), rad) ==> hex_index(
                            (q, r + 1),
                            rad,
                        ) == hex_index((q, r), rad) + 1,
                decreases r_end + 1 - r,
            {
                keys.push(HexPosition(q, r));
                r = r + 1;
            }
            assert(hex_index((q as int, column_end(q as int, rad)), rad) == hex_index(
                (q as int, r_end as int),
                rad,
            ));
            if q == radius {
                proof {
                    lemma_center(rad);
                    lemma_half_bounds(rad, 0, rad);
                }
                assert(hex_index((rad, 0), rad) == cell_count(rad) - 1);
            }
            q = q + 1;
        }
        keys
    }

    /// The values of all cells, in storage order.
    pub fn values(&self) -> (values: &[T])
        ensures
            values@ == self.cells(),
    {
        self.elements.as_slice()
    }

    pub fn radius(&self) -> (radius: i32)
        ensures
            radius == self.spec_radius(),
    {
        self.radius
    }

    /// The number of cells.
    pub fn len(&self) -> (len: usize)
        ensures
            len == self.cells().len(),
    {
        self.elements.len()
    }

    /// Whether `pos` lies on the board.
    pub fn contains(&self, pos: HexPosition) -> (b: bool)
        ensures
            b == in_radius(pos@, self.spec_radius()),
    {
        let q = pos.q() as i64;
        let r = pos.r() as i64;
        let s = -q - r;
        let radius = self.radius as i64;
        abs_i64(q) <= radius && abs_i64(r) <= radius && abs_i64(s) <= radius
    }

    /// The storage index of `pos`, or `None` where `pos` is not on the board.
    pub fn index(&self, pos: HexPosition) -> (i: Option<usize>)
        requires
            self.wf(),
        ensures
            i == (if in_radius(pos@, self.spec_radius()) {
                Some(hex_index(pos@, self.spec_radius()) as usize)
            } else {
                None
            }),
            i matches Some(k) ==> k < self.cells().len(),
    {
        if !self.contains(pos) {
            None
        } else {
            let ghost rad = self.radius as int;
            proof {
                lemma_hex_index_bounds(pos@, rad);
                lemma_center(rad);
            }
            let radius = self.radius as i64;
            let diameter: i64 = 2 * radius + 1;
            let len = self.elements.len() as i64;
            let sign: i64 = if pos.q() < 0 {
                -1
            } else {
                1
            };
            let r = sign * (pos.r() as i64);
            let q = sign * (pos.q() as i64);
            assert(0 <= q <= radius);
            assert(-radius <= r <= radius);
            assert(0 <= q * diameter <= radius * diameter) by (nonlinear_arith)
                requires
                    0 <= q <= radius,
                    diameter == 2 * radius + 1,
            ;
            assert(radius * diameter <= 3 * radius * radius + 3 * radius + 1) by (nonlinear_arith)
                requires
                    diameter == 2 * radius + 1,
                    radius >= 0,
            ;
            assert(0 <= (q - 1) * q + 1 <= radius * radius + 1) by (nonlinear_arith)
                requires
                    0 <= q <= radius,
            ;
            let tri = ((q - 1) * q) / 2;
            let offset = r + q * diameter - tri;
            assert(offset == half_offset(sign * pos@.0, sign * pos@.1, rad));
            let index = len / 2 + sign * offset;
            Some(index as usize)
        }
    }

    /// The value at `pos`, or `None` where `pos` is not on the board.
    pub fn get(&self, pos: HexPosition) -> (v: Option<&T>)
        requires
            self.wf(),
        ensures
            v == (if self@.dom().contains(pos@) {
                Some(&self@[pos@])
            } else {
                None
            }),
    {
        match self.index(pos) {
            Some(i) => {
                proof {
                    lemma_hex_index_bounds(pos@, self.radius as int);
                }
                assert(self@.dom().contains(pos@));
                assert(self@[pos@] == self.elements@[i as int]);
                Some(&self.elements[i])
            },
            None => None,
        }
    }

    /// The value at `pos`, to be changed in place, or `None` where `pos` is not on
    /// the board.
    pub fn get_mut(&mut self, pos: HexPosition) -> (v: Option<&mut T>)
        requires
            old(self).wf(),
        ensures
            v is Some == old(self)@.dom().contains(pos@),
            v matches Some(e) ==> {
                &&& *e == old(self)@[pos@]
                &&& final(self).wf()
                &&& final(self).spec_radius() == old(self).spec_radius()
                &&& final(self).cells() == old(self).cells().update(
                    hex_index(pos@, old(self).spec_radius()),
                    *final(e),
                )
            },
            v is None ==> *final(self) == *old(self),
    {
        match self.index(pos) {
            Some(i) => {
                proof {
                    lemma_hex_index_bounds(pos@, self.radius as int);
                }
                Some(&mut self.elements[i])
            },
            None => None,
        }
    }

    /// Stores `value` at `pos`; returns whether `pos` is on the board.
    pub fn set(&mut self, pos: HexPosition, value: T) -> (b: bool)
        requires
            old(self).wf(),
        ensures
            final(self).wf(),
            final(self).spec_radius() == old(self).spec_radius(),
            b == old(self)@.dom().contains(pos@),
            final(self)@ == (if b {
                old(self)@.insert(pos@, value)
            } else {
                old(self)@
            }),
            b ==> final(self).cells() == old(self).cells().update(
                hex_index(pos@, old(self).spec_radius()),
                value,
            ),
            !b ==> final(self).cells() == old(self).cells(),
    {
        match self.index(pos) {
            Some(i) => {
                proof {
                    lemma_hex_index_bounds(pos@, self.radius as int);
                }
                self.elements.set(i, value);
                proof {
                    let rad = self.radius as int;
                    assert forall|p: (int, int)| in_radius(p, rad) && p != pos@ implies hex_index(p, rad)
                        != hex_index(pos@, rad) by {
                        lemma_hex_index_injective(p, pos@, rad);
                    }
                }
                assert forall|p: (int, int)| #[trigger] self@.dom().contains(p) implies self@[p]
                    == old(self)@.insert(pos@, value)[p] by {
                    if p != pos@ {
                        lemma_hex_index_injective(p, pos@, self.radius as int);
                        lemma_hex_index_bounds(p, self.radius as int);
                    }
                }
                assert(self@ =~= old(self)@.insert(pos@, value));
                true
            },
            None => false,
        }
    }
}

impl<T: Default + Clone> HexMap<T> {
    /// A board of the given radius whose cells hold `T::default()`.
    pub fn new(radius: i32) -> (map: Self)
        requires
            radius_fits(radius as int),
        ensures
            map.wf(),
            map.spec_radius() == radius,
            exists|d: T|
                call_ensures(T::default, (), d) && forall|p: (int, int)|
                    #[trigger] map@.dom().contains(p) ==> cloned(d, map@[p]),
    {
        let diameter = 2 * radius + 1;
        assert(diameter * diameter - radius * radius - radius == cell_count(radius as int))
            by (nonlinear_arith)
            requires
                diameter == 2 * radius + 1,
        ;
        assert(0 <= radius * radius <= cell_count(radius as int)) by (nonlinear_arith)
            requires
                radius >= 0,
        ;
        assert(diameter * diameter <= 4 * cell_count(radius as int)) by (nonlinear_arith)
            requires
                diameter == 2 * radius + 1,
                radius >= 0,
        ;
        let len = (diameter as i64) * (diameter as i64) - (radius as i64) * (radius as i64)
            - radius as i64;
        let d = T::default();
        let elements = vec![d; len as usize];
        let map = HexMap { radius, elements };
        proof {
            assert forall|p: (int, int)| #[trigger] map@.dom().contains(p) implies cloned(d, map@[p]) by {
                lemma_hex_index_bounds(p, radius as int);
            }
        }
        map
    }
}

fn abs_i64(x: i64) -> (a: i64)
    requires
        x > i64::MIN,
    ensures
        a == (if x < 0 {
            -x
        } else {
            x as int
        }),
{
    if x < 0 {
        -x
    } else {
        x
    }
}

} // verus!
