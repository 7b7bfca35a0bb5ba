//! The pieces of the puzzle: seven tile shapes, each placed in one of six rotations.
//!
//! A tile has an "ending" (a line leaving the cell) on some of its six sides. Side
//! `d` faces the neighbour in direction `d`. Rotating a tile by one step moves the
//! ending on side `d` to side `d + 1`.
use vstd::prelude::*;

verus! {

/// The number of distinct placed pieces: seven shapes in six rotations, and the empty cell.
pub const ELEMENT_COUNT: usize = 43;

/// The index of the empty cell in the table of placed pieces.
pub const EMPTY_INDEX: usize = 42;

/// The shapes of the tiles. The name lists the sides that carry an ending, counted
/// from the side where every shape has one.
#[derive(Clone, Copy, Debug, PartialEq, Eq, Hash, Structural)]
pub enum TileType {
    Tile0,
    Tile01,
    Tile02,
    Tile03,
    Tile012,
    Tile024,
    Tile0134,
}

/// The position of a shape in the order in which the shapes are declared.
pub open spec fn type_index(t: TileType) -> int {
    match t {
        TileType::Tile0 => 0,
        TileType::Tile01 => 1,
        TileType::Tile02 => 2,
        TileType::Tile03 => 3,
        TileType::Tile012 => 4,
        TileType::Tile024 => 5,
        TileType::Tile0134 => 6,
    }
}

/// The shape at position `i` of the declaration order.
pub open spec fn type_at(i: int) -> TileType {
    if i == 0 {
        TileType::Tile0
    } else if i == 1 {
        TileType::Tile01
    } else if i == 2 {
        TileType::Tile02
    } else if i == 3 {
        TileType::Tile03
    } else if i == 4 {
        TileType::Tile012
    } else if i == 5 {
        TileType::Tile024
    } else {
        TileType::Tile0134
    }
}

/// Whether an unrotated tile of shape `t` has an ending on side `d`.
pub open spec fn type_ending(t: TileType, d: int) -> bool {
    match t {
        TileType::Tile0 => d == 5,
        TileType::Tile01 => d == 0 || d == 5,
        TileType::Tile02 => d == 1 || d == 5,
        TileType::Tile03 => d == 2 || d == 5,
        TileType::Tile012 => d == 0 || d == 1 || d == 5,
        TileType::Tile024 => d == 1 || d == 3 || d == 5,
        TileType::Tile0134 => d == 0 || d == 2 || d == 3 || d == 5,
    }
}

/// The texture layer that draws shape `t` (layer 0 is the empty hexagon).
pub open spec fn type_model(t: TileType) -> int {
    type_index(t) + 1
}

/// Whether `k` is one of the digits in the name of shape `t`: the sides of the
/// shape with an ending, counted from the side where every shape has one.
pub open spec fn name_has_digit(t: TileType, k: int) -> bool {
    match t {
        TileType::Tile0 => k == 0,
        TileType::Tile01 => k == 0 || k == 1,
        TileType::Tile02 => k == 0 || k == 2,
        TileType::Tile03 => k == 0 || k == 3,
        TileType::Tile012 => k == 0 || k == 1 || k == 2,
        TileType::Tile024 => k == 0 || k == 2 || k == 4,
        TileType::Tile0134 => k == 0 || k == 1 || k == 3 || k == 4,
    }
}

/// Every shape has the endings its name lists: counting from side 5, where every
/// shape has one, the unturned shape has an ending on side `d` exactly when the
/// name holds the digit `(d + 1) % 6`.
pub proof fn lemma_endings_follow_names(t: TileType, d: int)
    requires
        0 <= d < 6,
    ensures
        type_ending(t, d) == name_has_digit(t, (d + 1) % 6),
{
}

/// The Y piece (`Tile024`) has its endings two sides apart, so turning it by two
/// steps changes none of its sides.
pub proof fn lemma_y_piece_turns_by_two(r: int, d: int)
    requires
        0 <= r <= 253,
        0 <= d < 6,
    ensures
        config_ending(TileConfig::Tile(TileType::Tile024, (r + 2) as u8), d) == config_ending(
            TileConfig::Tile(TileType::Tile024, r as u8),
            d,
        ),
{
    assert((d - (r + 2)) % 6 == ((d - r) % 6 + 4) % 6);
}

/// The straight piece (`Tile03`) has its endings on opposite sides, so turning it
/// by three steps changes none of its sides.
pub proof fn lemma_straight_piece_turns_by_three(r: int, d: int)
    requires
        0 <= r <= 252,
        0 <= d < 6,
    ensures
        config_ending(TileConfig::Tile(TileType::Tile03, (r + 3) as u8), d) == config_ending(
            TileConfig::Tile(TileType::Tile03, r as u8),
            d,
        ),
{
    assert((d - (r + 3)) % 6 == ((d - r) % 6 + 3) % 6);
}

/// No shape is unchanged by a turn of one step: every shape has an ending on side
/// 5 and none on side 4 of its unturned form.
pub proof fn lemma_no_shape_turns_by_one(t: TileType)
    ensures
        type_ending(t, 5),
        !type_ending(t, 4),
{
}

/// Each shape is drawn by its own picture: the texture array holds the empty
/// hexagon and then the shapes in declaration order, so the layer of a shape is
/// one more than its position, and no two shapes share a layer.
pub proof fn lemma_models_are_layers(a: TileType, b: TileType)
    ensures
        type_model(a) == type_index(a) + 1,
        1 <= type_model(a) <= 7,
        a != b ==> type_model(a) != type_model(b),
{
}

impl TileType {
    pub fn model(self) -> (m: usize)
        ensures
            m == type_model(self),
            m == type_index(self) + 1,
    {
        match self {
            TileType::Tile0 => 1,
            TileType::Tile01 => 2,
            TileType::Tile02 => 3,
            TileType::Tile03 => 4,
            TileType::Tile012 => 5,
            TileType::Tile024 => 6,
            TileType::Tile0134 => 7,
        }
    }

    /// The sides of the unrotated shape that carry an ending.
    pub fn endings(self) -> (e: [bool; 6])
        ensures
            forall|d: int| 0 <= d < 6 ==> #[trigger] e@[d] == type_ending(self, d),
            forall|d: int| 0 <= d < 6 ==> #[trigger] e@[d] == name_has_digit(self, (d + 1) % 6),
    {
        proof {
            assert forall|d: int| 0 <= d < 6 implies type_ending(self, d) == name_has_digit(
                self,
                (d + 1) % 6,
            ) by {
                lemma_endings_follow_names(self, d);
            }
        }
        match self {
            TileType::Tile0 => [false, false, false, false, false, true],
            TileType::Tile01 => [true, false, false, false, false, true],
            TileType::Tile02 => [false, true, false, false, false, true],
            TileType::Tile03 => [false, false, true, false, false, true],
            TileType::Tile012 => [true, true, false, false, false, true],
            TileType::Tile024 => [false, true, false, true, false, true],
            TileType::Tile0134 => [true, false, true, true, false, true],
        }
    }

    /// The shape at position `i` of the declaration order.
    pub fn from_index(i: usize) -> (t: TileType)
        requires
            i < 7,
        ensures
            t == type_at(i as int),
            type_index(t) == i,
    {
        if i == 0 {
            TileType::Tile0
        } else if i == 1 {
            TileType::Tile01
        } else if i == 2 {
            TileType::Tile02
        } else if i == 3 {
            TileType::Tile03
        } else if i == 4 {
            TileType::Tile012
        } else if i == 5 {
            TileType::Tile024
        } else {
            TileType::Tile0134
        }
    }

    /// The position of the shape in the declaration order.
    pub fn index(self) -> (i: usize)
        ensures
            i == type_index(self),
    {
        match self {
            TileType::Tile0 => 0,
            TileType::Tile01 => 1,
            TileType::Tile02 => 2,
            TileType::Tile03 => 3,
            TileType::Tile012 => 4,
            TileType::Tile024 => 5,
            TileType::Tile0134 => 6,
        }
    }
}

/// What a cell of the board holds: nothing, or a tile of some shape with a rotation.
#[derive(Clone, Copy, Debug, PartialEq, Eq, Hash, Structural)]
pub enum TileConfig {
    Empty,
    Tile(TileType, u8),
}

/// The rotation of a cell (0 for an empty cell).
pub open spec fn config_rotation(c: TileConfig) -> int {
    match c {
        TileConfig::Empty => 0,
        TileConfig::Tile(_, r) => r as int,
    }
}

/// Whether cell `c` has an ending on side `d` (`0 <= d < 6`): the shape's ending
/// from side `d - rotation`, counted modulo 6.
pub open spec fn config_ending(c: TileConfig, d: int) -> bool {
    match c {
        TileConfig::Empty => false,
        TileConfig::Tile(t, r) => type_ending(t, (d - r) % 6),
    }
}

/// The same cell with its rotation taken modulo 6.
pub open spec fn config_normalized(c: TileConfig) -> TileConfig {
    match c {
        TileConfig::Empty => TileConfig::Empty,
        TileConfig::Tile(t, r) => TileConfig::Tile(t, (r % 6) as u8),
    }
}

/// The cell turned by `k` more steps, its rotation taken modulo 6.
pub open spec fn config_rotated(c: TileConfig, k: int) -> TileConfig {
    match c {
        TileConfig::Empty => TileConfig::Empty,
        TileConfig::Tile(t, r) => TileConfig::Tile(t, ((r + k) % 6) as u8),
    }
}

/// The cell with rotation `r` (an empty cell stays empty).
pub open spec fn config_with_rotation(c: TileConfig, r: u8) -> TileConfig {
    match c {
        TileConfig::Empty => TileConfig::Empty,
        TileConfig::Tile(t, _) => TileConfig::Tile(t, r),
    }
}

/// Both cells are empty, or both hold a tile of the same shape.
pub open spec fn same_shape(a: TileConfig, b: TileConfig) -> bool {
    match (a, b) {
        (TileConfig::Empty, TileConfig::Empty) => true,
        (TileConfig::Tile(t1, _), TileConfig::Tile(t2, _)) => t1 == t2,
        _ => false,
    }
}

/// The position of a cell in the table of placed pieces: shapes in declaration
/// order, each in rotations 0 to 5, then the empty cell.
pub open spec fn config_index(c: TileConfig) -> int {
    match c {
        TileConfig::Empty => EMPTY_INDEX as int,
        TileConfig::Tile(t, r) => 6 * type_index(t) + r % 6,
    }
}

/// The piece at position `i` of the table of placed pieces.
pub open spec fn element(i: int) -> TileConfig {
    if 0 <= i < 42 {
        TileConfig::Tile(type_at(i / 6), (i % 6) as u8)
    } else {
        TileConfig::Empty
    }
}

impl TileConfig {
    /// The piece at position `index` of the table of placed pieces.
    pub fn from(index: usize) -> (c: TileConfig)
        requires
            index < ELEMENT_COUNT,
        ensures
            c == element(index as int),
    {
        if index < 42 {
            TileConfig::Tile(TileType::from_index(index / 6), (index % 6) as u8)
        } else {
            TileConfig::Empty
        }
    }

    /// The sides of the cell that carry an ending.
    #[verifier::rlimit(60)]
    pub fn endings(self) -> (e: [bool; 6])
        requires
            config_rotation(self) <= 6,
        ensures
            forall|d: int| 0 <= d < 6 ==> #[trigger] e@[d] == config_ending(self, d),
    {
        match self {
            TileConfig::Empty => [false; 6],
            TileConfig::Tile(tile_type, rotation) => {
                let e = tile_type.endings();
                let k = 6 - rotation as usize;
                [e[k % 6], e[(k + 1) % 6], e[(k + 2) % 6], e[(k + 3) % 6], e[(k + 4) % 6], e[(k + 5) % 6]]
            },
        }
    }

    pub fn rotation(self) -> (r: u8)
        ensures
            r == config_rotation(self),
    {
        match self {
            TileConfig::Empty => 0,
            TileConfig::Tile(_, r) => r,
        }
    }

    pub fn is_empty(self) -> (b: bool)
        ensures
            b == (self == TileConfig::Empty),
    {
        match self {
            TileConfig::Empty => true,
            TileConfig::Tile(_, _) => false,
        }
    }

    /// The same cell with its rotation taken modulo 6.
    pub fn normalized(self) -> (c: TileConfig)
        ensures
            c == config_normalized(self),
    {
        match self {
            TileConfig::Empty => TileConfig::Empty,
            TileConfig::Tile(t, r) => TileConfig::Tile(t, r % 6),
        }
    }

    /// The cell turned by `d` more steps, its rotation taken modulo 6.
    pub fn rotate_by(self, d: u8) -> (c: TileConfig)
        requires
            config_rotation(self) + d <= u8::MAX,
        ensures
            c == config_rotated(self, d as int),
    {
        match self {
            TileConfig::Empty => TileConfig::Empty,
            TileConfig::Tile(t, r) => TileConfig::Tile(t, (r + d) % 6),
        }
    }

    /// The same cell with rotation `r`.
    pub fn with_rotation(self, r: u8) -> (c: TileConfig)
        ensures
            c == config_with_rotation(self, r),
    {
        match self {
            TileConfig::Empty => TileConfig::Empty,
            TileConfig::Tile(t, _) => TileConfig::Tile(t, r),
        }
    }

    /// The position of the cell in the table of placed pieces.
    pub fn index(&self) -> (i: usize)
        ensures
            i == config_index(*self),
            i < ELEMENT_COUNT,
    {
        match *self {
            TileConfig::Empty => EMPTY_INDEX,
            TileConfig::Tile(t, r) => 6 * t.index() + (r % 6) as usize,
        }
    }

    /// The texture layer that draws the cell's shape.
    pub fn model(self) -> (m: usize)
        requires
            self != TileConfig::Empty,
        ensures
            m == type_model(self->0),
            m == type_index(self->0) + 1,
    {
        match self {
            TileConfig::Empty => 0,
            TileConfig::Tile(t, _) => t.model(),
        }
    }
}

impl Default for TileConfig {
    fn default() -> (c: TileConfig)
        ensures
            c == TileConfig::Empty,
    {
        TileConfig::Empty
    }
}

/// The table of placed pieces and the index of a piece are inverse to each other:
/// looking up the index of a cell gives back the cell with its rotation taken
/// modulo 6, and every table position is the index of the piece stored there.
pub proof fn lemma_index_roundtrip(c: TileConfig, i: int)
    requires
        0 <= i < ELEMENT_COUNT,
    ensures
        element(config_index(c)) == config_normalized(c),
        config_index(element(i)) == i,
        0 <= config_index(c) < ELEMENT_COUNT,
{
    match c {
        TileConfig::Empty => {},
        TileConfig::Tile(t, r) => {
            assert((6 * type_index(t) + r % 6) / 6 == type_index(t));
            assert((6 * type_index(t) + r % 6) % 6 == r % 6);
        },
    }
    if i < 42 {
        assert(type_index(type_at(i / 6)) == i / 6);
    }
}

/// Taking the rotation modulo 6 does not change where the endings are.
pub proof fn lemma_normalized_endings(c: TileConfig, d: int)
    ensures
        config_ending(config_normalized(c), d) == config_ending(c, d),
{
    match c {
        TileConfig::Empty => {},
        TileConfig::Tile(t, r) => {
            assert((d - r % 6) % 6 == (d - r) % 6);
        },
    }
}

/// Turning by `a` steps and then by `b` steps is turning by `a + b` steps; six
/// steps give back the cell with its rotation taken modulo 6.
#[verifier::rlimit(40)]
pub proof fn lemma_rotations_compose(c: TileConfig, a: int, b: int)
    requires
        0 <= a,
        0 <= b,
    ensures
        config_rotated(config_rotated(c, a), b) == config_rotated(c, a + b),
        config_rotated(c, 6) == config_normalized(c),
        config_ending(config_rotated(c, a), 0) == config_ending(c, (0 - a) % 6),
{
    match c {
        TileConfig::Empty => {},
        TileConfig::Tile(t, r) => {
            assert((((r + a) % 6) + b) % 6 == (r + a + b) % 6);
            assert((r + 6) % 6 == r % 6);
            assert((0 - (r + a) % 6) % 6 == ((0 - a) % 6 - r) % 6);
        },
    }
}

/// Rotating a tile by `k` steps moves the ending on side `d` to side `d + k`.
pub proof fn lemma_rotate_moves_endings(t: TileType, r: int, k: int, d: int)
    requires
        0 <= r,
        0 <= k,
        r + k <= 255,
        0 <= d < 6,
    ensures
        config_ending(TileConfig::Tile(t, ((r + k) % 6) as u8), (d + k) % 6) == config_ending(
            TileConfig::Tile(t, r as u8),
            d,
        ),
{
    assert(((d + k) % 6 - (r + k) % 6) % 6 == (d - r) % 6);
}

} // verus!
