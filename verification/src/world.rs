//! A level: a generated board of tiles, the cells that are not yet connected,
//! and the moves of the player.
//!
//! A cell is complete when each of its six sides matches the facing side of its
//! neighbour (both have an ending or neither has; cells off the board count as
//! empty). The level is solved when every cell is complete.
use vstd::prelude::*;
use fastrand::Rng;
use crate::hex::{HexPosition, neighbor_of, opposite, cube_coords_fit, lemma_opposite_neighbor};
use crate::map::{
    HexMap, in_radius, radius_fits, hex_index, cell_count, lemma_keys_cover, lemma_near_board_fits,
    lemma_hex_index_injective, lemma_hex_index_bounds,
};
use crate::tiles::{
    TileConfig, config_ending, config_rotation, config_rotated, config_with_rotation, same_shape,
    element, config_index,
};
use crate::generator::{PossibilityMap, options_total};
use crate::position_set::{
    PositionSet, position_items, position_set_new, position_set_insert, position_set_remove,
    position_set_clear, position_set_is_empty,
};
use crate::random::{rng_with_seed, random_u8};
use crate::util::Update;

verus! {

/// The rotation a saved cell is loaded with: the saved one, taken modulo 6 where
/// it is above 6.
pub open spec fn saved_rotation(r: u8) -> u8 {
    if r > 6 {
        (r % 6) as u8
    } else {
        r
    }
}

/// `b` is a board a round of shuffling can start from: the level as it was
/// given, or a solved board on the same cells with the same shapes (a round is
/// only repeated while the level stays solved).
pub open spec fn shuffle_round_start(b: Map<(int, int), TileConfig>, start: Map<(int, int), TileConfig>) -> bool {
    &&& b.dom() == start.dom()
    &&& (b == start || board_solved(b))
    &&& forall|p: (int, int)| #[trigger] b.dom().contains(p) ==> same_shape(start[p], b[p])
}

/// Every tile of `after` has a rotation other than the one it had in `b`, taken
/// modulo 6: each was turned by 1 to 5 steps.
pub open spec fn every_tile_turned(after: Map<(int, int), TileConfig>, b: Map<(int, int), TileConfig>) -> bool {
    forall|p: (int, int)|
        #[trigger] after.dom().contains(p) && after[p] != TileConfig::Empty ==> config_rotation(after[p])
            != config_rotation(b[p]) % 6
}

/// The radius of the generated boards.
pub const WORLD_RADIUS: i32 = 2;

/// How many times generation starts over after running into a contradiction
/// before it settles for an empty board: as many as a `u64` counts, a bound that
/// exists only because every loop has to be shown to end.
pub const MAX_ATTEMPTS: u64 = 0xFFFF_FFFF_FFFF_FFFF;

/// How many times scrambling rerolls the rotations while the level stays solved:
/// as many as a `u64` counts, for the same reason.
pub const MAX_SCRAMBLE_ROUNDS: u64 = 0xFFFF_FFFF_FFFF_FFFF;

pub proof fn lemma_world_radius()
    ensures
        radius_fits(WORLD_RADIUS as int),
        cell_count(WORLD_RADIUS as int) == 19,
{
}

/// The cell at `p`, or the empty cell off the board.
pub open spec fn tile_at(board: Map<(int, int), TileConfig>, p: (int, int)) -> TileConfig {
    if board.dom().contains(p) {
        board[p]
    } else {
        TileConfig::Empty
    }
}

/// Side `d` of the cell at `p` matches the facing side of its neighbour.
pub open spec fn side_matches(board: Map<(int, int), TileConfig>, p: (int, int), d: int) -> bool {
    config_ending(tile_at(board, p), d) == config_ending(
        tile_at(board, neighbor_of(p, d)),
        opposite(d),
    )
}

/// Every side of the cell at `p` matches its neighbour (cells off the board are
/// complete).
pub open spec fn tile_complete(board: Map<(int, int), TileConfig>, p: (int, int)) -> bool {
    !board.dom().contains(p) || forall|d: int| 0 <= d < 6 ==> #[trigger] side_matches(board, p, d)
}

/// The cells of the board that are not complete.
pub open spec fn incomplete_cells(board: Map<(int, int), TileConfig>) -> Set<(int, int)> {
    Set::new(|p: (int, int)| board.dom().contains(p) && !tile_complete(board, p))
}

/// Every cell of the board is complete.
pub open spec fn board_solved(board: Map<(int, int), TileConfig>) -> bool {
    forall|p: (int, int)| board.dom().contains(p) ==> #[trigger] tile_complete(board, p)
}

/// No cell of the board has a rotation above 6.
pub open spec fn rotations_bounded(board: Map<(int, int), TileConfig>) -> bool {
    forall|p: (int, int)| board.dom().contains(p) ==> config_rotation(#[trigger] board[p]) <= 6
}

/// A level of the puzzle.
pub struct World {
    seed: u64,
    elements: HexMap<TileConfig>,
    incomplete: PositionSet,
}

/// What is kept of a level between runs: its seed and the rotation of every cell,
/// in storage order.
pub struct WorldSave {
    pub seed: u64,
    pub rotations: Vec<u8>,
}

impl World {
    /// The board as a map from positions to cells.
    pub closed spec fn board(&self) -> Map<(int, int), TileConfig> {
        self.elements@
    }

    /// The cells in storage order.
    pub closed spec fn cells(&self) -> Seq<TileConfig> {
        self.elements.cells()
    }

    pub closed spec fn spec_seed(&self) -> u64 {
        self.seed
    }

    /// The cells recorded as not complete.
    pub closed spec fn unsolved(&self) -> Set<(int, int)> {
        position_items(self.incomplete)
    }

    /// Well formed: a board of radius `WORLD_RADIUS`, rotations of at most 6, and a
    /// record of the incomplete cells that is exact.
    pub closed spec fn wf(&self) -> bool {
        &&& self.elements.wf()
        &&& self.elements.spec_radius() == WORLD_RADIUS
        &&& rotations_bounded(self.elements@)
        &&& position_items(self.incomplete) == incomplete_cells(self.elements@)
    }

    /// The board holds the cells of radius `WORLD_RADIUS`, in the storage order of
    /// `HexMap`, and the record of incomplete cells is exact.
    pub proof fn lemma_board(&self)
        requires
            self.wf(),
        ensures
            forall|p: (int, int)| #[trigger] self.board().dom().contains(p) <==> in_radius(p, WORLD_RADIUS as int),
            forall|p: (int, int)|
                in_radius(p, WORLD_RADIUS as int) ==> #[trigger] self.board()[p] == self.cells()[hex_index(
                    p,
                    WORLD_RADIUS as int,
                )],
            self.cells().len() == cell_count(WORLD_RADIUS as int),
            rotations_bounded(self.board()),
            self.unsolved() == incomplete_cells(self.board()),
    {
        self.elements.lemma_wf();
    }

    /// Generates the level of the given seed: the board is filled by constraint
    /// propagation with random choices drawn from a generator seeded with `seed`,
    /// starting over whenever a cell runs out of options (at most `MAX_ATTEMPTS`
    /// times, after which the board is left empty). The result is solved.
    pub fn new(seed: u64) -> (w: World)
        ensures
            w.wf(),
            w.spec_seed() == seed,
            board_solved(w.board()),
            forall|p: (int, int)| #[trigger] w.board().dom().contains(p) ==> config_rotation(w.board()[p]) < 6,
            w.unsolved() == Set::<(int, int)>::empty(),
    {
        let rng = rng_with_seed(seed);
        let mut wfc = PossibilityMap::new(WORLD_RADIUS);
        let mut attempts: u64 = 0;
        let mut solved = false;
        while attempts < MAX_ATTEMPTS && !solved
            invariant
                wfc.inv(),
                wfc.radius() == WORLD_RADIUS,
                solved ==> wfc.settled() && forall|p: (int, int)|
                    in_radius(p, WORLD_RADIUS as int) ==> #[trigger] wfc.options(p).len() == 1,
            decreases MAX_ATTEMPTS - attempts,
        {
            solved = attempt(&mut wfc, &rng);
            attempts = attempts + 1;
        }
        let elements = if solved {
            let tiles = wfc.into_tiles();
            proof {
                lemma_generated_solved(&wfc, &tiles);
            }
            tiles
        } else {
            empty_board()
        };
        let w = World { seed, elements, incomplete: position_set_new() };
        assert(incomplete_cells(w.elements@) =~= Set::<(int, int)>::empty());
        w
    }

    /// The board.
    pub fn tiles(&self) -> (tiles: &HexMap<TileConfig>)
        requires
            self.wf(),
        ensures
            tiles.wf(),
            tiles@ == self.board(),
            tiles.spec_radius() == WORLD_RADIUS,
    {
        &self.elements
    }

    /// Rerolls the rotation of every tile with a generator seeded with the level's
    /// seed: turned by 1 to 5 steps when `force_rotation`, else set to 0 to 5. It
    /// rerolls while the level stays solved, at most `MAX_SCRAMBLE_ROUNDS` times;
    /// should the level still be solved then, its first tile is turned one more
    /// step, which always breaks a solved level. A level with a tile thus always
    /// ends unsolved; a level without tiles can never be unsolved and is left
    /// after one round.
    pub fn scramble(&mut self, force_rotation: bool)
        requires
            old(self).wf(),
        ensures
            final(self).wf(),
            final(self).spec_seed() == old(self).spec_seed(),
            final(self).board().dom() == old(self).board().dom(),
            forall|p: (int, int)|
                #[trigger] final(self).board().dom().contains(p) ==> same_shape(
                    old(self).board()[p],
                    final(self).board()[p],
                ) && config_rotation(final(self).board()[p]) < 6,
            (exists|p: (int, int)|
                #[trigger] old(self).board().dom().contains(p) && old(self).board()[p] != TileConfig::Empty)
                ==> !board_solved(final(self).board()),
            force_rotation ==> exists|b: Map<(int, int), TileConfig>|
                #[trigger] shuffle_round_start(b, old(self).board()) && every_tile_turned(
                    final(self).board(),
                    b,
                ),
    {
        let ghost start = self.board();
        proof {
            self.lemma_board();
        }
        let rng = rng_with_seed(self.seed);
        let keys = self.elements.keys();
        let has_tile = self.has_tile();
        let mut round: u64 = 0;
        let ghost mut last: Map<(int, int), TileConfig> = start;
        let mut last_rots: Vec<u8> = Vec::new();
        loop
            invariant_except_break
                round < MAX_SCRAMBLE_ROUNDS,
                round > 0 ==> board_solved(self.board()),
            invariant
                self.wf(),
                self.spec_seed() == old(self).spec_seed(),
                self.board().dom() == start.dom(),
                round == 0 ==> self.board() == start,
                rotations_bounded(start),
                keys@.len() == cell_count(WORLD_RADIUS as int),
                forall|j: int|
                    0 <= j < keys@.len() ==> in_radius(#[trigger] keys@[j]@, WORLD_RADIUS as int)
                        && hex_index(keys@[j]@, WORLD_RADIUS as int) == j,
                forall|p: (int, int)|
                    #[trigger] self.board().dom().contains(p) ==> same_shape(start[p], self.board()[p])
                        && (round > 0 ==> config_rotation(self.board()[p]) < 6),
                round > 0 ==> shuffle_round_start(last, start),
                round > 0 && force_rotation ==> every_tile_turned(self.board(), last),
                round > 0 ==> last_rots@.len() == keys@.len(),
                round > 0 ==> forall|j: int|
                    0 <= j < keys@.len() ==> #[trigger] last_rots@[j] == config_rotation(last[keys@[j]@]),
            ensures
                self.wf(),
                self.spec_seed() == old(self).spec_seed(),
                self.board().dom() == start.dom(),
                forall|p: (int, int)|
                    #[trigger] self.board().dom().contains(p) ==> same_shape(start[p], self.board()[p])
                        && config_rotation(self.board()[p]) < 6,
                shuffle_round_start(last, start),
                force_rotation ==> every_tile_turned(self.board(), last),
                last_rots@.len() == keys@.len(),
                forall|j: int|
                    0 <= j < keys@.len() ==> #[trigger] last_rots@[j] == config_rotation(last[keys@[j]@]),
            decreases MAX_SCRAMBLE_ROUNDS - round,
        {
            let ghost round_start = self.board();
            proof {
                assert(shuffle_round_start(round_start, start));
            }
            let mut round_rots: Vec<u8> = Vec::new();
            let mut i: usize = 0;
            while i < keys.len()
                invariant
                    self.elements.wf(),
                    self.elements.spec_radius() == WORLD_RADIUS,
                    self.seed == old(self).spec_seed(),
                    rotations_bounded(self.elements@),
                    rotations_bounded(round_start),
                    self.elements@.dom() == start.dom(),
                    round_start.dom() == start.dom(),
                    keys@.len() == cell_count(WORLD_RADIUS as int),
                    forall|j: int|
                        0 <= j < keys@.len() ==> in_radius(#[trigger] keys@[j]@, WORLD_RADIUS as int)
                            && hex_index(keys@[j]@, WORLD_RADIUS as int) == j,
                    forall|p: (int, int)|
                        #[trigger] self.elements@.dom().contains(p) ==> same_shape(
                            start[p],
                            self.elements@[p],
                        ),
                    forall|p: (int, int)|
                        #[trigger] self.elements@.dom().contains(p) && 0 <= hex_index(
                            p,
                            WORLD_RADIUS as int,
                        ) < i ==> config_rotation(self.elements@[p]) < 6,
                    forall|p: (int, int)|
                        #[trigger] self.elements@.dom().contains(p) && i <= hex_index(p, WORLD_RADIUS as int)
                            ==> self.elements@[p] == round_start[p],
                    force_rotation ==> forall|p: (int, int)|
                        #[trigger] self.elements@.dom().contains(p) && 0 <= hex_index(p, WORLD_RADIUS as int)
                            < i && self.elements@[p] != TileConfig::Empty ==> config_rotation(
                            self.elements@[p],
                        ) != config_rotation(round_start[p]) % 6,
                    i <= keys@.len(),
                    round_rots@.len() == i,
                    forall|j: int| 0 <= j < i ==> #[trigger] round_rots@[j] == config_rotation(round_start[keys@[j]@]),
                decreases keys.len() - i,
            {
                let pos = keys[i];
                proof {
                    lemma_near_board_fits(pos@, WORLD_RADIUS as int);
                }
                let tile = match self.elements.get(pos) {
                    Some(t) => *t,
                    None => TileConfig::Empty,
                };
                proof {
                    assert(tile == round_start[pos@]);
                }
                round_rots.push(tile.rotation());
                let new_tile = if force_rotation {
                    let turn = random_u8(&rng, 1, 6);
                    proof {
                        match tile {
                            TileConfig::Empty => {},
                            TileConfig::Tile(t, r) => {
                                assert((r + turn) % 6 != r % 6);
                            },
                        }
                    }
                    tile.rotate_by(turn)
                } else {
                    tile.with_rotation(random_u8(&rng, 0, 6))
                };
                let ghost before = self.elements@;
                self.elements.set(pos, new_tile);
                proof {
                    assert forall|p: (int, int)|
                        #[trigger] self.elements@.dom().contains(p) && 0 <= hex_index(p, WORLD_RADIUS as int)
                            < i + 1 implies config_rotation(self.elements@[p]) < 6 by {
                        if p != pos@ {
                            lemma_hex_index_injective(p, pos@, WORLD_RADIUS as int);
                            assert(self.elements@[p] == before[p]);
                        }
                    }
                    assert forall|p: (int, int)|
                        #[trigger] self.elements@.dom().contains(p) implies config_rotation(
                        self.elements@[p],
                    ) <= 6 by {
                        if p != pos@ {
                            assert(self.elements@[p] == before[p]);
                        }
                    }
                    assert forall|p: (int, int)|
                        #[trigger] self.elements@.dom().contains(p) implies same_shape(
                        start[p],
                        self.elements@[p],
                    ) by {
                        if p != pos@ {
                            assert(self.elements@[p] == before[p]);
                        }
                    }
                    assert forall|p: (int, int)|
                        #[trigger] self.elements@.dom().contains(p) && i + 1 <= hex_index(p, WORLD_RADIUS as int)
                            implies self.elements@[p] == round_start[p] by {
                        assert(p != pos@);
                        assert(self.elements@[p] == before[p]);
                    }
                    if force_rotation {
                        assert forall|p: (int, int)|
                            #[trigger] self.elements@.dom().contains(p) && 0 <= hex_index(p, WORLD_RADIUS as int)
                                < i + 1 && self.elements@[p] != TileConfig::Empty implies config_rotation(
                            self.elements@[p],
                        ) != config_rotation(round_start[p]) % 6 by {
                            if p != pos@ {
                                lemma_hex_index_injective(p, pos@, WORLD_RADIUS as int);
                                assert(self.elements@[p] == before[p]);
                            }
                        }
                    }
                }
                i = i + 1;
            }
            proof {
                assert forall|p: (int, int)| #[trigger] self.elements@.dom().contains(p) implies config_rotation(
                    self.elements@[p],
                ) < 6 && (force_rotation && self.elements@[p] != TileConfig::Empty ==> config_rotation(
                    self.elements@[p],
                ) != config_rotation(round_start[p]) % 6) by {
                    lemma_hex_index_bounds(p, WORLD_RADIUS as int);
                }
            }
            self.refresh_incomplete(&keys);
            proof {
                last = round_start;
            }
            last_rots = round_rots;
            round = round + 1;
            let settled = position_set_is_empty(&self.incomplete);
            if !settled || !has_tile || round >= MAX_SCRAMBLE_ROUNDS {
                break ;
            }
            proof {
                assert forall|p: (int, int)| #[trigger] self.board().dom().contains(p) implies tile_complete(
                    self.board(),
                    p,
                ) by {
                    assert(!incomplete_cells(self.board()).contains(p));
                }
            }
        }
        if self.is_completed() {
            self.turn_first_tile(&keys, Ghost(start), Ghost(last), &last_rots, force_rotation);
        }
    }

    /// On a solved level, turns the first tile in storage order by one step, or by
    /// five where one step would give it back the rotation `last_rots` records for
    /// it; either turn leaves the level unsolved. A level without tiles stays as it
    /// is.
    fn turn_first_tile(
        &mut self,
        keys: &Vec<HexPosition>,
        Ghost(start): Ghost<Map<(int, int), TileConfig>>,
        Ghost(last): Ghost<Map<(int, int), TileConfig>>,
        last_rots: &Vec<u8>,
        force_rotation: bool,
    )
        requires
            old(self).wf(),
            board_solved(old(self).board()),
            old(self).board().dom() == start.dom(),
            last.dom() == start.dom(),
            keys@.len() == cell_count(WORLD_RADIUS as int),
            forall|j: int|
                0 <= j < keys@.len() ==> in_radius(#[trigger] keys@[j]@, WORLD_RADIUS as int)
                    && hex_index(keys@[j]@, WORLD_RADIUS as int) == j,
            last_rots@.len() == keys@.len(),
            forall|j: int| 0 <= j < keys@.len() ==> #[trigger] last_rots@[j] == config_rotation(last[keys@[j]@]),
            forall|p: (int, int)|
                #[trigger] old(self).board().dom().contains(p) ==> same_shape(start[p], old(self).board()[p])
                    && config_rotation(old(self).board()[p]) < 6,
            force_rotation ==> every_tile_turned(old(self).board(), last),
        ensures
            final(self).wf(),
            final(self).spec_seed() == old(self).spec_seed(),
            final(self).board().dom() == start.dom(),
            forall|p: (int, int)|
                #[trigger] final(self).board().dom().contains(p) ==> same_shape(start[p], final(self).board()[p])
                    && config_rotation(final(self).board()[p]) < 6,
            (exists|p: (int, int)| #[trigger] start.dom().contains(p) && start[p] != TileConfig::Empty)
                ==> !board_solved(final(self).board()),
            force_rotation ==> every_tile_turned(final(self).board(), last),
    {
        proof {
            self.lemma_board();
        }
        let mut i: usize = 0;
        while i < keys.len()
            invariant
                *self == *old(self),
                self.wf(),
                board_solved(self.board()),
                self.board().dom() == start.dom(),
                forall|p: (int, int)|
                    #[trigger] self.board().dom().contains(p) ==> same_shape(start[p], self.board()[p])
                        && config_rotation(self.board()[p]) < 6,
                keys@.len() == cell_count(WORLD_RADIUS as int),
                forall|j: int|
                    0 <= j < keys@.len() ==> in_radius(#[trigger] keys@[j]@, WORLD_RADIUS as int)
                        && hex_index(keys@[j]@, WORLD_RADIUS as int) == j,
                forall|j: int| 0 <= j < i ==> self.board()[#[trigger] keys@[j]@] == TileConfig::Empty,
                i <= keys@.len(),
                last.dom() == start.dom(),
                last_rots@.len() == keys@.len(),
                forall|j: int|
                    0 <= j < keys@.len() ==> #[trigger] last_rots@[j] == config_rotation(last[keys@[j]@]),
                force_rotation ==> every_tile_turned(self.board(), last),
            decreases keys.len() - i,
        {
            let pos = keys[i];
            proof {
                self.lemma_board();
            }
            let tile = match self.elements.get(pos) {
                Some(t) => *t,
                None => TileConfig::Empty,
            };
            if !tile.is_empty() {
                let ghost before = self.board();
                let r = tile.rotation();
                let back = last_rots[i] % 6;
                let steps: u8 = if force_rotation && (r + 1) % 6 == back {
                    5
                } else {
                    1
                };
                proof {
                    assert(tile == before[pos@]);
                    assert(before.insert(pos@, config_rotated(tile, 0)) =~= before);
                }
                let mut k: u8 = 0;
                while k < steps
                    invariant
                        self.wf(),
                        self.spec_seed() == old(self).spec_seed(),
                        k <= steps,
                        steps <= 5,
                        before.dom().contains(pos@),
                        tile == before[pos@],
                        tile != TileConfig::Empty,
                        config_rotation(tile) < 6,
                        self.board() == before.insert(pos@, config_rotated(tile, k as int)),
                    decreases steps - k,
                {
                    let ghost cur = self.board();
                    self.try_rotate(pos);
                    proof {
                        crate::tiles::lemma_rotations_compose(tile, k as int, 1);
                        assert(self.board() =~= before.insert(pos@, config_rotated(tile, k + 1)));
                    }
                    k = k + 1;
                }
                proof {
                    if steps == 1 {
                        lemma_turn_breaks_solved(before, pos@);
                    } else {
                        lemma_turn_back_breaks_solved(before, pos@);
                    }
                    assert(self.board().dom() =~= start.dom());
                    assert forall|p: (int, int)| #[trigger] self.board().dom().contains(p) implies same_shape(
                        start[p],
                        self.board()[p],
                    ) && config_rotation(self.board()[p]) < 6 by {
                        assert(same_shape(start[p], before[p]));
                    }
                    if force_rotation {
                        assert(last_rots@[i as int] == config_rotation(last[pos@]));
                        assert forall|p: (int, int)|
                            #[trigger] self.board().dom().contains(p) && self.board()[p] != TileConfig::Empty
                                implies config_rotation(self.board()[p]) != config_rotation(last[p]) % 6 by {
                            if p != pos@ {
                                assert(self.board()[p] == before[p]);
                            }
                        }
                    }
                }
                return;
            }
            i = i + 1;
        }
        proof {
            if exists|p: (int, int)| #[trigger] start.dom().contains(p) && start[p] != TileConfig::Empty {
                let p = choose|p: (int, int)| #[trigger] start.dom().contains(p) && start[p] != TileConfig::Empty;
                self.lemma_board();
                lemma_keys_cover(keys@, WORLD_RADIUS as int, p);
                assert(self.board()[keys@[hex_index(p, WORLD_RADIUS as int)]@] == TileConfig::Empty);
                assert(same_shape(start[p], self.board()[p]));
            }
        }
    }

    /// Whether some cell holds a tile.
    fn has_tile(&self) -> (b: bool)
        requires
            self.wf(),
        ensures
            b == exists|p: (int, int)|
                #[trigger] self.board().dom().contains(p) && self.board()[p] != TileConfig::Empty,
    {
        proof {
            self.lemma_board();
        }
        let keys = self.elements.keys();
        let mut i: usize = 0;
        while i < keys.len()
            invariant
                self.wf(),
                keys@.len() == cell_count(WORLD_RADIUS as int),
                forall|j: int|
                    0 <= j < keys@.len() ==> in_radius(#[trigger] keys@[j]@, WORLD_RADIUS as int)
                        && hex_index(keys@[j]@, WORLD_RADIUS as int) == j,
                i <= keys@.len(),
                forall|j: int| 0 <= j < i ==> self.board()[#[trigger] keys@[j]@] == TileConfig::Empty,
            decreases keys.len() - i,
        {
            let pos = keys[i];
            proof {
                self.lemma_board();
            }
            let tile = match self.elements.get(pos) {
                Some(t) => *t,
                None => TileConfig::Empty,
            };
            if !tile.is_empty() {
                assert(self.board().dom().contains(pos@) && self.board()[pos@] != TileConfig::Empty);
                return true;
            }
            i = i + 1;
        }
        proof {
            assert forall|p: (int, int)| #[trigger] self.board().dom().contains(p) implies self.board()[p]
                == TileConfig::Empty by {
                self.lemma_board();
                lemma_keys_cover(keys@, WORLD_RADIUS as int, p);
            }
        }
        false
    }

    /// Records every cell that is not complete, and no other.
    fn refresh_incomplete(&mut self, keys: &Vec<HexPosition>)
        requires
            old(self).elements.wf(),
            old(self).elements.spec_radius() == WORLD_RADIUS,
            rotations_bounded(old(self).elements@),
            keys@.len() == cell_count(WORLD_RADIUS as int),
            forall|j: int|
                0 <= j < keys@.len() ==> in_radius(#[trigger] keys@[j]@, WORLD_RADIUS as int) && hex_index(
                    keys@[j]@,
                    WORLD_RADIUS as int,
                ) == j,
        ensures
            final(self).wf(),
            final(self).elements == old(self).elements,
            final(self).seed == old(self).seed,
    {
        let ghost rad = WORLD_RADIUS as int;
        position_set_clear(&mut self.incomplete);
        let mut i: usize = 0;
        while i < keys.len()
            invariant
                self.elements == old(self).elements,
                self.seed == old(self).seed,
                self.elements.wf(),
                self.elements.spec_radius() == WORLD_RADIUS,
                rad == WORLD_RADIUS as int,
                rotations_bounded(self.elements@),
                keys@.len() == cell_count(rad),
                forall|j: int|
                    0 <= j < keys@.len() ==> in_radius(#[trigger] keys@[j]@, rad) && hex_index(
                        keys@[j]@,
                        rad,
                    ) == j,
                i <= keys@.len(),
                position_items(self.incomplete) == Set::new(
                    |p: (int, int)|
                        in_radius(p, rad) && 0 <= hex_index(p, rad) < i && !tile_complete(self.elements@, p),
                ),
            decreases keys.len() - i,
        {
            let pos = keys[i];
            proof {
                lemma_world_radius();
            }
            assert(in_radius(pos@, WORLD_RADIUS + 2));
            let complete = self.is_tile_complete(pos);
            let ghost before = position_items(self.incomplete);
            if !complete {
                position_set_insert(&mut self.incomplete, pos.0, pos.1);
            }
            proof {
                assert(position_items(self.incomplete) =~= Set::new(
                    |p: (int, int)|
                        in_radius(p, rad) && 0 <= hex_index(p, rad) < i + 1 && !tile_complete(
                            self.elements@,
                            p,
                        ),
                )) by {
                    assert forall|p: (int, int)|
                        in_radius(p, rad) && hex_index(p, rad) == i implies p == pos@ by {
                        if p != pos@ {
                            lemma_hex_index_injective(p, pos@, rad);
                        }
                    }
                }
            }
            i = i + 1;
        }
        proof {
            assert forall|p: (int, int)| in_radius(p, rad) implies 0 <= hex_index(p, rad) < i by {
                lemma_hex_index_bounds(p, rad);
            }
            assert(position_items(self.incomplete) =~= incomplete_cells(self.elements@));
        }
    }

    /// Whether the cell at `pos` is complete (see `tile_complete`).
    fn is_tile_complete(&self, pos: HexPosition) -> (b: bool)
        requires
            self.elements.wf(),
            self.elements.spec_radius() == WORLD_RADIUS,
            rotations_bounded(self.elements@),
            in_radius(pos@, WORLD_RADIUS + 2),
        ensures
            b == tile_complete(self.elements@, pos@),
    {
        proof {
            self.elements.lemma_wf();
            lemma_near_board_fits(pos@, WORLD_RADIUS as int);
        }
        match self.elements.get(pos) {
            None => true,
            Some(tile) => {
                let tile = *tile;
                let te = tile.endings();
                let nbs = pos.neighbors();
                let mut i: usize = 0;
                while i < 6
                    invariant
                        self.elements.wf(),
                        self.elements.spec_radius() == WORLD_RADIUS,
                        rotations_bounded(self.elements@),
                        self.elements@.dom().contains(pos@),
                        tile == self.elements@[pos@],
                        i <= 6,
                        forall|e: int| 0 <= e < 6 ==> #[trigger] te@[e] == config_ending(tile, e),
                        forall|e: int| 0 <= e < 6 ==> #[trigger] nbs@[e]@ == neighbor_of(pos@, e),
                        forall|e: int| 0 <= e < 6 ==> cube_coords_fit(#[trigger] neighbor_of(pos@, e)),
                        forall|e: int| 0 <= e < i ==> #[trigger] side_matches(self.elements@, pos@, e),
                    decreases 6 - i,
                {
                    let n = match self.elements.get(nbs[i]) {
                        Some(t) => *t,
                        None => TileConfig::Empty,
                    };
                    let ne = n.endings();
                    if te[i] != ne[(i + 3) % 6] {
                        assert(!side_matches(self.elements@, pos@, i as int));
                        return false;
                    }
                    i = i + 1;
                }
                true
            },
        }
    }

    /// Turns the tile at `pos` by one step. Returns whether there was a tile to
    /// turn; the record of incomplete cells is updated for `pos` and its neighbours.
    pub fn try_rotate(&mut self, pos: HexPosition) -> (rotated: bool)
        requires
            old(self).wf(),
        ensures
            final(self).wf(),
            final(self).spec_seed() == old(self).spec_seed(),
            rotated == (old(self).board().dom().contains(pos@) && old(self).board()[pos@]
                != TileConfig::Empty),
            final(self).board() == (if rotated {
                old(self).board().insert(pos@, config_rotated(old(self).board()[pos@], 1))
            } else {
                old(self).board()
            }),
    {
        let ghost start = self.board();
        proof {
            self.lemma_board();
        }
        let updated = match self.elements.get(pos) {
            Some(t) => {
                let mut cur = *t;
                let changed = cur.update(cur.rotate_by(1));
                if changed {
                    self.elements.set(pos, cur);
                }
                changed
            },
            None => false,
        };
        if updated {
            proof {
                lemma_unchanged_away(start, self.elements@, pos@);
            }
            self.refresh_around(pos);
        }
        updated
    }

    /// Updates the record of incomplete cells for `pos` and its six neighbours,
    /// given that it is exact everywhere else.
    fn refresh_around(&mut self, pos: HexPosition)
        requires
            old(self).elements.wf(),
            old(self).elements.spec_radius() == WORLD_RADIUS,
            rotations_bounded(old(self).elements@),
            in_radius(pos@, WORLD_RADIUS as int),
            forall|p: (int, int)|
                !pending(pos@, 0, p) ==> (#[trigger] position_items(old(self).incomplete).contains(p)
                    <==> incomplete_cells(old(self).elements@).contains(p)),
        ensures
            final(self).wf(),
            final(self).elements == old(self).elements,
            final(self).seed == old(self).seed,
    {
        proof {
            lemma_near_board_fits(pos@, WORLD_RADIUS as int);
        }
        let nbs = pos.neighbors();
        let mut k: usize = 0;
        while k < 7
            invariant
                self.elements == old(self).elements,
                self.seed == old(self).seed,
                self.elements.wf(),
                self.elements.spec_radius() == WORLD_RADIUS,
                rotations_bounded(self.elements@),
                in_radius(pos@, WORLD_RADIUS as int),
                k <= 7,
                forall|e: int| 0 <= e < 6 ==> #[trigger] nbs@[e]@ == neighbor_of(pos@, e),
                forall|e: int| 0 <= e < 6 ==> in_radius(#[trigger] neighbor_of(pos@, e), WORLD_RADIUS + 3),
                forall|p: (int, int)|
                    !pending(pos@, k as int, p) ==> (#[trigger] position_items(self.incomplete).contains(p)
                        <==> incomplete_cells(self.elements@).contains(p)),
            decreases 7 - k,
        {
            let x = if k == 0 {
                pos
            } else {
                nbs[k - 1]
            };
            proof {
                if k > 0 {
                    assert(in_radius(neighbor_of(pos@, k - 1), WORLD_RADIUS + 3));
                }
            }
            let ghost before = position_items(self.incomplete);
            if self.is_tile_complete(x) {
                position_set_remove(&mut self.incomplete, x.0, x.1);
            } else {
                position_set_insert(&mut self.incomplete, x.0, x.1);
            }
            proof {
                assert(x@ == around(pos@, k as int));
                assert forall|p: (int, int)| !pending(pos@, k + 1, p) implies (
                #[trigger] position_items(self.incomplete).contains(p) <==> incomplete_cells(
                    self.elements@,
                ).contains(p)) by {
                    if p != x@ {
                        assert(before.contains(p) == position_items(self.incomplete).contains(p));
                        assert(!pending(pos@, k as int, p));
                    }
                }
            }
            k = k + 1;
        }
        assert forall|p: (int, int)| !pending(pos@, 7, p) by {}
        assert(position_items(self.incomplete) =~= incomplete_cells(self.elements@));
    }

    /// Whether the level is solved.
    pub fn is_completed(&self) -> (b: bool)
        requires
            self.wf(),
        ensures
            b == board_solved(self.board()),
    {
        let b = position_set_is_empty(&self.incomplete);
        proof {
            if !b {
                let p = choose|p: (int, int)| position_items(self.incomplete).contains(p);
                assert(position_items(self.incomplete).contains(p)) by {
                    if !(exists|p: (int, int)| position_items(self.incomplete).contains(p)) {
                        assert(position_items(self.incomplete) =~= Set::<(int, int)>::empty());
                    }
                }
                assert(!tile_complete(self.elements@, p));
            } else {
                assert forall|p: (int, int)| #[trigger] self.elements@.dom().contains(p) implies tile_complete(
                    self.elements@,
                    p,
                ) by {
                    assert(!incomplete_cells(self.elements@).contains(p));
                }
            }
        }
        b
    }

    pub fn seed(&self) -> (seed: u64)
        ensures
            seed == self.spec_seed(),
    {
        self.seed
    }

    /// Every cell with its position, in storage order.
    pub fn iter(&self) -> (entries: Vec<(HexPosition, TileConfig)>)
        requires
            self.wf(),
        ensures
            entries@.len() == cell_count(WORLD_RADIUS as int),
            forall|i: int|
                0 <= i < entries@.len() ==> in_radius((#[trigger] entries@[i]).0@, WORLD_RADIUS as int)
                    && hex_index(entries@[i].0@, WORLD_RADIUS as int) == i && entries@[i].1
                    == self.board()[entries@[i].0@],
    {
        proof {
            self.lemma_board();
        }
        let keys = self.elements.keys();
        let mut entries: Vec<(HexPosition, TileConfig)> = Vec::new();
        let mut i: usize = 0;
        while i < keys.len()
            invariant
                self.wf(),
                keys@.len() == cell_count(WORLD_RADIUS as int),
                forall|j: int|
                    0 <= j < keys@.len() ==> in_radius(#[trigger] keys@[j]@, WORLD_RADIUS as int)
                        && hex_index(keys@[j]@, WORLD_RADIUS as int) == j,
                i <= keys@.len(),
                entries@.len() == i,
                forall|j: int|
                    0 <= j < i ==> (#[trigger] entries@[j]).0 == keys@[j] && entries@[j].1
                        == self.board()[keys@[j]@],
            decreases keys.len() - i,
        {
            let pos = keys[i];
            proof {
                lemma_world_radius();
                lemma_near_board_fits(pos@, WORLD_RADIUS as int);
                self.lemma_board();
            }
            let tile = match self.elements.get(pos) {
                Some(t) => *t,
                None => TileConfig::Empty,
            };
            entries.push((pos, tile));
            i = i + 1;
        }
        entries
    }

    /// The level of a save: the level generated from its seed, with the saved
    /// rotations where the save holds one rotation per cell (otherwise the saved
    /// rotations are ignored). Empty cells ignore their rotation; a tile saved with
    /// a rotation above 6 gets that rotation modulo 6.
    pub fn from_save(save: WorldSave) -> (w: World)
        ensures
            w.wf(),
            w.spec_seed() == save.seed,
            save.rotations@.len() == cell_count(WORLD_RADIUS as int) ==> forall|p: (int, int)|
                #[trigger] w.board().dom().contains(p) ==> w.board()[p] == config_with_rotation(
                    w.board()[p],
                    saved_rotation(save.rotations@[hex_index(p, WORLD_RADIUS as int)]),
                ),
            save.rotations@.len() != cell_count(WORLD_RADIUS as int) ==> board_solved(w.board()),
    {
        let mut world = World::new(save.seed);
        proof {
            world.lemma_board();
        }
        if save.rotations.len() == world.elements.len() {
            let keys = world.elements.keys();
            let mut i: usize = 0;
            while i < keys.len()
                invariant
                    world.elements.wf(),
                    world.elements.spec_radius() == WORLD_RADIUS,
                    world.seed == save.seed,
                    rotations_bounded(world.elements@),
                    save.rotations@.len() == keys@.len(),
                    keys@.len() == cell_count(WORLD_RADIUS as int),
                    forall|j: int|
                        0 <= j < keys@.len() ==> in_radius(#[trigger] keys@[j]@, WORLD_RADIUS as int)
                            && hex_index(keys@[j]@, WORLD_RADIUS as int) == j,
                    forall|p: (int, int)|
                        #[trigger] world.elements@.dom().contains(p) && 0 <= hex_index(
                            p,
                            WORLD_RADIUS as int,
                        ) < i ==> world.elements@[p] == config_with_rotation(
                            world.elements@[p],
                            saved_rotation(save.rotations@[hex_index(p, WORLD_RADIUS as int)]),
                        ),
                decreases keys.len() - i,
            {
                let pos = keys[i];
                proof {
                    lemma_near_board_fits(pos@, WORLD_RADIUS as int);
                }
                let tile = match world.elements.get(pos) {
                    Some(t) => *t,
                    None => TileConfig::Empty,
                };
                let saved = save.rotations[i];
                let rotation = if saved > 6 {
                    saved % 6
                } else {
                    saved
                };
                let ghost before = world.elements@;
                world.elements.set(pos, tile.with_rotation(rotation));
                proof {
                    assert forall|p: (int, int)|
                        #[trigger] world.elements@.dom().contains(p) && 0 <= hex_index(p, WORLD_RADIUS as int)
                            < i + 1 implies world.elements@[p] == config_with_rotation(
                        world.elements@[p],
                        saved_rotation(save.rotations@[hex_index(p, WORLD_RADIUS as int)]),
                    ) by {
                        if p != pos@ {
                            lemma_hex_index_injective(p, pos@, WORLD_RADIUS as int);
                            assert(world.elements@[p] == before[p]);
                        }
                    }
                    assert forall|p: (int, int)|
                        #[trigger] world.elements@.dom().contains(p) implies config_rotation(
                        world.elements@[p],
                    ) <= 6 by {
                        if p != pos@ {
                            assert(world.elements@[p] == before[p]);
                        }
                    }
                }
                i = i + 1;
            }
            proof {
                assert forall|p: (int, int)| #[trigger] world.elements@.dom().contains(p) implies hex_index(
                    p,
                    WORLD_RADIUS as int,
                ) < i by {
                    lemma_hex_index_bounds(p, WORLD_RADIUS as int);
                }
            }
            let ghost loaded = world.elements@;
            world.refresh_incomplete(&keys);
            assert(world.board() == loaded);
            assert forall|p: (int, int)| #[trigger] world.board().dom().contains(p) implies world.board()[p]
                == config_with_rotation(
                world.board()[p],
                saved_rotation(save.rotations@[hex_index(p, WORLD_RADIUS as int)]),
            ) by {
                assert(loaded.dom().contains(p));
                lemma_hex_index_bounds(p, WORLD_RADIUS as int);
                assert(0 <= hex_index(p, WORLD_RADIUS as int) < i);
                assert(loaded[p] == config_with_rotation(
                    loaded[p],
                    saved_rotation(save.rotations@[hex_index(p, WORLD_RADIUS as int)]),
                ));
            }
        }
        world
    }
}

impl WorldSave {
    /// The seed of the level and the rotation of every cell, in storage order.
    pub fn from_world(world: &World) -> (save: WorldSave)
        requires
            world.wf(),
        ensures
            save.seed == world.spec_seed(),
            save.rotations@.len() == cell_count(WORLD_RADIUS as int),
            forall|p: (int, int)|
                #[trigger] world.board().dom().contains(p) ==> save.rotations@[hex_index(
                    p,
                    WORLD_RADIUS as int,
                )] == config_rotation(world.board()[p]),
    {
        proof {
            world.lemma_board();
        }
        let values = world.elements.values();
        let mut rotations: Vec<u8> = Vec::new();
        let mut i: usize = 0;
        while i < values.len()
            invariant
                world.wf(),
                values@ == world.cells(),
                values@.len() == cell_count(WORLD_RADIUS as int),
                i <= values@.len(),
                rotations@.len() == i,
                forall|j: int| 0 <= j < i ==> #[trigger] rotations@[j] == config_rotation(values@[j]),
            decreases values.len() - i,
        {
            rotations.push(values[i].rotation());
            i = i + 1;
        }
        proof {
            assert forall|p: (int, int)| #[trigger] world.board().dom().contains(p) implies rotations@[hex_index(
                p,
                WORLD_RADIUS as int,
            )] == config_rotation(world.board()[p]) by {
                lemma_hex_index_bounds(p, WORLD_RADIUS as int);
                world.lemma_board();
            }
        }
        WorldSave { seed: world.seed, rotations }
    }
}

/// One attempt at filling the board: start from the border constraints, then
/// repeatedly collapse a cell with the fewest options. Returns whether every cell
/// ended with exactly one option; otherwise some cell ran out of options.
fn attempt(wfc: &mut PossibilityMap, rng: &Rng) -> (ok: bool)
    requires
        old(wfc).inv(),
    ensures
        final(wfc).inv(),
        final(wfc).settled(),
        final(wfc).radius() == old(wfc).radius(),
        ok <==> forall|p: (int, int)|
            in_radius(p, final(wfc).radius()) ==> #[trigger] final(wfc).options(p).len() == 1,
        !ok ==> exists|p: (int, int)|
            in_radius(p, final(wfc).radius()) && #[trigger] final(wfc).options(p) == Set::<int>::empty(),
{
    let ghost rad = wfc.radius();
    wfc.clear();
    if !wfc.valid() {
        proof {
            let p = choose|p: (int, int)|
                !(in_radius(p, rad) ==> #[trigger] wfc.options(p) != Set::<int>::empty());
            assert(wfc.options(p).len() == 0);
        }
        return false;
    }
    loop
        invariant
            wfc.settled(),
            wfc.radius() == rad,
            rad == old(wfc).radius(),
            forall|p: (int, int)| in_radius(p, rad) ==> #[trigger] wfc.options(p) != Set::<int>::empty(),
        decreases options_total(wfc.cells()),
    {
        match wfc.lowest_entropy(rng) {
            None => {
                proof {
                    assert forall|p: (int, int)| in_radius(p, rad) implies #[trigger] wfc.options(p).len()
                        == 1 by {
                        wfc.lemma_options(p);
                        if wfc.options(p).len() == 0 {
                            wfc.options(p).lemma_len0_is_empty();
                        }
                    }
                }
                return true;
            },
            Some(p) => {
                wfc.collapse(p, rng);
                if !wfc.valid() {
                    proof {
                        let q = choose|q: (int, int)|
                            !(in_radius(q, rad) ==> #[trigger] wfc.options(q) != Set::<int>::empty());
                        assert(wfc.options(q).len() == 0);
                    }
                    return false;
                }
            },
        }
    }
}

/// A board of radius `WORLD_RADIUS` with every cell empty.
fn empty_board() -> (board: HexMap<TileConfig>)
    ensures
        board.wf(),
        board.spec_radius() == WORLD_RADIUS,
        forall|p: (int, int)| #[trigger] board@.dom().contains(p) ==> board@[p] == TileConfig::Empty,
{
    let board: HexMap<TileConfig> = HexMap::new(WORLD_RADIUS);
    proof {
        lemma_world_radius();
    }
    board
}

/// Matching is symmetric: side `d` of the cell at `p` matches exactly when the
/// facing side of its neighbour matches back.
pub proof fn lemma_side_matches_symmetric(board: Map<(int, int), TileConfig>, p: (int, int), d: int)
    requires
        0 <= d < 6,
    ensures
        side_matches(board, p, d) == side_matches(board, neighbor_of(p, d), opposite(d)),
{
    lemma_opposite_neighbor(p, d);
}

/// After `k` single-step turns of the tile at `pos` (`k >= 1`), the board is the
/// first one with that tile turned `k` steps.
proof fn lemma_turns_accumulate(boards: Seq<Map<(int, int), TileConfig>>, pos: (int, int), k: int)
    requires
        1 <= k < boards.len(),
        boards[0].dom().contains(pos),
        forall|i: int|
            1 <= i < boards.len() ==> #[trigger] boards[i] == boards[i - 1].insert(
                pos,
                config_rotated(boards[i - 1][pos], 1),
            ),
    ensures
        boards[k] == boards[0].insert(pos, config_rotated(boards[0][pos], k)),
    decreases k,
{
    let c = boards[0][pos];
    assert(boards[k] == boards[k - 1].insert(pos, config_rotated(boards[k - 1][pos], 1)));
    if k == 1 {
        assert(boards[1] =~= boards[0].insert(pos, config_rotated(c, 1)));
    } else {
        lemma_turns_accumulate(boards, pos, k - 1);
        crate::tiles::lemma_rotations_compose(c, k - 1, 1);
        assert(boards[k] =~= boards[0].insert(pos, config_rotated(c, k)));
    }
}

/// Turning the tile at `pos` one step six times in a row gives back the board
/// with the rotation of that tile taken modulo 6 (the same board where the
/// rotation was below 6).
pub proof fn lemma_six_turns_restore(boards: Seq<Map<(int, int), TileConfig>>, pos: (int, int))
    requires
        boards.len() == 7,
        boards[0].dom().contains(pos),
        forall|i: int|
            1 <= i < 7 ==> #[trigger] boards[i] == boards[i - 1].insert(
                pos,
                config_rotated(boards[i - 1][pos], 1),
            ),
    ensures
        boards[6] == boards[0].insert(pos, crate::tiles::config_normalized(boards[0][pos])),
        config_rotation(boards[0][pos]) < 6 ==> boards[6] == boards[0],
{
    let c = boards[0][pos];
    let first = boards[0];
    lemma_turns_accumulate(boards, pos, 6);
    crate::tiles::lemma_rotations_compose(c, 0, 6);
    assert(boards[6] == first.insert(pos, crate::tiles::config_normalized(c)));
    if config_rotation(c) < 6 {
        assert(crate::tiles::config_normalized(c) == c);
        assert(first.insert(pos, c) =~= first);
    }
}

/// Loading a save gives back the saved rotations: when `save` holds, cell by
/// cell in storage order, the rotations of `world` (as `WorldSave::from_world`
/// leaves it) and `restored` took its rotations from `save` (as
/// `World::from_save` does with a save of the right length), then every tile of
/// `restored` is turned as the same cell of `world` was.
pub proof fn lemma_save_load_rotations(world: &World, save: &WorldSave, restored: &World)
    requires
        world.wf(),
        restored.wf(),
        save.rotations@.len() == cell_count(WORLD_RADIUS as int),
        forall|p: (int, int)|
            #[trigger] world.board().dom().contains(p) ==> save.rotations@[hex_index(
                p,
                WORLD_RADIUS as int,
            )] == config_rotation(world.board()[p]),
        forall|p: (int, int)|
            #[trigger] restored.board().dom().contains(p) ==> restored.board()[p] == config_with_rotation(
                restored.board()[p],
                saved_rotation(save.rotations@[hex_index(p, WORLD_RADIUS as int)]),
            ),
    ensures
        restored.board().dom() == world.board().dom(),
        forall|p: (int, int)|
            #[trigger] restored.board().dom().contains(p) && restored.board()[p] != TileConfig::Empty
                ==> config_rotation(restored.board()[p]) == config_rotation(world.board()[p]),
{
    world.lemma_board();
    restored.lemma_board();
    assert(restored.board().dom() =~= world.board().dom());
    assert forall|p: (int, int)|
        #[trigger] restored.board().dom().contains(p) && restored.board()[p] != TileConfig::Empty
            implies config_rotation(restored.board()[p]) == config_rotation(world.board()[p]) by {
        assert(world.board().dom().contains(p));
    }
}

/// Turning a tile of a solved board by one step leaves it unsolved: every shape
/// has an ending on side 5 of its unturned form and none on side 4, so the side
/// that matched before no longer does.
pub proof fn lemma_turn_breaks_solved(board: Map<(int, int), TileConfig>, pos: (int, int))
    requires
        board_solved(board),
        board.dom().contains(pos),
        board[pos] != TileConfig::Empty,
    ensures
        !board_solved(board.insert(pos, config_rotated(board[pos], 1))),
{
    let after = board.insert(pos, config_rotated(board[pos], 1));
    match board[pos] {
        TileConfig::Empty => {},
        TileConfig::Tile(t, r) => {
            let d = (5 + r) % 6;
            let r2 = (r + 1) % 6;
            assert((d - r) % 6 == 5);
            assert((d - r2) % 6 == 4);
            assert(tile_complete(board, pos));
            assert(side_matches(board, pos, d));
            let n = neighbor_of(pos, d);
            assert(n != pos);
            assert(tile_at(after, n) == tile_at(board, n));
            assert(config_ending(tile_at(board, pos), d));
            assert(!config_ending(tile_at(after, pos), d));
            assert(!side_matches(after, pos, d));
            assert(!tile_complete(after, pos));
            assert(after.dom().contains(pos));
        },
    }
}

/// Turning a tile of a solved board by five steps (one step back) leaves it
/// unsolved: every shape has an ending on side 5 and none on side 4 of its
/// unturned form, so the side that now faces side 5 no longer matches.
pub proof fn lemma_turn_back_breaks_solved(board: Map<(int, int), TileConfig>, pos: (int, int))
    requires
        board_solved(board),
        board.dom().contains(pos),
        board[pos] != TileConfig::Empty,
    ensures
        !board_solved(board.insert(pos, config_rotated(board[pos], 5))),
{
    let after = board.insert(pos, config_rotated(board[pos], 5));
    match board[pos] {
        TileConfig::Empty => {},
        TileConfig::Tile(t, r) => {
            let d = (4 + r) % 6;
            let r2 = (r + 5) % 6;
            assert((d - r) % 6 == 4);
            assert((d - r2) % 6 == 5);
            assert(tile_complete(board, pos));
            assert(side_matches(board, pos, d));
            let n = neighbor_of(pos, d);
            assert(n != pos);
            assert(tile_at(after, n) == tile_at(board, n));
            assert(!config_ending(tile_at(board, pos), d));
            assert(config_ending(tile_at(after, pos), d));
            assert(!side_matches(after, pos, d));
            assert(!tile_complete(after, pos));
            assert(after.dom().contains(pos));
        },
    }
}

/// The position handled in step `j` of updating the cells around `pos`: `pos`
/// itself, then its neighbours in direction order.
pub open spec fn around(pos: (int, int), j: int) -> (int, int) {
    if j == 0 {
        pos
    } else {
        neighbor_of(pos, j - 1)
    }
}

/// `p` is one of the positions around `pos` handled in step `k` or later.
pub open spec fn pending(pos: (int, int), k: int, p: (int, int)) -> bool {
    ||| k <= 0 && p == around(pos, 0)
    ||| k <= 1 && p == around(pos, 1)
    ||| k <= 2 && p == around(pos, 2)
    ||| k <= 3 && p == around(pos, 3)
    ||| k <= 4 && p == around(pos, 4)
    ||| k <= 5 && p == around(pos, 5)
    ||| k <= 6 && p == around(pos, 6)
}

/// Changing the cell at `pos` leaves the completeness of every cell that is
/// neither `pos` nor one of its neighbours as it was.
pub proof fn lemma_unchanged_away(
    before: Map<(int, int), TileConfig>,
    after: Map<(int, int), TileConfig>,
    pos: (int, int),
)
    requires
        before.dom().contains(pos),
        after.dom() == before.dom(),
        forall|p: (int, int)| #[trigger] after.dom().contains(p) && p != pos ==> after[p] == before[p],
    ensures
        forall|p: (int, int)|
            !pending(pos, 0, p) ==> #[trigger] tile_complete(after, p) == tile_complete(before, p),
{
    assert forall|p: (int, int)| !pending(pos, 0, p) implies #[trigger] tile_complete(after, p)
        == tile_complete(before, p) by {
        assert forall|d: int|
            #![trigger side_matches(after, p, d)]
            #![trigger side_matches(before, p, d)]
            0 <= d < 6 implies side_matches(after, p, d) == side_matches(before, p, d) by {
            lemma_opposite_neighbor(p, d);
            if neighbor_of(p, d) == pos {
                assert(neighbor_of(pos, opposite(d)) == p);
                assert(around(pos, opposite(d) + 1) == p);
            }
            assert(tile_at(after, p) == tile_at(before, p));
            assert(tile_at(after, neighbor_of(p, d)) == tile_at(before, neighbor_of(p, d)));
        }
    }
}

/// A board read off a settled option map in which every cell has one option is
/// solved: neighbouring options agree on their shared side, and no option has an
/// ending towards the edge of the board.
proof fn lemma_generated_solved(wfc: &PossibilityMap, tiles: &HexMap<TileConfig>)
    requires
        wfc.settled(),
        forall|p: (int, int)| in_radius(p, wfc.radius()) ==> #[trigger] wfc.options(p).len() == 1,
        tiles.spec_radius() == wfc.radius(),
        forall|p: (int, int)|
            in_radius(p, wfc.radius()) ==> wfc.options(p) == Set::<int>::empty().insert(
                config_index(#[trigger] tiles@[p]),
            ) && tiles@[p] == element(config_index(tiles@[p])),
    ensures
        board_solved(tiles@),
        rotations_bounded(tiles@),
        forall|p: (int, int)| #[trigger] tiles@.dom().contains(p) ==> config_rotation(tiles@[p]) < 6,
{
    let rad = wfc.radius();
    assert forall|p: (int, int)| #[trigger] tiles@.dom().contains(p) implies tile_complete(tiles@, p) by {
        assert forall|d: int| 0 <= d < 6 implies #[trigger] side_matches(tiles@, p, d) by {
            let a = config_index(tiles@[p]);
            assert(!wfc.queued(p));
            assert(wfc.arc_ok(p, d));
            assert(wfc.border_ok(p, d));
            assert(wfc.options(p).contains(a));
            let n = neighbor_of(p, d);
            if in_radius(n, rad) {
                let b = config_index(tiles@[n]);
                assert(wfc.options(n).contains(b));
                let a2 = choose|a2: int| wfc.options(p).contains(a2) && crate::generator::compatible(a2, d, b);
                assert(a2 == a);
            } else {
                assert(wfc.options(p).contains(a));
            }
        }
    }
    assert forall|p: (int, int)| #[trigger] tiles@.dom().contains(p) implies config_rotation(tiles@[p]) < 6 by {
        let a = config_index(tiles@[p]);
        assert(tiles@[p] == element(a));
    }
}

} // verus!
