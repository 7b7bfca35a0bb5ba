//! The course of a game: a tutorial screen, the shuffle of a fresh level, play,
//! the ending animation once the level is solved, and the transition into the
//! next level. Points of the screen are of any type `P`; animation time is kept
//! in nanoseconds.
use vstd::prelude::*;
use crate::hex::HexPosition;
use crate::tiles::{TileConfig, config_rotation, config_rotated, same_shape};
use crate::world::{World, board_solved};

verus! {

/// How long the ending and the transition animations last, in nanoseconds.
pub const ANIMATION_NANOS: u64 = 1_500_000_000;

/// The phase of the game. `P` is a point on the screen: where the last tile was
/// turned, from where the ending and the transition spread.
#[derive(Clone, Copy, Debug, PartialEq)]
pub enum GameState<P> {
    /// The start screen, before the first level is shuffled.
    Tutorial,
    /// The tiles of a fresh level are turning to their shuffled rotations.
    Shuffeling,
    /// The player turns tiles.
    InProgress,
    /// The level is solved; the last turn is still being animated.
    WaitingForEnd(P),
    /// The ending spreads from a point; nanoseconds since it started.
    Ending(P, u64),
    /// The solved level is shown.
    Ended,
    /// The next level spreads from a point; nanoseconds since it started.
    Transition(P, u64),
}

/// An animation clock after `delta` more nanoseconds (it stops at `u64::MAX`).
pub open spec fn advanced(time: u64, delta: u64) -> u64 {
    if time + delta > u64::MAX {
        u64::MAX
    } else {
        (time + delta) as u64
    }
}

/// The state after a frame of `delta` nanoseconds, given whether the level is
/// still animating its tiles.
pub open spec fn next_on_frame<P>(s: GameState<P>, delta: u64, world_updating: bool) -> GameState<P> {
    match s {
        GameState::Shuffeling => if world_updating {
            s
        } else {
            GameState::InProgress
        },
        GameState::Ending(c, t) => if advanced(t, delta) > ANIMATION_NANOS {
            GameState::Ended
        } else {
            GameState::Ending(c, advanced(t, delta))
        },
        GameState::WaitingForEnd(c) => if world_updating {
            s
        } else {
            GameState::Ending(c, 0)
        },
        GameState::Transition(c, t) => if advanced(t, delta) > ANIMATION_NANOS {
            GameState::InProgress
        } else {
            GameState::Transition(c, advanced(t, delta))
        },
        _ => s,
    }
}

/// A frame never moves the game out of the start screen, out of play, or out of
/// the solved level that waits for a click: those states change on clicks only.
pub proof fn lemma_frames_keep_resting_states<P>(s: GameState<P>, delta: u64, world_updating: bool)
    requires
        s is Tutorial || s is InProgress || s is Ended,
    ensures
        next_on_frame(s, delta, world_updating) == s,
{
}

/// A frame never goes back: it leaves the state as it is or moves it one phase on
/// (shuffle to play, last turn to ending, ending to solved, transition to play).
pub proof fn lemma_frames_move_forward<P>(s: GameState<P>, delta: u64, world_updating: bool)
    ensures
        ({
            let n = next_on_frame(s, delta, world_updating);
            ||| n == s
            ||| s is Shuffeling && n is InProgress
            ||| s is WaitingForEnd && n is Ending
            ||| s is Ending && (n is Ended || n is Ending)
            ||| s is Transition && (n is InProgress || n is Transition)
        }),
{
}

/// Whether something on the screen moves in this state.
pub open spec fn animated<P>(s: GameState<P>) -> bool {
    ||| s is Shuffeling
    ||| s is Ending
    ||| s is Transition
    ||| s is WaitingForEnd
}

/// Whether `b` is a board that can be solved by turning tiles only: some solved
/// board on the same cells has tiles of the same shapes.
pub open spec fn solvable(b: Map<(int, int), TileConfig>) -> bool {
    exists|s: Map<(int, int), TileConfig>|
        #![trigger board_solved(s)]
        board_solved(s) && s.dom() == b.dom() && forall|p: (int, int)|
            #[trigger] b.dom().contains(p) ==> same_shape(s[p], b[p])
}

/// What a click did.
pub enum ClickEffect {
    /// Nothing changed but, maybe, the state.
    Unchanged,
    /// The level was shuffled.
    Shuffled,
    /// The tile at the clicked cell turned one step.
    Rotated,
    /// The next level, to be shown in place of the current one.
    NextLevel(World),
}

impl<P: Copy> GameState<P> {
    /// Moves to `new_state`.
    pub fn set(&mut self, new_state: GameState<P>)
        ensures
            *final(self) == new_state,
    {
        *self = new_state;
    }

    /// Lets a frame of `delta` nanoseconds pass: the shuffle and the last turn end
    /// when the level stops animating its tiles, and the ending and the
    /// transition end after `ANIMATION_NANOS`.
    pub fn update(&mut self, delta: u64, world_updating: bool)
        ensures
            *final(self) == next_on_frame(*old(self), delta, world_updating),
            *old(self) is Tutorial || *old(self) is InProgress || *old(self) is Ended ==> *final(self)
                == *old(self),
            *old(self) is Shuffeling ==> *final(self) == (if world_updating {
                *old(self)
            } else {
                GameState::InProgress
            }),
            *old(self) matches GameState::WaitingForEnd(c) ==> *final(self) == (if world_updating {
                    GameState::WaitingForEnd(c)
                } else {
                    GameState::Ending(c, 0)
                }),
            *old(self) matches GameState::Ending(c, t) ==> *final(self) == (if t + delta
                    > ANIMATION_NANOS {
                    GameState::Ended
                } else {
                    GameState::Ending(c, (t + delta) as u64)
                }),
            *old(self) matches GameState::Transition(c, t) ==> *final(self) == (if t + delta
                    > ANIMATION_NANOS {
                    GameState::InProgress
                } else {
                    GameState::Transition(c, (t + delta) as u64)
                }),
    {
        match *self {
            GameState::Shuffeling => if !world_updating {
                self.set(GameState::InProgress);
            },
            GameState::Ending(c, t) => {
                let time = t.saturating_add(delta);
                if time > ANIMATION_NANOS {
                    self.set(GameState::Ended);
                } else {
                    self.set(GameState::Ending(c, time));
                }
            },
            GameState::WaitingForEnd(c) => if !world_updating {
                self.set(GameState::Ending(c, 0));
            },
            GameState::Transition(c, t) => {
                let time = t.saturating_add(delta);
                if time > ANIMATION_NANOS {
                    self.set(GameState::InProgress);
                } else {
                    self.set(GameState::Transition(c, time));
                }
            },
            _ => {},
        }
    }

    /// Whether the screen moves in this state.
    pub fn is_animated(&self) -> (b: bool)
        ensures
            b == animated(*self),
    {
        match self {
            GameState::Shuffeling | GameState::Ending(_, _) | GameState::Transition(_, _)
            | GameState::WaitingForEnd(_) => true,
            _ => false,
        }
    }

    /// How many times faster than normal the tiles turn: 5 while shuffling, else 1.
    pub fn update_speed(&self) -> (n: u32)
        ensures
            n == if *self is Shuffeling {
                5u32
            } else {
                1u32
            },
    {
        match self {
            GameState::Shuffeling => 5,
            _ => 1,
        }
    }

    /// Whether the player may move and zoom the view: not on the start screen and
    /// not while shuffling.
    pub fn is_interactive(&self) -> (b: bool)
        ensures
            b == !(*self is Shuffeling || *self is Tutorial),
    {
        match self {
            GameState::Shuffeling | GameState::Tutorial => false,
            _ => true,
        }
    }

    /// Handles a click at the screen point `pt` over the cell `cell` of `world`:
    /// on the start screen the level is shuffled; in play the tile turns and a
    /// solved level starts the ending; a click skips the ending, starts the next
    /// level once the solved level is shown, and skips the transition.
    pub fn click(&mut self, world: &mut World, pt: P, cell: HexPosition) -> (effect: ClickEffect)
        requires
            old(world).wf(),
            *old(self) is Ended ==> old(world).spec_seed() < u64::MAX,
        ensures
            final(world).wf(),
            final(world).spec_seed() == old(world).spec_seed(),
            match *old(self) {
                GameState::Tutorial => {
                    &&& *final(self) is Shuffeling
                    &&& effect is Shuffled
                    &&& final(world).board().dom() == old(world).board().dom()
                    &&& forall|p: (int, int)|
                        #[trigger] final(world).board().dom().contains(p) ==> same_shape(
                            old(world).board()[p],
                            final(world).board()[p],
                        ) && config_rotation(final(world).board()[p]) < 6
                    &&& (exists|p: (int, int)|
                        #[trigger] old(world).board().dom().contains(p) && old(world).board()[p]
                            != TileConfig::Empty) ==> !board_solved(final(world).board())
                },
                GameState::InProgress => {
                    let rotated = old(world).board().dom().contains(cell@) && old(world).board()[cell@]
                        != TileConfig::Empty;
                    &&& final(world).board() == if rotated {
                        old(world).board().insert(cell@, config_rotated(old(world).board()[cell@], 1))
                    } else {
                        old(world).board()
                    }
                    &&& (if rotated { effect is Rotated } else { effect is Unchanged })
                    &&& *final(self) == if board_solved(final(world).board()) {
                        GameState::WaitingForEnd(pt)
                    } else {
                        GameState::InProgress
                    }
                },
                GameState::Ending(_, _) => {
                    &&& *final(self) is Ended
                    &&& effect is Unchanged
                    &&& final(world).board() == old(world).board()
                },
                GameState::Ended => {
                    &&& *final(self) == GameState::Transition(pt, 0)
                    &&& final(world).board() == old(world).board()
                    &&& effect matches ClickEffect::NextLevel(next) && next.wf() && next.spec_seed()
                        == old(world).spec_seed() + 1 && solvable(next.board()) && (forall|p: (int, int)|
                        #[trigger] next.board().dom().contains(p) ==> config_rotation(next.board()[p]) < 6)
                        && ((exists|p: (int, int)|
                        #[trigger] next.board().dom().contains(p) && next.board()[p] != TileConfig::Empty)
                        ==> !board_solved(next.board()))
                },
                GameState::Transition(_, _) => {
                    &&& *final(self) is InProgress
                    &&& effect is Unchanged
                    &&& final(world).board() == old(world).board()
                },
                _ => {
                    &&& *final(self) == *old(self)
                    &&& effect is Unchanged
                    &&& final(world).board() == old(world).board()
                },
            },
    {
        match *self {
            GameState::Tutorial => {
                world.scramble(true);
                self.set(GameState::Shuffeling);
                ClickEffect::Shuffled
            },
            GameState::InProgress => {
                let rotated = world.try_rotate(cell);
                if world.is_completed() {
                    self.set(GameState::WaitingForEnd(pt));
                }
                if rotated {
                    ClickEffect::Rotated
                } else {
                    ClickEffect::Unchanged
                }
            },
            GameState::Ending(_, _) => {
                self.set(GameState::Ended);
                ClickEffect::Unchanged
            },
            GameState::Ended => {
                let mut next = World::new(world.seed() + 1);
                let ghost generated = next.board();
                next.scramble(false);
                proof {
                    assert(board_solved(generated));
                    assert(generated.dom() == next.board().dom());
                    assert(forall|p: (int, int)|
                        #[trigger] next.board().dom().contains(p) ==> same_shape(
                            generated[p],
                            next.board()[p],
                        ));
                }
                self.set(GameState::Transition(pt, 0));
                ClickEffect::NextLevel(next)
            },
            GameState::Transition(_, _) => {
                self.set(GameState::InProgress);
                ClickEffect::Unchanged
            },
            _ => ClickEffect::Unchanged,
        }
    }
}

} // verus!
