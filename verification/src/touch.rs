//! The touches that are currently down on the screen, at most two of them,
//! each with the id the platform gave it and its latest position.
use vstd::prelude::*;

verus! {

/// The id of the touch in an occupied slot.
pub open spec fn key_of<P>(slot: Option<(u64, P)>) -> u64 {
    match slot {
        Some((key, _)) => key,
        None => 0,
    }
}

/// Whether a slot holds the touch with the given id.
pub open spec fn holds_id<P>(slot: Option<(u64, P)>, id: u64) -> bool {
    slot is Some && key_of(slot) == id
}

/// The number of occupied slots among `slots`.
pub open spec fn occupied<P>(slots: Seq<Option<(u64, P)>>) -> nat
    decreases slots.len(),
{
    if slots.len() == 0 {
        0
    } else {
        occupied(slots.drop_last()) + if slots.last() is Some { 1nat } else { 0nat }
    }
}

/// The positions held in `slots`, in slot order.
pub open spec fn held_positions<P>(slots: Seq<Option<(u64, P)>>) -> Seq<P>
    decreases slots.len(),
{
    if slots.len() == 0 {
        Seq::empty()
    } else {
        let rest = held_positions(slots.drop_last());
        match slots.last() {
            Some((_, p)) => rest.push(p),
            None => rest,
        }
    }
}

/// Up to two touches, each a pair of an id and a position of type `P`.
#[derive(Clone, Copy, Debug)]
pub struct TouchMap<P: Copy> {
    touches: [Option<(u64, P)>; 2],
}

impl<P: Copy> TouchMap<P> {
    /// The two slots, in order.
    pub closed spec fn slots(&self) -> Seq<Option<(u64, P)>> {
        self.touches@
    }

    /// Whether one of the slots holds the touch `id`.
    pub open spec fn holds(&self, id: u64) -> bool {
        exists|i: int| 0 <= i < 2 && #[trigger] holds_id(self.slots()[i], id)
    }

    /// Two slots, and no id held by both.
    pub open spec fn wf(&self) -> bool {
        &&& self.slots().len() == 2
        &&& !(self.slots()[0] is Some && self.slots()[1] is Some && key_of(self.slots()[0])
            == key_of(self.slots()[1]))
    }

    /// The slot a new touch goes to: the first free one.
    pub open spec fn first_free(&self) -> int {
        if self.slots()[0] is None {
            0
        } else {
            1
        }
    }

    proof fn lemma_slots(&self)
        ensures
            self.slots().len() == 2,
            self.slots()[0] == self.touches[0],
            self.slots()[1] == self.touches[1],
    {
    }

    /// No touch is down.
    pub fn new() -> (m: Self)
        ensures
            m.wf(),
            m.slots() == seq![None::<(u64, P)>, None::<(u64, P)>],
    {
        let m = TouchMap { touches: [None, None] };
        assert(m.slots() =~= seq![None::<(u64, P)>, None::<(u64, P)>]);
        m
    }

    /// Whether the touch `id` is down.
    pub fn contains(&self, id: u64) -> (b: bool)
        ensures
            b == self.holds(id),
    {
        proof {
            self.lemma_slots();
        }
        let first = match self.touches[0] {
            Some((key, _)) => key == id,
            None => false,
        };
        let second = match self.touches[1] {
            Some((key, _)) => key == id,
            None => false,
        };
        proof {
            if self.holds(id) {
                let i = choose|i: int| 0 <= i < 2 && #[trigger] holds_id(self.slots()[i], id);
                assert(i == 0 || i == 1);
            }
            if first {
                assert(holds_id(self.slots()[0], id));
            }
            if second {
                assert(holds_id(self.slots()[1], id));
            }
        }
        first || second
    }

    /// How many touches are down.
    pub fn len(&self) -> (n: usize)
        ensures
            n == occupied(self.slots()),
    {
        proof {
            self.lemma_slots();
            reveal_with_fuel(occupied, 3);
            assert(self.slots().drop_last().drop_last() =~= Seq::<Option<(u64, P)>>::empty());
            assert(self.slots().drop_last().last() == self.slots()[0]);
        }
        let mut n: usize = 0;
        if self.touches[0].is_some() {
            n = n + 1;
        }
        if self.touches[1].is_some() {
            n = n + 1;
        }
        n
    }

    /// Puts the touch `id` at `pos` into the first free slot, unless it is down
    /// already or both slots are taken; says whether it was put in.
    pub fn insert(&mut self, id: u64, pos: P) -> (added: bool)
        requires
            old(self).wf(),
        ensures
            final(self).wf(),
            added == (!old(self).holds(id) && (old(self).slots()[0] is None || old(self).slots()[1] is None)),
            added ==> final(self).slots() == old(self).slots().update(
                old(self).first_free(),
                Some((id, pos)),
            ),
            !added ==> final(self).slots() == old(self).slots(),
    {
        proof {
            self.lemma_slots();
        }
        if self.contains(id) {
            return false;
        }
        if self.touches[0].is_none() {
            self.touches[0] = Some((id, pos));
            proof {
                assert(!holds_id(old(self).slots()[1], id));
                assert(self.slots() =~= old(self).slots().update(0, Some((id, pos))));
            }
            true
        } else if self.touches[1].is_none() {
            self.touches[1] = Some((id, pos));
            proof {
                assert(!holds_id(old(self).slots()[0], id));
                assert(self.slots() =~= old(self).slots().update(1, Some((id, pos))));
            }
            true
        } else {
            false
        }
    }

    /// Lifts the touch `id`: every slot that holds it becomes free.
    pub fn remove(&mut self, id: u64)
        requires
            old(self).wf(),
        ensures
            final(self).wf(),
            final(self).slots().len() == 2,
            forall|i: int|
                0 <= i < 2 ==> #[trigger] final(self).slots()[i] == if holds_id(old(self).slots()[i], id) {
                    None
                } else {
                    old(self).slots()[i]
                },
            !final(self).holds(id),
    {
        proof {
            self.lemma_slots();
        }
        if let Some((key, _)) = self.touches[0] {
            if key == id {
                self.touches[0] = None;
            }
        }
        if let Some((key, _)) = self.touches[1] {
            if key == id {
                self.touches[1] = None;
            }
        }
        proof {
            self.lemma_slots();
            assert forall|i: int| 0 <= i < 2 implies !#[trigger] holds_id(self.slots()[i], id) by {
                assert(i == 0 || i == 1);
            }
        }
    }

    /// Moves the touch `id` to `pos`; the other slot stays as it is.
    pub fn update(&mut self, id: u64, pos: P)
        requires
            old(self).wf(),
        ensures
            final(self).wf(),
            final(self).slots().len() == 2,
            forall|i: int|
                0 <= i < 2 ==> #[trigger] final(self).slots()[i] == if holds_id(old(self).slots()[i], id) {
                    Some((id, pos))
                } else {
                    old(self).slots()[i]
                },
    {
        proof {
            self.lemma_slots();
        }
        if let Some((key, _)) = self.touches[0] {
            if key == id {
                self.touches[0] = Some((id, pos));
            }
        }
        if let Some((key, _)) = self.touches[1] {
            if key == id {
                self.touches[1] = Some((id, pos));
            }
        }
        proof {
            self.lemma_slots();
        }
    }

    /// The positions of the touches that are down, in slot order.
    pub fn positions(&self) -> (ps: Vec<P>)
        ensures
            ps@ == held_positions(self.slots()),
    {
        proof {
            self.lemma_slots();
            reveal_with_fuel(held_positions, 3);
            assert(self.slots().drop_last().drop_last() =~= Seq::<Option<(u64, P)>>::empty());
            assert(self.slots().drop_last().last() == self.slots()[0]);
        }
        let mut ps: Vec<P> = Vec::new();
        if let Some((_, p)) = self.touches[0] {
            ps.push(p);
        }
        if let Some((_, p)) = self.touches[1] {
            ps.push(p);
        }
        proof {
            let s = self.slots();
            let first = held_positions(s.drop_last().drop_last());
            assert(first =~= Seq::<P>::empty());
            assert(ps@ =~= held_positions(s));
        }
        ps
    }
}

/// What the pointers are doing: nothing is down, a press that may still become a
/// click, or a drag. Each holds the centre of the touches when it last changed.
#[derive(Clone, Copy, Debug, PartialEq)]
pub enum InputState<P> {
    Up,
    Click(P),
    Drag(P),
}

impl<P: Copy> InputState<P> {
    /// After a touch went down: nothing changes unless it was taken in
    /// (`inserted`); then a first touch starts a click and a further one turns it
    /// into a drag, both at the new `center` of the touches.
    pub fn on_press(self, inserted: bool, center: P) -> (s: InputState<P>)
        ensures
            s == if !inserted {
                self
            } else if self is Up {
                InputState::Click(center)
            } else {
                InputState::Drag(center)
            },
    {
        if !inserted {
            self
        } else {
            match self {
                InputState::Up => InputState::Click(center),
                _ => InputState::Drag(center),
            }
        }
    }

    /// After a touch was lifted, with `remaining` touches still down and their
    /// `center`: once the last touch is up the state is `Up`, and a press that was
    /// still a click is reported as a click at its point; a drag with touches left
    /// follows their centre.
    pub fn on_release(self, remaining: usize, center: P) -> (r: (InputState<P>, Option<P>))
        ensures
            r == if remaining == 0 {
                (InputState::Up, match self {
                    InputState::Click(pos) => Some(pos),
                    _ => None,
                })
            } else {
                (match self {
                    InputState::Drag(_) => InputState::Drag(center),
                    _ => self,
                }, None)
            },
    {
        if remaining == 0 {
            let click = match self {
                InputState::Click(pos) => Some(pos),
                _ => None,
            };
            (InputState::Up, click)
        } else {
            match self {
                InputState::Drag(_) => (InputState::Drag(center), None),
                _ => (self, None),
            }
        }
    }

    /// After a touch moved, the touches now centred at `center`: a press becomes a
    /// drag once it `moved_far` from where it started, and a drag follows the
    /// centre. Returns the drag made, from the old point to `center`.
    pub fn on_move(self, center: P, moved_far: bool) -> (r: (InputState<P>, Option<(P, P)>))
        ensures
            r == match self {
                InputState::Up => (self, None),
                InputState::Click(pos) => if moved_far {
                    (InputState::Drag(center), Some((pos, center)))
                } else {
                    (self, None)
                },
                InputState::Drag(pos) => (InputState::Drag(center), Some((pos, center))),
            },
    {
        match self {
            InputState::Up => (self, None),
            InputState::Click(pos) => if moved_far {
                (InputState::Drag(center), Some((pos, center)))
            } else {
                (self, None)
            },
            InputState::Drag(pos) => (InputState::Drag(center), Some((pos, center))),
        }
    }
}

} // verus!
