//! A value that is shown at `current` while it moves towards `target`.
use vstd::prelude::*;

verus! {

/// A value with the state that is shown and the state it moves towards.
#[derive(Clone, Copy, Debug)]
pub struct AnimatedValue<T: Copy> {
    current: T,
    target: T,
}

impl<T: Copy> AnimatedValue<T> {
    /// The state that is shown.
    pub closed spec fn spec_current(&self) -> T {
        self.current
    }

    /// The state the value moves towards.
    pub closed spec fn spec_target(&self) -> T {
        self.target
    }

    /// A value at rest at `val`.
    pub fn new(val: T) -> (v: Self)
        ensures
            v.spec_current() == val,
            v.spec_target() == val,
    {
        AnimatedValue { current: val, target: val }
    }

    /// The target, to be changed in place.
    pub fn target(&mut self) -> (t: &mut T)
        ensures
            *t == old(self).spec_target(),
            final(self).spec_current() == old(self).spec_current(),
            final(self).spec_target() == *final(t),
    {
        &mut self.target
    }

    /// Jumps to the target.
    pub fn skip(&mut self)
        ensures
            final(self).spec_current() == old(self).spec_target(),
            final(self).spec_target() == old(self).spec_target(),
    {
        self.current = self.target;
    }

    /// The state that is shown.
    pub fn value(&self) -> (v: T)
        ensures
            v == self.spec_current(),
    {
        self.current
    }
}

} // verus!
