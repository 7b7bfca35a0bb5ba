//! Small helpers shared by the game logic.
use vstd::prelude::*;
use crate::tiles::TileConfig;
use crate::hex::HexPosition;
use vstd::std_specs::cmp::PartialEqSpec;

verus! {

/// Replacing a value and reporting whether it changed.
pub trait Update: Sized {
    /// Stores `value`; returns whether it differs from the value held before.
    fn update(&mut self, value: Self) -> (changed: bool)
        ensures
            *final(self) == value,
            changed == (*old(self) != value),
    ;
}

impl Update for TileConfig {
    fn update(&mut self, value: Self) -> (changed: bool) {
        if *self == value {
            false
        } else {
            *self = value;
            true
        }
    }
}

impl Update for HexPosition {
    fn update(&mut self, value: Self) -> (changed: bool) {
        if *self == value {
            false
        } else {
            *self = value;
            true
        }
    }
}

impl Update for u8 {
    fn update(&mut self, value: Self) -> (changed: bool) {
        if *self == value {
            false
        } else {
            *self = value;
            true
        }
    }
}

impl Update for u32 {
    fn update(&mut self, value: Self) -> (changed: bool) {
        if *self == value {
            false
        } else {
            *self = value;
            true
        }
    }
}

impl Update for bool {
    fn update(&mut self, value: Self) -> (changed: bool) {
        if *self == value {
            false
        } else {
            *self = value;
            true
        }
    }
}

/// Comparing the content of an `Option` with a value.
pub trait OptionExt<T> {
    /// Whether the option holds a value equal to `x`.
    fn contains_e<U: PartialEq<T>>(&self, x: &U) -> (b: bool);
}

/// Whether the option holds a value that `x` equals, by `x`'s `==`.
pub open spec fn holds_equal<T, U: PartialEq<T>>(o: &Option<T>, x: &U) -> bool {
    match o {
        Some(y) => x.eq_spec(y),
        None => false,
    }
}

impl<T> OptionExt<T> for Option<T> {
    fn contains_e<U: PartialEq<T>>(&self, x: &U) -> (b: bool)
        ensures
            U::obeys_eq_spec() ==> b == holds_equal(self, x),
    {
        match self {
            Some(y) => x.eq(y),
            None => false,
        }
    }
}

} // verus!
