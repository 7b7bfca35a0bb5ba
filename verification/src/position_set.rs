//! A set of board positions, held in a `hashbrown::HashSet` of coordinate pairs.
//!
//! Verus cannot declare `hashbrown::HashSet` itself (its allocator parameter is
//! bounded by a trait of a crate this library does not name), so the set lives in
//! a field of `PositionSet`, whose contents have the name `position_items`. Every
//! function here is a trusted item whose body makes one call into `hashbrown`.
use vstd::prelude::*;

verus! {

/// A set of `(q, r)` coordinate pairs.
#[verifier::external_body]
pub struct PositionSet {
    set: hashbrown::HashSet<(i32, i32)>,
}

/// The coordinate pairs held by a `PositionSet`.
pub uninterp spec fn position_items(s: PositionSet) -> Set<(int, int)>;

/// `hashbrown::HashSet::new`: an empty set.
#[verifier::external_body]
pub(crate) fn position_set_new() -> (s: PositionSet)
    ensures
        position_items(s) == Set::<(int, int)>::empty(),
{
    PositionSet { set: hashbrown::HashSet::new() }
}

/// `hashbrown::HashSet::insert`: adds `(q, r)`; returns whether it was absent.
#[verifier::external_body]
pub(crate) fn position_set_insert(s: &mut PositionSet, q: i32, r: i32) -> (added: bool)
    ensures
        position_items(*final(s)) == position_items(*old(s)).insert((q as int, r as int)),
        added == !position_items(*old(s)).contains((q as int, r as int)),
{
    s.set.insert((q, r))
}

/// `hashbrown::HashSet::remove`: removes `(q, r)`; returns whether it was present.
#[verifier::external_body]
pub(crate) fn position_set_remove(s: &mut PositionSet, q: i32, r: i32) -> (removed: bool)
    ensures
        position_items(*final(s)) == position_items(*old(s)).remove((q as int, r as int)),
        removed == position_items(*old(s)).contains((q as int, r as int)),
{
    s.set.remove(&(q, r))
}

/// `hashbrown::HashSet::clear`: removes every pair.
#[verifier::external_body]
pub(crate) fn position_set_clear(s: &mut PositionSet)
    ensures
        position_items(*final(s)) == Set::<(int, int)>::empty(),
{
    s.set.clear()
}

/// `hashbrown::HashSet::is_empty`: whether no pair is held.
#[verifier::external_body]
pub(crate) fn position_set_is_empty(s: &PositionSet) -> (b: bool)
    ensures
        b == (position_items(*s) == Set::<(int, int)>::empty()),
{
    s.set.is_empty()
}

} // verus!
