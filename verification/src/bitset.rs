//! Sets of small indices, held in `smallbitset::Set64`.
//!
//! Every function here is a trusted item: its body calls `smallbitset` and its
//! contract restates what the crate's source does, over the name `set_items`.
use vstd::prelude::*;
use smallbitset::Set64;

verus! {

#[verifier::external_type_specification]
#[verifier::external_body]
pub struct ExSet64(Set64);

/// The items of a `Set64`.
pub uninterp spec fn set_items(s: Set64) -> Set<int>;

/// The numbers `0 <= i < n`.
pub open spec fn below(n: int) -> Set<int> {
    Set::new(|i: int| 0 <= i < n)
}

/// `Set64::empty`: no bit set.
#[verifier::external_body]
pub(crate) fn set_empty() -> (s: Set64)
    ensures
        set_items(s) == Set::<int>::empty(),
{
    Set64::empty()
}

/// `Set64::full`: all 64 bits set.
#[verifier::external_body]
pub(crate) fn set_full() -> (s: Set64)
    ensures
        set_items(s) == below(64),
{
    Set64::full()
}

/// `Set64::singleton`: only bit `x` set. The crate indexes a one-block array with
/// `x / 64`, so `x` must be below 64.
#[verifier::external_body]
pub(crate) fn set_singleton(x: usize) -> (s: Set64)
    requires
        x < 64,
    ensures
        set_items(s) == Set::<int>::empty().insert(x as int),
{
    Set64::singleton(x)
}

/// `Set64::add`: the set with bit `x` set as well.
#[verifier::external_body]
pub(crate) fn set_add(s: Set64, x: usize) -> (t: Set64)
    requires
        x < 64,
        set_items(s).subset_of(below(64)),
    ensures
        set_items(t) == set_items(s).insert(x as int),
{
    s.add(x)
}

/// `Set64::union`: bitwise or.
#[verifier::external_body]
pub(crate) fn set_union(a: Set64, b: Set64) -> (c: Set64)
    ensures
        set_items(c) == set_items(a).union(set_items(b)),
{
    a.union(b)
}

/// `Set64::inter`: bitwise and.
#[verifier::external_body]
pub(crate) fn set_inter(a: Set64, b: Set64) -> (c: Set64)
    ensures
        set_items(c) == set_items(a).intersect(set_items(b)),
{
    a.inter(b)
}

/// `Set64::contains`: whether bit `x` is set. The crate indexes a one-block array
/// with `x / 64`, so `x` must be below 64.
#[verifier::external_body]
pub(crate) fn set_contains(s: Set64, x: usize) -> (b: bool)
    requires
        x < 64,
    ensures
        b == set_items(s).contains(x as int),
{
    s.contains(x)
}

/// `Set64::len`: the number of bits set.
#[verifier::external_body]
pub(crate) fn set_len(s: Set64) -> (n: usize)
    requires
        set_items(s).subset_of(below(64)),
    ensures
        n == set_items(s).len(),
{
    s.len()
}

/// `Set64::is_empty`: whether no bit is set.
#[verifier::external_body]
pub(crate) fn set_is_empty(s: Set64) -> (b: bool)
    ensures
        b == (set_items(s) == Set::<int>::empty()),
{
    s.is_empty()
}

/// The derived `==` of `Set64`, which compares the bits.
#[verifier::external_body]
pub(crate) fn set_eq(a: Set64, b: Set64) -> (e: bool)
    ensures
        e == (set_items(a) == set_items(b)),
{
    a == b
}

/// The number of items of `s` below `x`.
pub open spec fn rank(s: Set<int>, x: int) -> nat {
    s.filter(|y: int| y < x).len()
}

/// `Set64::iter().nth(k)`: the iterator yields the set bits in ascending order,
/// so this is the item with exactly `k` smaller items, or `None` where the set has
/// no more than `k` items.
#[verifier::external_body]
pub(crate) fn set_nth(s: Set64, k: usize) -> (x: Option<usize>)
    requires
        set_items(s).subset_of(below(64)),
    ensures
        x matches Some(v) ==> set_items(s).contains(v as int) && rank(set_items(s), v as int) == k,
        x is None <==> k >= set_items(s).len(),
{
    s.iter().nth(k)
}

/// A set of items below 64 is finite and has at most 64 items.
pub proof fn lemma_bounded_finite(s: Set<int>)
    requires
        s.subset_of(below(64)),
    ensures
        s.finite(),
        s.len() <= 64,
{
    lemma_below_finite(64);
    vstd::set_lib::lemma_len_subset(s, below(64));
}

/// `below(n)` is finite and has `n` items.
pub proof fn lemma_below_finite(n: nat)
    ensures
        below(n as int).finite(),
        below(n as int).len() == n,
    decreases n,
{
    if n == 0 {
        assert(below(0) =~= Set::<int>::empty());
    } else {
        lemma_below_finite((n - 1) as nat);
        assert(below(n as int) =~= below(n - 1).insert(n - 1));
    }
}

} // verus!
