//! Level generation by constraint propagation ("wave function collapse").
//!
//! Every cell of the board starts with the set of pieces that may still go there.
//! Propagation removes a piece from a cell when no piece left in a neighbouring
//! cell matches it on the shared side; collapsing picks one piece at random for the
//! cell with the fewest options left. When every cell has exactly one option, the
//! pieces form a solved level.
use vstd::prelude::*;
use std::collections::VecDeque;
use smallbitset::Set64;
use fastrand::Rng;
use crate::hex::{HexPosition, neighbor_of, opposite, lemma_opposite_neighbor, cube_coords_fit};
use crate::map::{
    HexMap, in_radius, cell_count, radius_fits, hex_index, lemma_hex_index_bounds,
    lemma_hex_index_injective, lemma_in_radius_fits, lemma_keys_cover,
};
use crate::tiles::{TileConfig, ELEMENT_COUNT, EMPTY_INDEX, element, config_ending, config_index, lemma_index_roundtrip};
use crate::bitset::{
    set_items, below, set_empty, set_full, set_singleton, set_add, set_union, set_inter,
    set_contains, set_len, set_eq, set_nth, set_is_empty, lemma_bounded_finite, lemma_below_finite,
};
use crate::random::random_usize;

verus! {

/// Piece `a` placed at a cell and piece `b` placed at its neighbour in direction
/// `d` agree on the side they share: both have an ending there, or neither has.
pub open spec fn compatible(a: int, d: int, b: int) -> bool {
    config_ending(element(a), d) == config_ending(element(b), opposite(d))
}

/// The pieces that may stand in direction `d` of piece `a`.
pub open spec fn adjacency_set(a: int, d: int) -> Set<int> {
    Set::new(|b: int| 0 <= b < ELEMENT_COUNT && compatible(a, d, b))
}

/// The pieces that may stand in direction `d` of a cell whose options are `s`.
pub open spec fn support(s: Set<int>, d: int) -> Set<int> {
    Set::new(|b: int| 0 <= b < ELEMENT_COUNT && exists|a: int| s.contains(a) && compatible(a, d, b))
}

/// The pieces that may stand at a cell whose neighbour in direction `d` lies off
/// the board: those without an ending on side `d`.
pub open spec fn border_allowed(d: int) -> Set<int> {
    Set::new(|b: int| 0 <= b < ELEMENT_COUNT && !config_ending(element(b), d))
}

/// The options a cell starts with: every piece that has no ending towards a side
/// that leaves the board.
pub open spec fn initial_options(p: (int, int), radius: int) -> Set<int> {
    Set::new(
        |b: int|
            0 <= b < ELEMENT_COUNT && forall|d: int|
                0 <= d < 6 && !in_radius(neighbor_of(p, d), radius) ==> !config_ending(
                    element(b),
                    d,
                ),
    )
}

/// Side `d` of piece `sol(p)` agrees with the piece next to it, or, where that
/// side faces the edge of the board, has no ending.
pub open spec fn side_ok(sol: spec_fn((int, int)) -> int, radius: int, p: (int, int), d: int) -> bool {
    if in_radius(neighbor_of(p, d), radius) {
        compatible(sol(p), d, sol(neighbor_of(p, d)))
    } else {
        !config_ending(element(sol(p)), d)
    }
}

/// `sol(p)` is a piece that agrees with its surroundings on all six sides.
pub open spec fn placement_ok(sol: spec_fn((int, int)) -> int, radius: int, p: (int, int)) -> bool {
    &&& 0 <= sol(p) < ELEMENT_COUNT
    &&& forall|d: int| 0 <= d < 6 ==> #[trigger] side_ok(sol, radius, p, d)
}

/// `sol` places a piece on every cell of the board so that the board is solved.
pub open spec fn is_solution(sol: spec_fn((int, int)) -> int, radius: int) -> bool {
    forall|p: (int, int)| in_radius(p, radius) ==> #[trigger] placement_ok(sol, radius, p)
}

/// The neighbour of `p` in direction `d` keeps, among the sets `c`, only pieces
/// that fit next to one of `p`'s; towards the edge of the board, `p` keeps only
/// pieces without an ending on side `d`.
pub open spec fn arc_holds(c: spec_fn((int, int)) -> Set<int>, radius: int, p: (int, int), d: int) -> bool {
    if in_radius(neighbor_of(p, d), radius) {
        c(neighbor_of(p, d)).subset_of(support(c(p), d))
    } else {
        c(p).subset_of(border_allowed(d))
    }
}

/// The sets `c` are arc consistent on the board: every piece of every cell has a
/// fitting partner on each of its six sides.
pub open spec fn arc_consistent(c: spec_fn((int, int)) -> Set<int>, radius: int) -> bool {
    forall|p: (int, int), d: int| in_radius(p, radius) && 0 <= d < 6 ==> #[trigger] arc_holds(c, radius, p, d)
}

/// Arc-consistent sets hold piece indices only: each cell's set lies within the
/// support of a neighbour, or within what the border allows.
proof fn lemma_arc_consistent_pieces(c: spec_fn((int, int)) -> Set<int>, radius: int, p: (int, int))
    requires
        arc_consistent(c, radius),
        in_radius(p, radius),
    ensures
        c(p).subset_of(below(ELEMENT_COUNT as int)),
{
    let n = neighbor_of(p, 0);
    lemma_opposite_neighbor(p, 0);
    if in_radius(n, radius) {
        assert(arc_holds(c, radius, n, opposite(0)));
    } else {
        assert(arc_holds(c, radius, p, 0));
    }
}

/// The total number of options over all cells.
pub open spec fn options_total(cells: Seq<Set64>) -> nat
    decreases cells.len(),
{
    if cells.len() == 0 {
        0
    } else {
        options_total(cells.drop_last()) + set_items(cells.last()).len()
    }
}

/// Cell by cell, the options of `a` are among those of `b`.
pub open spec fn cells_shrunk(a: Seq<Set64>, b: Seq<Set64>) -> bool {
    &&& a.len() == b.len()
    &&& forall|i: int| 0 <= i < a.len() ==> set_items(#[trigger] a[i]).subset_of(set_items(b[i]))
}

/// Every cell of the sequence holds only piece indices.
pub open spec fn cells_bounded(a: Seq<Set64>) -> bool {
    forall|i: int| 0 <= i < a.len() ==> set_items(#[trigger] a[i]).subset_of(below(ELEMENT_COUNT as int))
}

proof fn lemma_total_shrunk(a: Seq<Set64>, b: Seq<Set64>)
    requires
        cells_shrunk(a, b),
        cells_bounded(b),
    ensures
        options_total(a) <= options_total(b),
        (exists|i: int|
            0 <= i < a.len() && set_items(#[trigger] a[i]) != set_items(b[i])) ==> options_total(a)
            < options_total(b),
    decreases a.len(),
{
    if a.len() > 0 {
        let n = a.len() - 1;
        assert(cells_shrunk(a.drop_last(), b.drop_last()));
        assert(cells_bounded(b.drop_last()));
        lemma_total_shrunk(a.drop_last(), b.drop_last());
        let sa = set_items(a[n]);
        let sb = set_items(b[n]);
        lemma_bounded_finite(sb);
        vstd::set_lib::lemma_len_subset(sa, sb);
        if sa != sb {
            let x = choose|x: int| sb.contains(x) && !sa.contains(x);
            assert(exists|x: int| sb.contains(x) && !sa.contains(x)) by {
                if !(exists|x: int| sb.contains(x) && !sa.contains(x)) {
                    assert(sa =~= sb);
                }
            }
            vstd::set_lib::lemma_len_subset(sa, sb.remove(x));
        }
        if exists|i: int| 0 <= i < a.len() && set_items(#[trigger] a[i]) != set_items(b[i]) {
            let i = choose|i: int| 0 <= i < a.len() && set_items(#[trigger] a[i]) != set_items(b[i]);
            if i < n {
                assert(set_items(a.drop_last()[i]) != set_items(b.drop_last()[i]));
            }
        }
    }
}

proof fn lemma_shrunk_trans(a: Seq<Set64>, b: Seq<Set64>, c: Seq<Set64>)
    requires
        cells_shrunk(a, b),
        cells_shrunk(b, c),
    ensures
        cells_shrunk(a, c),
{
    assert forall|i: int| 0 <= i < a.len() implies set_items(#[trigger] a[i]).subset_of(set_items(c[i])) by {
        assert(set_items(b[i]).subset_of(set_items(c[i])));
    }
}

/// The set of candidate pieces for every cell of a board, with the queue of cells
/// whose neighbours still have to be checked.
pub struct PossibilityMap {
    map: HexMap<Set64>,
    propagation_queue: VecDeque<HexPosition>,
    adjacency: Vec<Set64>,
}

impl PossibilityMap {
    pub closed spec fn radius(&self) -> int {
        self.map.spec_radius()
    }

    /// The pieces still possible at `p`.
    pub closed spec fn options(&self, p: (int, int)) -> Set<int> {
        set_items(self.map@[p])
    }

    /// The cells in storage order.
    pub closed spec fn cells(&self) -> Seq<Set64> {
        self.map.cells()
    }

    /// The cells whose neighbours still have to be checked.
    pub closed spec fn queue(&self) -> Seq<HexPosition> {
        self.propagation_queue@
    }

    /// Whether `p` waits in the queue.
    pub open spec fn queued(&self, p: (int, int)) -> bool {
        exists|i: int| 0 <= i < self.queue().len() && (#[trigger] self.queue()[i])@ == p
    }

    /// The options of `p` and of its neighbour in direction `d` agree: every option
    /// of the neighbour matches some option of `p`.
    pub open spec fn arc_ok(&self, p: (int, int), d: int) -> bool {
        in_radius(neighbor_of(p, d), self.radius()) ==> self.options(neighbor_of(p, d)).subset_of(
            support(self.options(p), d),
        )
    }

    /// Where the neighbour of `p` in direction `d` lies off the board, no option of
    /// `p` has an ending towards it.
    pub open spec fn border_ok(&self, p: (int, int), d: int) -> bool {
        !in_radius(neighbor_of(p, d), self.radius()) ==> self.options(p).subset_of(border_allowed(d))
    }

    /// Every pair of neighbouring cells agrees unless the first waits in the queue,
    /// and every cell respects the border.
    pub open spec fn consistent_except_queue(&self) -> bool {
        &&& forall|p: (int, int), d: int|
            in_radius(p, self.radius()) && 0 <= d < 6 && !self.queued(p) ==> #[trigger] self.arc_ok(
                p,
                d,
            )
        &&& forall|p: (int, int), d: int|
            in_radius(p, self.radius()) && 0 <= d < 6 ==> #[trigger] self.border_ok(p, d)
    }

    /// Well formed: a board whose cells hold piece indices, queued cells on the
    /// board, and a correct table of which pieces fit next to which.
    pub closed spec fn wf(&self) -> bool {
        &&& self.map.wf()
        &&& cells_bounded(self.map.cells())
        &&& forall|i: int|
            0 <= i < self.propagation_queue@.len() ==> in_radius(
                #[trigger] self.propagation_queue@[i]@,
                self.map.spec_radius(),
            )
        &&& self.adjacency@.len() == 6 * ELEMENT_COUNT
        &&& forall|a: int, d: int|
            0 <= a < ELEMENT_COUNT && 0 <= d < 6 ==> set_items(#[trigger] self.adjacency@[6 * a + d])
                == adjacency_set(a, d)
    }

    /// Every cell still has the piece that `sol` places there among its options.
    pub open spec fn admits(&self, sol: spec_fn((int, int)) -> int) -> bool {
        forall|p: (int, int)| in_radius(p, self.radius()) ==> #[trigger] self.options(p).contains(sol(p))
    }

    /// Every cell still has all the pieces that `c` gives it.
    pub open spec fn keeps(&self, c: spec_fn((int, int)) -> Set<int>) -> bool {
        forall|p: (int, int)| in_radius(p, self.radius()) ==> c(p).subset_of(#[trigger] self.options(p))
    }

    /// A settled map is itself arc consistent; with the `keeps` clauses of
    /// `propagate` and `clear`, their result is the largest arc-consistent choice
    /// of options within what they started from.
    pub proof fn lemma_settled_arc_consistent(&self)
        requires
            self.settled(),
        ensures
            arc_consistent(|p: (int, int)| self.options(p), self.radius()),
    {
        let c = |p: (int, int)| self.options(p);
        assert forall|p: (int, int), d: int| in_radius(p, self.radius()) && 0 <= d < 6 implies #[trigger] arc_holds(
            c,
            self.radius(),
            p,
            d,
        ) by {
            assert(!self.queued(p));
            assert(self.arc_ok(p, d));
            assert(self.border_ok(p, d));
        }
    }

    /// Well formed, and consistent up to the queued cells.
    pub open spec fn inv(&self) -> bool {
        &&& self.wf()
        &&& self.consistent_except_queue()
    }

    /// Well formed, queue drained, and every pair of neighbouring cells agrees.
    pub open spec fn settled(&self) -> bool {
        &&& self.inv()
        &&& self.queue().len() == 0
    }

    pub proof fn lemma_options(&self, p: (int, int))
        requires
            self.wf(),
            in_radius(p, self.radius()),
        ensures
            self.options(p).subset_of(below(ELEMENT_COUNT as int)),
            self.options(p).finite(),
            self.options(p) == set_items(self.cells()[hex_index(p, self.radius())]),
            0 <= hex_index(p, self.radius()) < self.cells().len(),
            radius_fits(self.radius()),
    {
        self.map.lemma_wf();
        lemma_hex_index_bounds(p, self.radius());
        lemma_below_finite(ELEMENT_COUNT as nat);
        vstd::set_lib::lemma_len_subset(self.options(p), below(ELEMENT_COUNT as int));
    }

    /// A board of the given radius with empty option sets; `clear` fills them.
    pub fn new(radius: i32) -> (m: PossibilityMap)
        requires
            radius_fits(radius as int),
        ensures
            m.settled(),
            m.radius() == radius,
            forall|p: (int, int)| in_radius(p, m.radius()) ==> #[trigger] m.options(p) == Set::<int>::empty(),
    {
        let map: HexMap<Set64> = HexMap::new(radius);
        let ghost rad = radius as int;
        let keys = map.keys();
        let mut map = map;
        let mut i: usize = 0;
        while i < keys.len()
            invariant
                map.wf(),
                map.spec_radius() == rad,
                radius_fits(rad),
                keys@.len() == cell_count(rad),
                forall|j: int|
                    0 <= j < keys@.len() ==> in_radius(#[trigger] keys@[j]@, rad) && hex_index(
                        keys@[j]@,
                        rad,
                    ) == j,
                forall|j: int|
                    0 <= j < i ==> set_items(#[trigger] map.cells()[j]) == Set::<int>::empty(),
            decreases keys.len() - i,
        {
            let pos = keys[i];
            proof {
                lemma_in_radius_fits(pos@, rad);
                map.lemma_wf();
            }
            map.set(pos, set_empty());
            i = i + 1;
        }
        proof {
            map.lemma_wf();
        }
        assert(cells_bounded(map.cells()));
        let adjacency = build_adjacency();
        let m = PossibilityMap { map, propagation_queue: VecDeque::new(), adjacency };
        assert forall|p: (int, int), d: int|
            #![trigger m.border_ok(p, d)]
            #![trigger m.arc_ok(p, d)]
            in_radius(p, m.radius()) && 0 <= d < 6 implies m.border_ok(p, d) && m.arc_ok(p, d) by {
            m.lemma_options(p);
            assert(m.options(p) =~= Set::<int>::empty());
            if in_radius(neighbor_of(p, d), m.radius()) {
                m.lemma_options(neighbor_of(p, d));
                assert(m.options(neighbor_of(p, d)) =~= Set::<int>::empty());
            }
        }
        assert(m.wf());
        assert(m.queue().len() == 0);
        assert(m.consistent_except_queue());
        assert forall|p: (int, int)| in_radius(p, m.radius()) implies #[trigger] m.options(p) == Set::<int>::empty() by {
            m.lemma_options(p);
        }
        m
    }

    /// Gives every cell all the pieces that have no ending towards the edge of the
    /// board, then propagates: the result is the largest arc-consistent choice of
    /// pieces on the board.
    pub fn clear(&mut self)
        requires
            old(self).inv(),
        ensures
            final(self).settled(),
            final(self).radius() == old(self).radius(),
            forall|p: (int, int)|
                in_radius(p, final(self).radius()) ==> #[trigger] final(self).options(p).subset_of(
                    initial_options(p, final(self).radius()),
                ),
            forall|sol: spec_fn((int, int)) -> int|
                is_solution(sol, final(self).radius()) ==> #[trigger] final(self).admits(sol),
            forall|c: spec_fn((int, int)) -> Set<int>|
                arc_consistent(c, final(self).radius()) ==> #[trigger] final(self).keeps(c),
    {
        let ghost rad = self.radius();
        proof {
            self.map.lemma_wf();
            lemma_below_finite(ELEMENT_COUNT as nat);
            lemma_below_finite(64);
        }
        let keys = self.map.keys();
        let complete = complete_set();
        let mut i: usize = 0;
        while i < keys.len()
            invariant
                self.wf(),
                self.radius() == rad,
                radius_fits(rad),
                set_items(complete) == below(ELEMENT_COUNT as int),
                keys@.len() == cell_count(rad),
                forall|j: int|
                    0 <= j < keys@.len() ==> in_radius(#[trigger] keys@[j]@, rad) && hex_index(
                        keys@[j]@,
                        rad,
                    ) == j,
                forall|j: int|
                    0 <= j < i ==> self.options(#[trigger] keys@[j]@) == initial_options(keys@[j]@, rad),
                forall|j: int|
                    0 <= j < i && initial_options(keys@[j]@, rad) != below(ELEMENT_COUNT as int)
                        ==> self.queued(#[trigger] keys@[j]@),
            decreases keys.len() - i,
        {
            let pos = keys[i];
            proof {
                lemma_in_radius_fits(pos@, rad);
            }
            let set = self.initial_set(pos, complete);
            let ghost before = *self;
            if !set_eq(set, complete) {
                self.propagation_queue.push_back(pos);
                assert(self.queue()[self.queue().len() - 1] == pos);
            }
            let ghost mid = *self;
            self.map.set(pos, set);
            proof {
                assert(self.queue() == mid.queue());
                assert forall|x: (int, int)| #[trigger] mid.queued(x) implies self.queued(x) by {}
                assert forall|x: (int, int)| #[trigger] before.queued(x) implies mid.queued(x) by {
                    let k = choose|k: int|
                        0 <= k < before.queue().len() && (#[trigger] before.queue()[k])@ == x;
                    assert(mid.queue()[k] == before.queue()[k]);
                }
                let k = hex_index(pos@, rad);
                lemma_hex_index_bounds(pos@, rad);
                before.map.lemma_wf();
                self.map.lemma_wf();
                assert(mid.cells() == before.cells());
                assert(self.cells() == before.cells().update(k, set));
                assert forall|j: int|
                    0 <= j < i + 1 implies self.options(#[trigger] keys@[j]@) == initial_options(
                    keys@[j]@,
                    rad,
                ) by {
                    if j < i {
                        lemma_hex_index_injective(keys@[j]@, pos@, rad);
                    }
                }
                assert forall|j: int|
                    0 <= j < i + 1 && initial_options(keys@[j]@, rad) != below(
                        ELEMENT_COUNT as int,
                    ) implies self.queued(#[trigger] keys@[j]@) by {
                    if j < i {
                        assert(before.queued(keys@[j]@));
                    }
                }
                assert forall|j: int|
                    0 <= j < self.cells().len() implies set_items(#[trigger] self.cells()[j]).subset_of(
                    below(ELEMENT_COUNT as int),
                ) by {
                    if j != k {
                        assert(self.cells()[j] == before.cells()[j]);
                        assert(set_items(before.cells()[j]).subset_of(below(ELEMENT_COUNT as int)));
                    }
                }
                assert forall|j: int|
                    0 <= j < self.queue().len() implies in_radius(#[trigger] self.queue()[j]@, rad) by {
                    if j < before.queue().len() {
                        assert(self.queue()[j] == before.queue()[j]);
                    }
                }
            }
            i = i + 1;
        }
        proof {
            lemma_support_complete();
            assert forall|p: (int, int), d: int|
                #![trigger self.arc_ok(p, d)]
                #![trigger self.border_ok(p, d)]
                in_radius(p, rad) && 0 <= d < 6 implies (!self.queued(p) ==> self.arc_ok(p, d))
                && self.border_ok(p, d) by {
                lemma_keys_cover(keys@, rad, p);
                self.lemma_options(p);
                if in_radius(neighbor_of(p, d), rad) {
                    self.lemma_options(neighbor_of(p, d));
                    if !self.queued(p) {
                        assert(self.options(p) == below(ELEMENT_COUNT as int));
                    }
                }
            }
        }
        let ghost cleared = *self;
        assert forall|sol: spec_fn((int, int)) -> int| is_solution(sol, rad) implies #[trigger] cleared.admits(
            sol,
        ) by {
            assert forall|p: (int, int)| in_radius(p, rad) implies #[trigger] cleared.options(p).contains(
                sol(p),
            ) by {
                lemma_keys_cover(keys@, rad, p);
                assert(placement_ok(sol, rad, p));
                assert forall|d: int|
                    0 <= d < 6 && !in_radius(neighbor_of(p, d), rad) implies !config_ending(
                    element(sol(p)),
                    d,
                ) by {
                    assert(side_ok(sol, rad, p, d));
                }
                assert(initial_options(p, rad).contains(sol(p)));
            }
        }
        assert forall|c: spec_fn((int, int)) -> Set<int>| arc_consistent(c, rad) implies #[trigger] cleared.keeps(
            c,
        ) by {
            assert forall|p: (int, int)| in_radius(p, rad) implies c(p).subset_of(
                #[trigger] cleared.options(p),
            ) by {
                lemma_keys_cover(keys@, rad, p);
                lemma_arc_consistent_pieces(c, rad, p);
                assert forall|b: int| c(p).contains(b) implies initial_options(p, rad).contains(b) by {
                    assert forall|d: int|
                        0 <= d < 6 && !in_radius(neighbor_of(p, d), rad) implies !config_ending(
                        element(b),
                        d,
                    ) by {
                        assert(arc_holds(c, rad, p, d));
                    }
                }
            }
        }
        self.propagate();
        proof {
            assert forall|p: (int, int)| in_radius(p, rad) implies #[trigger] self.options(p).subset_of(
                initial_options(p, rad),
            ) by {
                lemma_keys_cover(keys@, rad, p);
                self.lemma_options(p);
                cleared.lemma_options(p);
            }
        }
    }

    /// The options a cell starts with (see `initial_options`).
    fn initial_set(&self, pos: HexPosition, complete: Set64) -> (set: Set64)
        requires
            self.wf(),
            in_radius(pos@, self.radius()),
            set_items(complete) == below(ELEMENT_COUNT as int),
        ensures
            set_items(set) == initial_options(pos@, self.radius()),
    {
        let ghost rad = self.radius();
        proof {
            self.map.lemma_wf();
            lemma_in_radius_fits(pos@, rad);
        }
        let nbs = pos.neighbors();
        let mut set = set_full();
        let mut d: usize = 0;
        while d < 6
            invariant
                self.wf(),
                self.radius() == rad,
                d <= 6,
                set_items(complete) == below(ELEMENT_COUNT as int),
                forall|e: int| 0 <= e < 6 ==> #[trigger] nbs@[e]@ == neighbor_of(pos@, e),
                forall|e: int| 0 <= e < 6 ==> cube_coords_fit(#[trigger] neighbor_of(pos@, e)),
                set_items(set) == Set::new(
                    |b: int|
                        0 <= b < 64 && (d > 0 ==> b < ELEMENT_COUNT) && forall|e: int|
                            0 <= e < d && !in_radius(neighbor_of(pos@, e), rad) ==> !config_ending(
                                element(b),
                                e,
                            ),
                ),
            decreases 6 - d,
        {
            let n = nbs[d];
            let ghost prev = set_items(set);
            if !self.map.contains(n) {
                let adj = self.adjacency[6 * EMPTY_INDEX + (d + 3) % 6];
                set = set_inter(set, adj);
                proof {
                    assert(adjacency_set(EMPTY_INDEX as int, (d as int + 3) % 6) =~= border_allowed(d as int));
                }
            } else {
                set = set_inter(set, complete);
            }
            assert(set_items(set) =~= Set::new(
                |b: int|
                    0 <= b < 64 && (d + 1 > 0 ==> b < ELEMENT_COUNT) && forall|e: int|
                        0 <= e < d + 1 && !in_radius(neighbor_of(pos@, e), rad) ==> !config_ending(
                            element(b),
                            e,
                        ),
            )) by {
                assert forall|b: int|
                    #[trigger] set_items(set).contains(b) implies forall|e: int|
                    0 <= e < d + 1 && !in_radius(neighbor_of(pos@, e), rad) ==> !config_ending(
                        element(b),
                        e,
                    ) by {
                    assert(prev.contains(b));
                }
            }
            d = d + 1;
        }
        assert(set_items(set) =~= initial_options(pos@, rad));
        set
    }

    /// Whether no cell has run out of options.
    pub fn valid(&self) -> (b: bool)
        requires
            self.wf(),
        ensures
            b == forall|p: (int, int)|
                in_radius(p, self.radius()) ==> #[trigger] self.options(p) != Set::<int>::empty(),
    {
        let ghost rad = self.radius();
        proof {
            self.map.lemma_wf();
        }
        let keys = self.map.keys();
        let mut i: usize = 0;
        while i < keys.len()
            invariant
                self.wf(),
                self.radius() == rad,
                radius_fits(rad),
                keys@.len() == cell_count(rad),
                forall|j: int|
                    0 <= j < keys@.len() ==> in_radius(#[trigger] keys@[j]@, rad) && hex_index(
                        keys@[j]@,
                        rad,
                    ) == j,
                forall|j: int| 0 <= j < i ==> self.options(#[trigger] keys@[j]@) != Set::<int>::empty(),
            decreases keys.len() - i,
        {
            let pos = keys[i];
            proof {
                lemma_in_radius_fits(pos@, rad);
            }
            let cell = match self.map.get(pos) {
                Some(c) => *c,
                None => set_empty(),
            };
            if set_is_empty(cell) {
                assert(self.options(pos@) == Set::<int>::empty());
                return false;
            }
            i = i + 1;
        }
        proof {
            assert forall|p: (int, int)| in_radius(p, rad) implies #[trigger] self.options(p)
                != Set::<int>::empty() by {
                lemma_keys_cover(keys@, rad, p);
            }
        }
        true
    }

    /// A cell with the fewest options among those that still have more than one,
    /// chosen at random among the ties; `None` when no cell has more than one.
    pub fn lowest_entropy(&self, rng: &Rng) -> (pos: Option<HexPosition>)
        requires
            self.wf(),
        ensures
            pos is None <==> forall|p: (int, int)|
                in_radius(p, self.radius()) ==> #[trigger] self.options(p).len() <= 1,
            pos matches Some(p) ==> {
                &&& in_radius(p@, self.radius())
                &&& self.options(p@).len() > 1
                &&& forall|x: (int, int)|
                    in_radius(x, self.radius()) && #[trigger] self.options(x).len() > 1 ==> self.options(
                        p@,
                    ).len() <= self.options(x).len()
            },
    {
        let ghost rad = self.radius();
        proof {
            self.map.lemma_wf();
        }
        let keys = self.map.keys();
        let mut set: Vec<HexPosition> = Vec::new();
        let mut min: usize = usize::MAX;
        let mut i: usize = 0;
        while i < keys.len()
            invariant
                self.wf(),
                self.radius() == rad,
                radius_fits(rad),
                keys@.len() == cell_count(rad),
                forall|j: int|
                    0 <= j < keys@.len() ==> in_radius(#[trigger] keys@[j]@, rad) && hex_index(
                        keys@[j]@,
                        rad,
                    ) == j,
                i <= keys@.len(),
                set@.len() == 0 ==> forall|j: int|
                    0 <= j < i ==> self.options(#[trigger] keys@[j]@).len() <= 1,
                set@.len() > 0 ==> min > 1,
                set@.len() == 0 ==> min == usize::MAX,
                forall|k: int|
                    0 <= k < set@.len() ==> in_radius(#[trigger] set@[k]@, rad) && self.options(
                        set@[k]@,
                    ).len() == min,
                forall|j: int|
                    0 <= j < i && self.options(#[trigger] keys@[j]@).len() > 1 ==> min <= self.options(
                        keys@[j]@,
                    ).len(),
            decreases keys.len() - i,
        {
            let pos = keys[i];
            proof {
                lemma_in_radius_fits(pos@, rad);
                self.lemma_options(pos@);
                lemma_bounded_finite(self.options(pos@));
            }
            let cell = match self.map.get(pos) {
                Some(c) => *c,
                None => set_empty(),
            };
            let l = set_len(cell);
            if l > 1 {
                if l < min {
                    set.clear();
                    min = l;
                }
                if l == min {
                    set.push(pos);
                }
            }
            i = i + 1;
        }
        if set.len() == 0 {
            proof {
                assert forall|p: (int, int)| in_radius(p, rad) implies #[trigger] self.options(p).len()
                    <= 1 by {
                    lemma_keys_cover(keys@, rad, p);
                }
            }
            None
        } else {
            let k = random_usize(rng, 0, set.len());
            let p = set[k];
            proof {
                assert(self.options(p@).len() == min);
                assert(in_radius(set@[0]@, rad));
                assert forall|x: (int, int)|
                    in_radius(x, rad) && #[trigger] self.options(x).len() > 1 implies self.options(
                    p@,
                ).len() <= self.options(x).len() by {
                    lemma_keys_cover(keys@, rad, x);
                }
                assert(!(forall|x: (int, int)| in_radius(x, rad) ==> #[trigger] self.options(x).len() <= 1));
            }
            Some(p)
        }
    }

    /// Picks one of the options of `pos` at random, keeps only that one and propagates.
    pub fn collapse(&mut self, pos: HexPosition, rng: &Rng)
        requires
            old(self).inv(),
            in_radius(pos@, old(self).radius()),
            old(self).options(pos@).len() >= 1,
        ensures
            final(self).settled(),
            final(self).radius() == old(self).radius(),
            cells_shrunk(final(self).cells(), old(self).cells()),
            exists|x: int|
                old(self).options(pos@).contains(x) && final(self).options(pos@).subset_of(
                    Set::<int>::empty().insert(x),
                ) && (forall|sol: spec_fn((int, int)) -> int|
                    is_solution(sol, old(self).radius()) && old(self).admits(sol) && sol(pos@) == x
                        ==> #[trigger] final(self).admits(sol)) && forall|c: spec_fn((int, int)) -> Set<int>|
                    arc_consistent(c, old(self).radius()) && old(self).keeps(c) && c(pos@).subset_of(
                        Set::<int>::empty().insert(x),
                    ) ==> #[trigger] final(self).keeps(c),
            old(self).options(pos@).len() > 1 ==> options_total(final(self).cells()) < options_total(
                old(self).cells(),
            ),
    {
        let ghost rad = self.radius();
        let ghost start = *self;
        proof {
            self.map.lemma_wf();
            self.lemma_options(pos@);
            lemma_in_radius_fits(pos@, rad);
            lemma_bounded_finite(self.options(pos@));
        }
        let elem = match self.map.get(pos) {
            Some(c) => *c,
            None => set_empty(),
        };
        let len = set_len(elem);
        let k = random_usize(rng, 0, len);
        let selected = match set_nth(elem, k) {
            Some(x) => x,
            None => 0,
        };
        assert(set_items(elem).contains(selected as int));
        assert(selected < 64);
        let single = set_singleton(selected);
        let ghost before = *self;
        self.map.set(pos, single);
        self.propagation_queue.push_back(pos);
        let idx = Ghost(hex_index(pos@, rad));
        proof {
            assert forall|x: (int, int)| x != pos@ implies #[trigger] self.options(x) == before.options(x) by {}
            assert(self.queued(pos@)) by {
                assert(self.queue()[self.queue().len() - 1] == pos);
            }
            assert forall|p: (int, int), d: int|
                in_radius(p, rad) && 0 <= d < 6 && !self.queued(p) implies #[trigger] self.arc_ok(p, d) by {
                if before.queued(p) {
                    let i = choose|i: int|
                        0 <= i < before.queue().len() && (#[trigger] before.queue()[i])@ == p;
                    assert(self.queue()[i] == before.queue()[i]);
                }
                assert(before.arc_ok(p, d));
            }
            assert forall|p: (int, int), d: int|
                in_radius(p, rad) && 0 <= d < 6 implies #[trigger] self.border_ok(p, d) by {
                assert(before.border_ok(p, d));
            }
            assert(set_items(single).subset_of(below(ELEMENT_COUNT as int)));
            assert forall|j: int|
                0 <= j < self.cells().len() implies set_items(#[trigger] self.cells()[j]).subset_of(
                set_items(start.cells()[j]),
            ) by {
                if j != idx@ {
                    assert(self.cells()[j] == start.cells()[j]);
                }
            }
            assert forall|j: int|
                0 <= j < self.queue().len() implies in_radius(#[trigger] self.queue()[j]@, rad) by {
                if j < before.queue().len() {
                    assert(self.queue()[j] == before.queue()[j]);
                }
            }
        }
        let ghost collapsed = *self;
        assert forall|sol: spec_fn((int, int)) -> int|
            is_solution(sol, rad) && start.admits(sol) && sol(pos@) == selected implies #[trigger] collapsed.admits(
            sol,
        ) by {
            assert forall|p: (int, int)| in_radius(p, rad) implies #[trigger] collapsed.options(p).contains(
                sol(p),
            ) by {
                assert(start.options(p).contains(sol(p)));
            }
        }
        assert forall|c: spec_fn((int, int)) -> Set<int>|
            arc_consistent(c, rad) && start.keeps(c) && c(pos@).subset_of(
                Set::<int>::empty().insert(selected as int),
            ) implies #[trigger] collapsed.keeps(c) by {
            assert forall|p: (int, int)| in_radius(p, rad) implies c(p).subset_of(
                #[trigger] collapsed.options(p),
            ) by {
                assert(c(p).subset_of(start.options(p)));
            }
        }
        self.propagate();
        proof {
            lemma_shrunk_trans(self.cells(), collapsed.cells(), start.cells());
            self.lemma_options(pos@);
            collapsed.lemma_options(pos@);
            if start.options(pos@).len() > 1 {
                lemma_bounded_finite(set_items(single));
                assert(set_items(single).len() == 1);
                assert(set_items(collapsed.cells()[idx@]) != set_items(start.cells()[idx@]));
                lemma_total_shrunk(collapsed.cells(), start.cells());
                lemma_total_shrunk(self.cells(), collapsed.cells());
            }
            assert(start.options(pos@).contains(selected as int) && self.options(pos@).subset_of(
                Set::<int>::empty().insert(selected as int),
            ));
        }
    }

    /// The solved board: every cell gets its only remaining piece.
    pub fn into_tiles(&self) -> (tiles: HexMap<TileConfig>)
        requires
            self.wf(),
            forall|p: (int, int)| in_radius(p, self.radius()) ==> #[trigger] self.options(p).len() == 1,
        ensures
            tiles.wf(),
            tiles.spec_radius() == self.radius(),
            forall|p: (int, int)|
                in_radius(p, self.radius()) ==> self.options(p) == Set::<int>::empty().insert(
                    config_index(#[trigger] tiles@[p]),
                ) && tiles@[p] == element(config_index(tiles@[p])),
    {
        let ghost rad = self.radius();
        proof {
            self.map.lemma_wf();
        }
        let radius = self.map.radius();
        let keys = self.map.keys();
        let mut result: HexMap<TileConfig> = HexMap::new(radius);
        let mut i: usize = 0;
        while i < keys.len()
            invariant
                self.wf(),
                self.radius() == rad,
                radius_fits(rad),
                result.wf(),
                result.spec_radius() == rad,
                keys@.len() == cell_count(rad),
                forall|j: int|
                    0 <= j < keys@.len() ==> in_radius(#[trigger] keys@[j]@, rad) && hex_index(
                        keys@[j]@,
                        rad,
                    ) == j,
                forall|p: (int, int)| in_radius(p, rad) ==> #[trigger] self.options(p).len() == 1,
                forall|j: int|
                    0 <= j < i ==> self.options(#[trigger] keys@[j]@) == Set::<int>::empty().insert(
                        config_index(result@[keys@[j]@]),
                    ) && result@[keys@[j]@] == element(config_index(result@[keys@[j]@])),
            decreases keys.len() - i,
        {
            let pos = keys[i];
            proof {
                lemma_in_radius_fits(pos@, rad);
                self.lemma_options(pos@);
                lemma_bounded_finite(self.options(pos@));
            }
            let cell = match self.map.get(pos) {
                Some(c) => *c,
                None => set_empty(),
            };
            let index = match set_nth(cell, 0) {
                Some(x) => x,
                None => 0,
            };
            let ghost opts = self.options(pos@);
            proof {
                assert(opts.contains(index as int));
                assert(opts.remove(index as int).len() == 0);
                assert(opts.remove(index as int) =~= Set::<int>::empty());
                assert(opts =~= Set::<int>::empty().insert(index as int));
                lemma_index_roundtrip(TileConfig::Empty, index as int);
            }
            let ghost before = result;
            result.set(pos, TileConfig::from(index));
            proof {
                assert forall|j: int|
                    0 <= j < i + 1 implies self.options(#[trigger] keys@[j]@) == Set::<int>::empty().insert(
                    config_index(result@[keys@[j]@]),
                ) && result@[keys@[j]@] == element(config_index(result@[keys@[j]@])) by {
                    if j < i {
                        lemma_hex_index_injective(keys@[j]@, pos@, rad);
                        assert(result@[keys@[j]@] == before@[keys@[j]@]);
                    }
                }
            }
            i = i + 1;
        }
        proof {
            assert forall|p: (int, int)|
                in_radius(p, rad) implies self.options(p) == Set::<int>::empty().insert(
                config_index(#[trigger] result@[p]),
            ) && result@[p] == element(config_index(result@[p])) by {
                lemma_keys_cover(keys@, rad, p);
            }
        }
        result
    }

    /// Removes options until every pair of neighbouring cells agrees: whenever a
    /// cell's options shrink, its neighbours are checked again. Only options that
    /// no arc-consistent choice within the current ones holds are removed, so the
    /// result is the largest arc-consistent choice within them.
    pub fn propagate(&mut self)
        requires
            old(self).inv(),
        ensures
            final(self).settled(),
            final(self).radius() == old(self).radius(),
            cells_shrunk(final(self).cells(), old(self).cells()),
            forall|sol: spec_fn((int, int)) -> int|
                is_solution(sol, old(self).radius()) && old(self).admits(sol) ==> #[trigger] final(self).admits(sol),
            forall|c: spec_fn((int, int)) -> Set<int>|
                arc_consistent(c, old(self).radius()) && old(self).keeps(c) ==> #[trigger] final(self).keeps(c),
    {
        let ghost start = self.cells();
        let ghost first = *self;
        let ghost rad = self.radius();
        proof {
            self.map.lemma_wf();
        }
        loop
            invariant
                self.inv(),
                self.radius() == rad,
                cells_shrunk(self.cells(), start),
                cells_bounded(start),
                first.radius() == rad,
                forall|sol: spec_fn((int, int)) -> int|
                    is_solution(sol, rad) && first.admits(sol) ==> #[trigger] self.admits(sol),
                forall|c: spec_fn((int, int)) -> Set<int>|
                    arc_consistent(c, rad) && first.keeps(c) ==> #[trigger] self.keeps(c),
            ensures
                self.settled(),
                self.radius() == rad,
                cells_shrunk(self.cells(), start),
                forall|sol: spec_fn((int, int)) -> int|
                    is_solution(sol, rad) && first.admits(sol) ==> #[trigger] self.admits(sol),
                forall|c: spec_fn((int, int)) -> Set<int>|
                    arc_consistent(c, rad) && first.keeps(c) ==> #[trigger] self.keeps(c),
            decreases options_total(self.cells()), self.queue().len(),
        {
            let ghost before = *self;
            match self.propagation_queue.pop_front() {
                None => {
                    assert(self.queue() == before.queue());
                    assert(self.cells() == before.cells());
                    assert forall|sol: spec_fn((int, int)) -> int|
                        is_solution(sol, rad) && first.admits(sol) implies #[trigger] self.admits(sol) by {
                        assert(before.admits(sol));
                        assert forall|p: (int, int)| in_radius(p, rad) implies #[trigger] self.options(
                            p,
                        ).contains(sol(p)) by {
                            assert(before.options(p).contains(sol(p)));
                        }
                    }
                    assert forall|c: spec_fn((int, int)) -> Set<int>|
                        arc_consistent(c, rad) && first.keeps(c) implies #[trigger] self.keeps(c) by {
                        assert(before.keeps(c));
                        assert forall|p: (int, int)| in_radius(p, rad) implies c(p).subset_of(
                            #[trigger] self.options(p),
                        ) by {
                            assert(c(p).subset_of(before.options(p)));
                        }
                    }
                    assert(self.inv()) by {
                        assert forall|p: (int, int)| #[trigger] self.queued(p) == before.queued(p) by {}
                        assert forall|p: (int, int), d: int| #[trigger] self.arc_ok(p, d) == before.arc_ok(p, d) by {}
                        assert forall|p: (int, int), d: int| #[trigger] self.border_ok(p, d) == before.border_ok(p, d) by {}
                    }
                    break ;
                },
                Some(pos) => {
                    proof {
                        assert(before.queue()[0] == pos);
                        assert forall|p: (int, int), d: int|
                            in_radius(p, self.radius()) && 0 <= d < 6 && !self.queued(p) && p
                                != pos@ implies #[trigger] self.arc_ok(p, d) by {
                            if before.queued(p) {
                                let i = choose|i: int|
                                    0 <= i < before.queue().len() && (#[trigger] before.queue()[i])@
                                        == p;
                                assert(i != 0);
                                assert(self.queue()[i - 1] == before.queue()[i]);
                            }
                            assert(before.arc_ok(p, d));
                        }
                        assert forall|p: (int, int), d: int|
                            in_radius(p, self.radius()) && 0 <= d < 6 implies #[trigger] self.border_ok(
                                p,
                                d,
                            ) by {
                            assert(before.border_ok(p, d));
                        }
                        assert(in_radius(before.queue()[0]@, rad));
                    }
                    let ghost mid = *self;
                    assert forall|sol: spec_fn((int, int)) -> int|
                        is_solution(sol, rad) && first.admits(sol) implies #[trigger] mid.admits(sol) by {
                        assert(before.admits(sol));
                        assert forall|p: (int, int)| in_radius(p, rad) implies #[trigger] mid.options(
                            p,
                        ).contains(sol(p)) by {
                            assert(before.options(p).contains(sol(p)));
                        }
                    }
                    assert forall|c: spec_fn((int, int)) -> Set<int>|
                        arc_consistent(c, rad) && first.keeps(c) implies #[trigger] mid.keeps(c) by {
                        assert(before.keeps(c));
                        assert forall|p: (int, int)| in_radius(p, rad) implies c(p).subset_of(
                            #[trigger] mid.options(p),
                        ) by {
                            assert(c(p).subset_of(before.options(p)));
                        }
                    }
                    self.check_neighbors(pos);
                    proof {
                        lemma_total_shrunk(self.cells(), mid.cells());
                        lemma_shrunk_trans(self.cells(), mid.cells(), start);
                        assert(mid.cells() == before.cells());
                        assert(mid.queue().len() == before.queue().len() - 1);
                        if self.cells() == mid.cells() && self.queue() == mid.queue() {
                            assert(options_total(self.cells()) == options_total(before.cells()));
                            assert(self.queue().len() < before.queue().len());
                        } else {
                            assert(options_total(self.cells()) < options_total(before.cells()));
                        }
                    }
                },
            }
        }
    }

    /// Checks the six neighbours of `pos` against the options of `pos`, removes the
    /// options that no longer fit and queues every neighbour that lost one.
    fn check_neighbors(&mut self, pos: HexPosition)
        requires
            old(self).wf(),
            in_radius(pos@, old(self).radius()),
            forall|p: (int, int), d: int|
                in_radius(p, old(self).radius()) && 0 <= d < 6 && !old(self).queued(p) && p != pos@
                    ==> #[trigger] old(self).arc_ok(p, d),
            forall|p: (int, int), d: int|
                in_radius(p, old(self).radius()) && 0 <= d < 6 ==> #[trigger] old(self).border_ok(p, d),
        ensures
            final(self).inv(),
            final(self).radius() == old(self).radius(),
            cells_shrunk(final(self).cells(), old(self).cells()),
            (final(self).cells() == old(self).cells() && final(self).queue() == old(self).queue())
                || (exists|i: int|
                0 <= i < final(self).cells().len() && set_items(#[trigger] final(self).cells()[i])
                    != set_items(old(self).cells()[i])),
            forall|sol: spec_fn((int, int)) -> int|
                is_solution(sol, old(self).radius()) && old(self).admits(sol) ==> #[trigger] final(self).admits(sol),
            forall|c: spec_fn((int, int)) -> Set<int>|
                arc_consistent(c, old(self).radius()) && old(self).keeps(c) ==> #[trigger] final(self).keeps(c),
    {
        let ghost rad = self.radius();
        let ghost start = *self;
        proof {
            self.map.lemma_wf();
            lemma_in_radius_fits(pos@, rad);
        }
        let nbs = pos.neighbors();
        let mut d: usize = 0;
        while d < 6
            invariant
                self.wf(),
                self.radius() == rad,
                radius_fits(rad),
                d <= 6,
                in_radius(pos@, rad),
                forall|e: int| 0 <= e < 6 ==> #[trigger] nbs@[e]@ == neighbor_of(pos@, e),
                forall|e: int| 0 <= e < 6 ==> cube_coords_fit(#[trigger] neighbor_of(pos@, e)),
                self.options(pos@) == start.options(pos@),
                forall|p: (int, int), e: int|
                    in_radius(p, rad) && 0 <= e < 6 && !self.queued(p) && p != pos@
                        ==> #[trigger] self.arc_ok(p, e),
                forall|e: int| 0 <= e < d ==> #[trigger] self.arc_ok(pos@, e),
                forall|p: (int, int), e: int|
                    in_radius(p, rad) && 0 <= e < 6 ==> #[trigger] self.border_ok(p, e),
                cells_shrunk(self.cells(), start.cells()),
                start.queue().is_prefix_of(self.queue()),
                (self.cells() == start.cells() && self.queue() == start.queue()) || (exists|i: int|
                    0 <= i < self.cells().len() && set_items(#[trigger] self.cells()[i]) != set_items(
                        start.cells()[i],
                    )),
                forall|sol: spec_fn((int, int)) -> int|
                    is_solution(sol, rad) && start.admits(sol) ==> #[trigger] self.admits(sol),
                forall|c: spec_fn((int, int)) -> Set<int>|
                    arc_consistent(c, rad) && start.keeps(c) ==> #[trigger] self.keeps(c),
            decreases 6 - d,
        {
            let n = nbs[d];
            if self.map.contains(n) {
                proof {
                    self.lemma_options(pos@);
                    self.lemma_options(n@);
                    lemma_opposite_neighbor(pos@, d as int);
                }
                let cur = match self.map.get(pos) {
                    Some(c) => *c,
                    None => set_empty(),
                };
                let adl = self.support_of(cur, d);
                let old_n = match self.map.get(n) {
                    Some(c) => *c,
                    None => set_empty(),
                };
                let prl = set_inter(old_n, adl);
                if !set_eq(prl, old_n) {
                    let ghost before = *self;
                    self.map.set(n, prl);
                    self.propagation_queue.push_back(n);
                    proof {
                        let k = hex_index(n@, rad);
                        assert(self.cells() == before.cells().update(k, prl));
                        assert forall|x: (int, int)| x != n@ implies #[trigger] self.options(x)
                            == before.options(x) by {}
                        assert(self.options(n@).subset_of(before.options(n@)));
                        assert(self.queued(n@)) by {
                            assert(self.queue()[self.queue().len() - 1] == n);
                        }
                        assert forall|p: (int, int), e: int|
                            in_radius(p, rad) && 0 <= e < 6 && !self.queued(p) && p != pos@
                                implies #[trigger] self.arc_ok(p, e) by {
                            if before.queued(p) {
                                let i = choose|i: int|
                                    0 <= i < before.queue().len() && (#[trigger] before.queue()[i])@
                                        == p;
                                assert(self.queue()[i] == before.queue()[i]);
                            }
                            assert(before.arc_ok(p, e));
                        }
                        assert forall|e: int| 0 <= e < d + 1 implies #[trigger] self.arc_ok(pos@, e) by {
                            if e < d {
                                assert(before.arc_ok(pos@, e));
                            }
                        }
                        assert forall|p: (int, int), e: int|
                            in_radius(p, rad) && 0 <= e < 6 implies #[trigger] self.border_ok(p, e) by {
                            assert(before.border_ok(p, e));
                        }
                        assert(set_items(old_n) == set_items(before.cells()[k]));
                        assert(set_items(prl).subset_of(set_items(old_n)));
                        assert(set_items(prl) != set_items(old_n));
                        assert(set_items(before.cells()[k]).subset_of(set_items(start.cells()[k])));
                        assert(set_items(self.cells()[k]) != set_items(start.cells()[k])) by {
                            if set_items(self.cells()[k]) == set_items(start.cells()[k]) {
                                assert(set_items(old_n) =~= set_items(prl));
                            }
                        }
                        assert forall|i: int| 0 <= i < self.cells().len() implies set_items(
                            #[trigger] self.cells()[i],
                        ).subset_of(set_items(start.cells()[i])) by {
                            assert(set_items(before.cells()[i]).subset_of(set_items(start.cells()[i])));
                        }
                        assert(start.queue().is_prefix_of(self.queue())) by {
                            assert(start.queue().is_prefix_of(before.queue()));
                        }
                        assert forall|sol: spec_fn((int, int)) -> int|
                            is_solution(sol, rad) && start.admits(sol) implies #[trigger] self.admits(sol) by {
                            assert(before.admits(sol));
                            assert forall|p: (int, int)| in_radius(p, rad) implies #[trigger] self.options(
                                p,
                            ).contains(sol(p)) by {
                                assert(before.options(p).contains(sol(p)));
                                if p == n@ {
                                    assert(placement_ok(sol, rad, pos@));
                                    assert(side_ok(sol, rad, pos@, d as int));
                                    assert(before.options(pos@).contains(sol(pos@)));
                                    assert(support(before.options(pos@), d as int).contains(sol(p)));
                                }
                            }
                        }
                        assert forall|c: spec_fn((int, int)) -> Set<int>|
                            arc_consistent(c, rad) && start.keeps(c) implies #[trigger] self.keeps(c) by {
                            assert(before.keeps(c));
                            assert forall|p: (int, int)| in_radius(p, rad) implies c(p).subset_of(
                                #[trigger] self.options(p),
                            ) by {
                                assert(c(p).subset_of(before.options(p)));
                                if p == n@ {
                                    assert(arc_holds(c, rad, pos@, d as int));
                                    assert(c(pos@).subset_of(before.options(pos@)));
                                    assert forall|b: int| c(p).contains(b) implies #[trigger] self.options(
                                        p,
                                    ).contains(b) by {
                                        assert(support(c(pos@), d as int).contains(b));
                                        let a = choose|a: int| c(pos@).contains(a) && compatible(a, d as int, b);
                                        assert(before.options(pos@).contains(a));
                                        assert(support(before.options(pos@), d as int).contains(b));
                                    }
                                }
                            }
                        }
                    }
                } else {
                    assert(self.arc_ok(pos@, d as int));
                }
            }
            d = d + 1;
        }
        proof {
            assert forall|p: (int, int), e: int|
                in_radius(p, rad) && 0 <= e < 6 && !self.queued(p) implies #[trigger] self.arc_ok(
                p,
                e,
            ) by {
                if p == pos@ {
                    assert(self.arc_ok(pos@, e));
                }
            }
            assert forall|i: int|
                0 <= i < self.queue().len() implies in_radius(#[trigger] self.queue()[i]@, rad) by {}
        }
    }

    /// The pieces that may stand in direction `d` of a cell whose options are `s`.
    fn support_of(&self, s: Set64, d: usize) -> (t: Set64)
        requires
            self.wf(),
            d < 6,
            set_items(s).subset_of(below(ELEMENT_COUNT as int)),
        ensures
            set_items(t) == support(set_items(s), d as int),
    {
        let mut acc = set_empty();
        let mut x: usize = 0;
        while x < ELEMENT_COUNT
            invariant
                self.wf(),
                d < 6,
                x <= ELEMENT_COUNT,
                set_items(acc) == Set::new(
                    |b: int|
                        0 <= b < ELEMENT_COUNT && exists|a: int|
                            0 <= a < x && set_items(s).contains(a) && compatible(a, d as int, b),
                ),
            decreases ELEMENT_COUNT - x,
        {
            if set_contains(s, x) {
                let adj = self.adjacency[6 * x + d];
                let ghost before = set_items(acc);
                acc = set_union(acc, adj);
                assert(set_items(acc) =~= Set::new(
                    |b: int|
                        0 <= b < ELEMENT_COUNT && exists|a: int|
                            0 <= a < x + 1 && set_items(s).contains(a) && compatible(a, d as int, b),
                )) by {
                    assert forall|b: int|
                        0 <= b < ELEMENT_COUNT && (exists|a: int|
                            0 <= a < x + 1 && set_items(s).contains(a) && compatible(
                                a,
                                d as int,
                                b,
                            )) implies #[trigger] set_items(acc).contains(b) by {
                        let a = choose|a: int|
                            0 <= a < x + 1 && set_items(s).contains(a) && compatible(a, d as int, b);
                        if a < x {
                            assert(before.contains(b));
                        } else {
                            assert(adjacency_set(x as int, d as int).contains(b));
                        }
                    }
                }
            } else {
                assert(set_items(acc) =~= Set::new(
                    |b: int|
                        0 <= b < ELEMENT_COUNT && exists|a: int|
                            0 <= a < x + 1 && set_items(s).contains(a) && compatible(a, d as int, b),
                )) by {
                    assert forall|b: int|
                        0 <= b < ELEMENT_COUNT && (exists|a: int|
                            0 <= a < x + 1 && set_items(s).contains(a) && compatible(
                                a,
                                d as int,
                                b,
                            )) implies #[trigger] set_items(acc).contains(b) by {
                        let a = choose|a: int|
                            0 <= a < x + 1 && set_items(s).contains(a) && compatible(a, d as int, b);
                        assert(a < x);
                    }
                }
            }
            x = x + 1;
        }
        assert(set_items(acc) =~= support(set_items(s), d as int));
        acc
    }
}

/// Every piece may stand next to some piece of the full set: pieces with an ending
/// on the shared side next to a single-ending tile turned that way, the others next
/// to the empty cell.
proof fn lemma_support_complete()
    ensures
        forall|d: int| 0 <= d < 6 ==> #[trigger] support(below(ELEMENT_COUNT as int), d) == below(
            ELEMENT_COUNT as int,
        ),
{
    assert forall|d: int| 0 <= d < 6 implies #[trigger] support(below(ELEMENT_COUNT as int), d)
        == below(ELEMENT_COUNT as int) by {
        assert forall|b: int| 0 <= b < ELEMENT_COUNT implies #[trigger] support(
            below(ELEMENT_COUNT as int),
            d,
        ).contains(b) by {
            if config_ending(element(b), opposite(d)) {
                let a = (d + 1) % 6;
                assert(element(a) == TileConfig::Tile(crate::tiles::TileType::Tile0, a as u8));
                assert((d - a) % 6 == 5);
                assert(config_ending(element(a), d));
                assert(compatible(a, d, b));
                assert(below(ELEMENT_COUNT as int).contains(a));
            } else {
                assert(compatible(EMPTY_INDEX as int, d, b));
                assert(below(ELEMENT_COUNT as int).contains(EMPTY_INDEX as int));
            }
        }
        assert(support(below(ELEMENT_COUNT as int), d) =~= below(ELEMENT_COUNT as int));
    }
}

/// The set of every piece index.
fn complete_set() -> (s: Set64)
    ensures
        set_items(s) == below(ELEMENT_COUNT as int),
{
    proof {
        lemma_below_finite(64);
    }
    let mut s = set_empty();
    let mut i: usize = 0;
    while i < ELEMENT_COUNT
        invariant
            i <= ELEMENT_COUNT,
            set_items(s) == below(i as int),
        decreases ELEMENT_COUNT - i,
    {
        assert(set_items(s).subset_of(below(64)));
        s = set_add(s, i);
        assert(set_items(s) =~= below(i + 1));
        i = i + 1;
    }
    s
}

/// The table of which pieces fit next to which: entry `6 * a + d` holds the pieces
/// that may stand in direction `d` of piece `a`.
fn build_adjacency() -> (table: Vec<Set64>)
    ensures
        table@.len() == 6 * ELEMENT_COUNT,
        forall|a: int, d: int|
            0 <= a < ELEMENT_COUNT && 0 <= d < 6 ==> set_items(#[trigger] table@[6 * a + d])
                == adjacency_set(a, d),
{
    let mut table: Vec<Set64> = Vec::new();
    let mut a: usize = 0;
    while a < ELEMENT_COUNT
        invariant
            a <= ELEMENT_COUNT,
            table@.len() == 6 * a,
            forall|a2: int, d: int|
                0 <= a2 < a && 0 <= d < 6 ==> set_items(#[trigger] table@[6 * a2 + d]) == adjacency_set(
                    a2,
                    d,
                ),
        decreases ELEMENT_COUNT - a,
    {
        let elem1 = TileConfig::from(a).endings();
        let mut d: usize = 0;
        while d < 6
            invariant
                a < ELEMENT_COUNT,
                d <= 6,
                table@.len() == 6 * a + d,
                forall|e: int| 0 <= e < 6 ==> #[trigger] elem1@[e] == config_ending(element(a as int), e),
                forall|a2: int, d2: int|
                    0 <= a2 < a && 0 <= d2 < 6 ==> set_items(#[trigger] table@[6 * a2 + d2])
                        == adjacency_set(a2, d2),
                forall|d2: int|
                    0 <= d2 < d ==> set_items(#[trigger] table@[6 * a + d2]) == adjacency_set(
                        a as int,
                        d2,
                    ),
            decreases 6 - d,
        {
            let mut list = set_empty();
            let mut k: usize = 0;
            while k < ELEMENT_COUNT
                invariant
                    a < ELEMENT_COUNT,
                    d < 6,
                    k <= ELEMENT_COUNT,
                    forall|e: int| 0 <= e < 6 ==> #[trigger] elem1@[e] == config_ending(element(a as int), e),
                    set_items(list) == Set::new(
                        |b: int| 0 <= b < k && compatible(a as int, d as int, b),
                    ),
                decreases ELEMENT_COUNT - k,
            {
                let elem2 = TileConfig::from(k).endings();
                if elem1[d] == elem2[(d + 3) % 6] {
                    proof {
                        lemma_below_finite(64);
                    }
                    assert(set_items(list).subset_of(below(64)));
                    list = set_add(list, k);
                    assert(set_items(list) =~= Set::new(
                        |b: int| 0 <= b < k + 1 && compatible(a as int, d as int, b),
                    ));
                } else {
                    assert(set_items(list) =~= Set::new(
                        |b: int| 0 <= b < k + 1 && compatible(a as int, d as int, b),
                    ));
                }
                k = k + 1;
            }
            assert(set_items(list) =~= adjacency_set(a as int, d as int));
            table.push(list);
            assert(table@[6 * a + d] == list);
            d = d + 1;
        }
        a = a + 1;
    }
    table
}

} // verus!
