//! Anchor sampling by relaxed dart throwing.
//!
//! A sampler starts from one seed anchor and grows outwards: every accepted
//! anchor sends a batch of candidates to the back of a first-in, first-out
//! frontier, and the candidate at the front is accepted when it keeps the
//! minimum distance to every anchor accepted so far. Where the candidates
//! come from is the caller's business; the sampler decides what becomes of
//! them.

use vstd::prelude::*;
use std::collections::VecDeque;
use vstd::arithmetic::div_mod::lemma_fundamental_div_mod;
use vstd::set_lib::{lemma_int_range, lemma_len_subset, set_int_range};
use crate::arith::{lemma_grid_number_in_range, lemma_grid_number_injective};
use crate::geometry::{lemma_squared_distance_basics, squared, Bounds, Point};

verus! {

/// How many candidates every accepted anchor sends to the frontier.
pub const CANDIDATES_PER_ANCHOR: usize = 25;

/// How often a candidate that fell outside the bounds is drawn again before
/// it is given up.
pub const MAX_PLACEMENT_ATTEMPTS: u32 = 1024;

/// The radial offsets, both ends included, at which candidates are placed
/// around an anchor.
#[derive(Clone, Copy, Debug, PartialEq, Eq, Structural)]
pub struct DistanceRange {
    pub minimum: u64,
    pub maximum: u64,
}

/// Whether `a` and `b` are at least `minimum_distance` apart.
pub open spec fn keeps_distance(a: Point, b: Point, minimum_distance: int) -> bool {
    a.spec_squared_distance_from(b) >= minimum_distance * minimum_distance
}

/// Whether every two points of the list are at least `minimum_distance` apart.
pub open spec fn pairwise_separated(points: Seq<Point>, minimum_distance: int) -> bool {
    forall|i: int, j: int|
        0 <= i < j < points.len() ==> keeps_distance(
            #[trigger] points[i],
            #[trigger] points[j],
            minimum_distance,
        )
}

/// Whether `candidate` is at least `minimum_distance` away from every point
/// of `accepted`.
pub open spec fn admissible(accepted: Seq<Point>, candidate: Point, minimum_distance: int) -> bool {
    forall|i: int|
        0 <= i < accepted.len() ==> keeps_distance(
            #[trigger] accepted[i],
            candidate,
            minimum_distance,
        )
}

/// How many lattice coordinates lie strictly between zero and `extent`.
pub open spec fn lattice_span(extent: u64) -> int {
    if extent == 0 {
        0
    } else if extent - 1 <= i32::MAX {
        extent - 1
    } else {
        i32::MAX as int
    }
}

/// How many lattice points lie strictly inside `bounds`.
pub open spec fn lattice_capacity(bounds: Bounds) -> int {
    lattice_span(bounds.width) * lattice_span(bounds.height)
}

/// The number of the lattice cell of `point`, counted row by row.
spec fn cell_code(point: Point, bounds: Bounds) -> int {
    (point.x - 1) + (point.y - 1) * lattice_span(bounds.width)
}

/// Points that keep a distance of at least one from each other are distinct
/// lattice points, so no more of them fit inside the bounds than there are
/// lattice points there.
pub proof fn lemma_separated_points_fit(points: Seq<Point>, bounds: Bounds, minimum_distance: int)
    requires
        minimum_distance >= 1,
        pairwise_separated(points, minimum_distance),
        forall|i: int| 0 <= i < points.len() ==> bounds.spec_contains(#[trigger] points[i]),
    ensures
        points.len() <= lattice_capacity(bounds),
{
    let columns = lattice_span(bounds.width);
    let rows = lattice_span(bounds.height);
    let codes = Seq::new(points.len(), |i: int| cell_code(points[i], bounds));
    assert forall|i: int| 0 <= i < codes.len() implies 0 <= #[trigger] codes[i] < columns
        * rows by {
        assert(bounds.spec_contains(points[i]));
        lemma_grid_number_in_range(points[i].x - 1, points[i].y - 1, columns, rows);
    }
    assert(minimum_distance * minimum_distance >= 1) by (nonlinear_arith)
        requires
            minimum_distance >= 1,
    ;
    assert forall|i: int, j: int|
        0 <= i < codes.len() && 0 <= j < codes.len() && i != j implies codes[i] != codes[j] by {
        let p = points[i];
        let q = points[j];
        assert(bounds.spec_contains(p) && bounds.spec_contains(q));
        lemma_squared_distance_basics(p.x as int, p.y as int, q.x as int, q.y as int);
        if i < j {
            assert(keeps_distance(p, q, minimum_distance));
        } else {
            assert(keeps_distance(q, p, minimum_distance));
        }
        if codes[i] == codes[j] {
            lemma_grid_number_injective(p.x - 1, p.y - 1, q.x - 1, q.y - 1, columns);
        }
    }
    codes.unique_seq_to_set();
    assert(0 <= columns * rows) by (nonlinear_arith)
        requires
            0 <= columns,
            0 <= rows,
    ;
    lemma_int_range(0, columns * rows);
    assert(codes.to_set().subset_of(set_int_range(0, columns * rows))) by {
        assert forall|code: int| codes.to_set().contains(code) implies set_int_range(
            0,
            columns * rows,
        ).contains(code) by {
            let i = choose|i: int| 0 <= i < codes.len() && codes[i] == code;
            assert(0 <= codes[i] < columns * rows);
        }
    }
    lemma_len_subset(codes.to_set(), set_int_range(0, columns * rows));
}

/// How many cells of side `side` it takes to cover `span` lattice coordinates.
pub open spec fn cells_across(span: int, side: int) -> int {
    (span + side - 1) / side
}

/// A square cell whose diagonal is shorter than the minimum distance holds
/// at most one of the points, so there are no more points inside the bounds
/// than such cells cover them: the points are packed no denser than one to
/// a cell of side `side`, where twice the square of `side - 1` is less than
/// the square of the minimum distance.
pub proof fn lemma_separated_points_packed(
    points: Seq<Point>,
    bounds: Bounds,
    minimum_distance: int,
    side: int,
)
    requires
        minimum_distance >= 1,
        side >= 1,
        2 * ((side - 1) * (side - 1)) < minimum_distance * minimum_distance,
        pairwise_separated(points, minimum_distance),
        forall|i: int| 0 <= i < points.len() ==> bounds.spec_contains(#[trigger] points[i]),
    ensures
        points.len() <= cells_across(lattice_span(bounds.width), side) * cells_across(
            lattice_span(bounds.height),
            side,
        ),
{
    let columns = cells_across(lattice_span(bounds.width), side);
    let rows = cells_across(lattice_span(bounds.height), side);
    let codes = Seq::new(
        points.len(),
        |i: int| (points[i].x - 1) / side + ((points[i].y - 1) / side) * columns,
    );
    assert forall|i: int| 0 <= i < points.len() implies 0 <= (#[trigger] points[i].x - 1) / side
        < columns && 0 <= (points[i].y - 1) / side < rows by {
        assert(bounds.spec_contains(points[i]));
        lemma_cell_of_coordinate(points[i].x - 1, lattice_span(bounds.width), side);
        lemma_cell_of_coordinate(points[i].y - 1, lattice_span(bounds.height), side);
    }
    assert forall|i: int| 0 <= i < codes.len() implies 0 <= #[trigger] codes[i] < columns
        * rows by {
        assert(0 <= (points[i].x - 1) / side < columns);
        lemma_grid_number_in_range(
            (points[i].x - 1) / side,
            (points[i].y - 1) / side,
            columns,
            rows,
        );
    }
    assert forall|i: int, j: int|
        0 <= i < codes.len() && 0 <= j < codes.len() && i != j implies codes[i] != codes[j] by {
        let p = points[i];
        let q = points[j];
        assert(0 <= (points[i].x - 1) / side < columns);
        assert(0 <= (points[j].x - 1) / side < columns);
        lemma_squared_distance_basics(p.x as int, p.y as int, q.x as int, q.y as int);
        if i < j {
            assert(keeps_distance(p, q, minimum_distance));
        } else {
            assert(keeps_distance(q, p, minimum_distance));
        }
        if codes[i] == codes[j] {
            lemma_grid_number_injective(
                (p.x - 1) / side,
                (p.y - 1) / side,
                (q.x - 1) / side,
                (q.y - 1) / side,
                columns,
            );
            lemma_same_cell_is_close(p.x - 1, q.x - 1, side);
            lemma_same_cell_is_close(p.y - 1, q.y - 1, side);
        }
    }
    codes.unique_seq_to_set();
    assert(0 <= columns * rows) by (nonlinear_arith)
        requires
            0 <= columns,
            0 <= rows,
    ;
    lemma_int_range(0, columns * rows);
    assert(codes.to_set().subset_of(set_int_range(0, columns * rows))) by {
        assert forall|code: int| codes.to_set().contains(code) implies set_int_range(
            0,
            columns * rows,
        ).contains(code) by {
            let i = choose|i: int| 0 <= i < codes.len() && codes[i] == code;
            assert(0 <= codes[i] < columns * rows);
        }
    }
    lemma_len_subset(codes.to_set(), set_int_range(0, columns * rows));
}

/// A coordinate below `span` lies in one of the cells that cover `span`.
proof fn lemma_cell_of_coordinate(a: int, span: int, side: int)
    requires
        0 <= a < span,
        side >= 1,
    ensures
        0 <= a / side < cells_across(span, side),
        0 <= cells_across(span, side),
{
    let cell = a / side;
    let cells = (span + side - 1) / side;
    lemma_fundamental_div_mod(a, side);
    lemma_fundamental_div_mod(span + side - 1, side);
    assert(side * cell == cell * side) by (nonlinear_arith);
    assert(side * cells == cells * side) by (nonlinear_arith);
    assert(0 <= cell < cells) by (nonlinear_arith)
        requires
            cell * side <= a,
            a < cell * side + side,
            cells * side <= span + side - 1,
            span + side - 1 < cells * side + side,
            0 <= a < span,
            side >= 1,
    ;
}

/// Two coordinates in one cell differ by less than the side of the cell, so
/// the square of their difference is at most that of the side less one.
proof fn lemma_same_cell_is_close(a: int, b: int, side: int)
    requires
        side >= 1,
        a / side == b / side,
    ensures
        (a - b) * (a - b) <= (side - 1) * (side - 1),
{
    lemma_fundamental_div_mod(a, side);
    lemma_fundamental_div_mod(b, side);
    assert((a - b) * (a - b) <= (side - 1) * (side - 1)) by (nonlinear_arith)
        requires
            -(side - 1) <= a - b <= side - 1,
    ;
}

/// What a sampler holds, as mathematical values.
pub struct SamplerState {
    pub bounds: Bounds,
    pub minimum_distance: u32,
    /// The anchors accepted so far, the seed first.
    pub accepted: Seq<Point>,
    /// The candidates that wait to be judged, the oldest first.
    pub frontier: Seq<Point>,
}

impl SamplerState {
    /// The invariant of a sampler: there is a seed, the accepted anchors keep
    /// their distance, and everything but the seed lies inside the bounds.
    pub open spec fn wf(self) -> bool {
        &&& self.minimum_distance >= 1
        &&& self.accepted.len() >= 1
        &&& pairwise_separated(self.accepted, self.minimum_distance as int)
        &&& forall|i: int|
            1 <= i < self.accepted.len() ==> self.bounds.spec_contains(#[trigger] self.accepted[i])
        &&& forall|i: int|
            0 <= i < self.frontier.len() ==> self.bounds.spec_contains(#[trigger] self.frontier[i])
    }

    /// How many more anchors can be accepted at most.
    pub open spec fn room(self) -> int {
        1 + lattice_capacity(self.bounds) - self.accepted.len()
    }

    /// An upper bound on the number of candidates that can still be judged,
    /// if every anchor sends at most one batch to the frontier.
    pub open spec fn remaining_work(self) -> int {
        CANDIDATES_PER_ANCHOR * self.room() + self.frontier.len()
    }

    /// A sampler never holds more anchors than the seed and one for every
    /// lattice point inside its bounds.
    pub proof fn lemma_anchors_bounded(self)
        requires
            self.wf(),
        ensures
            self.accepted.len() <= 1 + lattice_capacity(self.bounds),
            self.room() >= 0,
            self.remaining_work() >= 0,
    {
        let grown = self.accepted.skip(1);
        assert forall|i: int, j: int| 0 <= i < j < grown.len() implies keeps_distance(
            #[trigger] grown[i],
            #[trigger] grown[j],
            self.minimum_distance as int,
        ) by {
            assert(keeps_distance(
                self.accepted[i + 1],
                self.accepted[j + 1],
                self.minimum_distance as int,
            ));
        }
        assert forall|i: int| 0 <= i < grown.len() implies self.bounds.spec_contains(
            #[trigger] grown[i],
        ) by {
            assert(self.bounds.spec_contains(self.accepted[i + 1]));
        }
        lemma_separated_points_fit(grown, self.bounds, self.minimum_distance as int);
        assert(CANDIDATES_PER_ANCHOR * self.room() >= 0) by (nonlinear_arith)
            requires
                self.room() >= 0,
                CANDIDATES_PER_ANCHOR == 25,
        ;
    }
}

impl SamplerState {
    /// A sampler holds no more anchors than the seed and one for every cell
    /// that is too small for two: see [`lemma_separated_points_packed`].
    pub proof fn lemma_anchors_packed(self, side: int)
        requires
            self.wf(),
            side >= 1,
            2 * ((side - 1) * (side - 1)) < self.minimum_distance * self.minimum_distance,
        ensures
            self.accepted.len() <= 1 + cells_across(lattice_span(self.bounds.width), side)
                * cells_across(lattice_span(self.bounds.height), side),
    {
        let grown = self.accepted.skip(1);
        assert forall|i: int, j: int| 0 <= i < j < grown.len() implies keeps_distance(
            #[trigger] grown[i],
            #[trigger] grown[j],
            self.minimum_distance as int,
        ) by {
            assert(keeps_distance(
                self.accepted[i + 1],
                self.accepted[j + 1],
                self.minimum_distance as int,
            ));
        }
        assert forall|i: int| 0 <= i < grown.len() implies self.bounds.spec_contains(
            #[trigger] grown[i],
        ) by {
            assert(self.bounds.spec_contains(self.accepted[i + 1]));
        }
        lemma_separated_points_packed(grown, self.bounds, self.minimum_distance as int, side);
    }
}

/// A dart-throwing sampler in the middle of its work.
pub struct AnchorSampler {
    bounds: Bounds,
    minimum_distance: u32,
    accepted: Vec<Point>,
    frontier: VecDeque<Point>,
}

impl View for AnchorSampler {
    type V = SamplerState;

    closed spec fn view(&self) -> SamplerState {
        SamplerState {
            bounds: self.bounds,
            minimum_distance: self.minimum_distance,
            accepted: self.accepted@,
            frontier: self.frontier@,
        }
    }
}

impl DistanceRange {
    /// The range is positive and in order.
    pub open spec fn wf(self) -> bool {
        1 <= self.minimum <= self.maximum
    }

    /// The range from the minimum distance to twice the minimum distance.
    pub open spec fn spec_around(minimum_distance: u32) -> DistanceRange {
        DistanceRange {
            minimum: minimum_distance as u64,
            maximum: (2 * minimum_distance) as u64,
        }
    }

    /// The range from the minimum distance to twice the minimum distance.
    pub fn around(minimum_distance: u32) -> (range: DistanceRange)
        ensures
            range == Self::spec_around(minimum_distance),
            range.wf() <==> minimum_distance >= 1,
    {
        let minimum: u64 = minimum_distance as u64;
        DistanceRange { minimum, maximum: 2 * minimum }
    }
}

impl AnchorSampler {
    /// A sampler that has accepted `seed` and nothing else. The seed is taken
    /// as it is: it is not held against the bounds.
    pub fn new(bounds: Bounds, minimum_distance: u32, seed: Point) -> (sampler: AnchorSampler)
        requires
            minimum_distance >= 1,
        ensures
            sampler@.wf(),
            sampler@.bounds == bounds,
            sampler@.minimum_distance == minimum_distance,
            sampler@.accepted == seq![seed],
            sampler@.frontier == Seq::<Point>::empty(),
    {
        let mut accepted: Vec<Point> = Vec::new();
        accepted.push(seed);
        let sampler = AnchorSampler { bounds, minimum_distance, accepted, frontier: VecDeque::new() };
        assert(sampler@.accepted =~= seq![seed]);
        sampler
    }

    /// Whether `candidate` keeps the minimum distance to every accepted anchor.
    pub fn is_admissible(&self, candidate: &Point) -> (verdict: bool)
        ensures
            verdict == admissible(self@.accepted, *candidate, self@.minimum_distance as int),
    {
        let threshold: u128 = squared(self.minimum_distance);
        let mut i: usize = 0;
        while i < self.accepted.len()
            invariant
                i <= self.accepted.len(),
                threshold == self.minimum_distance * self.minimum_distance,
                forall|k: int|
                    0 <= k < i ==> keeps_distance(
                        #[trigger] self.accepted@[k],
                        *candidate,
                        self.minimum_distance as int,
                    ),
            decreases self.accepted.len() - i,
        {
            if self.accepted[i].squared_distance_from(candidate) < threshold {
                return false;
            }
            i += 1;
        }
        true
    }

    /// Puts `candidate` at the back of the frontier if it lies inside the
    /// bounds, and says whether it did. A candidate outside the bounds is
    /// dropped.
    pub fn enqueue(&mut self, candidate: Point) -> (queued: bool)
        requires
            old(self)@.wf(),
        ensures
            final(self)@.wf(),
            queued == old(self)@.bounds.spec_contains(candidate),
            final(self)@ == if queued {
                (SamplerState { frontier: old(self)@.frontier.push(candidate), ..old(self)@ })
            } else {
                old(self)@
            },
    {
        if self.bounds.contains(&candidate) {
            self.frontier.push_back(candidate);
            true
        } else {
            false
        }
    }

    /// Judges the candidates at the front of the frontier, oldest first, until
    /// one is admissible; that one becomes an anchor and is returned. The
    /// candidates before it are dropped. When none is admissible the frontier
    /// ends up empty and `None` is returned.
    ///
    /// With every anchor the work that can remain shrinks by more than one
    /// batch of candidates, so a caller that answers every anchor with one
    /// batch comes to an end.
    pub fn next_anchor(&mut self) -> (anchor: Option<Point>)
        requires
            old(self)@.wf(),
        ensures
            final(self)@.wf(),
            final(self)@.bounds == old(self)@.bounds,
            final(self)@.minimum_distance == old(self)@.minimum_distance,
            0 <= final(self)@.remaining_work() <= old(self)@.remaining_work(),
            anchor is Some ==> final(self)@.remaining_work() + CANDIDATES_PER_ANCHOR < old(
                self,
            )@.remaining_work(),
            match anchor {
                Some(point) => exists|k: int|
                    {
                        &&& 0 <= k < old(self)@.frontier.len()
                        &&& point == #[trigger] old(self)@.frontier[k]
                        &&& admissible(
                            old(self)@.accepted,
                            point,
                            old(self)@.minimum_distance as int,
                        )
                        &&& forall|i: int|
                            0 <= i < k ==> !admissible(
                                old(self)@.accepted,
                                #[trigger] old(self)@.frontier[i],
                                old(self)@.minimum_distance as int,
                            )
                        &&& final(self)@.accepted == old(self)@.accepted.push(point)
                        &&& final(self)@.frontier == old(self)@.frontier.skip(k + 1)
                    },
                None => {
                    &&& forall|i: int|
                        0 <= i < old(self)@.frontier.len() ==> !admissible(
                            old(self)@.accepted,
                            #[trigger] old(self)@.frontier[i],
                            old(self)@.minimum_distance as int,
                        )
                    &&& final(self)@.accepted == old(self)@.accepted
                    &&& final(self)@.frontier == Seq::<Point>::empty()
                },
            },
    {
        let ghost mut dropped: int = 0;
        loop
            invariant
                self@.wf(),
                self@.bounds == old(self)@.bounds,
                self@.minimum_distance == old(self)@.minimum_distance,
                self@.accepted == old(self)@.accepted,
                0 <= dropped <= old(self)@.frontier.len(),
                self@.frontier == old(self)@.frontier.skip(dropped),
                forall|i: int|
                    0 <= i < dropped ==> !admissible(
                        old(self)@.accepted,
                        #[trigger] old(self)@.frontier[i],
                        old(self)@.minimum_distance as int,
                    ),
            decreases self@.frontier.len(),
        {
            match self.frontier.pop_front() {
                None => {
                    assert(self@.frontier =~= Seq::<Point>::empty());
                    proof {
                        self@.lemma_anchors_bounded();
                    }
                    return None;
                },
                Some(candidate) => {
                    assert(candidate == old(self)@.frontier[dropped]);
                    assert(self@.frontier =~= old(self)@.frontier.skip(dropped + 1));
                    if self.is_admissible(&candidate) {
                        self.accepted.push(candidate);
                        proof {
                            self@.lemma_anchors_bounded();
                            let room = self@.room();
                            let before = old(self)@.room();
                            assert(CANDIDATES_PER_ANCHOR * room == CANDIDATES_PER_ANCHOR * before
                                - CANDIDATES_PER_ANCHOR) by (nonlinear_arith)
                                requires
                                    room == before - 1,
                            ;
                        }
                        return Some(candidate);
                    }
                    proof {
                        dropped = dropped + 1;
                    }
                },
            }
        }
    }

    /// The anchors accepted so far, the seed first.
    pub fn into_anchors(self) -> (anchors: Vec<Point>)
        ensures
            anchors@ == self@.accepted,
    {
        self.accepted
    }
}

/// Whether every point that `propose` can place around `center` lies inside
/// the bounds, if `inside` is true, or outside of them, if it is false.
pub open spec fn places_all<F: Fn(Point, DistanceRange, Bounds) -> Point>(
    propose: F,
    center: Point,
    distance: DistanceRange,
    bounds: Bounds,
    inside: bool,
) -> bool {
    forall|p: Point|
        #[trigger] propose.ensures((center, distance, bounds), p) ==> bounds.spec_contains(p)
            == inside
}

/// Asks `propose` for a point around `center` until one lies inside the
/// bounds, and returns that one; gives up with `None` after
/// [`MAX_PLACEMENT_ATTEMPTS`] proposals that fell outside.
///
/// A point is found where `propose` can only place inside the bounds, and
/// none where it can only place outside of them.
pub fn random_point_at_certain_distance<F>(
    center: &Point,
    distance: &DistanceRange,
    bounds: &Bounds,
    propose: &F,
) -> (point: Option<Point>) where F: Fn(Point, DistanceRange, Bounds) -> Point
    requires
        propose.requires((*center, *distance, *bounds)),
    ensures
        point matches Some(p) ==> bounds.spec_contains(p) && propose.ensures(
            (*center, *distance, *bounds),
            p,
        ),
        places_all(*propose, *center, *distance, *bounds, true) ==> point is Some,
        places_all(*propose, *center, *distance, *bounds, false) ==> point is None,
{
    let mut attempt: u32 = 0;
    while attempt < MAX_PLACEMENT_ATTEMPTS
        invariant
            propose.requires((*center, *distance, *bounds)),
            attempt > 0 ==> !places_all(*propose, *center, *distance, *bounds, true),
        decreases MAX_PLACEMENT_ATTEMPTS - attempt,
    {
        let candidate = propose(*center, *distance, *bounds);
        if bounds.contains(&candidate) {
            return Some(candidate);
        }
        attempt += 1;
    }
    None
}

/// The batch of candidates that an anchor at `center` sends to the frontier:
/// [`CANDIDATES_PER_ANCHOR`] placements, less those that were given up. All
/// of them lie inside the bounds.
///
/// The batch is full where `propose` can only place inside the bounds, and
/// empty where it can only place outside of them.
pub fn generate_anchor_candidates<F>(
    center: &Point,
    distance: &DistanceRange,
    bounds: &Bounds,
    propose: &F,
) -> (candidates: Vec<Point>) where F: Fn(Point, DistanceRange, Bounds) -> Point
    requires
        propose.requires((*center, *distance, *bounds)),
    ensures
        candidates.len() <= CANDIDATES_PER_ANCHOR,
        forall|i: int|
            0 <= i < candidates.len() ==> bounds.spec_contains(#[trigger] candidates[i])
                && propose.ensures((*center, *distance, *bounds), candidates[i]),
        places_all(*propose, *center, *distance, *bounds, true) ==> candidates.len()
            == CANDIDATES_PER_ANCHOR,
        places_all(*propose, *center, *distance, *bounds, false) ==> candidates.len() == 0,
{
    let mut candidates: Vec<Point> = Vec::new();
    let mut placed: usize = 0;
    while placed < CANDIDATES_PER_ANCHOR
        invariant
            propose.requires((*center, *distance, *bounds)),
            placed <= CANDIDATES_PER_ANCHOR,
            candidates.len() <= placed,
            forall|i: int|
                0 <= i < candidates.len() ==> bounds.spec_contains(#[trigger] candidates[i])
                    && propose.ensures((*center, *distance, *bounds), candidates[i]),
            places_all(*propose, *center, *distance, *bounds, true) ==> candidates.len() == placed,
            places_all(*propose, *center, *distance, *bounds, false) ==> candidates.len() == 0,
        decreases CANDIDATES_PER_ANCHOR - placed,
    {
        match random_point_at_certain_distance(center, distance, bounds, propose) {
            Some(candidate) => {
                candidates.push(candidate);
            },
            None => {},
        }
        placed += 1;
    }
    candidates
}

/// Whether every point that `propose` can place around `center` is at least
/// `minimum_distance` away from it.
pub open spec fn places_all_apart<F: Fn(Point, DistanceRange, Bounds) -> Point>(
    propose: F,
    center: Point,
    distance: DistanceRange,
    bounds: Bounds,
    minimum_distance: int,
) -> bool {
    forall|p: Point|
        #[trigger] propose.ensures((center, distance, bounds), p) ==> keeps_distance(
            center,
            p,
            minimum_distance,
        )
}

/// Whether `propose` can have placed `candidate` around one of the first
/// `limit` points of `centers`.
pub open spec fn placed_around<F: Fn(Point, DistanceRange, Bounds) -> Point>(
    propose: F,
    centers: Seq<Point>,
    limit: int,
    distance: DistanceRange,
    bounds: Bounds,
    candidate: Point,
) -> bool {
    exists|k: int|
        0 <= k < limit && k < centers.len() && propose.ensures(
            (#[trigger] centers[k], distance, bounds),
            candidate,
        )
}

/// Grows a set of anchors from `seed` until no candidate is left: every
/// anchor, the seed included, sends one batch of candidates around itself to
/// the frontier, and the candidates are judged in the order in which they
/// came. `propose` places one candidate around a centre; it stands for the
/// random source, and what it returns is taken as it comes.
///
/// The anchors keep the minimum distance, all but the seed lie inside the
/// bounds, and each of those was placed around an anchor before it. The
/// seed stays alone where `propose` can only place outside the bounds
/// around it. Where it can only place inside the bounds and at the minimum
/// distance or further from the seed, the first candidate around the seed
/// becomes the second anchor. The loop ends for every `propose`: the
/// anchors are distinct lattice points, so there are never more of them
/// than the bounds have room for.
pub fn generate_anchor_points<F>(
    bounds: &Bounds,
    minimum_distance: u32,
    seed: Point,
    propose: &F,
) -> (anchors: Vec<Point>) where F: Fn(Point, DistanceRange, Bounds) -> Point
    requires
        minimum_distance >= 1,
        forall|center: Point|
            propose.requires((center, DistanceRange::spec_around(minimum_distance), *bounds)),
    ensures
        anchors.len() >= 1,
        anchors[0] == seed,
        pairwise_separated(anchors@, minimum_distance as int),
        forall|i: int| 1 <= i < anchors.len() ==> bounds.spec_contains(#[trigger] anchors[i]),
        forall|i: int|
            1 <= i < anchors.len() ==> placed_around(
                *propose,
                anchors@,
                i,
                DistanceRange::spec_around(minimum_distance),
                *bounds,
                #[trigger] anchors[i],
            ),
        anchors.len() <= 1 + lattice_capacity(*bounds),
        places_all(
            *propose,
            seed,
            DistanceRange::spec_around(minimum_distance),
            *bounds,
            false,
        ) ==> anchors@ == seq![seed],
        (places_all(*propose, seed, DistanceRange::spec_around(minimum_distance), *bounds, true)
            && places_all_apart(
            *propose,
            seed,
            DistanceRange::spec_around(minimum_distance),
            *bounds,
            minimum_distance as int,
        )) ==> anchors.len() >= 2 && propose.ensures(
            (seed, DistanceRange::spec_around(minimum_distance), *bounds),
            anchors[1],
        ),
{
    let distance = DistanceRange::around(minimum_distance);
    let mut sampler = AnchorSampler::new(*bounds, minimum_distance, seed);
    let mut source = seed;
    let ghost mut first_round: bool = true;
    loop
        invariant
            first_round ==> sampler@.accepted == seq![seed] && sampler@.frontier.len() == 0,
            !first_round ==> sampler@.accepted.len() >= 2 && propose.ensures(
                (seed, distance, *bounds),
                sampler@.accepted[1],
            ),
            sampler@.wf(),
            sampler@.bounds == *bounds,
            sampler@.minimum_distance == minimum_distance,
            sampler@.accepted[0] == seed,
            source == sampler@.accepted.last(),
            distance == DistanceRange::spec_around(minimum_distance),
            forall|center: Point| propose.requires((center, distance, *bounds)),
            forall|i: int|
                1 <= i < sampler@.accepted.len() ==> placed_around(
                    *propose,
                    sampler@.accepted,
                    i,
                    distance,
                    *bounds,
                    #[trigger] sampler@.accepted[i],
                ),
            forall|i: int|
                0 <= i < sampler@.frontier.len() ==> placed_around(
                    *propose,
                    sampler@.accepted,
                    sampler@.accepted.len() as int,
                    distance,
                    *bounds,
                    #[trigger] sampler@.frontier[i],
                ),
        ensures
            (places_all(*propose, seed, distance, *bounds, true) && places_all_apart(
                *propose,
                seed,
                distance,
                *bounds,
                minimum_distance as int,
            )) ==> !first_round,
        decreases sampler@.remaining_work() + CANDIDATES_PER_ANCHOR,
    {
        let ghost before = sampler@;
        let candidates = generate_anchor_candidates(&source, &distance, bounds, propose);
        let mut i: usize = 0;
        while i < candidates.len()
            invariant
                first_round ==> sampler@.frontier == candidates@.take(i as int),
                forall|k: int|
                    0 <= k < candidates.len() ==> bounds.spec_contains(#[trigger] candidates[k]),
                i <= candidates.len(),
                sampler@.wf(),
                sampler@.bounds == *bounds,
                sampler@.minimum_distance == minimum_distance,
                sampler@.accepted == before.accepted,
                sampler@.frontier.len() <= before.frontier.len() + i,
                source == before.accepted.last(),
                before.accepted.len() >= 1,
                forall|k: int|
                    0 <= k < candidates.len() ==> propose.ensures(
                        (source, distance, *bounds),
                        #[trigger] candidates[k],
                    ),
                forall|k: int|
                    0 <= k < sampler@.frontier.len() ==> placed_around(
                        *propose,
                        before.accepted,
                        before.accepted.len() as int,
                        distance,
                        *bounds,
                        #[trigger] sampler@.frontier[k],
                    ),
            decreases candidates.len() - i,
        {
            let ghost earlier = sampler@.frontier;
            let candidate = candidates[i];
            sampler.enqueue(candidate);
            proof {
                if first_round {
                    assert(sampler@.frontier =~= candidates@.take(i + 1));
                }
                assert(before.accepted[before.accepted.len() - 1] == source);
                assert(placed_around(
                    *propose,
                    before.accepted,
                    before.accepted.len() as int,
                    distance,
                    *bounds,
                    candidate,
                ));
                assert forall|k: int| 0 <= k < sampler@.frontier.len() implies placed_around(
                    *propose,
                    before.accepted,
                    before.accepted.len() as int,
                    distance,
                    *bounds,
                    #[trigger] sampler@.frontier[k],
                ) by {
                    if k < earlier.len() {
                        assert(sampler@.frontier[k] == earlier[k]);
                    }
                }
            }
            i += 1;
        }
        let ghost queued = sampler@;
        match sampler.next_anchor() {
            None => {
                proof {
                    if first_round && places_all(*propose, seed, distance, *bounds, true)
                        && places_all_apart(
                        *propose,
                        seed,
                        distance,
                        *bounds,
                        minimum_distance as int,
                    ) {
                        assert(queued.frontier == candidates@);
                        assert(propose.ensures((seed, distance, *bounds), candidates[0]));
                        assert(keeps_distance(seed, queued.frontier[0], minimum_distance as int));
                        assert(admissible(
                            queued.accepted,
                            queued.frontier[0],
                            minimum_distance as int,
                        ));
                    }
                }
                break ;
            },
            Some(anchor) => {
                source = anchor;
                proof {
                    if first_round {
                        assert(queued.frontier == candidates@.take(candidates.len() as int));
                        assert(sampler@.accepted[1] == anchor);
                    } else {
                        assert(sampler@.accepted[1] == queued.accepted[1]);
                    }
                    first_round = false;
                    let taken = choose|k: int|
                        0 <= k < queued.frontier.len() && anchor == #[trigger] queued.frontier[k]
                            && sampler@.accepted == queued.accepted.push(anchor)
                            && sampler@.frontier == queued.frontier.skip(k + 1);
                    let count = queued.accepted.len() as int;
                    assert forall|c: Point|
                        placed_around(
                            *propose,
                            queued.accepted,
                            count,
                            distance,
                            *bounds,
                            c,
                        ) implies placed_around(
                        *propose,
                        sampler@.accepted,
                        count,
                        distance,
                        *bounds,
                        c,
                    ) by {
                        let k = choose|k: int|
                            0 <= k < count && k < queued.accepted.len() && propose.ensures(
                                (#[trigger] queued.accepted[k], distance, *bounds),
                                c,
                            );
                        assert(sampler@.accepted[k] == queued.accepted[k]);
                    }
                    assert forall|i: int| 1 <= i < sampler@.accepted.len() implies placed_around(
                        *propose,
                        sampler@.accepted,
                        i,
                        distance,
                        *bounds,
                        #[trigger] sampler@.accepted[i],
                    ) by {
                        if i < count {
                            assert(sampler@.accepted[i] == queued.accepted[i]);
                            let k = choose|k: int|
                                0 <= k < i && k < queued.accepted.len() && propose.ensures(
                                    (#[trigger] queued.accepted[k], distance, *bounds),
                                    queued.accepted[i],
                                );
                            assert(sampler@.accepted[k] == queued.accepted[k]);
                        } else {
                            assert(sampler@.accepted[i] == queued.frontier[taken]);
                        }
                    }
                    assert forall|i: int| 0 <= i < sampler@.frontier.len() implies placed_around(
                        *propose,
                        sampler@.accepted,
                        sampler@.accepted.len() as int,
                        distance,
                        *bounds,
                        #[trigger] sampler@.frontier[i],
                    ) by {
                        assert(sampler@.frontier[i] == queued.frontier[taken + 1 + i]);
                        let c = sampler@.frontier[i];
                        assert(placed_around(
                            *propose,
                            sampler@.accepted,
                            count,
                            distance,
                            *bounds,
                            c,
                        ));
                        let k = choose|k: int|
                            0 <= k < count && k < sampler@.accepted.len() && propose.ensures(
                                (#[trigger] sampler@.accepted[k], distance, *bounds),
                                c,
                            );
                        assert(0 <= k < sampler@.accepted.len());
                    }
                }
            },
        }
    }
    proof {
        sampler@.lemma_anchors_bounded();
        if !first_round {
            assert(bounds.spec_contains(sampler@.accepted[1]));
        }
    }
    sampler.into_anchors()
}

} // verus!
