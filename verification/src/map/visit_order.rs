//! What it means for a sequence of visits to be the breadth-first traversal
//! of a grid from a starting cell, and what follows from it: the visited
//! cells are the reachable ones, and each depth is the least hop count.

use vstd::prelude::*;
use crate::map::{MapLevel, TraversalInfo};
use crate::map::direction::{heading, Direction};
use crate::map::route::lemma_doorway_between;

verus! {

/// Whether some visit among `visits` is at `cell`.
pub open spec fn visited(visits: Seq<TraversalInfo>, cell: (int, int)) -> bool {
    exists|j: int| 0 <= j < visits.len() && (#[trigger] visits[j]).cell() == cell
}

/// No cell is visited twice.
pub open spec fn visits_distinct(visits: Seq<TraversalInfo>) -> bool {
    forall|i: int, j: int|
        #![trigger visits[i], visits[j]]
        0 <= i < j < visits.len() ==> visits[i].cell() != visits[j].cell()
}

/// Depths never decrease along the sequence.
pub open spec fn depths_ascend(visits: Seq<TraversalInfo>) -> bool {
    forall|i: int, j: int|
        #![trigger visits[i], visits[j]]
        0 <= i <= j < visits.len() ==> visits[i].depth <= visits[j].depth
}

impl<const W: usize, const H: usize> MapLevel<W, H> {
    /// Each visit records the room that the grid holds at its cell.
    pub open spec fn visits_hold_rooms(&self, visits: Seq<TraversalInfo>) -> bool {
        forall|k: int|
            #![trigger visits[k]]
            0 <= k < visits.len() ==> self.room_at(visits[k].cell()) == Some(visits[k].room_info)
    }

    /// Whether the visit at position `p` is the first one with a doorway to
    /// `cell`: the visit from which `cell` is discovered.
    pub open spec fn entered_from(&self, visits: Seq<TraversalInfo>, cell: (int, int), p: int) -> bool {
        &&& 0 <= p < visits.len()
        &&& self.connected(visits[p].cell(), cell)
        &&& forall|q: int|
            0 <= q < p ==> !#[trigger] self.connected(visits[q].cell(), cell)
    }

    /// Whether the visit at position `k` is discovered from an earlier one
    /// and lies one hop deeper than it.
    pub open spec fn discovered(&self, visits: Seq<TraversalInfo>, k: int) -> bool {
        exists|p: int|
            p < k && #[trigger] self.entered_from(visits, visits[k].cell(), p) && visits[k].depth
                == visits[p].depth + 1
    }

    /// Each visit but the first is discovered from an earlier one, one hop
    /// deeper than it.
    pub open spec fn visits_chained(&self, visits: Seq<TraversalInfo>) -> bool {
        forall|k: int| 1 <= k < visits.len() ==> #[trigger] self.discovered(visits, k)
    }

    /// Every cell that can be entered from a visited cell is visited too.
    pub open spec fn visits_closed(&self, visits: Seq<TraversalInfo>) -> bool {
        forall|k: int, dir: Direction|
            #![trigger self.passage(visits[k].cell(), dir)]
            0 <= k < visits.len() && self.passage(visits[k].cell(), dir) ==> visited(
                visits,
                dir.step(visits[k].cell()),
            )
    }

    /// Visits come in the order of their discovery: a cell discovered from
    /// an earlier visit comes first, and of two cells discovered from the
    /// same visit the one in the direction tried first.
    pub open spec fn visits_in_discovery_order(&self, visits: Seq<TraversalInfo>) -> bool {
        forall|i: int, j: int, pi: int, pj: int|
            #![trigger self.entered_from(visits, visits[i].cell(), pi), self.entered_from(visits, visits[j].cell(), pj)]
            1 <= i < j < visits.len() && self.entered_from(visits, visits[i].cell(), pi)
                && self.entered_from(visits, visits[j].cell(), pj) ==> pi < pj || (pi == pj
                && heading(visits[pi].cell(), visits[i].cell()) < heading(
                visits[pj].cell(),
                visits[j].cell(),
            ))
    }

    /// Whether `visits` is the breadth-first traversal of the grid from
    /// `start`. From a cell without a room nothing is visited. Otherwise the
    /// start comes first at depth 0, and the rest follows in the order of
    /// discovery, each cell once, until nothing new can be entered.
    pub open spec fn is_breadth_first(&self, start: (int, int), visits: Seq<TraversalInfo>) -> bool {
        if self.room_at(start) is None {
            visits.len() == 0
        } else {
            &&& visits.len() > 0
            &&& visits[0].cell() == start
            &&& visits[0].depth == 0
            &&& self.visits_hold_rooms(visits)
            &&& visits_distinct(visits)
            &&& depths_ascend(visits)
            &&& self.visits_chained(visits)
            &&& self.visits_closed(visits)
            &&& self.visits_in_discovery_order(visits)
        }
    }
}

/// Each visit of a breadth-first traversal can be walked to from the start
/// through as many doorways as its depth says.
pub proof fn lemma_visit_has_route<const W: usize, const H: usize>(
    map: MapLevel<W, H>,
    start: (int, int),
    visits: Seq<TraversalInfo>,
    k: int,
)
    requires
        map.is_breadth_first(start, visits),
        0 <= k < visits.len(),
    ensures
        map.route_between(start, visits[k].cell(), visits[k].depth as int),
    decreases k,
{
    if k == 0 {
        let route = seq![start];
        assert(map.is_route_between(route, start, visits[k].cell(), 0));
    } else {
        assert(map.discovered(visits, k));
        let p = choose|p: int|
            p < k && #[trigger] map.entered_from(visits, visits[k].cell(), p) && visits[k].depth
                == visits[p].depth + 1;
        lemma_visit_has_route(map, start, visits, p);
        let hops = visits[p].depth as int;
        let before = choose|route: Seq<(int, int)>| #[trigger]
            map.is_route_between(route, start, visits[p].cell(), hops);
        let route = before.push(visits[k].cell());
        assert forall|i: int, j: int| 0 <= i && j == i + 1 && j < route.len() implies map.connected(
            #[trigger] route[i],
            #[trigger] route[j],
        ) by {
            if j < before.len() {
                assert(route[i] == before[i]);
                assert(route[j] == before[j]);
                assert(map.connected(before[i], before[j]));
            } else {
                assert(route[i] == before[hops]);
                assert(map.connected(visits[p].cell(), visits[k].cell()));
            }
        }
        assert(map.is_route_between(route, start, visits[k].cell(), hops + 1));
    }
}

/// The end of any route from the start is visited by a breadth-first
/// traversal, at a depth no greater than the length of the route.
pub proof fn lemma_route_end_is_visited<const W: usize, const H: usize>(
    map: MapLevel<W, H>,
    start: (int, int),
    visits: Seq<TraversalInfo>,
    route: Seq<(int, int)>,
) -> (k: int)
    requires
        map.is_breadth_first(start, visits),
        map.is_route(route),
        route[0] == start,
    ensures
        0 <= k < visits.len(),
        visits[k].cell() == route.last(),
        visits[k].depth <= route.len() - 1,
    decreases route.len(),
{
    if route.len() == 1 {
        0
    } else {
        let before = route.drop_last();
        assert forall|i: int, j: int| 0 <= i && j == i + 1 && j < before.len() implies map.connected(
            #[trigger] before[i],
            #[trigger] before[j],
        ) by {
            assert(before[i] == route[i]);
            assert(before[j] == route[j]);
            assert(map.connected(route[i], route[j]));
        }
        let near = lemma_route_end_is_visited(map, start, visits, before);
        let last = route.len() - 1;
        let from = route[last - 1];
        let to = route[last];
        assert(map.connected(from, to));
        assert(visits[near].cell() == from);
        let dir = lemma_doorway_between(map, from, to);
        assert(map.passage(visits[near].cell(), dir));
        assert(visited(visits, to));
        let j = choose|j: int| 0 <= j < visits.len() && (#[trigger] visits[j]).cell() == to;
        if j >= 1 {
            assert(map.discovered(visits, j));
            let p = choose|p: int|
                p < j && #[trigger] map.entered_from(visits, visits[j].cell(), p)
                    && visits[j].depth == visits[p].depth + 1;
            assert(map.connected(visits[near].cell(), visits[j].cell()));
            assert(p <= near);
            assert(visits[p].depth <= visits[near].depth);
        } else {
            assert(visits[0].depth <= visits[near].depth);
        }
        j
    }
}

/// In a breadth-first traversal the depth of each visit is the least number
/// of doorways on any route from the start to its cell.
pub proof fn lemma_depth_is_shortest<const W: usize, const H: usize>(
    map: MapLevel<W, H>,
    start: (int, int),
    visits: Seq<TraversalInfo>,
    k: int,
)
    requires
        map.is_breadth_first(start, visits),
        0 <= k < visits.len(),
    ensures
        map.shortest_hops(start, visits[k].cell(), visits[k].depth as int),
{
    lemma_visit_has_route(map, start, visits, k);
    let cell = visits[k].cell();
    assert forall|fewer: int| fewer < visits[k].depth implies !#[trigger] map.route_between(
        start,
        cell,
        fewer,
    ) by {
        if map.route_between(start, cell, fewer) {
            let route = choose|route: Seq<(int, int)>| #[trigger]
                map.is_route_between(route, start, cell, fewer);
            let j = lemma_route_end_is_visited(map, start, visits, route);
            if j < k {
                assert(visits[j].cell() != visits[k].cell());
            } else if k < j {
                assert(visits[k].cell() != visits[j].cell());
            }
        }
    }
}

/// A breadth-first traversal visits exactly the cells that can be reached
/// from the start.
pub proof fn lemma_visited_is_reachable<const W: usize, const H: usize>(
    map: MapLevel<W, H>,
    start: (int, int),
    visits: Seq<TraversalInfo>,
    cell: (int, int),
)
    requires
        map.is_breadth_first(start, visits),
    ensures
        visited(visits, cell) <==> map.reachable(start, cell),
{
    if visited(visits, cell) {
        let j = choose|j: int| 0 <= j < visits.len() && (#[trigger] visits[j]).cell() == cell;
        lemma_visit_has_route(map, start, visits, j);
    }
    if map.reachable(start, cell) {
        let hops = choose|hops: int| #[trigger] map.route_between(start, cell, hops);
        let route = choose|route: Seq<(int, int)>| #[trigger]
            map.is_route_between(route, start, cell, hops);
        let j = lemma_route_end_is_visited(map, start, visits, route);
    }
}

/// A breadth-first traversal enters each cell but the start through a
/// doorway from a cell visited before: the two are neighbours, and each of
/// the two rooms has its exit towards the other open.
pub proof fn lemma_entered_through_doorway<const W: usize, const H: usize>(
    map: MapLevel<W, H>,
    start: (int, int),
    visits: Seq<TraversalInfo>,
    k: int,
) -> (from: (int, Direction))
    requires
        map.is_breadth_first(start, visits),
        1 <= k < visits.len(),
    ensures
        0 <= from.0 < k,
        visits[k].cell() == from.1.step(visits[from.0].cell()),
        from.1.exit_of(visits[from.0].room_info),
        from.1.opposite().exit_of(visits[k].room_info),
{
    assert(map.discovered(visits, k));
    let p = choose|p: int|
        p < k && #[trigger] map.entered_from(visits, visits[k].cell(), p) && visits[k].depth
            == visits[p].depth + 1;
    let dir = lemma_doorway_between(map, visits[p].cell(), visits[k].cell());
    assert(map.room_at(visits[p].cell()) == Some(visits[p].room_info));
    assert(map.room_at(visits[k].cell()) == Some(visits[k].room_info));
    (p, dir)
}

/// Where two traversals agree before position `k` and differ at it, the
/// cell that the second visits at `k` is visited later by the first, and
/// discovered there from the same position.
proof fn lemma_visited_later<const W: usize, const H: usize>(
    map: MapLevel<W, H>,
    a: Seq<TraversalInfo>,
    b: Seq<TraversalInfo>,
    k: int,
    p: int,
) -> (j: int)
    requires
        map.visits_closed(a),
        visits_distinct(b),
        1 <= k < b.len(),
        k <= a.len(),
        forall|i: int| 0 <= i < k ==> a[i] == b[i],
        p < k,
        map.entered_from(b, b[k].cell(), p),
        k < a.len() ==> a[k].cell() != b[k].cell(),
    ensures
        k < j < a.len(),
        a[j].cell() == b[k].cell(),
        map.entered_from(a, b[k].cell(), p),
{
    let cell = b[k].cell();
    assert(a[p] == b[p]);
    let dir = lemma_doorway_between(map, a[p].cell(), cell);
    assert(map.passage(a[p].cell(), dir));
    assert(visited(a, cell));
    let j = choose|j: int| 0 <= j < a.len() && (#[trigger] a[j]).cell() == cell;
    if j < k {
        assert(a[j] == b[j]);
        assert(b[j].cell() != b[k].cell());
    }
    assert forall|q: int| 0 <= q < p implies !#[trigger] map.connected(a[q].cell(), cell) by {
        assert(a[q] == b[q]);
        assert(!map.connected(b[q].cell(), cell));
    }
    j
}

/// The same statement as `is_breadth_first`, kept folded so that a proof
/// draws from it only what it asks for.
#[verifier::opaque]
spec fn sealed<const W: usize, const H: usize>(
    map: MapLevel<W, H>,
    start: (int, int),
    visits: Seq<TraversalInfo>,
) -> bool {
    map.is_breadth_first(start, visits)
}

/// What a traversal says of its first visit.
proof fn lemma_sealed_first<const W: usize, const H: usize>(
    map: MapLevel<W, H>,
    start: (int, int),
    visits: Seq<TraversalInfo>,
)
    requires
        sealed(map, start, visits),
    ensures
        map.room_at(start) is None ==> visits.len() == 0,
        map.room_at(start) is Some ==> visits.len() > 0 && visits[0].cell() == start
            && visits[0].depth == 0 && map.room_at(start) == Some(visits[0].room_info),
{
    reveal(sealed);
}

/// The position from which the visit at `k` is discovered.
proof fn lemma_sealed_parent<const W: usize, const H: usize>(
    map: MapLevel<W, H>,
    start: (int, int),
    visits: Seq<TraversalInfo>,
    k: int,
) -> (p: int)
    requires
        sealed(map, start, visits),
        1 <= k < visits.len(),
    ensures
        0 <= p < k,
        map.entered_from(visits, visits[k].cell(), p),
        visits[k].depth == visits[p].depth + 1,
        map.room_at(visits[k].cell()) == Some(visits[k].room_info),
{
    reveal(sealed);
    assert(map.discovered(visits, k));
    choose|p: int|
        p < k && #[trigger] map.entered_from(visits, visits[k].cell(), p) && visits[k].depth
            == visits[p].depth + 1
}

/// `lemma_visited_later` for folded traversals.
proof fn lemma_sealed_later<const W: usize, const H: usize>(
    map: MapLevel<W, H>,
    start: (int, int),
    a: Seq<TraversalInfo>,
    b: Seq<TraversalInfo>,
    k: int,
    p: int,
) -> (j: int)
    requires
        sealed(map, start, a),
        sealed(map, start, b),
        1 <= k < b.len(),
        k <= a.len(),
        forall|i: int| 0 <= i < k ==> a[i] == b[i],
        p < k,
        map.entered_from(b, b[k].cell(), p),
        k < a.len() ==> a[k].cell() != b[k].cell(),
    ensures
        k < j < a.len(),
        a[j].cell() == b[k].cell(),
        map.entered_from(a, b[k].cell(), p),
{
    reveal(sealed);
    lemma_visited_later(map, a, b, k, p)
}

/// The order of discovery at two positions.
proof fn lemma_sealed_order<const W: usize, const H: usize>(
    map: MapLevel<W, H>,
    start: (int, int),
    visits: Seq<TraversalInfo>,
    i: int,
    j: int,
    pi: int,
    pj: int,
)
    requires
        sealed(map, start, visits),
        1 <= i < j < visits.len(),
        map.entered_from(visits, visits[i].cell(), pi),
        map.entered_from(visits, visits[j].cell(), pj),
    ensures
        pi < pj || (pi == pj && heading(visits[pi].cell(), visits[i].cell()) < heading(
            visits[pj].cell(),
            visits[j].cell(),
        )),
{
    reveal(sealed);
}

/// Two traversals that agree before position `k` visit the same cell at `k`.
proof fn lemma_next_cell_agrees<const W: usize, const H: usize>(
    map: MapLevel<W, H>,
    start: (int, int),
    a: Seq<TraversalInfo>,
    b: Seq<TraversalInfo>,
    k: int,
    pa: int,
    pb: int,
)
    requires
        sealed(map, start, a),
        sealed(map, start, b),
        1 <= k < a.len(),
        k < b.len(),
        forall|i: int| 0 <= i < k ==> a[i] == b[i],
        0 <= pa < k,
        0 <= pb < k,
        map.entered_from(a, a[k].cell(), pa),
        map.entered_from(b, b[k].cell(), pb),
    ensures
        a[k].cell() == b[k].cell(),
{
    if a[k].cell() != b[k].cell() {
        let ja = lemma_sealed_later(map, start, a, b, k, pb);
        let jb = lemma_sealed_later(map, start, b, a, k, pa);
        lemma_sealed_order(map, start, a, k, ja, pa, pb);
        lemma_sealed_order(map, start, b, k, jb, pb, pa);
        assert(a[pa] == b[pa]);
        assert(a[pb] == b[pb]);
    }
}

/// Two breadth-first traversals of one grid from one start agree on their
/// first `n` visits.
proof fn lemma_common_prefix<const W: usize, const H: usize>(
    map: MapLevel<W, H>,
    start: (int, int),
    a: Seq<TraversalInfo>,
    b: Seq<TraversalInfo>,
    n: int,
)
    requires
        sealed(map, start, a),
        sealed(map, start, b),
        0 <= n <= a.len(),
        n <= b.len(),
    ensures
        forall|i: int| 0 <= i < n ==> a[i] == b[i],
    decreases n,
{
    if n > 0 {
        lemma_common_prefix(map, start, a, b, n - 1);
        let k = n - 1;
        lemma_sealed_first(map, start, a);
        lemma_sealed_first(map, start, b);
        if k == 0 {
            assert(a[0].cell() == b[0].cell());
            assert(a[0] == b[0]);
        } else {
            let pa = lemma_sealed_parent(map, start, a, k);
            let pb = lemma_sealed_parent(map, start, b, k);
            lemma_next_cell_agrees(map, start, a, b, k, pa, pb);
            assert(a[pa] == b[pa]);
            assert(a[pb] == b[pb]);
            assert(map.connected(b[pa].cell(), b[k].cell()));
            assert(map.connected(a[pb].cell(), a[k].cell()));
            assert(pa == pb);
            assert(a[k] == b[k]);
        }
    }
}

/// A grid has one breadth-first traversal from each start: two sequences
/// of visits that both are one are the same sequence, visit by visit.
pub proof fn lemma_breadth_first_unique<const W: usize, const H: usize>(
    map: MapLevel<W, H>,
    start: (int, int),
    a: Seq<TraversalInfo>,
    b: Seq<TraversalInfo>,
)
    requires
        map.is_breadth_first(start, a),
        map.is_breadth_first(start, b),
    ensures
        a == b,
{
    assert(sealed(map, start, a) && sealed(map, start, b)) by {
        reveal(sealed);
    }
    lemma_sealed_first(map, start, a);
    lemma_sealed_first(map, start, b);
    if a.len() < b.len() {
        let k = a.len() as int;
        lemma_common_prefix(map, start, a, b, k);
        let p = lemma_sealed_parent(map, start, b, k);
        let j = lemma_sealed_later(map, start, a, b, k, p);
    } else if b.len() < a.len() {
        let k = b.len() as int;
        lemma_common_prefix(map, start, b, a, k);
        let p = lemma_sealed_parent(map, start, a, k);
        let j = lemma_sealed_later(map, start, b, a, k, p);
    } else {
        lemma_common_prefix(map, start, a, b, a.len() as int);
        assert(a =~= b);
    }
}

} // verus!
