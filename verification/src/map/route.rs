//! Doorways, routes and hop counts on a grid, as mathematical notions.
//! Cells are pairs `(row, col)` of integers; cells outside the grid hold no
//! room.

use vstd::prelude::*;
use crate::map::MapLevel;
use crate::map::direction::Direction;
use crate::map::room::SimpleRoomDrawInfo;

verus! {

impl<const W: usize, const H: usize> MapLevel<W, H> {
    /// Whether `cell` lies on the grid.
    pub open spec fn in_bounds(cell: (int, int)) -> bool {
        0 <= cell.0 < H && 0 <= cell.1 < W
    }

    /// The room at `cell`, if the cell lies on the grid and holds one.
    pub open spec fn room_at(&self, cell: (int, int)) -> Option<SimpleRoomDrawInfo> {
        if Self::in_bounds(cell) {
            self.rooms[cell.0][cell.1]
        } else {
            None
        }
    }

    /// Whether one can walk from the room at `from` through its exit on the
    /// side `dir` into the next cell: both cells hold a room, and both
    /// rooms have their exit onto the shared edge open.
    pub open spec fn passage(&self, from: (int, int), dir: Direction) -> bool {
        match (self.room_at(from), self.room_at(dir.step(from))) {
            (Some(from_room), Some(to_room)) => dir.joins(from_room, to_room),
            _ => false,
        }
    }

    /// Whether `to` is a neighbour of `from` that can be entered from it.
    pub open spec fn connected(&self, from: (int, int), to: (int, int)) -> bool {
        ||| (to == Direction::Left.step(from) && self.passage(from, Direction::Left))
        ||| (to == Direction::Right.step(from) && self.passage(from, Direction::Right))
        ||| (to == Direction::Up.step(from) && self.passage(from, Direction::Up))
        ||| (to == Direction::Down.step(from) && self.passage(from, Direction::Down))
    }

    /// A route is a walk through doorways: it starts in a room, and each of
    /// its cells is entered from the one before.
    pub open spec fn is_route(&self, route: Seq<(int, int)>) -> bool {
        &&& route.len() > 0
        &&& self.room_at(route[0]) is Some
        &&& forall|i: int, j: int|
            #![trigger route[i], route[j]]
            0 <= i && j == i + 1 && j < route.len() ==> self.connected(route[i], route[j])
    }

    /// Whether `route` leads from `from` to `to` through exactly `hops`
    /// doorways.
    pub open spec fn is_route_between(
        &self,
        route: Seq<(int, int)>,
        from: (int, int),
        to: (int, int),
        hops: int,
    ) -> bool {
        &&& self.is_route(route)
        &&& route.len() == hops + 1
        &&& route[0] == from
        &&& route[hops] == to
    }

    /// Whether some route leads from `from` to `to` through exactly `hops`
    /// doorways.
    pub open spec fn route_between(&self, from: (int, int), to: (int, int), hops: int) -> bool {
        exists|route: Seq<(int, int)>| #[trigger] self.is_route_between(route, from, to, hops)
    }

    /// Whether `to` can be reached from `from` at all. A cell reaches itself
    /// exactly when it holds a room.
    pub open spec fn reachable(&self, from: (int, int), to: (int, int)) -> bool {
        exists|hops: int| #[trigger] self.route_between(from, to, hops)
    }

    /// Whether `hops` is the least number of doorways on any route from
    /// `from` to `to`.
    pub open spec fn shortest_hops(&self, from: (int, int), to: (int, int), hops: int) -> bool {
        &&& self.route_between(from, to, hops)
        &&& forall|fewer: int| fewer < hops ==> !#[trigger] self.route_between(from, to, fewer)
    }
}

/// A doorway needs both sides: one can pass from a cell in a direction only
/// if that cell and the next both lie on the grid, both hold a room, and
/// each room has its exit towards the other open. A room whose exit faces a
/// closed side, an empty cell or the edge of the grid leads nowhere on that
/// side. The doorway is the same from both sides.
pub proof fn lemma_doorway_needs_both_sides<const W: usize, const H: usize>(
    map: MapLevel<W, H>,
    from: (int, int),
    dir: Direction,
)
    ensures
        map.passage(from, dir) <==> {
            &&& MapLevel::<W, H>::in_bounds(from)
            &&& MapLevel::<W, H>::in_bounds(dir.step(from))
            &&& map.rooms[from.0][from.1] is Some
            &&& map.rooms[dir.step(from).0][dir.step(from).1] is Some
            &&& dir.exit_of(map.rooms[from.0][from.1].unwrap())
            &&& dir.opposite().exit_of(map.rooms[dir.step(from).0][dir.step(from).1].unwrap())
        },
        map.passage(from, dir) <==> map.connected(from, dir.step(from)),
        map.passage(from, dir) <==> map.passage(dir.step(from), dir.opposite()),
        map.connected(from, dir.step(from)) <==> map.connected(dir.step(from), from),
{
}

/// Connected cells are joined by a doorway in one of the four directions.
pub proof fn lemma_doorway_between<const W: usize, const H: usize>(
    map: MapLevel<W, H>,
    from: (int, int),
    to: (int, int),
) -> (dir: Direction)
    requires
        map.connected(from, to),
    ensures
        map.passage(from, dir),
        dir.step(from) == to,
{
    if to == Direction::Left.step(from) && map.passage(from, Direction::Left) {
        Direction::Left
    } else if to == Direction::Right.step(from) && map.passage(from, Direction::Right) {
        Direction::Right
    } else if to == Direction::Up.step(from) && map.passage(from, Direction::Up) {
        Direction::Up
    } else {
        Direction::Down
    }
}

/// Every cell on a route holds a room, so a cell without a room is reached
/// from nowhere, and nothing is reached from it.
pub proof fn lemma_route_passes_rooms<const W: usize, const H: usize>(
    map: MapLevel<W, H>,
    route: Seq<(int, int)>,
    i: int,
)
    requires
        map.is_route(route),
        0 <= i < route.len(),
    ensures
        map.room_at(route[i]) is Some,
{
    if i > 0 {
        assert(map.connected(route[i - 1], route[i]));
    }
}

/// A route has at least one cell, so no route has fewer than zero hops; and
/// a cell that holds a room reaches itself in zero hops.
pub proof fn lemma_zero_hops<const W: usize, const H: usize>(
    map: MapLevel<W, H>,
    cell: (int, int),
)
    requires
        map.room_at(cell) is Some,
    ensures
        map.shortest_hops(cell, cell, 0),
        map.reachable(cell, cell),
{
    assert(map.is_route_between(seq![cell], cell, cell, 0));
}

/// The least hop count between two cells is unique.
pub proof fn lemma_shortest_hops_unique<const W: usize, const H: usize>(
    map: MapLevel<W, H>,
    from: (int, int),
    to: (int, int),
    hops: int,
    other: int,
)
    requires
        map.shortest_hops(from, to, hops),
        map.shortest_hops(from, to, other),
    ensures
        hops == other,
{
}

} // verus!
