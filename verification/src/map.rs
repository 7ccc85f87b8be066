//! The room grid, the doorways between its rooms, and the breadth-first
//! traversal that measures hop counts from a starting room.

use vstd::prelude::*;
use crate::map::room::SimpleRoomDrawInfo;

pub mod depths;
pub mod direction;
pub mod label;
pub mod room;
pub mod route;
pub mod traverse;
pub mod visit_order;

verus! {

/// A grid of `H` rows and `W` columns. A cell holds a room or nothing; a
/// cell without a room cannot be entered.
pub struct MapLevel<const W: usize, const H: usize> {
    pub rooms: [[Option<SimpleRoomDrawInfo>; W]; H],
}

/// One visit of a traversal: the cell, the room found there, and the number
/// of doorways passed on the way from the start.
#[derive(Clone, Copy, Debug)]
pub struct TraversalInfo {
    pub depth: i32,
    pub row: isize,
    pub col: isize,
    pub room_info: SimpleRoomDrawInfo,
}

impl TraversalInfo {
    /// The visited cell as `(row, col)`.
    pub open spec fn cell(self) -> (int, int) {
        (self.row as int, self.col as int)
    }
}

} // verus!
