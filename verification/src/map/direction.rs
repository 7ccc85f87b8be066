//! The four compass directions in which one room can open onto the next.

use vstd::prelude::*;
use crate::map::room::SimpleRoomDrawInfo;

verus! {

/// A side of a room, and the step on the grid that leaves through it.
#[derive(Clone, Copy, Debug, PartialEq, Eq)]
pub enum Direction {
    Left,
    Right,
    Up,
    Down,
}

/// The directions in the order in which a traversal tries them at each room.
pub const TRAVERSAL_DIRS: [Direction; 4] = [
    Direction::Left,
    Direction::Right,
    Direction::Up,
    Direction::Down,
];

impl Direction {
    /// The place of this direction in the order of trial.
    pub open spec fn rank(self) -> int {
        match self {
            Direction::Left => 0,
            Direction::Right => 1,
            Direction::Up => 2,
            Direction::Down => 3,
        }
    }

    /// The change of row when stepping this way. Rows grow downwards.
    pub open spec fn row_step(self) -> int {
        match self {
            Direction::Up => -1,
            Direction::Down => 1,
            _ => 0,
        }
    }

    /// The change of column when stepping this way.
    pub open spec fn col_step(self) -> int {
        match self {
            Direction::Left => -1,
            Direction::Right => 1,
            _ => 0,
        }
    }

    /// The cell one step this way from `cell`, given as `(row, col)`.
    pub open spec fn step(self, cell: (int, int)) -> (int, int) {
        (cell.0 + self.row_step(), cell.1 + self.col_step())
    }

    /// The direction that leads back.
    pub open spec fn opposite(self) -> Direction {
        match self {
            Direction::Left => Direction::Right,
            Direction::Right => Direction::Left,
            Direction::Up => Direction::Down,
            Direction::Down => Direction::Up,
        }
    }

    /// Whether `room` has an exit on this side.
    pub open spec fn exit_of(self, room: SimpleRoomDrawInfo) -> bool {
        match self {
            Direction::Left => room.left_exit,
            Direction::Right => room.right_exit,
            Direction::Up => room.top_exit,
            Direction::Down => room.bottom_exit,
        }
    }

    /// Whether a doorway joins `from_room` to `to_room`, the second lying
    /// one step this way from the first: the exit of the first on this side
    /// and the exit of the second on the facing side must both be open.
    pub open spec fn joins(self, from_room: SimpleRoomDrawInfo, to_room: SimpleRoomDrawInfo) -> bool {
        self.exit_of(from_room) && self.opposite().exit_of(to_room)
    }

    /// The change of row when stepping this way.
    pub fn row_add(self) -> (delta: isize)
        ensures
            delta == self.row_step(),
    {
        match self {
            Direction::Up => -1,
            Direction::Down => 1,
            _ => 0,
        }
    }

    /// The change of column when stepping this way.
    pub fn col_add(self) -> (delta: isize)
        ensures
            delta == self.col_step(),
    {
        match self {
            Direction::Left => -1,
            Direction::Right => 1,
            _ => 0,
        }
    }

    /// Decides whether a doorway joins `from_room` to the room `to_room`
    /// that lies one step this way.
    pub fn passable(self, from_room: SimpleRoomDrawInfo, to_room: SimpleRoomDrawInfo) -> (open: bool)
        ensures
            open == self.joins(from_room, to_room),
    {
        match self {
            Direction::Left => from_room.left_exit && to_room.right_exit,
            Direction::Right => from_room.right_exit && to_room.left_exit,
            Direction::Up => from_room.top_exit && to_room.bottom_exit,
            Direction::Down => from_room.bottom_exit && to_room.top_exit,
        }
    }
}

/// The rank of the direction that leads from `from` to the neighbouring cell
/// `to`, and 4 where `to` is no neighbour of `from`.
pub open spec fn heading(from: (int, int), to: (int, int)) -> int {
    if to == Direction::Left.step(from) {
        Direction::Left.rank()
    } else if to == Direction::Right.step(from) {
        Direction::Right.rank()
    } else if to == Direction::Up.step(from) {
        Direction::Up.rank()
    } else if to == Direction::Down.step(from) {
        Direction::Down.rank()
    } else {
        4
    }
}

} // verus!
