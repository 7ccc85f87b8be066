//! One cell of the grid: four doorways and an optional display symbol.

use vstd::prelude::*;

pub mod room_type;

verus! {

/// A room with up to four exits. Every combination of exits is a valid room.
#[derive(Clone, Copy, Debug, PartialEq)]
pub struct SimpleRoomDrawInfo {
    pub left_exit: bool,
    pub right_exit: bool,
    pub top_exit: bool,
    pub bottom_exit: bool,
    pub symbol: Option<char>,
}

impl SimpleRoomDrawInfo {
    /// The room turned a quarter turn counter-clockwise: each exit moves to
    /// the side that lies counter-clockwise of it, the symbol stays.
    pub open spec fn rotated_left(self) -> SimpleRoomDrawInfo {
        SimpleRoomDrawInfo {
            top_exit: self.right_exit,
            right_exit: self.bottom_exit,
            bottom_exit: self.left_exit,
            left_exit: self.top_exit,
            symbol: self.symbol,
        }
    }

    /// The room turned a quarter turn clockwise.
    pub open spec fn rotated_right(self) -> SimpleRoomDrawInfo {
        SimpleRoomDrawInfo {
            right_exit: self.top_exit,
            bottom_exit: self.right_exit,
            left_exit: self.bottom_exit,
            top_exit: self.left_exit,
            symbol: self.symbol,
        }
    }

    /// Turns the room a quarter turn counter-clockwise.
    pub fn rotate_left(self) -> (turned: SimpleRoomDrawInfo)
        ensures
            turned == self.rotated_left(),
    {
        SimpleRoomDrawInfo {
            top_exit: self.right_exit,
            right_exit: self.bottom_exit,
            bottom_exit: self.left_exit,
            left_exit: self.top_exit,
            symbol: self.symbol,
        }
    }

    /// Turns the room a quarter turn clockwise.
    pub fn rotate_right(self) -> (turned: SimpleRoomDrawInfo)
        ensures
            turned == self.rotated_right(),
    {
        SimpleRoomDrawInfo {
            right_exit: self.top_exit,
            bottom_exit: self.right_exit,
            left_exit: self.bottom_exit,
            top_exit: self.left_exit,
            symbol: self.symbol,
        }
    }
}

/// Quarter turns form a group of order four: four turns the same way give
/// the room back, three turns one way are one turn the other way, and a
/// turn followed by the opposite turn changes nothing.
pub proof fn lemma_rotation_group(room: SimpleRoomDrawInfo)
    ensures
        room.rotated_left().rotated_left().rotated_left().rotated_left() == room,
        room.rotated_right().rotated_right().rotated_right().rotated_right() == room,
        room.rotated_left().rotated_left().rotated_left() == room.rotated_right(),
        room.rotated_right().rotated_right().rotated_right() == room.rotated_left(),
        room.rotated_left().rotated_left() == room.rotated_right().rotated_right(),
        room.rotated_left().rotated_right() == room,
        room.rotated_right().rotated_left() == room,
{
}

/// A quarter turn keeps the symbol.
pub proof fn lemma_rotation_keeps_symbol(room: SimpleRoomDrawInfo)
    ensures
        room.rotated_left().symbol == room.symbol,
        room.rotated_right().symbol == room.symbol,
{
}

} // verus!
