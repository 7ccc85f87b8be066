//! The catalog of room shapes an editor can place. Each shape is given in
//! one orientation; the others are reached by rotating it.

use vstd::prelude::*;
use crate::map::room::SimpleRoomDrawInfo;

verus! {

/// A room with a single exit, at the top.
pub open spec fn dead_end_shape() -> SimpleRoomDrawInfo {
    SimpleRoomDrawInfo {
        left_exit: false,
        right_exit: false,
        top_exit: true,
        bottom_exit: false,
        symbol: None,
    }
}

/// A room with a single exit, at the top.
#[verifier::when_used_as_spec(dead_end_shape)]
pub fn dead_end() -> (room: SimpleRoomDrawInfo)
    ensures
        room == dead_end_shape(),
{
    SimpleRoomDrawInfo {
        left_exit: false,
        right_exit: false,
        top_exit: true,
        bottom_exit: false,
        symbol: None,
    }
}

/// A straight hallway from top to bottom.
pub open spec fn hall_shape() -> SimpleRoomDrawInfo {
    SimpleRoomDrawInfo {
        left_exit: false,
        right_exit: false,
        top_exit: true,
        bottom_exit: true,
        symbol: None,
    }
}

/// A straight hallway from top to bottom.
#[verifier::when_used_as_spec(hall_shape)]
pub fn hall() -> (room: SimpleRoomDrawInfo)
    ensures
        room == hall_shape(),
{
    SimpleRoomDrawInfo {
        left_exit: false,
        right_exit: false,
        top_exit: true,
        bottom_exit: true,
        symbol: None,
    }
}

/// A corner joining the top and the right.
pub open spec fn l_shape() -> SimpleRoomDrawInfo {
    SimpleRoomDrawInfo {
        left_exit: false,
        right_exit: true,
        top_exit: true,
        bottom_exit: false,
        symbol: None,
    }
}

/// A corner joining the top and the right.
#[verifier::when_used_as_spec(l_shape)]
pub fn l() -> (room: SimpleRoomDrawInfo)
    ensures
        room == l_shape(),
{
    SimpleRoomDrawInfo {
        left_exit: false,
        right_exit: true,
        top_exit: true,
        bottom_exit: false,
        symbol: None,
    }
}

/// A junction open to the left, the right and the top.
pub open spec fn t_shape() -> SimpleRoomDrawInfo {
    SimpleRoomDrawInfo {
        left_exit: true,
        right_exit: true,
        top_exit: true,
        bottom_exit: false,
        symbol: None,
    }
}

/// A junction open to the left, the right and the top.
#[verifier::when_used_as_spec(t_shape)]
pub fn t() -> (room: SimpleRoomDrawInfo)
    ensures
        room == t_shape(),
{
    SimpleRoomDrawInfo {
        left_exit: true,
        right_exit: true,
        top_exit: true,
        bottom_exit: false,
        symbol: None,
    }
}

/// A crossing open on all four sides.
pub open spec fn crossing_shape() -> SimpleRoomDrawInfo {
    SimpleRoomDrawInfo {
        left_exit: true,
        right_exit: true,
        top_exit: true,
        bottom_exit: true,
        symbol: None,
    }
}

/// A crossing open on all four sides.
#[verifier::when_used_as_spec(crossing_shape)]
pub fn crossing() -> (room: SimpleRoomDrawInfo)
    ensures
        room == crossing_shape(),
{
    SimpleRoomDrawInfo {
        left_exit: true,
        right_exit: true,
        top_exit: true,
        bottom_exit: true,
        symbol: None,
    }
}

/// A closed room without any exit.
pub open spec fn no_exit_shape() -> SimpleRoomDrawInfo {
    SimpleRoomDrawInfo {
        left_exit: false,
        right_exit: false,
        top_exit: false,
        bottom_exit: false,
        symbol: None,
    }
}

/// A closed room without any exit.
#[verifier::when_used_as_spec(no_exit_shape)]
pub fn no_exit() -> (room: SimpleRoomDrawInfo)
    ensures
        room == no_exit_shape(),
{
    SimpleRoomDrawInfo {
        left_exit: false,
        right_exit: false,
        top_exit: false,
        bottom_exit: false,
        symbol: None,
    }
}

/// Every shape of the catalog, in the order in which an editor cycles
/// through them.
pub fn all_types() -> (shapes: [SimpleRoomDrawInfo; 6])
    ensures
        shapes@ == seq![
            dead_end_shape(),
            l_shape(),
            hall_shape(),
            t_shape(),
            crossing_shape(),
            no_exit_shape(),
        ],
{
    let shapes = [dead_end(), l(), hall(), t(), crossing(), no_exit()];
    assert(shapes@ =~= seq![
        dead_end_shape(),
        l_shape(),
        hall_shape(),
        t_shape(),
        crossing_shape(),
        no_exit_shape(),
    ]);
    shapes
}

} // verus!
