use idle_dungeon_maker::map::direction::{Direction, TRAVERSAL_DIRS};
use idle_dungeon_maker::map::room::room_type;
use idle_dungeon_maker::map::room::SimpleRoomDrawInfo;

fn exits(left: bool, right: bool, top: bool, bottom: bool) -> SimpleRoomDrawInfo {
    SimpleRoomDrawInfo {
        left_exit: left,
        right_exit: right,
        top_exit: top,
        bottom_exit: bottom,
        symbol: None,
    }
}

#[test]
fn rotate_left_moves_each_exit_counter_clockwise() {
    let room = SimpleRoomDrawInfo {
        left_exit: false,
        right_exit: true,
        top_exit: false,
        bottom_exit: false,
        symbol: Some('x'),
    };
    let turned = room.rotate_left();
    assert_eq!(
        turned,
        SimpleRoomDrawInfo {
            left_exit: false,
            right_exit: false,
            top_exit: true,
            bottom_exit: false,
            symbol: Some('x'),
        }
    );
    assert_eq!(turned.rotate_left(), exits_with(true, false, false, false, 'x'));
    assert_eq!(turned.rotate_left().rotate_left(), exits_with(false, false, false, true, 'x'));
}

fn exits_with(left: bool, right: bool, top: bool, bottom: bool, symbol: char) -> SimpleRoomDrawInfo {
    SimpleRoomDrawInfo {
        left_exit: left,
        right_exit: right,
        top_exit: top,
        bottom_exit: bottom,
        symbol: Some(symbol),
    }
}

#[test]
fn rotate_right_moves_each_exit_clockwise() {
    let room = exits(false, false, true, false);
    assert_eq!(room.rotate_right(), exits(false, true, false, false));
    assert_eq!(room.rotate_right().rotate_right(), exits(false, false, false, true));
    assert_eq!(
        room.rotate_right().rotate_right().rotate_right(),
        exits(true, false, false, false)
    );
}

#[test]
fn rotations_form_a_group_on_every_room() {
    for bits in 0..16u8 {
        for symbol in [None, Some('E')] {
            let room = SimpleRoomDrawInfo {
                left_exit: bits & 1 != 0,
                right_exit: bits & 2 != 0,
                top_exit: bits & 4 != 0,
                bottom_exit: bits & 8 != 0,
                symbol,
            };
            assert_eq!(room.rotate_left().rotate_left().rotate_left().rotate_left(), room);
            assert_eq!(room.rotate_right().rotate_right().rotate_right().rotate_right(), room);
            assert_eq!(room.rotate_left().rotate_left().rotate_left(), room.rotate_right());
            assert_eq!(room.rotate_right().rotate_right().rotate_right(), room.rotate_left());
            assert_eq!(room.rotate_left().rotate_right(), room);
            assert_eq!(room.rotate_right().rotate_left(), room);
            assert_eq!(room.rotate_left().symbol, symbol);
        }
    }
}

#[test]
fn catalog_has_the_six_shapes() {
    assert_eq!(room_type::dead_end(), exits(false, false, true, false));
    assert_eq!(room_type::hall(), exits(false, false, true, true));
    assert_eq!(room_type::l(), exits(false, true, true, false));
    assert_eq!(room_type::t(), exits(true, true, true, false));
    assert_eq!(room_type::crossing(), exits(true, true, true, true));
    assert_eq!(room_type::no_exit(), exits(false, false, false, false));
    assert_eq!(
        room_type::all_types(),
        [
            room_type::dead_end(),
            room_type::l(),
            room_type::hall(),
            room_type::t(),
            room_type::crossing(),
            room_type::no_exit(),
        ]
    );
}

#[test]
fn rotated_room_without_exits_stays_closed() {
    assert_eq!(room_type::no_exit().rotate_left(), room_type::no_exit());
    assert_eq!(room_type::no_exit().rotate_right(), room_type::no_exit());
    assert_eq!(room_type::crossing().rotate_left(), room_type::crossing());
}

#[test]
fn directions_are_tried_left_right_up_down() {
    assert_eq!(
        TRAVERSAL_DIRS,
        [Direction::Left, Direction::Right, Direction::Up, Direction::Down]
    );
    assert_eq!((Direction::Left.row_add(), Direction::Left.col_add()), (0, -1));
    assert_eq!((Direction::Right.row_add(), Direction::Right.col_add()), (0, 1));
    assert_eq!((Direction::Up.row_add(), Direction::Up.col_add()), (-1, 0));
    assert_eq!((Direction::Down.row_add(), Direction::Down.col_add()), (1, 0));
}

#[test]
fn doorway_needs_both_exits() {
    let left_only = exits(true, false, false, false);
    let right_only = exits(false, true, false, false);
    let top_only = exits(false, false, true, false);
    let bottom_only = exits(false, false, false, true);

    assert!(Direction::Left.passable(left_only, right_only));
    assert!(!Direction::Left.passable(left_only, left_only));
    assert!(!Direction::Left.passable(right_only, right_only));

    assert!(Direction::Right.passable(right_only, left_only));
    assert!(!Direction::Right.passable(right_only, right_only));
    assert!(!Direction::Right.passable(left_only, left_only));

    assert!(Direction::Up.passable(top_only, bottom_only));
    assert!(!Direction::Up.passable(top_only, top_only));
    assert!(!Direction::Up.passable(bottom_only, bottom_only));

    assert!(Direction::Down.passable(bottom_only, top_only));
    assert!(!Direction::Down.passable(bottom_only, bottom_only));
    assert!(!Direction::Down.passable(top_only, top_only));

    for dir in TRAVERSAL_DIRS {
        assert!(dir.passable(room_type::crossing(), room_type::crossing()));
        assert!(!dir.passable(room_type::crossing(), room_type::no_exit()));
        assert!(!dir.passable(room_type::no_exit(), room_type::crossing()));
    }
}
