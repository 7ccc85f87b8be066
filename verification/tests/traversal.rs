use idle_dungeon_maker::map::room::room_type;
use idle_dungeon_maker::map::room::SimpleRoomDrawInfo;
use idle_dungeon_maker::map::{MapLevel, TraversalInfo};

fn count_some_2d<const W: usize, const H: usize, T>(array2d: [[Option<T>; W]; H]) -> usize {
    array2d
        .iter()
        .flat_map(|x| x.iter().filter(|xinner| xinner.is_some()))
        .count()
}

fn trace(visits: &Vec<TraversalInfo>) -> Vec<(isize, isize, i32)> {
    visits.iter().map(|ti| (ti.row, ti.col, ti.depth)).collect()
}

#[test]
fn test_room_rotation() {
    for room in room_type::all_types() {
        let l1 = room.rotate_left();
        let l2 = l1.rotate_left();
        let l3 = l2.rotate_left();
        let l4 = l3.rotate_left();

        let r1 = room.rotate_right();
        let r2 = r1.rotate_right();
        let r3 = r2.rotate_right();
        let r4 = r3.rotate_right();

        assert_eq!(l1, r3);
        assert_eq!(l2, r2);
        assert_eq!(room, l4);
        assert_eq!(room, r4);
    }

    let base_room = SimpleRoomDrawInfo {
        left_exit: true,
        right_exit: false,
        top_exit: false,
        bottom_exit: false,
        symbol: None,
    };

    assert!(!base_room.rotate_left().left_exit);
    assert!(!base_room.rotate_right().left_exit);

    assert!(base_room.rotate_left().bottom_exit);
    assert!(base_room.rotate_right().top_exit);
}

#[test]
fn map_test_basic_traversal() {
    let left_room = room_type::dead_end().rotate_right();
    let center_hall = room_type::hall().rotate_left();
    let right_room = room_type::dead_end().rotate_left();

    assert!(left_room.right_exit);
    assert!(center_hall.left_exit);
    assert!(center_hall.right_exit);
    assert!(right_room.left_exit);

    let map = MapLevel {
        rooms: [[Some(left_room), Some(center_hall), Some(right_room)]],
    };

    let mut traversal_result: [[Option<TraversalInfo>; 3]; 1] = [[None; 3]];

    for ti in map.breadth_traverse(0, 0) {
        traversal_result[ti.row as usize][ti.col as usize] = Some(ti);
    }

    for ti in traversal_result {
        assert!(!ti.is_empty())
    }

    let left_traversal = traversal_result[0][0].unwrap();
    let center_traversal = traversal_result[0][1].unwrap();
    let right_traversal = traversal_result[0][2].unwrap();

    assert_eq!(left_room, left_traversal.room_info);
    assert_eq!(left_traversal.depth, 0);
    assert_eq!(center_hall, center_traversal.room_info);
    assert_eq!(center_traversal.depth, 1);
    assert_eq!(right_room, right_traversal.room_info);
    assert_eq!(right_traversal.depth, 2);
}

#[test]
fn mod_test_basic_traversal() {
    let left_room = room_type::dead_end().rotate_right();
    let center_hall = room_type::hall().rotate_left();
    let right_room = room_type::dead_end().rotate_left();

    assert!(left_room.right_exit);
    assert!(center_hall.left_exit);
    assert!(center_hall.right_exit);
    assert!(right_room.left_exit);

    let map = MapLevel {
        rooms: [[Some(left_room), Some(center_hall), Some(right_room)]],
    };

    let mut traversal_result: [[Option<TraversalInfo>; 3]; 1] = [[None; 3]];

    for ti in map.breadth_traverse(0, 0) {
        traversal_result[ti.row as usize][ti.col as usize] = Some(ti);
    }

    for ti in traversal_result {
        assert!(!ti.is_empty())
    }
    assert_eq!(count_some_2d(traversal_result), 3);

    let left_traversal = traversal_result[0][0].unwrap();
    let center_traversal = traversal_result[0][1].unwrap();
    let right_traversal = traversal_result[0][2].unwrap();

    assert_eq!(left_room, left_traversal.room_info);
    assert_eq!(left_traversal.depth, 0);
    assert_eq!(center_hall, center_traversal.room_info);
    assert_eq!(center_traversal.depth, 1);
    assert_eq!(right_room, right_traversal.room_info);
    assert_eq!(right_traversal.depth, 2);
}

#[test]
fn test_traversal_disconnected_entrances() {
    let left_room = room_type::dead_end().rotate_right();
    let center_hall = room_type::hall().rotate_left();
    let right_room = room_type::no_exit();

    assert!(left_room.right_exit);
    assert!(center_hall.left_exit);
    assert!(center_hall.right_exit);
    assert!(!right_room.left_exit);

    let map = MapLevel {
        rooms: [[Some(left_room), Some(center_hall), Some(right_room)]],
    };

    let mut traversal_result: [[Option<TraversalInfo>; 3]; 1] = [[None; 3]];

    for ti in map.breadth_traverse(0, 0) {
        traversal_result[ti.row as usize][ti.col as usize] = Some(ti);
    }

    for ti in traversal_result {
        assert!(!ti.is_empty())
    }

    let left_traversal = traversal_result[0][0].unwrap();
    let center_traversal = traversal_result[0][1].unwrap();
    assert!(traversal_result[0][2].is_none());

    assert_eq!(left_room, left_traversal.room_info);
    assert_eq!(left_traversal.depth, 0);
    assert_eq!(center_hall, center_traversal.room_info);
    assert_eq!(center_traversal.depth, 1);

    traversal_result = [[None; 3]];

    for ti in map.breadth_traverse(0, 2) {
        traversal_result[ti.row as usize][ti.col as usize] = Some(ti);
    }

    let right_traversal = traversal_result[0][2].unwrap();

    assert_eq!(right_room, right_traversal.room_info);
    assert_eq!(right_traversal.depth, 0);
    assert_eq!(count_some_2d(traversal_result), 1);
}

#[test]
fn test_traversal_loops() {
    let enter_up_right = room_type::l();
    let enter_down_right = enter_up_right.rotate_right();
    let enter_down_left = enter_down_right.rotate_right();
    let enter_left_up = enter_down_left.rotate_right();

    let map = MapLevel {
        rooms: [
            [Some(enter_down_right), Some(enter_down_left)],
            [Some(enter_up_right), Some(enter_left_up)],
        ],
    };

    let mut traversal_result: [[Option<TraversalInfo>; 2]; 2] = [[None; 2]; 2];

    for ti in map.breadth_traverse(0, 0) {
        traversal_result[ti.row as usize][ti.col as usize] = Some(ti);
    }

    assert_eq!(count_some_2d(traversal_result), 4);
    assert_eq!(traversal_result[0][0].unwrap().depth, 0);
    assert_eq!(traversal_result[1][0].unwrap().depth, 1);
    assert_eq!(traversal_result[0][1].unwrap().depth, 1);
    assert_eq!(traversal_result[1][1].unwrap().depth, 2);
}

#[test]
fn test_traversal_multiple_enter_close_disconnect() {
    let enter_up_right = room_type::l();
    let enter_down_right = enter_up_right.rotate_right();
    let enter_down_left = enter_down_right.rotate_right();
    let enter_left_up = enter_down_left.rotate_right();

    let map = MapLevel {
        rooms: [
            [
                Some(enter_down_right),
                Some(room_type::hall().rotate_right()),
                Some(enter_down_left),
            ],
            [
                Some(enter_up_right),
                Some(enter_up_right),
                Some(enter_left_up),
            ],
        ],
    };

    let mut traversal_result: [[Option<TraversalInfo>; 3]; 2] = [[None; 3]; 2];

    for ti in map.breadth_traverse(0, 0) {
        traversal_result[ti.row as usize][ti.col as usize] = Some(ti);
    }

    assert_eq!(
        count_some_2d(traversal_result),
        6,
        "expected full traversal"
    );
    assert_eq!(traversal_result[0][0].unwrap().depth, 0);
    assert_eq!(traversal_result[1][0].unwrap().depth, 1);
    assert_eq!(traversal_result[0][1].unwrap().depth, 1);
    assert_eq!(traversal_result[0][2].unwrap().depth, 2);
    assert_eq!(traversal_result[1][2].unwrap().depth, 3);
    assert_eq!(traversal_result[1][1].unwrap().depth, 4);
}

#[test]
fn test_traversal_open_dead_ends() {
    let left_room = room_type::dead_end().rotate_right();
    let center_hall = room_type::hall().rotate_left();
    let right_crossing = room_type::crossing();

    assert!(left_room.right_exit);
    assert!(center_hall.left_exit);
    assert!(center_hall.right_exit);
    assert!(right_crossing.left_exit);

    let map = MapLevel {
        rooms: [
            [Some(left_room), Some(center_hall), Some(right_crossing)],
            [None; 3],
        ],
    };

    let mut traversal_result: [[Option<TraversalInfo>; 3]; 2] = [[None; 3]; 2];

    // shouldn't panic even though right_hall opens to the outside of the map and towards a non-room
    for ti in map.breadth_traverse(0, 0) {
        traversal_result[ti.row as usize][ti.col as usize] = Some(ti);
    }

    for ti in traversal_result {
        assert!(!ti.is_empty())
    }

    let left_traversal = traversal_result[0][0].unwrap();
    let center_traversal = traversal_result[0][1].unwrap();
    let right_traversal = traversal_result[0][2].unwrap();

    assert_eq!(left_room, left_traversal.room_info);
    assert_eq!(left_traversal.depth, 0);
    assert_eq!(center_hall, center_traversal.room_info);
    assert_eq!(center_traversal.depth, 1);
    assert_eq!(right_crossing, right_traversal.room_info);
    assert_eq!(right_traversal.depth, 2);
}

#[test]
fn start_without_room_gives_no_visits() {
    let map = MapLevel {
        rooms: [[None, Some(room_type::crossing())], [Some(room_type::crossing()), None]],
    };
    assert!(map.breadth_traverse(0, 0).is_empty());
    assert!(map.breadth_traverse(1, 1).is_empty());
}

#[test]
fn lone_room_is_visited_at_depth_zero() {
    let map = MapLevel { rooms: [[Some(room_type::crossing())]] };
    assert_eq!(trace(&map.breadth_traverse(0, 0)), vec![(0, 0, 0)]);
}

#[test]
fn visits_come_left_right_up_down() {
    let crossing = Some(room_type::crossing());
    let map = MapLevel {
        rooms: [[crossing, crossing, crossing], [crossing, crossing, crossing], [crossing, crossing, crossing]],
    };
    assert_eq!(
        trace(&map.breadth_traverse(1, 1)),
        vec![
            (1, 1, 0),
            (1, 0, 1),
            (1, 2, 1),
            (0, 1, 1),
            (2, 1, 1),
            (0, 0, 2),
            (2, 0, 2),
            (0, 2, 2),
            (2, 2, 2),
        ]
    );
}

#[test]
fn loop_is_walked_once_in_order() {
    let enter_up_right = room_type::l();
    let enter_down_right = enter_up_right.rotate_right();
    let enter_down_left = enter_down_right.rotate_right();
    let enter_left_up = enter_down_left.rotate_right();
    let map = MapLevel {
        rooms: [
            [Some(enter_down_right), Some(enter_down_left)],
            [Some(enter_up_right), Some(enter_left_up)],
        ],
    };
    assert_eq!(
        trace(&map.breadth_traverse(0, 0)),
        vec![(0, 0, 0), (0, 1, 1), (1, 0, 1), (1, 1, 2)]
    );
    assert_eq!(
        trace(&map.breadth_traverse(1, 1)),
        vec![(1, 1, 0), (1, 0, 1), (0, 1, 1), (0, 0, 2)]
    );
}

#[test]
fn one_sided_exit_does_not_connect() {
    let open_right = room_type::dead_end().rotate_right();
    let closed = room_type::no_exit();
    let open_up = room_type::dead_end();
    assert!(open_right.right_exit);

    let facing_wall = MapLevel { rooms: [[Some(open_right), Some(closed)]] };
    assert_eq!(trace(&facing_wall.breadth_traverse(0, 0)), vec![(0, 0, 0)]);

    let facing_side = MapLevel { rooms: [[Some(open_right), Some(open_up)]] };
    assert_eq!(trace(&facing_side.breadth_traverse(0, 0)), vec![(0, 0, 0)]);

    let facing_nothing = MapLevel { rooms: [[Some(open_right), None]] };
    assert_eq!(trace(&facing_nothing.breadth_traverse(0, 0)), vec![(0, 0, 0)]);

    let facing_edge = MapLevel { rooms: [[Some(open_right)]] };
    assert_eq!(trace(&facing_edge.breadth_traverse(0, 0)), vec![(0, 0, 0)]);

    // seen from the other side the doorway is just as closed
    let open_left = room_type::dead_end().rotate_left();
    let other_side = MapLevel { rooms: [[Some(closed), Some(open_left)]] };
    assert_eq!(trace(&other_side.breadth_traverse(0, 1)), vec![(0, 1, 0)]);
}

#[test]
fn traversal_repeats_itself() {
    let enter_up_right = room_type::l();
    let enter_down_right = enter_up_right.rotate_right();
    let enter_down_left = enter_down_right.rotate_right();
    let enter_left_up = enter_down_left.rotate_right();
    let map = MapLevel {
        rooms: [
            [
                Some(enter_down_right),
                Some(room_type::hall().rotate_right()),
                Some(enter_down_left),
            ],
            [Some(enter_up_right), Some(enter_up_right), Some(enter_left_up)],
        ],
    };
    let first = map.breadth_traverse(0, 0);
    let second = map.breadth_traverse(0, 0);
    assert_eq!(trace(&first), trace(&second));
    assert_eq!(
        trace(&first),
        vec![(0, 0, 0), (0, 1, 1), (1, 0, 1), (0, 2, 2), (1, 2, 3), (1, 1, 4)]
    );
    for (a, b) in first.iter().zip(second.iter()) {
        assert_eq!(a.room_info, b.room_info);
    }
}

#[test]
fn visit_carries_the_room_with_its_symbol() {
    let mut entrance = room_type::t();
    entrance.symbol = Some('E');
    let map = MapLevel { rooms: [[Some(room_type::dead_end().rotate_right()), Some(entrance)]] };
    let visits = map.breadth_traverse(0, 0);
    assert_eq!(visits.len(), 2);
    assert_eq!(visits[1].room_info, entrance);
    assert_eq!(visits[1].room_info.symbol, Some('E'));
    assert_eq!((visits[1].row, visits[1].col, visits[1].depth), (0, 1, 1));
}

#[test]
fn shorter_way_round_sets_the_depth() {
    // a ring of eight rooms round an empty middle: the far corner is four
    // hops away either way, and its neighbours three
    let crossing = Some(room_type::crossing());
    let map = MapLevel {
        rooms: [[crossing, crossing, crossing], [crossing, None, crossing], [crossing, crossing, crossing]],
    };
    let mut depths = [[None; 3]; 3];
    for ti in map.breadth_traverse(0, 0) {
        assert!(depths[ti.row as usize][ti.col as usize].is_none());
        depths[ti.row as usize][ti.col as usize] = Some(ti.depth);
    }
    assert_eq!(
        depths,
        [
            [Some(0), Some(1), Some(2)],
            [Some(1), None, Some(3)],
            [Some(2), Some(3), Some(4)],
        ]
    );
}
