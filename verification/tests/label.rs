use idle_dungeon_maker::map::room::room_type;
use idle_dungeon_maker::map::{MapLevel, TraversalInfo};

fn visit(depth: i32, row: isize, col: isize) -> TraversalInfo {
    TraversalInfo { depth, row, col, room_info: room_type::crossing() }
}

#[test]
fn text_names_depth_row_and_col() {
    assert_eq!(visit(0, 0, 0).to_text(), "depth: 0, row: 0, col: 0");
    assert_eq!(visit(3, 4, 2).to_text(), "depth: 3, row: 4, col: 2");
    assert_eq!(visit(10, 109, 2000).to_text(), "depth: 10, row: 109, col: 2000");
    assert_eq!(visit(9, 99, 100).to_text(), "depth: 9, row: 99, col: 100");
}

#[test]
fn text_writes_negative_numbers_with_a_sign() {
    assert_eq!(visit(-1, -20, -305).to_text(), "depth: -1, row: -20, col: -305");
    assert_eq!(visit(-10, 7, -9).to_text(), "depth: -10, row: 7, col: -9");
}

#[test]
fn text_writes_the_widest_numbers() {
    let widest = visit(i32::MAX, isize::MAX, isize::MIN);
    assert_eq!(
        widest.to_text(),
        format!("depth: {}, row: {}, col: {}", i32::MAX, isize::MAX, isize::MIN)
    );
    let narrowest = visit(i32::MIN, isize::MIN, isize::MAX);
    assert_eq!(
        narrowest.to_text(),
        format!("depth: {}, row: {}, col: {}", i32::MIN, isize::MIN, isize::MAX)
    );
    assert_eq!(visit(i32::MIN, 0, 0).to_text(), "depth: -2147483648, row: 0, col: 0");
}

#[test]
fn text_of_a_traversal_visit() {
    let map = MapLevel {
        rooms: [[
            Some(room_type::dead_end().rotate_right()),
            Some(room_type::dead_end().rotate_left()),
        ]],
    };
    let visits = map.breadth_traverse(0, 0);
    assert_eq!(visits[1].to_text(), "depth: 1, row: 0, col: 1");
}
