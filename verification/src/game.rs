//! The state of one map being edited: its rooms, its entrances, and the
//! depth of every room that an entrance reaches.

use vstd::prelude::*;
use crate::map::{MapLevel, TraversalInfo};
use crate::map::depths::cells_of;
use crate::map::room::SimpleRoomDrawInfo;
use crate::map::route::{lemma_route_passes_rooms, lemma_zero_hops};

verus! {

/// The number of columns of the map.
pub const MAP_WIDTH: usize = 5;

/// The number of rows of the map.
pub const MAP_HEIGHT: usize = 5;

/// One optional entry for each cell of the map.
pub type MapInfo<T> = [[Option<T>; MAP_WIDTH]; MAP_HEIGHT];

/// The rooms of the map, cell by cell.
pub type RoomsInfo = MapInfo<SimpleRoomDrawInfo>;

/// A map under edit. `traversal_info` is the depth map of `rooms` for the
/// entrances in `entrance_rowcols`; it is rebuilt whenever a room changes.
pub struct GameState {
    pub rooms: RoomsInfo,
    pub traversal_info: MapInfo<TraversalInfo>,
    pub entrance_rowcols: Vec<(usize, usize)>,
}

impl GameState {
    /// The rooms as a grid.
    pub open spec fn level(&self) -> MapLevel<MAP_WIDTH, MAP_HEIGHT> {
        MapLevel { rooms: self.rooms }
    }

    /// Every entrance lies on the map.
    pub open spec fn entrances_on_map(&self) -> bool {
        forall|e: int|
            0 <= e < self.entrance_rowcols@.len() ==> (#[trigger] self.entrance_rowcols@[e]).0
                < MAP_HEIGHT && self.entrance_rowcols@[e].1 < MAP_WIDTH
    }

    /// The recorded depths are those of the rooms as they are now.
    pub open spec fn depths_current(&self) -> bool {
        self.level().is_depth_map(cells_of(self.entrance_rowcols@), self.traversal_info)
    }

    /// A state is well formed when its entrances lie on the map and its
    /// depths are current.
    pub open spec fn wf(&self) -> bool {
        self.entrances_on_map() && self.depths_current()
    }

    /// A map that holds nothing but `initial_room`, which is its only
    /// entrance and lies at depth 0.
    pub fn new(
        initial_entrance_row: usize,
        initial_entrance_col: usize,
        initial_room: SimpleRoomDrawInfo,
    ) -> (game: Self)
        requires
            initial_entrance_row < MAP_HEIGHT,
            initial_entrance_col < MAP_WIDTH,
        ensures
            game.wf(),
            game.entrance_rowcols@ == seq![(initial_entrance_row, initial_entrance_col)],
            forall|r: int, c: int|
                0 <= r < MAP_HEIGHT && 0 <= c < MAP_WIDTH ==> #[trigger] game.rooms[r][c] == if r
                    == initial_entrance_row && c == initial_entrance_col {
                    Some(initial_room)
                } else {
                    None
                },
            forall|r: int, c: int|
                0 <= r < MAP_HEIGHT && 0 <= c < MAP_WIDTH ==> #[trigger] game.traversal_info[r][c]
                    == if r == initial_entrance_row && c == initial_entrance_col {
                    Some(
                        TraversalInfo {
                            depth: 0,
                            row: initial_entrance_row as isize,
                            col: initial_entrance_col as isize,
                            room_info: initial_room,
                        },
                    )
                } else {
                    None
                },
    {
        let mut game = GameState {
            rooms: [[None; MAP_WIDTH]; MAP_HEIGHT],
            traversal_info: [[None; MAP_WIDTH]; MAP_HEIGHT],
            entrance_rowcols: Vec::new(),
        };
        game.rooms[initial_entrance_row][initial_entrance_col] = Some(initial_room);
        game.traversal_info[initial_entrance_row][initial_entrance_col] = Some(
            TraversalInfo {
                depth: 0,
                row: initial_entrance_row as isize,
                col: initial_entrance_col as isize,
                room_info: initial_room,
            },
        );
        game.entrance_rowcols.push((initial_entrance_row, initial_entrance_col));
        proof {
            let level = game.level();
            let entrance = (initial_entrance_row as int, initial_entrance_col as int);
            let sources = cells_of(game.entrance_rowcols@);
            assert(sources[0] == entrance);
            lemma_zero_hops(level, entrance);
            assert forall|r: int, c: int| 0 <= r < MAP_HEIGHT && 0 <= c < MAP_WIDTH implies level.slot_merges(
                #[trigger] game.traversal_info[r][c],
                (r, c),
                sources,
            ) by {
                if (r, c) == entrance {
                    assert(level.route_between(sources[0], (r, c), 0));
                } else {
                    assert forall|e: int| 0 <= e < sources.len() implies !#[trigger] level.reachable(
                        sources[e],
                        (r, c),
                    ) by {
                        if level.reachable(sources[e], (r, c)) {
                            let hops = choose|hops: int| #[trigger]
                                level.route_between(sources[e], (r, c), hops);
                            let route = choose|route: Seq<(int, int)>| #[trigger]
                                level.is_route_between(route, sources[e], (r, c), hops);
                            lemma_route_passes_rooms(level, route, hops);
                        }
                    }
                }
            }
        }
        game
    }

    /// Puts `new_room` at `(row, col)`, or clears the cell where it is
    /// `None`, and rebuilds the depths from every entrance. The cell and
    /// the entrances must lie on the map.
    pub fn update_room(&mut self, row: usize, col: usize, new_room: Option<SimpleRoomDrawInfo>)
        requires
            row < MAP_HEIGHT,
            col < MAP_WIDTH,
            old(self).entrances_on_map(),
        ensures
            final(self).wf(),
            final(self).entrance_rowcols@ == old(self).entrance_rowcols@,
            forall|r: int, c: int|
                0 <= r < MAP_HEIGHT && 0 <= c < MAP_WIDTH ==> #[trigger] final(self).rooms[r][c]
                    == if r == row && c == col {
                    new_room
                } else {
                    old(self).rooms[r][c]
                },
    {
        self.rooms[row][col] = new_room;
        self.traversal_info = self.get_map_level().depth_map(&self.entrance_rowcols);
    }

    /// The rooms as a grid that can be traversed.
    pub fn get_map_level(&self) -> (level: MapLevel<MAP_WIDTH, MAP_HEIGHT>)
        ensures
            level == self.level(),
    {
        MapLevel { rooms: self.rooms }
    }
}

} // verus!
