//! The breadth-first traversal itself, and the bookkeeping that shows it
//! to produce the traversal that `visit_order` describes.

use std::collections::VecDeque;
use vstd::prelude::*;
use vstd::set_lib::{lemma_int_range, lemma_len_subset, set_int_range};
use crate::map::{MapLevel, TraversalInfo};
use crate::map::direction::{heading, Direction, TRAVERSAL_DIRS};
use crate::map::route::lemma_doorway_between;
use crate::map::visit_order::{
    depths_ascend,
    lemma_depth_is_shortest,
    lemma_visited_is_reachable,
    visited,
    visits_distinct,
};

verus! {

/// The marks say for each cell of the grid whether it has been found.
spec fn marks_match<const W: usize, const H: usize>(
    marks: [[bool; W]; H],
    found: Seq<TraversalInfo>,
) -> bool {
    forall|r: int, c: int|
        #![trigger marks[r][c]]
        0 <= r < H && 0 <= c < W ==> marks[r][c] == visited(found, (r, c))
}

/// `parent[k]` is the position of the visit from which `found[k]` was
/// discovered. No visit is discovered from beyond the one being expanded,
/// nor in a direction not tried yet.
spec fn parents_recorded<const W: usize, const H: usize>(
    map: MapLevel<W, H>,
    found: Seq<TraversalInfo>,
    parent: Seq<int>,
    done: int,
    tried: int,
) -> bool {
    &&& parent.len() == found.len()
    &&& forall|k: int|
        #![trigger parent[k]]
        1 <= k < found.len() ==> {
            &&& 0 <= parent[k] < k
            &&& parent[k] <= done
            &&& (parent[k] == done ==> heading(found[parent[k]].cell(), found[k].cell()) < tried)
            &&& map.entered_from(found, found[k].cell(), parent[k])
            &&& found[k].depth == found[parent[k]].depth + 1
        }
}

/// The first `done` visits are fully expanded, and the next one in the
/// first `tried` directions: what can be entered from there is found.
spec fn expanded<const W: usize, const H: usize>(
    map: MapLevel<W, H>,
    found: Seq<TraversalInfo>,
    done: int,
    tried: int,
) -> bool {
    forall|k: int, dir: Direction|
        #![trigger map.passage(found[k].cell(), dir)]
        0 <= k < found.len() && (k < done || (k == done && dir.rank() < tried)) && map.passage(
            found[k].cell(),
            dir,
        ) ==> visited(found, dir.step(found[k].cell()))
}

/// Visits are found in the order of their parents, and those of one parent
/// in the order of the directions.
spec fn found_in_order(found: Seq<TraversalInfo>, parent: Seq<int>) -> bool {
    forall|i: int, j: int|
        #![trigger parent[i], parent[j]]
        1 <= i < j < found.len() ==> parent[i] < parent[j] || (parent[i] == parent[j] && heading(
            found[parent[i]].cell(),
            found[i].cell(),
        ) < heading(found[parent[j]].cell(), found[j].cell()))
}

/// No visit lies deeper than its position in the sequence.
spec fn depths_bounded(found: Seq<TraversalInfo>) -> bool {
    forall|k: int| #![trigger found[k]] 0 <= k < found.len() ==> found[k].depth <= k
}

/// What holds of a traversal in progress. `found` lists the visits found so
/// far in the order of discovery: those handed out, the one being expanded,
/// and those waiting in the queue.
spec fn searching<const W: usize, const H: usize>(
    map: MapLevel<W, H>,
    start: (int, int),
    found: Seq<TraversalInfo>,
    parent: Seq<int>,
    done: int,
    tried: int,
) -> bool {
    &&& map.room_at(start) is Some
    &&& found.len() > 0
    &&& found[0].cell() == start
    &&& found[0].depth == 0
    &&& 0 <= done <= found.len()
    &&& 0 <= tried <= 4
    &&& map.visits_hold_rooms(found)
    &&& visits_distinct(found)
    &&& depths_ascend(found)
    &&& depths_bounded(found)
    &&& parents_recorded(map, found, parent, done, tried)
    &&& expanded(map, found, done, tried)
    &&& found_in_order(found, parent)
}

/// Distinct cells of the grid are no more than the grid has cells.
proof fn lemma_found_fits_grid<const W: usize, const H: usize>(
    map: MapLevel<W, H>,
    found: Seq<TraversalInfo>,
)
    requires
        map.visits_hold_rooms(found),
        visits_distinct(found),
    ensures
        found.len() <= W * H,
{
    let w = W as int;
    let h = H as int;
    let codes = Seq::new(found.len(), |k: int| found[k].cell().0 * w + found[k].cell().1);
    assert forall|k: int| 0 <= k < found.len() implies 0 <= #[trigger] codes[k] < w * h by {
        let cell = found[k].cell();
        assert(map.room_at(cell) == Some(found[k].room_info));
        assert(0 <= cell.0 < h && 0 <= cell.1 < w);
        assert(0 <= cell.0 * w + cell.1 < w * h) by (nonlinear_arith)
            requires
                0 <= cell.0 < h,
                0 <= cell.1 < w,
        ;
    }
    assert forall|i: int, j: int| 0 <= i < j < codes.len() implies codes[i] != codes[j] by {
        let a = found[i].cell();
        let b = found[j].cell();
        assert(map.room_at(a) == Some(found[i].room_info));
        assert(map.room_at(b) == Some(found[j].room_info));
        assert(a != b);
        assert(a.0 * w + a.1 != b.0 * w + b.1) by (nonlinear_arith)
            requires
                0 <= a.1 < w,
                0 <= b.1 < w,
                a.0 != b.0 || a.1 != b.1,
        ;
    }
    assert(codes.no_duplicates());
    codes.unique_seq_to_set();
    lemma_int_range(0, w * h);
    assert(codes.to_set().subset_of(set_int_range(0, w * h))) by {
        assert forall|code: int| codes.to_set().contains(code) implies set_int_range(
            0,
            w * h,
        ).contains(code) by {
            let k = choose|k: int| 0 <= k < codes.len() && codes[k] == code;
            assert(0 <= codes[k] < w * h);
        }
    }
    lemma_len_subset(codes.to_set(), set_int_range(0, w * h));
    assert(0 <= w * h) by (nonlinear_arith)
        requires
            0 <= w,
            0 <= h,
    ;
}

/// A traversal begins with the start alone, found and not yet expanded.
proof fn lemma_search_begins<const W: usize, const H: usize>(
    map: MapLevel<W, H>,
    start: (int, int),
    first: TraversalInfo,
)
    requires
        first.cell() == start,
        first.depth == 0,
        map.room_at(start) == Some(first.room_info),
    ensures
        searching(map, start, seq![first], seq![0int], 0, 0),
{
    let found = seq![first];
    assert(found[0] == first);
    assert(expanded(map, found, 0, 0));
}

/// A direction in which nothing new can be entered is done with.
proof fn lemma_direction_tried<const W: usize, const H: usize>(
    map: MapLevel<W, H>,
    start: (int, int),
    found: Seq<TraversalInfo>,
    parent: Seq<int>,
    done: int,
    dir: Direction,
)
    requires
        searching(map, start, found, parent, done, dir.rank()),
        done < found.len(),
        map.passage(found[done].cell(), dir) ==> visited(found, dir.step(found[done].cell())),
    ensures
        searching(map, start, found, parent, done, dir.rank() + 1),
{
    let tried = dir.rank();
    assert(expanded(map, found, done, tried + 1)) by {
        assert forall|k: int, other: Direction|
            0 <= k < found.len() && (k < done || (k == done && other.rank() < tried + 1))
                && #[trigger] map.passage(found[k].cell(), other) implies visited(
            found,
            other.step(found[k].cell()),
        ) by {
            if k == done && other.rank() == tried {
                assert(other == dir);
            }
        }
    }
    assert(parents_recorded(map, found, parent, done, tried + 1));
}

/// A visit that was already found stays found when another is appended.
pub(crate) proof fn lemma_visited_grows(found: Seq<TraversalInfo>, next: TraversalInfo, cell: (int, int))
    ensures
        visited(found.push(next), cell) <==> visited(found, cell) || cell == next.cell(),
{
    let longer = found.push(next);
    if visited(found, cell) {
        let j = choose|j: int| 0 <= j < found.len() && (#[trigger] found[j]).cell() == cell;
        assert(longer[j] == found[j]);
    }
    if cell == next.cell() {
        assert(longer[found.len() as int] == next);
    }
    if visited(longer, cell) {
        let j = choose|j: int| 0 <= j < longer.len() && (#[trigger] longer[j]).cell() == cell;
        if j < found.len() {
            assert(longer[j] == found[j]);
        }
    }
}

/// A room entered for the first time joins the found visits, discovered
/// from the visit being expanded and one hop deeper than it.
proof fn lemma_cell_found<const W: usize, const H: usize>(
    map: MapLevel<W, H>,
    start: (int, int),
    found: Seq<TraversalInfo>,
    parent: Seq<int>,
    done: int,
    dir: Direction,
    next: TraversalInfo,
)
    requires
        searching(map, start, found, parent, done, dir.rank()),
        done < found.len(),
        map.passage(found[done].cell(), dir),
        !visited(found, dir.step(found[done].cell())),
        next.cell() == dir.step(found[done].cell()),
        next.depth == found[done].depth + 1,
        map.room_at(next.cell()) == Some(next.room_info),
    ensures
        searching(map, start, found.push(next), parent.push(done), done, dir.rank() + 1),
{
    let tried = dir.rank();
    let longer = found.push(next);
    let parents = parent.push(done);
    let last = found.len() as int;
    let current = found[done].cell();
    assert forall|k: int| 0 <= k < last implies #[trigger] longer[k] == found[k] by {}
    assert(longer[last] == next);
    assert(heading(current, next.cell()) == tried);

    assert(map.visits_hold_rooms(longer)) by {
        assert forall|k: int| 0 <= k < longer.len() implies map.room_at(
            (#[trigger] longer[k]).cell(),
        ) == Some(longer[k].room_info) by {
            if k < last {
                assert(longer[k] == found[k]);
            }
        }
    }
    assert(visits_distinct(longer)) by {
        assert forall|i: int, j: int| 0 <= i < j < longer.len() implies (#[trigger] longer[i]).cell()
            != (#[trigger] longer[j]).cell() by {
            assert(longer[i] == found[i]);
            if j < last {
                assert(longer[j] == found[j]);
            }
        }
    }
    // the newest visit lies at most one hop deeper than the one being expanded
    assert(found[last - 1].depth <= found[done].depth + 1) by {
        if last - 1 >= 1 {
            let p = parent[last - 1];
            assert(found[last - 1].depth == found[p].depth + 1);
            assert(found[p].depth <= found[done].depth);
        } else {
            assert(found[0].depth <= found[done].depth);
        }
    }
    assert(depths_ascend(longer)) by {
        assert forall|i: int, j: int| 0 <= i <= j < longer.len() implies (#[trigger] longer[i]).depth
            <= (#[trigger] longer[j]).depth by {
            if j < last {
                assert(longer[i] == found[i]);
                assert(longer[j] == found[j]);
            } else if i < last {
                assert(longer[i] == found[i]);
                assert(found[i].depth <= found[last - 1].depth);
            }
        }
    }
    assert(depths_bounded(longer)) by {
        assert forall|k: int| 0 <= k < longer.len() implies (#[trigger] longer[k]).depth <= k by {
            if k < last {
                assert(longer[k] == found[k]);
            } else {
                assert(found[done].depth <= done);
            }
        }
    }
    // nothing expanded before has a doorway to the new cell
    assert forall|q: int| 0 <= q < done implies !#[trigger] map.connected(
        longer[q].cell(),
        next.cell(),
    ) by {
        assert(longer[q] == found[q]);
        if map.connected(found[q].cell(), next.cell()) {
            let way = lemma_doorway_between(map, found[q].cell(), next.cell());
            assert(map.passage(found[q].cell(), way));
            assert(visited(found, way.step(found[q].cell())));
        }
    }
    assert(map.entered_from(longer, next.cell(), done)) by {
        assert(longer[done] == found[done]);
        assert(map.connected(current, next.cell()));
    }
    assert(parents_recorded(map, longer, parents, done, tried + 1)) by {
        assert forall|k: int| 1 <= k < longer.len() implies {
            &&& 0 <= #[trigger] parents[k] < k
            &&& parents[k] <= done
            &&& (parents[k] == done ==> heading(
                longer[parents[k]].cell(),
                longer[k].cell(),
            ) < tried + 1)
            &&& map.entered_from(longer, longer[k].cell(), parents[k])
            &&& longer[k].depth == longer[parents[k]].depth + 1
        } by {
            if k < last {
                let p = parent[k];
                assert(longer[k] == found[k]);
                assert(parents[k] == p);
                assert(longer[p] == found[p]);
                assert(map.entered_from(found, found[k].cell(), p));
                assert forall|q: int| 0 <= q < p implies !#[trigger] map.connected(
                    longer[q].cell(),
                    longer[k].cell(),
                ) by {
                    assert(longer[q] == found[q]);
                    assert(!map.connected(found[q].cell(), found[k].cell()));
                }
            } else {
                assert(parents[k] == done);
                assert(longer[done] == found[done]);
            }
        }
    }
    assert(expanded(map, longer, done, tried + 1)) by {
        assert forall|k: int, other: Direction|
            0 <= k < longer.len() && (k < done || (k == done && other.rank() < tried + 1))
                && #[trigger] map.passage(longer[k].cell(), other) implies visited(
            longer,
            other.step(longer[k].cell()),
        ) by {
            assert(longer[k] == found[k]);
            let target = other.step(found[k].cell());
            lemma_visited_grows(found, next, target);
            if k == done && other.rank() == tried {
                assert(other == dir);
            } else {
                assert(map.passage(found[k].cell(), other));
                assert(visited(found, target));
            }
        }
    }
    assert(found_in_order(longer, parents)) by {
        assert forall|i: int, j: int| 1 <= i < j < longer.len() implies #[trigger] parents[i]
            < #[trigger] parents[j] || (parents[i] == parents[j] && heading(
            longer[parents[i]].cell(),
            longer[i].cell(),
        ) < heading(longer[parents[j]].cell(), longer[j].cell())) by {
            assert(longer[i] == found[i]);
            assert(parents[i] == parent[i]);
            assert(longer[parent[i]] == found[parent[i]]);
            if j < last {
                assert(longer[j] == found[j]);
                assert(parents[j] == parent[j]);
                assert(longer[parent[j]] == found[parent[j]]);
            } else {
                assert(parents[j] == done);
                assert(longer[done] == found[done]);
            }
        }
    }
}

/// Once all four directions are tried, the visit is expanded and the next
/// one's turn comes.
proof fn lemma_visit_expanded<const W: usize, const H: usize>(
    map: MapLevel<W, H>,
    start: (int, int),
    found: Seq<TraversalInfo>,
    parent: Seq<int>,
    done: int,
)
    requires
        searching(map, start, found, parent, done, 4),
        done < found.len(),
    ensures
        searching(map, start, found, parent, done + 1, 0),
{
    assert(expanded(map, found, done + 1, 0));
    assert(parents_recorded(map, found, parent, done + 1, 0));
}

/// Only one position can be the first with a doorway to a cell.
proof fn lemma_entered_once<const W: usize, const H: usize>(
    map: MapLevel<W, H>,
    visits: Seq<TraversalInfo>,
    cell: (int, int),
    p: int,
    q: int,
)
    requires
        map.entered_from(visits, cell, p),
        map.entered_from(visits, cell, q),
    ensures
        p == q,
{
    assert(map.connected(visits[p].cell(), cell));
    assert(map.connected(visits[q].cell(), cell));
}

/// The recorded parents witness that each visit is discovered from an
/// earlier one.
proof fn lemma_parents_chain<const W: usize, const H: usize>(
    map: MapLevel<W, H>,
    found: Seq<TraversalInfo>,
    parent: Seq<int>,
    done: int,
    tried: int,
)
    requires
        parents_recorded(map, found, parent, done, tried),
    ensures
        map.visits_chained(found),
{
    assert forall|k: int| 1 <= k < found.len() implies #[trigger] map.discovered(found, k) by {
        let p = parent[k];
        assert(p < k && map.entered_from(found, found[k].cell(), p) && found[k].depth
            == found[p].depth + 1);
    }
}

/// The order of the recorded parents is the order of discovery.
proof fn lemma_parents_order<const W: usize, const H: usize>(
    map: MapLevel<W, H>,
    found: Seq<TraversalInfo>,
    parent: Seq<int>,
    done: int,
    tried: int,
)
    requires
        parents_recorded(map, found, parent, done, tried),
        found_in_order(found, parent),
    ensures
        map.visits_in_discovery_order(found),
{
    assert forall|i: int, j: int, pi: int, pj: int|
        1 <= i < j < found.len() && #[trigger] map.entered_from(found, found[i].cell(), pi)
            && #[trigger] map.entered_from(found, found[j].cell(), pj) implies pi < pj || (pi == pj
            && heading(found[pi].cell(), found[i].cell()) < heading(
            found[pj].cell(),
            found[j].cell(),
        )) by {
        let qi = parent[i];
        let qj = parent[j];
        lemma_entered_once(map, found, found[i].cell(), pi, qi);
        lemma_entered_once(map, found, found[j].cell(), pj, qj);
    }
}

/// When every found visit is expanded, the found visits are the
/// breadth-first traversal.
proof fn lemma_search_ends<const W: usize, const H: usize>(
    map: MapLevel<W, H>,
    start: (int, int),
    found: Seq<TraversalInfo>,
    parent: Seq<int>,
)
    requires
        searching(map, start, found, parent, found.len() as int, 0),
    ensures
        map.is_breadth_first(start, found),
{
    lemma_parents_chain(map, found, parent, found.len() as int, 0);
    lemma_parents_order(map, found, parent, found.len() as int, 0);
    assert(map.visits_closed(found));
}

impl<const W: usize, const H: usize> MapLevel<W, H> {
    /// Walks the grid breadth-first from the room at `(start_row,
    /// start_col)` and returns the visits in the order in which the rooms
    /// are reached: the start first at depth 0, then each room that can be
    /// entered, once, one hop deeper than the room it is discovered from.
    /// At each room the directions are tried in the order left, right, up,
    /// down. A start cell without a room gives no visits.
    ///
    /// The visited cells are exactly those reachable from the start, and
    /// the depth of each is the least number of doorways on any route to
    /// it. The start must lie on the grid, and the grid must be small
    /// enough for every depth to fit the depth field.
    pub fn breadth_traverse(&self, start_row: usize, start_col: usize) -> (visits: Vec<TraversalInfo>)
        requires
            start_row < H,
            start_col < W,
            W * H <= i32::MAX,
        ensures
            self.is_breadth_first((start_row as int, start_col as int), visits@),
            visits@.len() <= W * H,
            forall|k: int|
                0 <= k < visits@.len() ==> self.shortest_hops(
                    (start_row as int, start_col as int),
                    (#[trigger] visits@[k]).cell(),
                    visits@[k].depth as int,
                ),
            forall|cell: (int, int)|
                #![trigger visited(visits@, cell)]
                #![trigger self.reachable((start_row as int, start_col as int), cell)]
                visited(visits@, cell) <==> self.reachable(
                    (start_row as int, start_col as int),
                    cell,
                ),
    {
        let ghost start = (start_row as int, start_col as int);
        proof {
            assert(W <= W * H && H <= W * H) by (nonlinear_arith)
                requires
                    W >= 1,
                    H >= 1,
            ;
        }
        let mut visits: Vec<TraversalInfo> = Vec::new();
        let mut traversal_queue: VecDeque<TraversalInfo> = VecDeque::new();
        let mut already_visited: [[bool; W]; H] = [[false; W]; H];

        match self.rooms[start_row][start_col] {
            Some(room) => {
                traversal_queue.push_back(
                    TraversalInfo {
                        depth: 0,
                        col: start_col as isize,
                        row: start_row as isize,
                        room_info: room,
                    },
                );
            },
            None => {
                proof {
                    self.lemma_traversal_means(start, visits@);
                }
                return visits;
            },
        }
        already_visited[start_row][start_col] = true;

        let ghost mut found: Seq<TraversalInfo> = traversal_queue@;
        let ghost mut parent: Seq<int> = seq![0int];
        proof {
            assert(found =~= seq![found[0]]);
            lemma_search_begins(*self, start, found[0]);
            assert(found =~= visits@ + traversal_queue@);
            assert forall|r: int, c: int| 0 <= r < H && 0 <= c < W implies #[trigger] already_visited[r][c]
                == visited(found, (r, c)) by {
                if (r, c) == start {
                    assert(found[0].cell() == (r, c));
                }
            }
        }

        while traversal_queue.len() > 0
            invariant
                W * H <= i32::MAX,
                W <= i32::MAX,
                H <= i32::MAX,
                found == visits@ + traversal_queue@,
                searching(*self, start, found, parent, visits@.len() as int, 0),
                marks_match(already_visited, found),
            decreases W * H - visits@.len(),
        {
            proof {
                lemma_found_fits_grid(*self, found);
            }
            let ghost done = visits@.len() as int;
            let current = traversal_queue.pop_front().unwrap();
            proof {
                assert(current == found[done]);
                assert(found =~= visits@.push(current) + traversal_queue@);
                assert(self.room_at(current.cell()) == Some(current.room_info));
                assert(current.depth <= done);
            }

            for i in 0..4usize
                invariant
                    W * H <= i32::MAX,
                    W <= i32::MAX,
                    H <= i32::MAX,
                    done == visits@.len(),
                    done < found.len(),
                    current == found[done],
                    found == visits@.push(current) + traversal_queue@,
                    searching(*self, start, found, parent, done, i as int),
                    marks_match(already_visited, found),
            {
                let dir = TRAVERSAL_DIRS[i];
                proof {
                    assert(dir.rank() == i);
                    assert(self.room_at(current.cell()) == Some(current.room_info));
                    assert(current.depth <= done);
                    lemma_found_fits_grid(*self, found);
                }
                let new_row: isize = current.row + dir.row_add();
                let new_col: isize = current.col + dir.col_add();
                let ghost target = (new_row as int, new_col as int);
                assert(target == dir.step(current.cell()));
                if new_row >= 0 && new_row < H as isize && new_col >= 0 && new_col < W as isize
                    && !already_visited[new_row as usize][new_col as usize] {
                    match self.rooms[new_row as usize][new_col as usize] {
                        Some(room) => {
                            if dir.passable(current.room_info, room) {
                                let next = TraversalInfo {
                                    depth: current.depth + 1,
                                    row: new_row,
                                    col: new_col,
                                    room_info: room,
                                };
                                traversal_queue.push_back(next);
                                already_visited[new_row as usize][new_col as usize] = true;
                                proof {
                                    assert(!visited(found, target));
                                    assert(self.passage(current.cell(), dir));
                                    lemma_cell_found(*self, start, found, parent, done, dir, next);
                                    assert forall|r: int, c: int|
                                        0 <= r < H && 0 <= c < W implies #[trigger] already_visited[r][c]
                                        == visited(found.push(next), (r, c)) by {
                                        lemma_visited_grows(found, next, (r, c));
                                    }
                                    found = found.push(next);
                                    parent = parent.push(done);
                                    assert(found =~= visits@.push(current) + traversal_queue@);
                                }
                            } else {
                                proof {
                                    lemma_direction_tried(*self, start, found, parent, done, dir);
                                }
                            }
                        },
                        None => {
                            proof {
                                lemma_direction_tried(*self, start, found, parent, done, dir);
                            }
                        },
                    }
                } else {
                    proof {
                        lemma_direction_tried(*self, start, found, parent, done, dir);
                    }
                }
            }
            visits.push(current);
            proof {
                lemma_visit_expanded(*self, start, found, parent, done);
                assert(found =~= visits@ + traversal_queue@);
            }
        }
        proof {
            assert(found =~= visits@);
            lemma_found_fits_grid(*self, found);
            lemma_search_ends(*self, start, found, parent);
            self.lemma_traversal_means(start, visits@);
        }
        visits
    }

    /// What a breadth-first traversal says of the grid: each depth is a
    /// least hop count, and the visited cells are the reachable ones.
    proof fn lemma_traversal_means(&self, start: (int, int), visits: Seq<TraversalInfo>)
        requires
            self.is_breadth_first(start, visits),
        ensures
            forall|k: int|
                0 <= k < visits.len() ==> self.shortest_hops(
                    start,
                    (#[trigger] visits[k]).cell(),
                    visits[k].depth as int,
                ),
            forall|cell: (int, int)|
                #![trigger visited(visits, cell)]
                #![trigger self.reachable(start, cell)]
                visited(visits, cell) <==> self.reachable(start, cell),
    {
        assert forall|k: int| 0 <= k < visits.len() implies self.shortest_hops(
            start,
            (#[trigger] visits[k]).cell(),
            visits[k].depth as int,
        ) by {
            lemma_depth_is_shortest(*self, start, visits, k);
        }
        assert forall|cell: (int, int)|
            #![trigger visited(visits, cell)]
            #![trigger self.reachable(start, cell)]
            visited(visits, cell) <==> self.reachable(start, cell) by {
            lemma_visited_is_reachable(*self, start, visits, cell);
        }
    }
}

} // verus!
