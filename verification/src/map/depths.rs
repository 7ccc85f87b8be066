//! The depth map of a grid with several entrances: for each cell the visit
//! of the traversal that reaches it through the fewest doorways.

use vstd::prelude::*;
use crate::map::{MapLevel, TraversalInfo};
use crate::map::visit_order::{visited, visits_distinct};

verus! {

/// The cells named by a list of `(row, col)` coordinates.
pub open spec fn cells_of(coords: Seq<(usize, usize)>) -> Seq<(int, int)> {
    Seq::new(coords.len(), |i: int| (coords[i].0 as int, coords[i].1 as int))
}

/// Of a visit recorded earlier, if any, and a new one, the shallower; the
/// new one on a tie.
pub open spec fn nearer(slot: Option<TraversalInfo>, visit: TraversalInfo) -> TraversalInfo {
    match slot {
        Some(existing) => if existing.depth < visit.depth {
            existing
        } else {
            visit
        },
        None => visit,
    }
}

impl<const W: usize, const H: usize> MapLevel<W, H> {
    /// Whether `hops` is the least number of doorways on any route to
    /// `cell` from any of the `sources`.
    pub open spec fn nearest_hops(&self, sources: Seq<(int, int)>, cell: (int, int), hops: int) -> bool {
        &&& exists|e: int|
            0 <= e < sources.len() && #[trigger] self.route_between(sources[e], cell, hops)
        &&& forall|e: int, fewer: int|
            0 <= e < sources.len() && fewer < hops ==> !#[trigger] self.route_between(
                sources[e],
                cell,
                fewer,
            )
    }

    /// Whether `slot` is the entry of the depth map for `cell`: empty where
    /// none of the `sources` reaches the cell, and else a record of the
    /// cell, its room and its least hop count from any of them.
    pub open spec fn slot_merges(
        &self,
        slot: Option<TraversalInfo>,
        cell: (int, int),
        sources: Seq<(int, int)>,
    ) -> bool {
        match slot {
            Some(info) => {
                &&& info.cell() == cell
                &&& self.room_at(cell) == Some(info.room_info)
                &&& self.nearest_hops(sources, cell, info.depth as int)
            },
            None => forall|e: int|
                0 <= e < sources.len() ==> !#[trigger] self.reachable(sources[e], cell),
        }
    }

    /// Whether `depths` is the depth map of the grid for the entrances
    /// `sources`.
    pub open spec fn is_depth_map(
        &self,
        sources: Seq<(int, int)>,
        depths: [[Option<TraversalInfo>; W]; H],
    ) -> bool {
        forall|r: int, c: int|
            #![trigger depths[r][c]]
            0 <= r < H && 0 <= c < W ==> self.slot_merges(depths[r][c], (r, c), sources)
    }

    /// A further entrance that does not reach the cell leaves its entry as
    /// it is.
    proof fn lemma_merge_unreached(
        &self,
        slot: Option<TraversalInfo>,
        cell: (int, int),
        sources: Seq<(int, int)>,
        extra: (int, int),
    )
        requires
            self.slot_merges(slot, cell, sources),
            !self.reachable(extra, cell),
        ensures
            self.slot_merges(slot, cell, sources.push(extra)),
    {
        let more = sources.push(extra);
        let last = sources.len() as int;
        assert forall|e: int| 0 <= e < last implies #[trigger] more[e] == sources[e] by {}
        match slot {
            Some(info) => {
                let hops = info.depth as int;
                let e = choose|e: int|
                    0 <= e < sources.len() && #[trigger] self.route_between(sources[e], cell, hops);
                assert(self.route_between(more[e], cell, hops));
                assert forall|e: int, fewer: int|
                    0 <= e < more.len() && fewer < hops implies !#[trigger] self.route_between(
                    more[e],
                    cell,
                    fewer,
                ) by {
                    if e < last {
                        assert(!self.route_between(sources[e], cell, fewer));
                    }
                }
            },
            None => {
                assert forall|e: int| 0 <= e < more.len() implies !#[trigger] self.reachable(
                    more[e],
                    cell,
                ) by {
                    if e < last {
                        assert(!self.reachable(sources[e], cell));
                    }
                }
            },
        }
    }

    /// A further entrance that reaches the cell puts its visit in the
    /// entry, unless the entry holds a shallower one.
    proof fn lemma_merge_reached(
        &self,
        slot: Option<TraversalInfo>,
        cell: (int, int),
        sources: Seq<(int, int)>,
        extra: (int, int),
        visit: TraversalInfo,
    )
        requires
            self.slot_merges(slot, cell, sources),
            visit.cell() == cell,
            self.room_at(cell) == Some(visit.room_info),
            self.shortest_hops(extra, cell, visit.depth as int),
        ensures
            self.slot_merges(Some(nearer(slot, visit)), cell, sources.push(extra)),
    {
        let more = sources.push(extra);
        let last = sources.len() as int;
        let kept = nearer(slot, visit);
        let hops = kept.depth as int;
        assert forall|e: int| 0 <= e < last implies #[trigger] more[e] == sources[e] by {}
        assert(more[last] == extra);
        match slot {
            Some(existing) => {
                let e = choose|e: int|
                    0 <= e < sources.len() && #[trigger] self.route_between(
                        sources[e],
                        cell,
                        existing.depth as int,
                    );
                if existing.depth < visit.depth {
                    assert(self.route_between(more[e], cell, hops));
                } else {
                    assert(self.route_between(more[last], cell, hops));
                }
                assert forall|e: int, fewer: int|
                    0 <= e < more.len() && fewer < hops implies !#[trigger] self.route_between(
                    more[e],
                    cell,
                    fewer,
                ) by {
                    if e < last {
                        assert(!self.route_between(sources[e], cell, fewer));
                    }
                }
            },
            None => {
                assert(self.route_between(more[last], cell, hops));
                assert forall|e: int, fewer: int|
                    0 <= e < more.len() && fewer < hops implies !#[trigger] self.route_between(
                    more[e],
                    cell,
                    fewer,
                ) by {
                    if e < last {
                        assert(!self.reachable(sources[e], cell));
                    }
                }
            },
        }
    }

    /// Computes the depth map for the given entrances: one traversal from
    /// each, and for every cell the visit with the smallest depth among the
    /// traversals that reach it. A cell that no traversal reaches has no
    /// entry. The entrances must lie on the grid.
    pub fn depth_map(&self, entrances: &Vec<(usize, usize)>) -> (depths: [[Option<TraversalInfo>; W]; H])
        requires
            W * H <= i32::MAX,
            forall|e: int|
                0 <= e < entrances@.len() ==> (#[trigger] entrances@[e]).0 < H && entrances@[e].1 < W,
        ensures
            self.is_depth_map(cells_of(entrances@), depths),
    {
        let mut depths: [[Option<TraversalInfo>; W]; H] = [[None; W]; H];
        let ghost all = cells_of(entrances@);
        for e in 0..entrances.len()
            invariant
                W * H <= i32::MAX,
                all == cells_of(entrances@),
                forall|e: int|
                    0 <= e < entrances@.len() ==> (#[trigger] entrances@[e]).0 < H
                        && entrances@[e].1 < W,
                self.is_depth_map(all.take(e as int), depths),
        {
            let (e_row, e_col) = entrances[e];
            let ghost source = (e_row as int, e_col as int);
            let ghost before = all.take(e as int);
            let visits = self.breadth_traverse(e_row, e_col);
            assert(self.room_at(source) is Some ==> self.visits_hold_rooms(visits@)
                && visits_distinct(visits@));
            assert(visits@.len() > 0 ==> self.room_at(source) is Some);
            for v in 0..visits.len()
                invariant
                    self.visits_hold_rooms(visits@),
                    visits_distinct(visits@),
                    forall|k: int|
                        0 <= k < visits@.len() ==> self.shortest_hops(
                            source,
                            (#[trigger] visits@[k]).cell(),
                            visits@[k].depth as int,
                        ),
                    forall|r: int, c: int|
                        #![trigger depths[r][c]]
                        0 <= r < H && 0 <= c < W ==> self.slot_merges(
                            depths[r][c],
                            (r, c),
                            if visited(visits@.take(v as int), (r, c)) {
                                before.push(source)
                            } else {
                                before
                            },
                        ),
            {
                let ti = visits[v];
                let ghost cell = ti.cell();
                let ghost earlier = visits@.take(v as int);
                let ghost old_depths = depths;
                proof {
                    assert(self.room_at(cell) == Some(ti.room_info));
                    assert(!visited(earlier, cell)) by {
                        if visited(earlier, cell) {
                            let j = choose|j: int|
                                0 <= j < earlier.len() && (#[trigger] earlier[j]).cell() == cell;
                            assert(earlier[j] == visits@[j]);
                            assert(visits@[j].cell() != visits@[v as int].cell());
                        }
                    }
                }
                let row = ti.row as usize;
                let col = ti.col as usize;
                let merged = match depths[row][col] {
                    Some(existing) => if existing.depth < ti.depth {
                        existing
                    } else {
                        ti
                    },
                    None => ti,
                };
                depths[row][col] = Some(merged);
                proof {
                    let later = visits@.take(v as int + 1);
                    assert(later =~= earlier.push(ti));
                    self.lemma_merge_reached(old_depths[row as int][col as int], cell, before, source, ti);
                    assert forall|r: int, c: int| 0 <= r < H && 0 <= c < W implies self.slot_merges(
                        #[trigger] depths[r][c],
                        (r, c),
                        if visited(later, (r, c)) {
                            before.push(source)
                        } else {
                            before
                        },
                    ) by {
                        crate::map::traverse::lemma_visited_grows(earlier, ti, (r, c));
                        if (r, c) != cell {
                            assert(depths[r][c] == old_depths[r][c]);
                        }
                    }
                }
            }
            proof {
                assert(visits@.take(visits@.len() as int) =~= visits@);
                assert(all.take(e as int + 1) =~= before.push(source));
                assert forall|r: int, c: int| 0 <= r < H && 0 <= c < W implies self.slot_merges(
                    #[trigger] depths[r][c],
                    (r, c),
                    before.push(source),
                ) by {
                    if !visited(visits@, (r, c)) {
                        self.lemma_merge_unreached(depths[r][c], (r, c), before, source);
                    }
                }
            }
        }
        proof {
            assert(all.take(entrances@.len() as int) =~= all);
        }
        depths
    }
}

/// The least hop count from a set of entrances to a cell is unique.
pub proof fn lemma_nearest_hops_unique<const W: usize, const H: usize>(
    map: MapLevel<W, H>,
    sources: Seq<(int, int)>,
    cell: (int, int),
    hops: int,
    other: int,
)
    requires
        map.nearest_hops(sources, cell, hops),
        map.nearest_hops(sources, cell, other),
    ensures
        hops == other,
{
}

/// A grid has one depth map for each list of entrances: it depends on
/// nothing but the rooms and the entrances.
pub proof fn lemma_depth_map_unique<const W: usize, const H: usize>(
    map: MapLevel<W, H>,
    sources: Seq<(int, int)>,
    a: [[Option<TraversalInfo>; W]; H],
    b: [[Option<TraversalInfo>; W]; H],
)
    requires
        map.is_depth_map(sources, a),
        map.is_depth_map(sources, b),
    ensures
        a == b,
{
    assert forall|r: int| 0 <= r < H implies a[r] == b[r] by {
        assert forall|c: int| 0 <= c < W implies a[r][c] == b[r][c] by {
            let cell = (r, c);
            assert(map.slot_merges(a[r][c], cell, sources));
            assert(map.slot_merges(b[r][c], cell, sources));
            match (a[r][c], b[r][c]) {
                (Some(x), Some(y)) => {
                    lemma_nearest_hops_unique(map, sources, cell, x.depth as int, y.depth as int);
                    assert(x == y);
                },
                (Some(x), None) => {
                    let e = choose|e: int|
                        0 <= e < sources.len() && #[trigger] map.route_between(
                            sources[e],
                            cell,
                            x.depth as int,
                        );
                    assert(map.reachable(sources[e], cell));
                },
                (None, Some(y)) => {
                    let e = choose|e: int|
                        0 <= e < sources.len() && #[trigger] map.route_between(
                            sources[e],
                            cell,
                            y.depth as int,
                        );
                    assert(map.reachable(sources[e], cell));
                },
                (None, None) => {},
            }
        }
        assert(a[r] =~= b[r]);
    }
    assert(a =~= b);
}

} // verus!
