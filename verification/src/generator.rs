//! The dungeon generator: places non-overlapping rooms with a margin to the
//! grid edge and carves an L-shaped corridor between consecutive room centers.

use vstd::prelude::*;

use crate::grid::lemma_idx_in_range;
use crate::grid::Grid;
use crate::grid::TileType;
use crate::pathfinding::empty_overlay;
use crate::pathfinding::has_path;
use crate::pathfinding::lemma_has_path_sym;
use crate::pathfinding::lemma_has_path_trans;
use crate::pathfinding::lemma_path_monotone;
use crate::pathfinding::lemma_straight_path_h;
use crate::pathfinding::lemma_straight_path_v;
use crate::pathfinding::walkable;
use crate::rect::Rect;
use crate::rng::GameRng;
use crate::vec2::Vec2Int;

verus! {

/// How many room placements one run attempts.
pub const MAX_ROOMS: u32 = 30;

/// The smallest room extent the generator draws.
pub const MIN_SIZE: i32 = 6;

/// The largest room extent the generator draws.
pub const MAX_SIZE: i32 = 10;

/// An accepted room: well formed, with extents drawn from the configured
/// range, placed so that its carved footprint keeps a margin of at least two
/// tiles to the right and bottom edges and one tile to the left and top.
pub open spec fn room_in_margins(room: Rect, width: int, height: int) -> bool {
    &&& room.wf()
    &&& MIN_SIZE <= room.w <= MAX_SIZE
    &&& MIN_SIZE <= room.h <= MAX_SIZE
    &&& 0 <= room.x
    &&& room.x2 <= width - 3
    &&& 0 <= room.y
    &&& room.y2 <= height - 3
}

/// No two rooms of the run overlap, under the closed-interval test.
pub open spec fn rooms_disjoint(s: Seq<Rect>) -> bool {
    forall|i: int, j: int| 0 <= i < j < s.len() ==> !(#[trigger] s[i].intersects(s[j]))
}

/// Every accepted room's center is a carved floor tile.
pub open spec fn centers_carved(grid: Grid) -> bool {
    forall|k: int|
        0 <= k < grid.rooms@.len() ==> grid.floor_at(
            (#[trigger] grid.rooms@[k]).center_spec().0,
            grid.rooms@[k].center_spec().1,
        )
}

/// A room's center as a grid cell.
pub open spec fn center_cell(r: Rect) -> Vec2Int {
    Vec2Int { x: (r.x + r.w / 2) as i32, y: (r.y + r.h / 2) as i32 }
}

/// Between the centers of any two distinct accepted rooms a route over floor
/// tiles exists.
pub open spec fn rooms_connected(grid: Grid) -> bool {
    forall|i: int, j: int|
        #![trigger grid.rooms@[i], grid.rooms@[j]]
        0 <= i < grid.rooms@.len() && 0 <= j < grid.rooms@.len() && i != j ==> has_path(
            grid,
            empty_overlay(grid),
            center_cell(grid.rooms@[i]),
            center_cell(grid.rooms@[j]),
        )
}

/// The cells a room's carve writes: the rectangle minus its topmost row and
/// leftmost column.
pub open spec fn in_room_interior(room: Rect, x: int, y: int) -> bool {
    room.x + 1 <= x <= room.x2 && room.y + 1 <= y <= room.y2
}

/// The cells either L-shaped corridor between two centers may write: a
/// horizontal run at one center's row spanning the centers' columns, or a
/// vertical run at one center's column spanning the centers' rows.
pub open spec fn on_corridor(a: Vec2Int, b: Vec2Int, x: int, y: int) -> bool {
    ||| ((y == a.y || y == b.y) && vstd::math::min(a.x as int, b.x as int) <= x <= vstd::math::max(
        a.x as int,
        b.x as int,
    ))
    ||| ((x == a.x || x == b.x) && vstd::math::min(a.y as int, b.y as int) <= y <= vstd::math::max(
        a.y as int,
        b.y as int,
    ))
}

/// The cell `(x, y)` was carved by an accepted room or by the corridor
/// between two consecutively accepted rooms' centers.
pub open spec fn floor_cell_accounted(grid: Grid, x: int, y: int) -> bool {
    ||| exists|k: int|
        0 <= k < grid.rooms@.len() && in_room_interior(#[trigger] grid.rooms@[k], x, y)
    ||| exists|k: int|
        0 <= k < grid.rooms@.len() - 1 && on_corridor(
            center_cell(#[trigger] grid.rooms@[k]),
            center_cell(grid.rooms@[k + 1]),
            x,
            y,
        )
}

/// Rejected candidates leave no trace: every floor cell lies in an accepted
/// room's carved interior or on the L-corridor between consecutive accepted
/// room centers.
pub open spec fn floors_accounted(grid: Grid) -> bool {
    forall|x: int, y: int| #[trigger] grid.floor_at(x, y) ==> floor_cell_accounted(grid, x, y)
}

/// Two well-formed rooms that do not overlap have distinct centers.
pub proof fn lemma_centers_differ(a: Rect, b: Rect)
    requires
        a.wf(),
        b.wf(),
        !a.intersects(b),
    ensures
        center_cell(a) != center_cell(b),
{
    assert(0 <= a.w / 2 <= a.w);
    assert(0 <= b.w / 2 <= b.w);
    assert(0 <= a.h / 2 <= a.h);
    assert(0 <= b.h / 2 <= b.h);
}

/// Between the centers of any two distinct rooms of one generated dungeon a
/// floor route exists, the centers are distinct floor cells, and the start
/// center is on the grid; by the pathfinder's own contract, a search between
/// the two centers therefore returns a route.
pub proof fn lemma_pathfinder_connects_rooms(grid: Grid, i: int, j: int)
    requires
        grid.wf(),
        rooms_disjoint(grid.rooms@),
        centers_carved(grid),
        rooms_connected(grid),
        forall|k: int|
            0 <= k < grid.rooms@.len() ==> room_in_margins(
                #[trigger] grid.rooms@[k],
                grid.width as int,
                grid.height as int,
            ),
        0 <= i < grid.rooms@.len(),
        0 <= j < grid.rooms@.len(),
        i != j,
    ensures
        grid.in_bounds_v(center_cell(grid.rooms@[i])),
        center_cell(grid.rooms@[i]) != center_cell(grid.rooms@[j]),
        has_path(
            grid,
            empty_overlay(grid),
            center_cell(grid.rooms@[i]),
            center_cell(grid.rooms@[j]),
        ),
{
    if i < j {
        assert(!grid.rooms@[i].intersects(grid.rooms@[j]));
        lemma_centers_differ(grid.rooms@[i], grid.rooms@[j]);
    } else {
        assert(!grid.rooms@[j].intersects(grid.rooms@[i]));
        lemma_centers_differ(grid.rooms@[j], grid.rooms@[i]);
    }
    assert(grid.floor_at(grid.rooms@[i].center_spec().0, grid.rooms@[i].center_spec().1));
}

/// Pushing a room whose center is connected both ways with the previously
/// accepted room's center keeps all room centers pairwise connected.
proof fn lemma_rooms_connected_push(g: Grid, g2: Grid, new_room: Rect)
    requires
        g.wf(),
        g2.wf(),
        g2.tiles@ == g.tiles@,
        g2.width == g.width,
        g2.height == g.height,
        g2.rooms@ == g.rooms@.push(new_room),
        rooms_connected(g),
        g.rooms@.len() > 0 ==> has_path(
            g,
            empty_overlay(g),
            center_cell(g.rooms@[g.rooms@.len() - 1]),
            center_cell(new_room),
        ) && has_path(
            g,
            empty_overlay(g),
            center_cell(new_room),
            center_cell(g.rooms@[g.rooms@.len() - 1]),
        ),
    ensures
        rooms_connected(g2),
{
    let n = g.rooms@.len() as int;
    assert forall|i: int, j: int|
        #![trigger g2.rooms@[i], g2.rooms@[j]]
        0 <= i < g2.rooms@.len() && 0 <= j < g2.rooms@.len() && i != j implies has_path(
        g2,
        empty_overlay(g2),
        center_cell(g2.rooms@[i]),
        center_cell(g2.rooms@[j]),
    ) by {
        let a = center_cell(g2.rooms@[i]);
        let b = center_cell(g2.rooms@[j]);
        assert forall|cx: int, cy: int| g.floor_at(cx, cy) implies #[trigger] g2.floor_at(
            cx,
            cy,
        ) by {}
        if i < n && j < n {
            assert(g2.rooms@[i] == g.rooms@[i] && g2.rooms@[j] == g.rooms@[j]);
            assert(has_path(g, empty_overlay(g), a, b));
            lemma_path_monotone(g, g2, a, b);
        } else if j == n {
            assert(g2.rooms@[j] == new_room);
            let prev = center_cell(g.rooms@[n - 1]);
            if i == n - 1 {
                lemma_path_monotone(g, g2, a, b);
            } else {
                assert(has_path(g, empty_overlay(g), a, prev));
                lemma_has_path_trans(g, empty_overlay(g), a, prev, b);
                lemma_path_monotone(g, g2, a, b);
            }
        } else {
            assert(i == n && j < n);
            assert(g2.rooms@[i] == new_room);
            let prev = center_cell(g.rooms@[n - 1]);
            if j == n - 1 {
                lemma_path_monotone(g, g2, a, b);
            } else {
                assert(has_path(g, empty_overlay(g), prev, b));
                lemma_has_path_trans(g, empty_overlay(g), a, prev, b);
                lemma_path_monotone(g, g2, a, b);
            }
        }
    }
}

/// Carving that only turns interior cells to floor keeps the wall border and
/// keeps every already carved room center on floor.
proof fn lemma_keeps_invariants(a: Grid, b: Grid, width: int, height: int)
    requires
        a.wf(),
        b.wf(),
        a.width == width,
        a.height == height,
        b.width == width,
        b.height == height,
        b.rooms@ == a.rooms@,
        forall|cx: int, cy: int|
            a.in_bounds(cx, cy) ==> (#[trigger] b.tile_at(cx, cy) == a.tile_at(cx, cy) || (
            b.tile_at(cx, cy) == TileType::Floor && 0 < cx < width - 1 && 0 < cy < height - 1)),
        a.border_walls(),
        centers_carved(a),
        rooms_connected(a),
    ensures
        b.border_walls(),
        centers_carved(b),
        rooms_connected(b),
{
    assert forall|cx: int, cy: int| a.floor_at(cx, cy) implies #[trigger] b.floor_at(cx, cy) by {}
    assert forall|i: int, j: int|
        #![trigger b.rooms@[i], b.rooms@[j]]
        0 <= i < b.rooms@.len() && 0 <= j < b.rooms@.len() && i != j implies has_path(
        b,
        empty_overlay(b),
        center_cell(b.rooms@[i]),
        center_cell(b.rooms@[j]),
    ) by {
        assert(b.rooms@[i] == a.rooms@[i] && b.rooms@[j] == a.rooms@[j]);
        assert(has_path(a, empty_overlay(a), center_cell(a.rooms@[i]), center_cell(a.rooms@[j])));
        lemma_path_monotone(a, b, center_cell(a.rooms@[i]), center_cell(a.rooms@[j]));
    }
    assert forall|x: int, y: int|
        b.in_bounds(x, y) && (x == 0 || x == width - 1 || y == 0 || y == height
            - 1) implies #[trigger] b.tile_at(x, y) == TileType::Wall by {
        assert(a.tile_at(x, y) == TileType::Wall);
    }
    assert forall|k: int| 0 <= k < b.rooms@.len() implies b.floor_at(
        (#[trigger] b.rooms@[k]).center_spec().0,
        b.rooms@[k].center_spec().1,
    ) by {
        assert(a.floor_at(a.rooms@[k].center_spec().0, a.rooms@[k].center_spec().1));
    }
}

impl Grid {
    /// Generate a dungeon: every tile starts as wall, up to `MAX_ROOMS`
    /// non-overlapping rooms are carved, and each accepted room after the
    /// first is connected to the previously accepted one by an L-shaped
    /// corridor whose corner choice is drawn from `rng`. Any positive
    /// dimensions are accepted: a drawn room that cannot fit inside the grid
    /// with its margin is skipped, so a tiny grid may end with few or no
    /// rooms; a grid that fits every possible draw ends with at least one.
    #[verifier::rlimit(100)]
    pub fn generate(width: i32, height: i32, rng: &mut GameRng) -> (r: Grid)
        requires
            0 < width,
            0 < height,
            width * height <= i32::MAX,
        ensures
            r.wf(),
            r.width == width,
            r.height == height,
            r.rooms@.len() <= MAX_ROOMS,
            MAX_SIZE + 3 <= width && MAX_SIZE + 3 <= height ==> r.rooms@.len() >= 1,
            forall|k: int|
                0 <= k < r.rooms@.len() ==> room_in_margins(
                    #[trigger] r.rooms@[k],
                    width as int,
                    height as int,
                ),
            rooms_disjoint(r.rooms@),
            centers_carved(r),
            rooms_connected(r),
            floors_accounted(r),
            r.border_walls(),
    {
        let mut grid = Grid::new_walls(width, height);
        proof {
            assert forall|fx: int, fy: int| #[trigger] grid.floor_at(fx, fy) implies
                floor_cell_accounted(grid, fx, fy) by {
                assert(grid.tile_at(fx, fy) == TileType::Wall);
            }
        }
        let mut i: u32 = 0;
        while i < MAX_ROOMS
            invariant
                grid.wf(),
                grid.width == width,
                grid.height == height,
                grid.rooms@.len() <= i <= MAX_ROOMS,
                MAX_SIZE + 3 <= width && MAX_SIZE + 3 <= height && i > 0 ==> grid.rooms@.len()
                    >= 1,
                forall|k: int|
                    0 <= k < grid.rooms@.len() ==> room_in_margins(
                        #[trigger] grid.rooms@[k],
                        width as int,
                        height as int,
                    ),
                rooms_disjoint(grid.rooms@),
                centers_carved(grid),
                rooms_connected(grid),
                floors_accounted(grid),
                grid.border_walls(),
            decreases MAX_ROOMS - i,
        {
            let w = rng.range(MIN_SIZE, MAX_SIZE);
            let h = rng.range(MIN_SIZE, MAX_SIZE);
            if width - w - 3 < 0 || height - h - 3 < 0 {
                // the room cannot fit inside the grid with its margin: on a
                // grid this small the attempt is skipped
                i = i + 1;
                continue ;
            }
            let x = rng.range(0, width - w - 3);
            let y = rng.range(0, height - h - 3);
            let new_room = Rect::new(x, y, w, h);
            let mut ok = true;
            let mut j: usize = 0;
            while j < grid.rooms.len()
                invariant
                    j <= grid.rooms@.len(),
                    grid.rooms@.len() == 0 ==> ok,
                    ok ==> forall|k: int|
                        0 <= k < j ==> !new_room.intersects(#[trigger] grid.rooms@[k]),
                decreases grid.rooms@.len() - j,
            {
                if new_room.intersect(&grid.rooms[j]) {
                    ok = false;
                }
                j = j + 1;
            }
            if ok {
                let ghost g0 = grid;
                proof {
                    assert(room_in_margins(new_room, width as int, height as int));
                    assert(3 <= new_room.w / 2 <= new_room.w - 3);
                    assert(3 <= new_room.h / 2 <= new_room.h - 3);
                }
                grid.apply_room_to_map(&new_room);
                let (new_x, new_y) = new_room.center();
                proof {
                    assert(3 <= new_x <= width - 6);
                    assert(3 <= new_y <= height - 6);
                    assert(grid.floor_at(new_x as int, new_y as int));
                    lemma_keeps_invariants(g0, grid, width as int, height as int);
                }
                if grid.rooms.len() > 0 {
                    let prev = grid.rooms[grid.rooms.len() - 1];
                    let (prev_x, prev_y) = prev.center();
                    proof {
                        assert(3 <= prev.w / 2 <= prev.w - 3);
                        assert(3 <= prev.h / 2 <= prev.h - 3);
                        assert(3 <= prev_x <= width - 6);
                        assert(3 <= prev_y <= height - 6);
                    }
                    let ghost g1 = grid;
                    if rng.coin() {
                        grid.apply_horizontal_tunnel(prev_x, new_x, prev_y);
                        proof {
                            lemma_keeps_invariants(g1, grid, width as int, height as int);
                        }
                        let ghost g2 = grid;
                        grid.apply_vertical_tunnel(prev_y, new_y, new_x);
                        proof {
                            lemma_keeps_invariants(g2, grid, width as int, height as int);
                            let ov = empty_overlay(grid);
                            let pcc = Vec2Int { x: prev_x, y: prev_y };
                            let ncc = Vec2Int { x: new_x, y: new_y };
                            let corner = Vec2Int { x: new_x, y: prev_y };
                            assert forall|x: i32|
                                vstd::math::min(prev_x as int, new_x as int) <= x <= vstd::math::max(
                                    prev_x as int,
                                    new_x as int,
                                ) implies #[trigger] walkable(grid, ov, (Vec2Int { x: x, y: prev_y })) by {
                                lemma_idx_in_range(x as int, prev_y as int, width as int,
                                    height as int);
                                assert(g2.tile_at(x as int, prev_y as int) == TileType::Floor);
                            }
                            assert forall|y: i32|
                                vstd::math::min(prev_y as int, new_y as int) <= y <= vstd::math::max(
                                    prev_y as int,
                                    new_y as int,
                                ) implies #[trigger] walkable(grid, ov, (Vec2Int { x: new_x, y: y })) by {
                                lemma_idx_in_range(new_x as int, y as int, width as int,
                                    height as int);
                            }
                            lemma_centers_differ(new_room, prev);
                            assert(pcc == center_cell(prev));
                            assert(ncc == center_cell(new_room));
                            if prev_x != new_x && prev_y != new_y {
                                lemma_straight_path_h(grid, ov, prev_x, new_x, prev_y);
                                lemma_straight_path_v(grid, ov, prev_y, new_y, new_x);
                                lemma_has_path_trans(grid, ov, pcc, corner, ncc);
                            } else if prev_x == new_x {
                                lemma_straight_path_v(grid, ov, prev_y, new_y, new_x);
                                assert(pcc == corner);
                            } else {
                                lemma_straight_path_h(grid, ov, prev_x, new_x, prev_y);
                                assert(ncc == corner);
                            }
                            assert(has_path(grid, ov, pcc, ncc));
                            lemma_idx_in_range(prev_x as int, prev_y as int, width as int,
                                height as int);
                            assert(walkable(grid, ov, pcc));
                            lemma_has_path_sym(grid, ov, pcc, ncc);
                            assert(has_path(grid, empty_overlay(grid), center_cell(
                                grid.rooms@[grid.rooms@.len() - 1]), center_cell(new_room)));
                            assert(has_path(grid, empty_overlay(grid), center_cell(new_room),
                                center_cell(grid.rooms@[grid.rooms@.len() - 1])));
                            assert forall|fx: int, fy: int| #[trigger] grid.floor_at(fx, fy)
                                implies g0.floor_at(fx, fy) || in_room_interior(new_room, fx, fy)
                                || on_corridor(center_cell(grid.rooms@[grid.rooms@.len() - 1]),
                                center_cell(new_room), fx, fy) by {
                                let t2 = g2.tile_at(fx, fy);
                                let t1 = g1.tile_at(fx, fy);
                            }
                        }
                    } else {
                        grid.apply_vertical_tunnel(prev_y, new_y, prev_x);
                        proof {
                            lemma_keeps_invariants(g1, grid, width as int, height as int);
                        }
                        let ghost g2 = grid;
                        grid.apply_horizontal_tunnel(prev_x, new_x, new_y);
                        proof {
                            lemma_keeps_invariants(g2, grid, width as int, height as int);
                            let ov = empty_overlay(grid);
                            let pcc = Vec2Int { x: prev_x, y: prev_y };
                            let ncc = Vec2Int { x: new_x, y: new_y };
                            let corner = Vec2Int { x: prev_x, y: new_y };
                            assert forall|y: i32|
                                vstd::math::min(prev_y as int, new_y as int) <= y <= vstd::math::max(
                                    prev_y as int,
                                    new_y as int,
                                ) implies #[trigger] walkable(grid, ov, (Vec2Int { x: prev_x, y: y })) by {
                                lemma_idx_in_range(prev_x as int, y as int, width as int,
                                    height as int);
                                assert(g2.tile_at(prev_x as int, y as int) == TileType::Floor);
                            }
                            assert forall|x: i32|
                                vstd::math::min(prev_x as int, new_x as int) <= x <= vstd::math::max(
                                    prev_x as int,
                                    new_x as int,
                                ) implies #[trigger] walkable(grid, ov, (Vec2Int { x: x, y: new_y })) by {
                                lemma_idx_in_range(x as int, new_y as int, width as int,
                                    height as int);
                            }
                            lemma_centers_differ(new_room, prev);
                            assert(pcc == center_cell(prev));
                            assert(ncc == center_cell(new_room));
                            if prev_x != new_x && prev_y != new_y {
                                lemma_straight_path_v(grid, ov, prev_y, new_y, prev_x);
                                lemma_straight_path_h(grid, ov, prev_x, new_x, new_y);
                                lemma_has_path_trans(grid, ov, pcc, corner, ncc);
                            } else if prev_y == new_y {
                                lemma_straight_path_h(grid, ov, prev_x, new_x, new_y);
                                assert(pcc == corner);
                            } else {
                                lemma_straight_path_v(grid, ov, prev_y, new_y, prev_x);
                                assert(ncc == corner);
                            }
                            assert(has_path(grid, ov, pcc, ncc));
                            lemma_idx_in_range(prev_x as int, prev_y as int, width as int,
                                height as int);
                            assert(walkable(grid, ov, pcc));
                            lemma_has_path_sym(grid, ov, pcc, ncc);
                            assert(has_path(grid, empty_overlay(grid), center_cell(
                                grid.rooms@[grid.rooms@.len() - 1]), center_cell(new_room)));
                            assert(has_path(grid, empty_overlay(grid), center_cell(new_room),
                                center_cell(grid.rooms@[grid.rooms@.len() - 1])));
                            assert forall|fx: int, fy: int| #[trigger] grid.floor_at(fx, fy)
                                implies g0.floor_at(fx, fy) || in_room_interior(new_room, fx, fy)
                                || on_corridor(center_cell(grid.rooms@[grid.rooms@.len() - 1]),
                                center_cell(new_room), fx, fy) by {
                                let t2 = g2.tile_at(fx, fy);
                                let t1 = g1.tile_at(fx, fy);
                            }
                        }
                    }
                } else {
                    proof {
                        assert forall|fx: int, fy: int| #[trigger] grid.floor_at(fx, fy) implies
                            g0.floor_at(fx, fy) || in_room_interior(new_room, fx, fy) by {}
                    }
                }
                proof {
                    assert(grid.floor_at(new_x as int, new_y as int));
                }
                let ghost g3 = grid;
                grid.rooms.push(new_room);
                proof {
                    assert(grid.rooms@ == g3.rooms@.push(new_room));
                    lemma_rooms_connected_push(g3, grid, new_room);
                    assert forall|bx: int, by: int|
                        grid.in_bounds(bx, by) && (bx == 0 || bx == width - 1 || by == 0 || by
                            == height - 1) implies #[trigger] grid.tile_at(bx, by)
                        == TileType::Wall by {
                        assert(g3.tile_at(bx, by) == TileType::Wall);
                    }
                    assert forall|k: int| 0 <= k < grid.rooms@.len() implies grid.floor_at(
                        (#[trigger] grid.rooms@[k]).center_spec().0,
                        grid.rooms@[k].center_spec().1,
                    ) by {
                        if k < g3.rooms@.len() {
                            assert(grid.rooms@[k] == g3.rooms@[k]);
                            assert(g3.floor_at(g3.rooms@[k].center_spec().0,
                                g3.rooms@[k].center_spec().1));
                        } else {
                            assert(grid.rooms@[k] == new_room);
                            assert(g3.floor_at(new_x as int, new_y as int));
                        }
                    }
                    assert forall|k1: int, k2: int| 0 <= k1 < k2 < grid.rooms@.len() implies !(
                    #[trigger] grid.rooms@[k1].intersects(grid.rooms@[k2])) by {
                        if k2 < g3.rooms@.len() {
                            assert(!g3.rooms@[k1].intersects(g3.rooms@[k2]));
                        } else {
                            assert(grid.rooms@[k2] == new_room);
                            assert(!new_room.intersects(g3.rooms@[k1]));
                        }
                    }
                    assert forall|k: int| 0 <= k < grid.rooms@.len() implies room_in_margins(
                        #[trigger] grid.rooms@[k],
                        width as int,
                        height as int,
                    ) by {
                        if k < g3.rooms@.len() {
                            assert(room_in_margins(g3.rooms@[k], width as int, height as int));
                        } else {
                            assert(grid.rooms@[k] == new_room);
                        }
                    }
                    let n = g3.rooms@.len() as int;
                    assert forall|fx: int, fy: int| #[trigger] grid.floor_at(fx, fy) implies
                        floor_cell_accounted(grid, fx, fy) by {
                        assert(g3.floor_at(fx, fy));
                        if g0.floor_at(fx, fy) {
                            assert(floor_cell_accounted(g0, fx, fy));
                            if exists|k: int|
                                0 <= k < g0.rooms@.len() && in_room_interior(
                                    #[trigger] g0.rooms@[k],
                                    fx,
                                    fy,
                                ) {
                                let k = choose|k: int|
                                    0 <= k < g0.rooms@.len() && in_room_interior(
                                        #[trigger] g0.rooms@[k],
                                        fx,
                                        fy,
                                    );
                                assert(grid.rooms@[k] == g0.rooms@[k]);
                                assert(in_room_interior(grid.rooms@[k], fx, fy));
                            } else {
                                let k = choose|k: int|
                                    0 <= k < g0.rooms@.len() - 1 && on_corridor(
                                        center_cell(#[trigger] g0.rooms@[k]),
                                        center_cell(g0.rooms@[k + 1]),
                                        fx,
                                        fy,
                                    );
                                assert(grid.rooms@[k] == g0.rooms@[k] && grid.rooms@[k + 1]
                                    == g0.rooms@[k + 1]);
                                assert(on_corridor(center_cell(grid.rooms@[k]), center_cell(
                                    grid.rooms@[k + 1]), fx, fy));
                            }
                        } else if in_room_interior(new_room, fx, fy) {
                            assert(grid.rooms@[n] == new_room);
                            assert(in_room_interior(grid.rooms@[n], fx, fy));
                        } else {
                            assert(n > 0);
                            assert(grid.rooms@[n - 1] == g3.rooms@[n - 1]);
                            assert(grid.rooms@[n] == new_room);
                            assert(on_corridor(center_cell(grid.rooms@[n - 1]), center_cell(
                                grid.rooms@[n]), fx, fy));
                        }
                    }
                }
            }
            i = i + 1;
        }
        grid
    }

    /// The reference dungeon: an 80 by 50 grid, with at least one room.
    pub fn new(rng: &mut GameRng) -> (r: Grid)
        ensures
            r.wf(),
            r.width == 80,
            r.height == 50,
            1 <= r.rooms@.len() <= MAX_ROOMS,
            forall|k: int|
                0 <= k < r.rooms@.len() ==> room_in_margins(#[trigger] r.rooms@[k], 80, 50),
            rooms_disjoint(r.rooms@),
            centers_carved(r),
            rooms_connected(r),
            floors_accounted(r),
            r.border_walls(),
    {
        Grid::generate(80, 50, rng)
    }

    /// The tile vector of an "empty" variant of this grid: floor everywhere
    /// except a one-tile wall border.
    pub fn generate_empty_tiles(&self) -> (r: Vec<TileType>)
        requires
            self.wf(),
        ensures
            r@.len() == self.tiles@.len(),
            forall|x: int, y: int|
                self.in_bounds(x, y) ==> r@[self.idx_of(x, y)] == (if x == 0 || x == self.width - 1
                    || y == 0 || y == self.height - 1 {
                    TileType::Wall
                } else {
                    TileType::Floor
                }),
    {
        let mut scratch = Grid {
            tiles: self.make_filled(TileType::Floor),
            rooms: Vec::new(),
            width: self.width,
            height: self.height,
        };
        proof {
            assert forall|cx: int, cy: int| scratch.in_bounds(cx, cy) implies #[trigger] scratch
                .tile_at(cx, cy) == TileType::Floor by {
                lemma_idx_in_range(cx, cy, scratch.width as int, scratch.height as int);
            }
        }
        let mut x: i32 = 0;
        while x < scratch.width
            invariant
                scratch.wf(),
                scratch.width == self.width,
                scratch.height == self.height,
                self.wf(),
                0 <= x,
                forall|cx: int, cy: int|
                    scratch.in_bounds(cx, cy) ==> #[trigger] scratch.tile_at(cx, cy) == (if (cy == 0
                        || cy == self.height - 1) && cx < x {
                        TileType::Wall
                    } else {
                        TileType::Floor
                    }),
            decreases scratch.width - x,
        {
            scratch.poke(x, 0, TileType::Wall);
            scratch.poke(x, scratch.height - 1, TileType::Wall);
            x = x + 1;
        }
        let mut y: i32 = 0;
        while y < scratch.height
            invariant
                scratch.wf(),
                scratch.width == self.width,
                scratch.height == self.height,
                self.wf(),
                0 <= y,
                forall|cx: int, cy: int|
                    scratch.in_bounds(cx, cy) ==> #[trigger] scratch.tile_at(cx, cy) == (if (cy == 0
                        || cy == self.height - 1) || ((cx == 0 || cx == self.width - 1) && cy < y) {
                        TileType::Wall
                    } else {
                        TileType::Floor
                    }),
            decreases scratch.height - y,
        {
            scratch.poke(0, y, TileType::Wall);
            scratch.poke(scratch.width - 1, y, TileType::Wall);
            y = y + 1;
        }
        proof {
            assert forall|cx: int, cy: int| self.in_bounds(cx, cy) implies #[trigger] scratch
                .tiles@[self.idx_of(cx, cy)] == (if cx == 0 || cx == self.width - 1 || cy == 0 || cy
                == self.height - 1 {
                TileType::Wall
            } else {
                TileType::Floor
            }) by {
                lemma_idx_in_range(cx, cy, self.width as int, self.height as int);
                assert(scratch.tile_at(cx, cy) == (if (cy == 0 || cy == self.height - 1) || ((cx
                    == 0 || cx == self.width - 1) && cy < scratch.height) {
                    TileType::Wall
                } else {
                    TileType::Floor
                }));
            }
        }
        scratch.tiles
    }
}

} // verus!
