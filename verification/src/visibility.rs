//! Line-of-sight queries: a straight segment between two cells is discretized
//! by an integer line rasterization, and sight is blocked exactly when a wall
//! lies strictly between the two endpoints along that line.
//!
//! So that sight is direction-independent, the rasterizer is always run from
//! the lexicographically smaller endpoint to the larger one.

use vstd::prelude::*;

use crate::grid::Grid;
use crate::grid::TileType;
use crate::vec2::dist_sq;
use crate::vec2::Vec2Int;

verus! {

/// The cells the line rasterizer yields between two endpoints (the first
/// endpoint included, the second excluded).
pub uninterp spec fn raster_cells(a: (int, int), b: (int, int)) -> Seq<(int, int)>;

/// Relies on bresenham::Bresenham: the yielded cells are a fixed function of
/// the two endpoints alone (it walks from the first endpoint, inclusive,
/// toward the second, exclusive).
#[verifier::external_body]
fn raster_line(ax: i32, ay: i32, bx: i32, by: i32) -> (r: Vec<(i32, i32)>)
    ensures
        r@.len() == raster_cells((ax as int, ay as int), (bx as int, by as int)).len(),
        forall|k: int|
            0 <= k < r@.len() ==> ((#[trigger] r@[k]).0 as int, r@[k].1 as int) == raster_cells(
                (ax as int, ay as int),
                (bx as int, by as int),
            )[k],
{
    let start = (ax as isize, ay as isize);
    let end = (bx as isize, by as isize);
    let mut cells = Vec::new();
    for (x, y) in bresenham::Bresenham::new(start, end) {
        cells.push((x as i32, y as i32));
    }
    cells
}

/// Lexicographic order on cells, by `x` first.
pub open spec fn lex_le(a: Vec2Int, b: Vec2Int) -> bool {
    a.x < b.x || (a.x == b.x && a.y <= b.y)
}

/// A cell that blocks the sight line between `a` and `b`: a wall cell of the
/// grid that is neither endpoint.
pub open spec fn blocks_sight(grid: Grid, a: Vec2Int, b: Vec2Int, c: (int, int)) -> bool {
    &&& !(c.0 == a.x && c.1 == a.y)
    &&& !(c.0 == b.x && c.1 == b.y)
    &&& grid.in_bounds(c.0, c.1)
    &&& grid.tile_at(c.0, c.1) == TileType::Wall
}

/// The lexicographically smaller of the two endpoints.
pub open spec fn canon_lo(a: Vec2Int, b: Vec2Int) -> Vec2Int {
    if lex_le(a, b) {
        a
    } else {
        b
    }
}

/// The lexicographically larger of the two endpoints.
pub open spec fn canon_hi(a: Vec2Int, b: Vec2Int) -> Vec2Int {
    if lex_le(a, b) {
        b
    } else {
        a
    }
}

/// The rasterized segment between `a` and `b`, run in canonical order so that
/// it does not depend on which endpoint is named first.
pub open spec fn sight_cells(a: Vec2Int, b: Vec2Int) -> Seq<(int, int)> {
    raster_cells(
        (canon_lo(a, b).x as int, canon_lo(a, b).y as int),
        (canon_hi(a, b).x as int, canon_hi(a, b).y as int),
    )
}

/// An unobstructed line exists between `a` and `b`: no cell of the rasterized
/// segment, run between the two endpoints in canonical order, blocks sight.
pub open spec fn sees(grid: Grid, a: Vec2Int, b: Vec2Int) -> bool {
    forall|i: int|
        0 <= i < sight_cells(a, b).len() ==> !blocks_sight(
            grid,
            a,
            b,
            #[trigger] sight_cells(a, b)[i],
        )
}

/// `b` is visible from observer `a` with sight radius `range`: strictly
/// closer than `range` in Euclidean distance, and an unobstructed line exists.
pub open spec fn visible_within(grid: Grid, observer: Vec2Int, range: int, candidate: Vec2Int) -> bool {
    dist_sq(observer, candidate) < range * range && sees(grid, observer, candidate)
}

/// Sight is direction-independent: the rasterized segment is run in canonical
/// order, so swapping the endpoints changes nothing.
pub proof fn lemma_sight_symmetric(grid: Grid, a: Vec2Int, b: Vec2Int)
    ensures
        sees(grid, a, b) == sees(grid, b, a),
{
    if lex_le(a, b) && lex_le(b, a) {
        assert(a == b);
    }
    assert(canon_lo(a, b) == canon_lo(b, a));
    assert(canon_hi(a, b) == canon_hi(b, a));
    assert(sight_cells(a, b) == sight_cells(b, a));
    if sees(grid, a, b) {
        assert forall|i: int| 0 <= i < sight_cells(b, a).len() implies !blocks_sight(
            grid,
            b,
            a,
            #[trigger] sight_cells(b, a)[i],
        ) by {
            assert(!blocks_sight(grid, a, b, sight_cells(a, b)[i]));
        }
    }
    if sees(grid, b, a) {
        assert forall|i: int| 0 <= i < sight_cells(a, b).len() implies !blocks_sight(
            grid,
            a,
            b,
            #[trigger] sight_cells(a, b)[i],
        ) by {
            assert(!blocks_sight(grid, b, a, sight_cells(b, a)[i]));
        }
    }
}

/// At exactly `range` distance (or beyond), a candidate is not visible: the
/// distance test is strict.
pub proof fn lemma_range_boundary_excluded(
    grid: Grid,
    observer: Vec2Int,
    range: int,
    candidate: Vec2Int,
)
    requires
        dist_sq(observer, candidate) >= range * range,
    ensures
        !visible_within(grid, observer, range, candidate),
{
}

impl Grid {
    /// Whether an unobstructed line exists between `start` and `end`: true
    /// exactly when no wall cell lies strictly between them along the
    /// rasterized segment.
    pub fn is_visible(&self, start: Vec2Int, end: Vec2Int) -> (r: bool)
        requires
            self.wf(),
        ensures
            r == sees(*self, start, end),
    {
        let swap = !(start.x < end.x || (start.x == end.x && start.y <= end.y));
        let lo = if swap {
            end
        } else {
            start
        };
        let hi = if swap {
            start
        } else {
            end
        };
        let cells = raster_line(lo.x, lo.y, hi.x, hi.y);
        proof {
            assert(lo == canon_lo(start, end));
            assert(hi == canon_hi(start, end));
        }
        let mut i: usize = 0;
        while i < cells.len()
            invariant
                self.wf(),
                i <= cells@.len(),
                cells@.len() == sight_cells(start, end).len(),
                forall|k: int|
                    0 <= k < cells@.len() ==> ((#[trigger] cells@[k]).0 as int, cells@[k].1 as int)
                        == sight_cells(start, end)[k],
                forall|k: int|
                    0 <= k < i ==> !blocks_sight(
                        *self,
                        start,
                        end,
                        #[trigger] sight_cells(start, end)[k],
                    ),
            decreases cells@.len() - i,
        {
            let (cx, cy) = cells[i];
            proof {
                assert(sight_cells(start, end)[i as int] == (cx as int, cy as int));
            }
            if (cx != start.x || cy != start.y) && (cx != end.x || cy != end.y) {
                if self.bounds_check(cx, cy) {
                    if matches!(self.tile(cx, cy), TileType::Wall) {
                        proof {
                            let ii = i as int;
                            assert(blocks_sight(*self, start, end, sight_cells(start, end)[ii]));
                            assert(!sees(*self, start, end));
                        }
                        return false;
                    }
                }
            }
            i = i + 1;
        }
        true
    }

    /// The viewshed test: `candidate` is visible from `observer` exactly when
    /// it is strictly closer than `range` and an unobstructed line exists.
    pub fn is_visible_now(&self, observer: Vec2Int, range: i32, candidate: Vec2Int) -> (r: bool)
        requires
            self.wf(),
            0 <= range,
        ensures
            r == visible_within(*self, observer, range as int, candidate),
    {
        let d = observer.dist_squared(&candidate);
        proof {
            assert((range as int) * (range as int) <= 0x4000_0000_0000_0000) by (nonlinear_arith)
                requires
                    0 <= range <= 0x8000_0000i64,
            ;
        }
        if d < (range as u128) * (range as u128) {
            self.is_visible(observer, candidate)
        } else {
            false
        }
    }
}

} // verus!
