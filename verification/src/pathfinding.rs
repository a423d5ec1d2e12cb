//! A* search over the 4-directional grid graph.
//!
//! The frontier is a min-priority structure ordered by the accumulated step
//! cost plus the rounded Euclidean distance to the target; the engine's
//! uniform per-step cost is zero, so the priority reduces to the heuristic
//! and a cell is relaxed exactly once, when first discovered. A search cell
//! records the predecessor it was reached from; the returned path is the
//! predecessor chain from the target back to the start, reversed, excluding
//! the start and including the target.

use std::collections::VecDeque;

use vstd::prelude::*;

use crate::grid::lemma_idx_in_range;
use crate::grid::lemma_linearize_unique;
use crate::grid::Grid;
use crate::grid::TileType;
use crate::vec2::adjacent;
use crate::vec2::Vec2Int;

verus! {

/// Where a search cell's best-known route comes from: not reached yet,
/// the search origin, or one step out of a neighbor cell.
#[derive(Clone, Copy, PartialEq, Eq, Structural, Debug)]
enum Pred {
    Unreached,
    Origin,
    Step(Vec2Int),
}

/// A frontier entry: a cell and the priority it was pushed with.
#[derive(Clone, Copy, PartialEq, Eq, Structural, Debug)]
struct Node {
    priority: u64,
    position: Vec2Int,
}

/// A computed route: the waypoints from the step after the start up to and
/// including the target, consumed front to back.
#[derive(Debug, PartialEq)]
pub struct Path {
    pub waypoints: VecDeque<Vec2Int>,
}

/// The row-major index of a cell, as a mathematical integer.
pub open spec fn vidx(grid: Grid, c: Vec2Int) -> int {
    grid.idx_of(c.x as int, c.y as int)
}

/// A cell an agent may stand on: an in-bounds floor tile that the occupancy
/// overlay does not mark as blocked.
pub open spec fn walkable(grid: Grid, blocked: Seq<bool>, c: Vec2Int) -> bool {
    &&& grid.floor_at(c.x as int, c.y as int)
    &&& !blocked[vidx(grid, c)]
}

/// An occupancy overlay that blocks nothing.
pub open spec fn empty_overlay(grid: Grid) -> Seq<bool> {
    Seq::new(grid.tiles@.len(), |i: int| false)
}

/// `p` is a route from `start` (exclusive) to `target` (inclusive): it is
/// non-empty, ends at the target, every waypoint is walkable, its first
/// waypoint is adjacent to the start, and consecutive waypoints are adjacent.
pub open spec fn is_path(
    grid: Grid,
    blocked: Seq<bool>,
    start: Vec2Int,
    target: Vec2Int,
    p: Seq<Vec2Int>,
) -> bool {
    &&& p.len() > 0
    &&& p[p.len() - 1] == target
    &&& adjacent(start, p[0])
    &&& forall|k: int| 0 <= k < p.len() ==> walkable(grid, blocked, #[trigger] p[k])
    &&& forall|k: int| 0 <= k < p.len() - 1 ==> adjacent(#[trigger] p[k], p[k + 1])
}

/// Some route from `start` to `target` exists.
pub open spec fn has_path(grid: Grid, blocked: Seq<bool>, start: Vec2Int, target: Vec2Int) -> bool {
    exists|p: Seq<Vec2Int>| is_path(grid, blocked, start, target, p)
}

/// How many cells the search has not discovered yet: the first component of
/// its termination measure.
spec fn und(preds: Seq<Pred>) -> nat
    decreases preds.len(),
{
    if preds.len() == 0 {
        0
    } else {
        und(preds.drop_last()) + (if preds.last() is Unreached {
            1nat
        } else {
            0nat
        })
    }
}

/// Discovering a cell lowers the undiscovered count by exactly one.
proof fn lemma_und_update(preds: Seq<Pred>, j: int, p2: Pred)
    requires
        0 <= j < preds.len(),
        preds[j] is Unreached,
        !(p2 is Unreached),
    ensures
        und(preds) >= 1,
        und(preds.update(j, p2)) == und(preds) - 1,
    decreases preds.len(),
{
    let pu = preds.update(j, p2);
    if j == preds.len() - 1 {
        assert(pu.drop_last() =~= preds.drop_last());
        assert(pu.last() == p2);
    } else {
        assert(pu.drop_last() =~= preds.drop_last().update(j, p2));
        assert(pu.last() == preds.last());
        assert(preds.drop_last()[j] == preds[j]);
        lemma_und_update(preds.drop_last(), j, p2);
    }
}

/// Remove and return a node of minimal priority, together with the position
/// it held. Exactly one occurrence leaves the frontier; everything else stays.
fn pop_min(frontier: &mut Vec<Node>) -> (r: (Node, Ghost<int>))
    requires
        old(frontier)@.len() > 0,
    ensures
        final(frontier)@.len() == old(frontier)@.len() - 1,
        0 <= r.1@ < old(frontier)@.len(),
        old(frontier)@[r.1@] == r.0,
        forall|k: int|
            0 <= k < final(frontier)@.len() ==> r.0.priority
                <= (#[trigger] final(frontier)@[k]).priority,
        forall|k: int|
            0 <= k < final(frontier)@.len() ==> exists|m: int|
                0 <= m < old(frontier)@.len() && old(frontier)@[m]
                    == #[trigger] final(frontier)@[k],
        forall|m: int|
            0 <= m < old(frontier)@.len() && m != r.1@ ==> exists|k: int|
                0 <= k < final(frontier)@.len() && final(frontier)@[k]
                    == #[trigger] old(frontier)@[m],
{
    let ghost orig = frontier@;
    let mut best: usize = 0;
    let mut i: usize = 1;
    while i < frontier.len()
        invariant
            frontier@ == orig,
            0 < frontier@.len(),
            best < i <= frontier@.len(),
            forall|k: int|
                0 <= k < i ==> frontier@[best as int].priority <= (#[trigger] frontier@[k]).priority,
        decreases frontier@.len() - i,
    {
        if frontier[i].priority < frontier[best].priority {
            best = i;
        }
        i = i + 1;
    }
    let r = frontier.swap_remove(best);
    proof {
        let ghost after = frontier@;
        assert(after =~= orig.update(best as int, orig.last()).drop_last());
        assert forall|k: int| 0 <= k < after.len() implies exists|m: int|
            0 <= m < orig.len() && orig[m] == #[trigger] after[k] by {
            if k == best as int {
                assert(orig[orig.len() - 1] == after[k]);
            } else {
                assert(orig[k] == after[k]);
            }
        }
        assert forall|m: int| 0 <= m < orig.len() && m != best as int implies exists|k: int|
            0 <= k < after.len() && after[k] == #[trigger] orig[m] by {
            if m == orig.len() - 1 {
                if (best as int) < orig.len() - 1 {
                    assert(after[best as int] == orig[m]);
                }
            } else {
                assert(after[m] == orig[m]);
            }
        }
        assert(0 <= (best as int) < orig.len() && orig[best as int] == r);
    }
    (r, Ghost(best as int))
}

/// A vector of `n` copies of one predecessor marker.
fn filled_preds(n: usize, p: Pred) -> (r: Vec<Pred>)
    ensures
        r@.len() == n,
        forall|k: int| 0 <= k < n ==> r@[k] == p,
{
    let mut v: Vec<Pred> = Vec::new();
    let mut i: usize = 0;
    while i < n
        invariant
            i <= n,
            v@.len() == i,
            forall|k: int| 0 <= k < i ==> v@[k] == p,
        decreases n - i,
    {
        v.push(p);
        i = i + 1;
    }
    v
}

/// A vector of `n` copies of one flag.
fn filled_flags(n: usize, b: bool) -> (r: Vec<bool>)
    ensures
        r@.len() == n,
        forall|k: int| 0 <= k < n ==> r@[k] == b,
{
    let mut v: Vec<bool> = Vec::new();
    let mut i: usize = 0;
    while i < n
        invariant
            i <= n,
            v@.len() == i,
            forall|k: int| 0 <= k < i ==> v@[k] == b,
        decreases n - i,
    {
        v.push(b);
        i = i + 1;
    }
    v
}

/// A cell the search has reached: its predecessor marker is set.
spec fn discovered(grid: Grid, preds: Seq<Pred>, c: Vec2Int) -> bool {
    !(preds[vidx(grid, c)] is Unreached)
}

/// Some frontier entry stands on cell `c`.
spec fn in_frontier(fr: Seq<Node>, c: Vec2Int) -> bool {
    exists|f: int| 0 <= f < fr.len() && (#[trigger] fr[f]).position == c
}

/// The cell one unit step in direction `k` away from `c`.
spec fn step_from(c: Vec2Int, k: int) -> Vec2Int {
    Vec2Int {
        x: (c.x + crate::vec2::dir_delta(k).0) as i32,
        y: (c.y + crate::vec2::dir_delta(k).1) as i32,
    }
}

/// A cell's predecessor marker is sound: `Origin` stands only on the start
/// cell, and a `Step` out of `p` stands on a walkable cell adjacent to `p`,
/// where `p` is an in-bounds cell that was itself discovered earlier (it has
/// a strictly smaller rank, so predecessor chains cannot cycle).
spec fn links_ok(
    grid: Grid,
    blocked: Seq<bool>,
    start: Vec2Int,
    preds: Seq<Pred>,
    ranks: Seq<nat>,
    c: Vec2Int,
) -> bool {
    match preds[vidx(grid, c)] {
        Pred::Unreached => true,
        Pred::Origin => c == start,
        Pred::Step(p) => {
            &&& walkable(grid, blocked, c)
            &&& grid.in_bounds_v(p)
            &&& adjacent(p, c)
            &&& !(preds[vidx(grid, p)] is Unreached)
            &&& ranks[vidx(grid, p)] < ranks[vidx(grid, c)]
        },
    }
}

/// Two in-bounds cells with the same row-major index are the same cell.
proof fn lemma_vidx_unique(grid: Grid, c1: Vec2Int, c2: Vec2Int)
    requires
        grid.in_bounds_v(c1),
        grid.in_bounds_v(c2),
        vidx(grid, c1) == vidx(grid, c2),
    ensures
        c1 == c2,
{
    lemma_linearize_unique(
        c1.x as int,
        c1.y as int,
        c2.x as int,
        c2.y as int,
        grid.width as int,
        grid.height as int,
    );
}

/// When the frontier has drained, the discovered set is closed under steps to
/// walkable neighbors, so every cell a route reaches has been discovered.
proof fn lemma_path_discovered(
    grid: Grid,
    blocked: Seq<bool>,
    start: Vec2Int,
    preds: Seq<Pred>,
    closed: Set<int>,
    target: Vec2Int,
    p: Seq<Vec2Int>,
    i: int,
)
    requires
        grid.wf(),
        grid.in_bounds_v(start),
        discovered(grid, preds, start),
        start != target,
        forall|c: Vec2Int|
            grid.in_bounds_v(c) && #[trigger] discovered(grid, preds, c) ==> closed.contains(
                vidx(grid, c),
            ) || c == target,
        forall|c: Vec2Int, nb: Vec2Int|
            #![trigger closed.contains(vidx(grid, c)), walkable(grid, blocked, nb)]
            grid.in_bounds_v(c) && closed.contains(vidx(grid, c)) && adjacent(c, nb) && walkable(
                grid,
                blocked,
                nb,
            ) ==> discovered(grid, preds, nb),
        forall|k: int| 0 <= k < p.len() ==> walkable(grid, blocked, #[trigger] p[k]),
        adjacent(start, p[0]),
        forall|k: int| 0 <= k < p.len() - 1 ==> adjacent(#[trigger] p[k], p[k + 1]),
        0 <= i < p.len(),
    ensures
        discovered(grid, preds, p[i]) || discovered(grid, preds, target),
    decreases i,
{
    if i == 0 {
        assert(closed.contains(vidx(grid, start)));
        assert(walkable(grid, blocked, p[0]));
    } else {
        lemma_path_discovered(grid, blocked, start, preds, closed, target, p, i - 1);
        if discovered(grid, preds, p[i - 1]) && !discovered(grid, preds, target) {
            assert(walkable(grid, blocked, p[i - 1]));
            assert(grid.in_bounds_v(p[i - 1]));
            assert(p[i - 1] != target);
            assert(closed.contains(vidx(grid, p[i - 1])));
            assert(adjacent(p[i - 1], p[i]));
            assert(walkable(grid, blocked, p[i]));
        }
    }
}

/// A route to a cell that is not walkable cannot exist, so the search owes
/// no result for a wall target.
pub proof fn lemma_wall_target_unreachable(
    grid: Grid,
    blocked: Seq<bool>,
    start: Vec2Int,
    target: Vec2Int,
)
    requires
        !walkable(grid, blocked, target),
    ensures
        !has_path(grid, blocked, start, target),
{
    if has_path(grid, blocked, start, target) {
        let p = choose|p: Seq<Vec2Int>| is_path(grid, blocked, start, target, p);
        assert(walkable(grid, blocked, p[p.len() - 1]));
    }
}

/// A target with no walkable neighbor, and not adjacent to the start, cannot
/// be reached: every route's final step would have to leave a walkable
/// adjacent cell.
pub proof fn lemma_enclosed_target_unreachable(
    grid: Grid,
    blocked: Seq<bool>,
    start: Vec2Int,
    target: Vec2Int,
)
    requires
        forall|nb: Vec2Int| #[trigger] walkable(grid, blocked, nb) ==> !adjacent(nb, target),
        !adjacent(start, target),
    ensures
        !has_path(grid, blocked, start, target),
{
    if has_path(grid, blocked, start, target) {
        let p = choose|p: Seq<Vec2Int>| is_path(grid, blocked, start, target, p);
        if p.len() == 1 {
            assert(adjacent(start, p[0]));
        } else {
            assert(walkable(grid, blocked, p[p.len() - 2]));
            assert(adjacent(p[p.len() - 2], p[p.len() - 1]));
        }
    }
}

/// The Manhattan distance between two cells: a lower bound on the length of
/// any 4-directional route between them.
pub open spec fn manhattan(a: Vec2Int, b: Vec2Int) -> int {
    (if a.x >= b.x {
        a.x - b.x
    } else {
        b.x - a.x
    }) + (if a.y >= b.y {
        a.y - b.y
    } else {
        b.y - a.y
    })
}

/// No route can beat the Manhattan distance: each step moves one cell along
/// one axis, so a route from `start` to `target` has at least that many steps.
pub proof fn lemma_route_at_least_manhattan(
    grid: Grid,
    blocked: Seq<bool>,
    start: Vec2Int,
    target: Vec2Int,
    p: Seq<Vec2Int>,
)
    requires
        is_path(grid, blocked, start, target, p),
    ensures
        p.len() >= manhattan(start, target),
    decreases p.len(),
{
    if p.len() == 1 {
        assert(adjacent(start, p[0]));
    } else {
        let q = p.subrange(1, p.len() as int);
        assert forall|k: int| 0 <= k < q.len() implies walkable(grid, blocked, #[trigger] q[k]) by {
            assert(q[k] == p[k + 1]);
        }
        assert forall|k: int| 0 <= k < q.len() - 1 implies adjacent(#[trigger] q[k], q[k + 1]) by {
            assert(q[k] == p[k + 1] && q[k + 1] == p[k + 2]);
            assert(adjacent(p[k + 1], p[k + 2]));
        }
        assert(q[q.len() - 1] == p[p.len() - 1]);
        assert(adjacent(p[0], p[1]));
        assert(q[0] == p[1]);
        assert(is_path(grid, blocked, p[0], target, q));
        lemma_route_at_least_manhattan(grid, blocked, p[0], target, q);
        assert(adjacent(start, p[0]));
        assert(manhattan(start, target) <= manhattan(p[0], target) + 1);
    }
}

/// Routes compose: one from `a` to `b` followed by one from `b` to `c` is a
/// route from `a` to `c`.
pub proof fn lemma_path_concat(
    grid: Grid,
    blocked: Seq<bool>,
    a: Vec2Int,
    b: Vec2Int,
    c: Vec2Int,
    p1: Seq<Vec2Int>,
    p2: Seq<Vec2Int>,
)
    requires
        is_path(grid, blocked, a, b, p1),
        is_path(grid, blocked, b, c, p2),
    ensures
        is_path(grid, blocked, a, c, p1 + p2),
{
    let p = p1 + p2;
    assert(p[p.len() - 1] == p2[p2.len() - 1]);
    assert(p[0] == p1[0]);
    assert forall|k: int| 0 <= k < p.len() implies walkable(grid, blocked, #[trigger] p[k]) by {
        if k < p1.len() {
            assert(p[k] == p1[k]);
        } else {
            assert(p[k] == p2[k - p1.len()]);
        }
    }
    assert forall|k: int| 0 <= k < p.len() - 1 implies adjacent(#[trigger] p[k], p[k + 1]) by {
        if k + 1 < p1.len() {
            assert(p[k] == p1[k] && p[k + 1] == p1[k + 1]);
        } else if k + 1 == p1.len() {
            assert(p[k] == p1[p1.len() - 1] && p[k + 1] == p2[0]);
            assert(adjacent(b, p2[0]));
        } else {
            assert(p[k] == p2[k - p1.len()] && p[k + 1] == p2[k + 1 - p1.len()]);
        }
    }
}

/// Reachability composes.
pub proof fn lemma_has_path_trans(
    grid: Grid,
    blocked: Seq<bool>,
    a: Vec2Int,
    b: Vec2Int,
    c: Vec2Int,
)
    requires
        has_path(grid, blocked, a, b),
        has_path(grid, blocked, b, c),
    ensures
        has_path(grid, blocked, a, c),
{
    let p1 = choose|p: Seq<Vec2Int>| is_path(grid, blocked, a, b, p);
    let p2 = choose|p: Seq<Vec2Int>| is_path(grid, blocked, b, c, p);
    lemma_path_concat(grid, blocked, a, b, c, p1, p2);
    assert(is_path(grid, blocked, a, c, p1 + p2));
}

/// A route from a walkable start runs backward as well: reachability between
/// walkable cells is symmetric.
pub proof fn lemma_has_path_sym(grid: Grid, blocked: Seq<bool>, a: Vec2Int, b: Vec2Int)
    requires
        walkable(grid, blocked, a),
        has_path(grid, blocked, a, b),
    ensures
        has_path(grid, blocked, b, a),
{
    let p = choose|pp: Seq<Vec2Int>| is_path(grid, blocked, a, b, pp);
    let n = p.len();
    let q = Seq::new(n as nat, |k: int| if k == n - 1 { a } else { p[n - 2 - k] });
    assert(q[q.len() - 1] == a);
    assert forall|k: int| 0 <= k < q.len() implies walkable(grid, blocked, #[trigger] q[k]) by {
        if k < n - 1 {
            assert(q[k] == p[n - 2 - k]);
        }
    }
    if n == 1 {
        assert(adjacent(a, p[0]));
        assert(q[0] == a);
        assert(adjacent(b, q[0]));
    } else {
        assert(q[0] == p[n - 2]);
        assert(adjacent(p[n - 2], p[n - 1]));
        assert(adjacent(b, q[0]));
    }
    assert forall|k: int| 0 <= k < q.len() - 1 implies adjacent(#[trigger] q[k], q[k + 1]) by {
        if k + 1 == n - 1 {
            assert(q[k] == p[0] && q[k + 1] == a);
            assert(adjacent(a, p[0]));
        } else {
            assert(q[k] == p[n - 2 - k] && q[k + 1] == p[n - 3 - k]);
            let j = n - 3 - k;
            assert(adjacent(p[j], p[j + 1]));
        }
    }
    assert(is_path(grid, blocked, b, a, q));
}

/// A straight horizontal run of walkable cells carries a route between its
/// two ends.
pub proof fn lemma_straight_path_h(grid: Grid, blocked: Seq<bool>, x1: i32, x2: i32, y: i32)
    requires
        x1 != x2,
        forall|x: i32|
            vstd::math::min(x1 as int, x2 as int) <= x <= vstd::math::max(x1 as int, x2 as int)
                ==> #[trigger] walkable(grid, blocked, (Vec2Int { x: x, y: y })),
    ensures
        has_path(grid, blocked, Vec2Int { x: x1, y: y }, Vec2Int { x: x2, y: y }),
    decreases
            if x1 < x2 {
                x2 - x1
            } else {
                x1 - x2
            },
{
    let a = Vec2Int { x: x1, y: y };
    let b = Vec2Int { x: x2, y: y };
    if x2 == x1 + 1 || x2 == x1 - 1 {
        let p = seq![b];
        assert(walkable(grid, blocked, p[0]));
        assert(is_path(grid, blocked, a, b, p));
    } else {
        let xm: i32 = if x2 > x1 {
            (x2 - 1) as i32
        } else {
            (x2 + 1) as i32
        };
        lemma_straight_path_h(grid, blocked, x1, xm, y);
        let m = Vec2Int { x: xm, y: y };
        let p = choose|pp: Seq<Vec2Int>| is_path(grid, blocked, a, m, pp);
        let p2 = p.push(b);
        assert(walkable(grid, blocked, b));
        assert(p2[p2.len() - 1] == b);
        assert(p2[0] == p[0]);
        assert forall|k: int| 0 <= k < p2.len() implies walkable(grid, blocked, #[trigger] p2[k]) by {
            if k < p.len() {
                assert(p2[k] == p[k]);
            }
        }
        assert forall|k: int| 0 <= k < p2.len() - 1 implies adjacent(#[trigger] p2[k], p2[k + 1]) by {
            if k < p.len() - 1 {
                assert(p2[k] == p[k] && p2[k + 1] == p[k + 1]);
                assert(adjacent(p[k], p[k + 1]));
            } else {
                assert(p2[k] == p[p.len() - 1] && p2[k + 1] == b);
            }
        }
        assert(is_path(grid, blocked, a, b, p2));
    }
}

/// A straight vertical run of walkable cells carries a route between its two
/// ends.
pub proof fn lemma_straight_path_v(grid: Grid, blocked: Seq<bool>, y1: i32, y2: i32, x: i32)
    requires
        y1 != y2,
        forall|y: i32|
            vstd::math::min(y1 as int, y2 as int) <= y <= vstd::math::max(y1 as int, y2 as int)
                ==> #[trigger] walkable(grid, blocked, (Vec2Int { x: x, y: y })),
    ensures
        has_path(grid, blocked, Vec2Int { x: x, y: y1 }, Vec2Int { x: x, y: y2 }),
    decreases
            if y1 < y2 {
                y2 - y1
            } else {
                y1 - y2
            },
{
    let a = Vec2Int { x: x, y: y1 };
    let b = Vec2Int { x: x, y: y2 };
    if y2 == y1 + 1 || y2 == y1 - 1 {
        let p = seq![b];
        assert(walkable(grid, blocked, p[0]));
        assert(is_path(grid, blocked, a, b, p));
    } else {
        let ym: i32 = if y2 > y1 {
            (y2 - 1) as i32
        } else {
            (y2 + 1) as i32
        };
        lemma_straight_path_v(grid, blocked, y1, ym, x);
        let m = Vec2Int { x: x, y: ym };
        let p = choose|pp: Seq<Vec2Int>| is_path(grid, blocked, a, m, pp);
        let p2 = p.push(b);
        assert(walkable(grid, blocked, b));
        assert(p2[p2.len() - 1] == b);
        assert(p2[0] == p[0]);
        assert forall|k: int| 0 <= k < p2.len() implies walkable(grid, blocked, #[trigger] p2[k]) by {
            if k < p.len() {
                assert(p2[k] == p[k]);
            }
        }
        assert forall|k: int| 0 <= k < p2.len() - 1 implies adjacent(#[trigger] p2[k], p2[k + 1]) by {
            if k < p.len() - 1 {
                assert(p2[k] == p[k] && p2[k + 1] == p[k + 1]);
                assert(adjacent(p[k], p[k + 1]));
            } else {
                assert(p2[k] == p[p.len() - 1] && p2[k + 1] == b);
            }
        }
        assert(is_path(grid, blocked, a, b, p2));
    }
}

/// Carving never removes floor, so routes survive it.
pub proof fn lemma_path_monotone(g1: Grid, g2: Grid, a: Vec2Int, b: Vec2Int)
    requires
        g1.tiles@.len() == g2.tiles@.len(),
        g1.width == g2.width,
        g1.height == g2.height,
        forall|cx: int, cy: int| g1.floor_at(cx, cy) ==> #[trigger] g2.floor_at(cx, cy),
        has_path(g1, empty_overlay(g1), a, b),
    ensures
        has_path(g2, empty_overlay(g2), a, b),
{
    let p = choose|pp: Seq<Vec2Int>| is_path(g1, empty_overlay(g1), a, b, pp);
    assert forall|k: int| 0 <= k < p.len() implies walkable(
        g2,
        empty_overlay(g2),
        #[trigger] p[k],
    ) by {
        assert(walkable(g1, empty_overlay(g1), p[k]));
        assert(empty_overlay(g2)[vidx(g2, p[k])] == false);
    }
    assert(is_path(g2, empty_overlay(g2), a, b, p));
}

/// The A* search proper, against an explicit occupancy overlay.
fn search(grid: &Grid, blocked: &Vec<bool>, start: Vec2Int, target: Vec2Int) -> (r: Option<Path>)
    requires
        grid.wf(),
        blocked@.len() == grid.tiles@.len(),
    ensures
        r matches Some(p) ==> is_path(*grid, blocked@, start, target, p.waypoints@),
        r is Some ==> grid.in_bounds_v(start) && start != target,
        grid.in_bounds_v(start) && start != target && has_path(*grid, blocked@, start, target)
            ==> r is Some,
{
    if !grid.bounds_check(start.x, start.y) {
        return None;
    }
    if !grid.bounds_check(target.x, target.y) {
        return None;
    }
    let n = grid.len();
    let mut preds = filled_preds(n, Pred::Unreached);
    let ghost mut ranks = Seq::<nat>::new(n as nat, |i: int| 0);
    let ghost mut counter: nat = 1;
    let ghost mut closed: Set<int> = Set::empty();
    let start_idx = grid.xy_idx(start.x, start.y);
    preds.set(start_idx, Pred::Origin);
    let mut frontier: Vec<Node> = Vec::new();
    frontier.push(Node { priority: 0, position: start });
    proof {
        assert forall|c: Vec2Int| grid.in_bounds_v(c) implies #[trigger] links_ok(
            *grid,
            blocked@,
            start,
            preds@,
            ranks,
            c,
        ) by {
            lemma_idx_in_range(c.x as int, c.y as int, grid.width as int, grid.height as int);
            if vidx(*grid, c) == start_idx {
                lemma_vidx_unique(*grid, c, start);
            }
        }
        assert(frontier@[0].position == start);
        assert(in_frontier(frontier@, start));
        assert forall|c: Vec2Int|
            grid.in_bounds_v(c) && #[trigger] discovered(*grid, preds@, c) implies closed.contains(
            vidx(*grid, c),
        ) || in_frontier(frontier@, c) || c == target by {
            lemma_idx_in_range(c.x as int, c.y as int, grid.width as int, grid.height as int);
            if vidx(*grid, c) == start_idx {
                lemma_vidx_unique(*grid, c, start);
            }
        }
    }
    while frontier.len() > 0
        invariant
            forall|c: Vec2Int|
                grid.in_bounds_v(c) && #[trigger] discovered(*grid, preds@, c) ==> closed.contains(
                    vidx(*grid, c),
                ) || in_frontier(frontier@, c) || c == target,
            grid.wf(),
            blocked@.len() == grid.tiles@.len(),
            preds@.len() == grid.tiles@.len(),
            ranks.len() == grid.tiles@.len(),
            grid.in_bounds_v(start),
            grid.in_bounds_v(target),
            start_idx == vidx(*grid, start),
            (start_idx as int) < grid.tiles@.len(),
            preds@[start_idx as int] == Pred::Origin,
            forall|c: Vec2Int|
                grid.in_bounds_v(c) ==> #[trigger] links_ok(
                    *grid,
                    blocked@,
                    start,
                    preds@,
                    ranks,
                    c,
                ),
            forall|k: int| 0 <= k < ranks.len() ==> #[trigger] ranks[k] < counter,
            forall|f: int|
                0 <= f < frontier@.len() ==> grid.in_bounds_v(
                    (#[trigger] frontier@[f]).position,
                ) && discovered(*grid, preds@, frontier@[f].position),
            forall|c: Vec2Int, nb: Vec2Int|
                #![trigger closed.contains(vidx(*grid, c)), walkable(*grid, blocked@, nb)]
                grid.in_bounds_v(c) && closed.contains(vidx(*grid, c)) && adjacent(c, nb)
                    && walkable(*grid, blocked@, nb) ==> discovered(*grid, preds@, nb),
        ensures
            frontier@.len() == 0 || discovered(*grid, preds@, target),
        decreases und(preds@), frontier@.len(),
    {
        let ghost fpre = frontier@;
        let (head, popped_at) = pop_min(&mut frontier);
        proof {
            let j = popped_at@;
            assert(fpre[j] == head);
            assert(grid.in_bounds_v(head.position) && discovered(*grid, preds@, head.position));
            assert forall|f: int| 0 <= f < frontier@.len() implies grid.in_bounds_v(
                (#[trigger] frontier@[f]).position,
            ) && discovered(*grid, preds@, frontier@[f].position) by {
                let m = choose|m: int| 0 <= m < fpre.len() && fpre[m] == frontier@[f];
                assert(grid.in_bounds_v(fpre[m].position));
            }
            assert forall|c: Vec2Int|
                grid.in_bounds_v(c) && #[trigger] discovered(*grid, preds@, c) implies closed
                .contains(vidx(*grid, c)) || in_frontier(frontier@, c) || c == head.position || c
                == target by {
                if !closed.contains(vidx(*grid, c)) && c != target {
                    assert(in_frontier(fpre, c));
                    let f = choose|f: int| 0 <= f < fpre.len() && (#[trigger] fpre[f]).position
                        == c;
                    if f == j {
                        assert(c == head.position);
                    } else {
                        assert(exists|k: int|
                            0 <= k < frontier@.len() && frontier@[k] == #[trigger] fpre[f]);
                        let k = choose|k: int|
                            0 <= k < frontier@.len() && frontier@[k] == #[trigger] fpre[f];
                        assert(frontier@[k].position == c);
                        assert(in_frontier(frontier@, c));
                    }
                }
            }
        }
        if head.position.x == target.x && head.position.y == target.y {
            proof {
                assert(head.position == target);
            }
            break ;
        }
        let hx = head.position.x;
        let hy = head.position.y;
        let head_idx = grid.xy_idx(hx, hy);
        proof {
            assert((grid.width as int) * 1 <= (grid.width as int) * (grid.height as int))
                by (nonlinear_arith)
                requires
                    0 < grid.height,
                    0 < grid.width,
            ;
            assert((grid.height as int) * (grid.width as int) == (grid.width as int) * (
            grid.height as int)) by (nonlinear_arith);
            assert((grid.height as int) * 1 <= (grid.height as int) * (grid.width as int))
                by (nonlinear_arith)
                requires
                    0 < grid.height,
                    0 < grid.width,
            ;
        }
        let ghost und0 = und(preds@);
        let ghost f0 = frontier@.len();
        let ghost p0 = preds@;
        let mut k: usize = 0;
        while k < 4
            invariant
                grid.wf(),
                blocked@.len() == grid.tiles@.len(),
                preds@.len() == grid.tiles@.len(),
                ranks.len() == grid.tiles@.len(),
                grid.in_bounds_v(start),
                grid.in_bounds_v(target),
                start_idx == vidx(*grid, start),
                (start_idx as int) < grid.tiles@.len(),
                preds@[start_idx as int] == Pred::Origin,
                k <= 4,
                grid.in_bounds_v(head.position),
                hx == head.position.x,
                hy == head.position.y,
                head_idx == vidx(*grid, head.position),
                head_idx < grid.tiles@.len(),
                discovered(*grid, preds@, head.position),
                grid.width <= i32::MAX,
                grid.height <= i32::MAX,
                forall|c: Vec2Int|
                    grid.in_bounds_v(c) ==> #[trigger] links_ok(
                        *grid,
                        blocked@,
                        start,
                        preds@,
                        ranks,
                        c,
                    ),
                forall|kk: int| 0 <= kk < ranks.len() ==> #[trigger] ranks[kk] < counter,
                forall|f: int|
                    0 <= f < frontier@.len() ==> grid.in_bounds_v(
                        (#[trigger] frontier@[f]).position,
                    ) && discovered(*grid, preds@, frontier@[f].position),
                forall|c: Vec2Int, nb: Vec2Int|
                    #![trigger closed.contains(vidx(*grid, c)), walkable(*grid, blocked@, nb)]
                    grid.in_bounds_v(c) && closed.contains(vidx(*grid, c)) && adjacent(c, nb)
                        && walkable(*grid, blocked@, nb) ==> discovered(*grid, preds@, nb),
                forall|c: Vec2Int|
                    grid.in_bounds_v(c) && #[trigger] discovered(*grid, preds@, c) ==> closed
                        .contains(vidx(*grid, c)) || in_frontier(frontier@, c) || c
                        == head.position || c == target,
                forall|kk: int|
                    0 <= kk < k && walkable(*grid, blocked@, #[trigger] step_from(
                        head.position,
                        kk,
                    )) ==> discovered(*grid, preds@, step_from(head.position, kk)),
                und0 == und(p0),
                und(preds@) < und0 || (preds@ == p0 && frontier@.len() == f0),
            decreases 4 - k,
        {
            let dir = Vec2Int::direction(k);
            let nx = hx + dir.x;
            let ny = hy + dir.y;
            if grid.bounds_check(nx, ny) {
                let nidx = grid.xy_idx(nx, ny);
                let open_cell = matches!(grid.tile(nx, ny), TileType::Floor) && !blocked[nidx];
                if open_cell {
                    let next = Vec2Int::new(nx, ny);
                    proof {
                        assert(next == step_from(head.position, k as int));
                        assert(walkable(*grid, blocked@, next));
                    }
                    let relax = matches!(preds[nidx], Pred::Unreached);
                    if relax {
                        let ghost pre_preds = preds@;
                        let ghost pre_ranks = ranks;
                        proof {
                            lemma_und_update(preds@, nidx as int, Pred::Step(head.position));
                        }
                        preds.set(nidx, Pred::Step(head.position));
                        proof {
                            ranks = ranks.update(nidx as int, counter);
                            counter = counter + 1;
                        }
                        let ghost fr_pre = frontier@;
                        let h = next.distance_rounded(&target);
                        frontier.push(Node { priority: h, position: next });
                        proof {
                            assert(und(preds@) == und(pre_preds) - 1);
                            assert(und(pre_preds) <= und0) by {
                                if !(und(pre_preds) < und0) {
                                    assert(pre_preds == p0);
                                    assert(und(pre_preds) == und(p0));
                                    assert(und(p0) == und0);
                                }
                            }
                            assert(und(preds@) < und0);
                            assert(head_idx != nidx) by {
                                if head_idx == nidx {
                                    lemma_vidx_unique(*grid, head.position, next);
                                }
                            }
                            assert(discovered(*grid, preds@, head.position));
                            assert forall|c: Vec2Int| grid.in_bounds_v(c) implies #[trigger] links_ok(
                                *grid,
                                blocked@,
                                start,
                                preds@,
                                ranks,
                                c,
                            ) by {
                                lemma_idx_in_range(
                                    c.x as int,
                                    c.y as int,
                                    grid.width as int,
                                    grid.height as int,
                                );
                                if vidx(*grid, c) == nidx as int {
                                    lemma_vidx_unique(*grid, c, next);
                                    assert(c == next);
                                    assert(preds@[vidx(*grid, c)] == Pred::Step(head.position));
                                    assert(walkable(*grid, blocked@, c));
                                    assert(adjacent(head.position, c));
                                    assert(ranks[vidx(*grid, head.position)] == pre_ranks[vidx(
                                        *grid,
                                        head.position,
                                    )]);
                                    assert(ranks[vidx(*grid, head.position)] < counter - 1);
                                    assert(ranks[vidx(*grid, c)] == counter - 1);
                                    assert(!(preds@[vidx(*grid, head.position)] is Unreached));
                                } else {
                                    assert(links_ok(*grid, blocked@, start, pre_preds, pre_ranks, c));
                                    match pre_preds[vidx(*grid, c)] {
                                        Pred::Unreached => {},
                                        Pred::Origin => {},
                                        Pred::Step(p) => {
                                            assert(preds@[vidx(*grid, c)] == Pred::Step(p));
                                            lemma_idx_in_range(
                                                p.x as int,
                                                p.y as int,
                                                grid.width as int,
                                                grid.height as int,
                                            );
                                            if vidx(*grid, p) == nidx as int {
                                                assert(pre_preds[vidx(*grid, p)] is Unreached);
                                                assert(false);
                                            }
                                        },
                                    }
                                }
                            }
                            assert forall|c: Vec2Int|
                                grid.in_bounds_v(c) && #[trigger] discovered(*grid, preds@, c)
                                    implies closed.contains(vidx(*grid, c)) || in_frontier(
                                frontier@,
                                c,
                            ) || c == head.position || c == target by {
                                if discovered(*grid, pre_preds, c) {
                                    if !closed.contains(vidx(*grid, c)) && c != head.position && c
                                        != target {
                                        assert(in_frontier(fr_pre, c));
                                        let f = choose|f: int|
                                            0 <= f < fr_pre.len() && (#[trigger] fr_pre[f]).position == c;
                                        assert(frontier@[f] == fr_pre[f]);
                                        assert(in_frontier(frontier@, c));
                                    }
                                } else {
                                    lemma_idx_in_range(
                                        c.x as int,
                                        c.y as int,
                                        grid.width as int,
                                        grid.height as int,
                                    );
                                    lemma_vidx_unique(*grid, c, next);
                                    assert(frontier@[frontier@.len() - 1].position == c);
                                    assert(in_frontier(frontier@, c));
                                }
                            }
                            assert forall|c: Vec2Int|
                                grid.in_bounds_v(c) && discovered(*grid, pre_preds, c)
                                    implies #[trigger] discovered(*grid, preds@, c) by {
                                lemma_idx_in_range(
                                    c.x as int,
                                    c.y as int,
                                    grid.width as int,
                                    grid.height as int,
                                );
                            }
                            assert forall|c: Vec2Int, nb: Vec2Int|
                                #![trigger closed.contains(vidx(*grid, c)), walkable(*grid, blocked@, nb)]
                                grid.in_bounds_v(c) && closed.contains(vidx(*grid, c)) && adjacent(
                                    c,
                                    nb,
                                ) && walkable(*grid, blocked@, nb) implies discovered(
                                *grid,
                                preds@,
                                nb,
                            ) by {
                                assert(discovered(*grid, pre_preds, nb));
                                assert(grid.in_bounds_v(nb));
                            }
                            assert forall|f: int| 0 <= f < frontier@.len() implies grid
                                .in_bounds_v((#[trigger] frontier@[f]).position) && discovered(
                                *grid,
                                preds@,
                                frontier@[f].position,
                            ) by {
                                if f < fr_pre.len() {
                                    assert(frontier@[f] == fr_pre[f]);
                                    assert(grid.in_bounds_v(fr_pre[f].position));
                                    assert(discovered(*grid, pre_preds, fr_pre[f].position));
                                    lemma_idx_in_range(
                                        fr_pre[f].position.x as int,
                                        fr_pre[f].position.y as int,
                                        grid.width as int,
                                        grid.height as int,
                                    );
                                } else {
                                    assert(frontier@[f].position == next);
                                }
                            }
                        }
                    }
                }
            }
            proof {
                assert(step_from(head.position, k as int) == (Vec2Int { x: nx, y: ny }));
                if walkable(*grid, blocked@, step_from(head.position, k as int)) {
                    assert(grid.in_bounds(nx as int, ny as int));
                    assert(discovered(*grid, preds@, step_from(head.position, k as int)));
                }
            }
            k = k + 1;
        }
        proof {
            closed = closed.insert(head_idx as int);
            assert forall|c: Vec2Int, nb: Vec2Int|
                #![trigger closed.contains(vidx(*grid, c)), walkable(*grid, blocked@, nb)]
                grid.in_bounds_v(c) && closed.contains(vidx(*grid, c)) && adjacent(c, nb)
                    && walkable(*grid, blocked@, nb) implies discovered(*grid, preds@, nb) by {
                if vidx(*grid, c) == head_idx as int {
                    lemma_vidx_unique(*grid, c, head.position);
                    if nb.x == c.x - 1 && nb.y == c.y {
                        assert(nb == step_from(head.position, 0));
                    } else if nb.x == c.x + 1 && nb.y == c.y {
                        assert(nb == step_from(head.position, 1));
                    } else if nb.x == c.x && nb.y == c.y + 1 {
                        assert(nb == step_from(head.position, 2));
                    } else {
                        assert(nb == step_from(head.position, 3));
                    }
                }
            }
        }
    }
    // The search is over: reconstruct the predecessor chain from the target.
    proof {
        if frontier@.len() == 0 && start != target && has_path(*grid, blocked@, start, target) {
            let p = choose|p: Seq<Vec2Int>| is_path(*grid, blocked@, start, target, p);
            assert(is_path(*grid, blocked@, start, target, p));
            assert(discovered(*grid, preds@, start));
            assert forall|c: Vec2Int|
                grid.in_bounds_v(c) && #[trigger] discovered(*grid, preds@, c) implies closed
                .contains(vidx(*grid, c)) || c == target by {
                assert(!in_frontier(frontier@, c));
            }
            lemma_path_discovered(
                *grid,
                blocked@,
                start,
                preds@,
                closed,
                target,
                p,
                p.len() - 1,
            );
            assert(discovered(*grid, preds@, target));
        }
        if discovered(*grid, preds@, target) && start != target {
            lemma_idx_in_range(
                target.x as int,
                target.y as int,
                grid.width as int,
                grid.height as int,
            );
            assert(links_ok(*grid, blocked@, start, preds@, ranks, target));
            assert(preds@[vidx(*grid, target)] is Step);
        }
    }
    proof {
        lemma_idx_in_range(target.x as int, target.y as int, grid.width as int, grid.height as int);
    }
    let mut waypoints: Vec<Vec2Int> = Vec::new();
    let mut current: Vec2Int = target;
    loop
        invariant
            grid.wf(),
            blocked@.len() == grid.tiles@.len(),
            preds@.len() == grid.tiles@.len(),
            ranks.len() == grid.tiles@.len(),
            grid.in_bounds_v(current),
            grid.in_bounds_v(target),
            0 <= vidx(*grid, current) < ranks.len(),
            forall|c: Vec2Int|
                grid.in_bounds_v(c) ==> #[trigger] links_ok(
                    *grid,
                    blocked@,
                    start,
                    preds@,
                    ranks,
                    c,
                ),
            waypoints@.len() == 0 ==> current == target,
            waypoints@.len() > 0 ==> waypoints@[0] == target && preds@[vidx(*grid, target)]
                is Step,
            waypoints@.len() > 0 ==> adjacent(current, waypoints@[waypoints@.len() - 1]) && !(
            preds@[vidx(*grid, current)] is Unreached),
            forall|kk: int|
                0 <= kk < waypoints@.len() ==> walkable(*grid, blocked@, #[trigger] waypoints@[kk]),
            forall|kk: int|
                0 <= kk < waypoints@.len() - 1 ==> adjacent(
                    #[trigger] waypoints@[kk + 1],
                    waypoints@[kk],
                ),
        ensures
            waypoints@.len() > 0 ==> current == start && preds@[vidx(*grid, target)] is Step,
            waypoints@.len() == 0 ==> !(preds@[vidx(*grid, target)] is Step),
            waypoints@.len() > 0 ==> waypoints@[0] == target && adjacent(
                current,
                waypoints@[waypoints@.len() - 1],
            ),
            forall|kk: int|
                0 <= kk < waypoints@.len() ==> walkable(*grid, blocked@, #[trigger] waypoints@[kk]),
            forall|kk: int|
                0 <= kk < waypoints@.len() - 1 ==> adjacent(
                    #[trigger] waypoints@[kk + 1],
                    waypoints@[kk],
                ),
        decreases ranks[vidx(*grid, current)],
    {
        let cidx = grid.xy_idx(current.x, current.y);
        let step = preds[cidx];
        match step {
            Pred::Unreached => {
                break ;
            },
            Pred::Origin => {
                proof {
                    assert(links_ok(*grid, blocked@, start, preds@, ranks, current));
                    assert(current == start);
                }
                break ;
            },
            Pred::Step(p) => {
                proof {
                    assert(links_ok(*grid, blocked@, start, preds@, ranks, current));
                    lemma_idx_in_range(
                        p.x as int,
                        p.y as int,
                        grid.width as int,
                        grid.height as int,
                    );
                }
                waypoints.push(current);
                current = p;
            },
        }
    }
    if waypoints.len() == 0 {
        proof {
            if grid.in_bounds_v(start) && start != target && has_path(
                *grid,
                blocked@,
                start,
                target,
            ) {
                assert(false);
            }
        }
        return None;
    }
    let mut dq: VecDeque<Vec2Int> = VecDeque::new();
    let mut i: usize = waypoints.len();
    while i > 0
        invariant
            i <= waypoints@.len(),
            dq@.len() == waypoints@.len() - i,
            forall|kk: int|
                0 <= kk < dq@.len() ==> #[trigger] dq@[kk] == waypoints@[waypoints@.len() - 1 - kk],
        decreases i,
    {
        i = i - 1;
        dq.push_back(waypoints[i]);
    }
    let ghost w = waypoints@;
    let ghost rev = dq@;
    proof {
        assert(rev.len() == w.len());
        assert(rev[rev.len() - 1] == w[0]);
        assert(adjacent(start, rev[0]));
        assert forall|kk: int| 0 <= kk < rev.len() implies walkable(
            *grid,
            blocked@,
            #[trigger] rev[kk],
        ) by {
            assert(rev[kk] == w[w.len() - 1 - kk]);
        }
        assert forall|kk: int| 0 <= kk < rev.len() - 1 implies adjacent(
            #[trigger] rev[kk],
            rev[kk + 1],
        ) by {
            assert(rev[kk] == w[w.len() - 1 - kk]);
            assert(rev[kk + 1] == w[w.len() - 2 - kk]);
            let j = w.len() - 2 - kk;
            assert(adjacent(w[j + 1], w[j]));
            assert(w[j + 1] == w[w.len() - 1 - kk]);
        }
    }
    let result = Path { waypoints: dq };
    proof {
        assert(is_path(*grid, blocked@, start, target, result.waypoints@));
        if start == target {
            assert(preds@[vidx(*grid, target)] is Step);
            assert(preds@[start_idx as int] == Pred::Origin);
            assert(false);
        }
    }
    Some(result)
}

impl Path {
    /// A* search from `start` to `target` over the grid's floor tiles.
    /// Returns a route exactly when the start cell is on the grid, the two
    /// cells differ, and some route exists; the route returned runs over
    /// floor tiles from the cell after `start` up to and including `target`.
    pub fn calculate(start: Vec2Int, target: Vec2Int, map: &Grid) -> (r: Option<Path>)
        requires
            map.wf(),
        ensures
            r matches Some(p) ==> is_path(*map, empty_overlay(*map), start, target, p.waypoints@),
            r is Some <==> map.in_bounds_v(start) && start != target && has_path(
                *map,
                empty_overlay(*map),
                start,
                target,
            ),
    {
        let n = map.len();
        let blocked = filled_flags(n, false);
        proof {
            assert(blocked@ =~= empty_overlay(*map));
        }
        let r = search(map, &blocked, start, target);
        proof {
            if r is Some {
                let p = r->Some_0;
                assert(is_path(*map, empty_overlay(*map), start, target, p.waypoints@));
                assert(has_path(*map, empty_overlay(*map), start, target));
            }
        }
        r
    }

    /// A* search that additionally avoids the cells an occupancy overlay
    /// marks as blocked (one flag per grid cell, row-major).
    pub fn calculate_avoiding(
        start: Vec2Int,
        target: Vec2Int,
        map: &Grid,
        blocked: &Vec<bool>,
    ) -> (r: Option<Path>)
        requires
            map.wf(),
            blocked@.len() == map.tiles@.len(),
        ensures
            r matches Some(p) ==> is_path(*map, blocked@, start, target, p.waypoints@),
            r is Some <==> map.in_bounds_v(start) && start != target && has_path(
                *map,
                blocked@,
                start,
                target,
            ),
    {
        let r = search(map, blocked, start, target);
        proof {
            if r is Some {
                let p = r->Some_0;
                assert(is_path(*map, blocked@, start, target, p.waypoints@));
                assert(has_path(*map, blocked@, start, target));
            }
        }
        r
    }

    /// Pop and return the next waypoint, front first.
    pub fn next_waypoint(&mut self) -> (r: Option<Vec2Int>)
        ensures
            old(self).waypoints@.len() == 0 ==> r is None && final(self).waypoints@
                == old(self).waypoints@,
            old(self).waypoints@.len() > 0 ==> r == Some(old(self).waypoints@[0])
                && final(self).waypoints@ == old(self).waypoints@.subrange(
                1,
                old(self).waypoints@.len() as int,
            ),
    {
        self.waypoints.pop_front()
    }
}

} // verus!
