//! Integer grid coordinates, the four unit movement directions, and the
//! integer form of the Euclidean distance used by visibility and pathfinding.

use vstd::prelude::*;

verus! {

/// A grid position or offset: a pair of signed integers.
#[derive(Clone, Copy, PartialEq, Eq, Structural, Debug)]
pub struct Vec2Int {
    pub x: i32,
    pub y: i32,
}

/// The four unit directions, in the fixed order left, right, up, down.
pub open spec fn dir_delta(k: int) -> (int, int) {
    if k == 0 {
        (-1, 0)
    } else if k == 1 {
        (1, 0)
    } else if k == 2 {
        (0, 1)
    } else {
        (0, -1)
    }
}

/// Two cells are adjacent when they differ by exactly one unit step along
/// exactly one axis.
pub open spec fn adjacent(a: Vec2Int, b: Vec2Int) -> bool {
    ||| (b.x == a.x - 1 && b.y == a.y)
    ||| (b.x == a.x + 1 && b.y == a.y)
    ||| (b.x == a.x && b.y == a.y + 1)
    ||| (b.x == a.x && b.y == a.y - 1)
}

/// The squared Euclidean distance between two cells, as a mathematical integer.
pub open spec fn dist_sq(a: Vec2Int, b: Vec2Int) -> int {
    (a.x - b.x) * (a.x - b.x) + (a.y - b.y) * (a.y - b.y)
}

impl Vec2Int {
    pub fn new(x: i32, y: i32) -> (r: Vec2Int)
        ensures
            r.x == x,
            r.y == y,
    {
        Vec2Int { x, y }
    }

    /// The unit direction with index `k`, in the order left, right, up, down.
    pub fn direction(k: usize) -> (r: Vec2Int)
        requires
            k < 4,
        ensures
            (r.x as int, r.y as int) == dir_delta(k as int),
    {
        if k == 0 {
            Vec2Int { x: -1, y: 0 }
        } else if k == 1 {
            Vec2Int { x: 1, y: 0 }
        } else if k == 2 {
            Vec2Int { x: 0, y: 1 }
        } else {
            Vec2Int { x: 0, y: -1 }
        }
    }

    /// Componentwise addition.
    pub fn plus(self, rhs: Vec2Int) -> (r: Vec2Int)
        requires
            i32::MIN <= self.x + rhs.x <= i32::MAX,
            i32::MIN <= self.y + rhs.y <= i32::MAX,
        ensures
            r.x == self.x + rhs.x,
            r.y == self.y + rhs.y,
    {
        Vec2Int { x: self.x + rhs.x, y: self.y + rhs.y }
    }

    /// The squared Euclidean distance to `other`.
    pub fn dist_squared(&self, other: &Vec2Int) -> (r: u128)
        ensures
            r == dist_sq(*self, *other),
            r < 0x4_0000_0000_0000_0000,
    {
        let dx: i64 = self.x as i64 - other.x as i64;
        let dy: i64 = self.y as i64 - other.y as i64;
        let ax: u64 = if dx < 0 {
            (-dx) as u64
        } else {
            dx as u64
        };
        let ay: u64 = if dy < 0 {
            (-dy) as u64
        } else {
            dy as u64
        };
        proof {
            assert((ax as int) * (ax as int) == (self.x - other.x) * (self.x - other.x))
                by (nonlinear_arith)
                requires
                    ax == if self.x - other.x < 0 {
                        -(self.x - other.x)
                    } else {
                        self.x - other.x
                    },
            ;
            assert((ay as int) * (ay as int) == (self.y - other.y) * (self.y - other.y))
                by (nonlinear_arith)
                requires
                    ay == if self.y - other.y < 0 {
                        -(self.y - other.y)
                    } else {
                        self.y - other.y
                    },
            ;
            assert((ax as int) * (ax as int) + (ay as int) * (ay as int)
                < 0x4_0000_0000_0000_0000) by (nonlinear_arith)
                requires
                    ax <= 0xFFFF_FFFFu64,
                    ay <= 0xFFFF_FFFFu64,
            ;
        }
        (ax as u128) * (ax as u128) + (ay as u128) * (ay as u128)
    }

    /// The Euclidean distance to `other`, rounded to the nearest integer:
    /// the unique `r` with `r*r - r < dist_sq <= r*r + r` (and `r == 0`
    /// exactly when the cells coincide).
    pub fn distance_rounded(&self, other: &Vec2Int) -> (r: u64)
        ensures
            r == 0 ==> dist_sq(*self, *other) == 0,
            r > 0 ==> (r as int) * (r as int) - r < dist_sq(*self, *other),
            dist_sq(*self, *other) <= (r as int) * (r as int) + r,
    {
        let s = self.dist_squared(other);
        let q = isqrt(s);
        proof {
            assert((q as int) * (q as int) <= 0x4_0000_0000_0000_0000) by (nonlinear_arith)
                requires
                    q <= 0x2_0000_0000u64,
            ;
        }
        if s <= (q as u128) * (q as u128) + (q as u128) {
            proof {
                assert(q == 0 ==> dist_sq(*self, *other) == 0);
                assert(q > 0 ==> (q as int) * (q as int) - q < dist_sq(*self, *other));
                assert(dist_sq(*self, *other) <= (q as int) * (q as int) + q);
            }
            q
        } else {
            proof {
                assert((q as int + 1) * (q as int + 1) == (q as int) * (q as int) + 2 * (q as int)
                    + 1) by (nonlinear_arith);
                assert((q as int + 1) * (q as int + 1) - (q + 1) < dist_sq(*self, *other));
                assert(dist_sq(*self, *other) <= (q as int + 1) * (q as int + 1) + (q + 1));
            }
            q + 1
        }
    }
}

/// The integer square root: the unique `q` with `q*q <= s < (q+1)*(q+1)`.
pub fn isqrt(s: u128) -> (q: u64)
    requires
        s < 0x4_0000_0000_0000_0000,
    ensures
        (q as int) * (q as int) <= s < (q as int + 1) * (q as int + 1),
        q < 0x2_0000_0000,
{
    let mut lo: u64 = 0;
    let mut hi: u64 = 0x2_0000_0000;
    proof {
        assert((hi as int) * (hi as int) == 0x4_0000_0000_0000_0000) by (nonlinear_arith)
            requires
                hi == 0x2_0000_0000u64,
        ;
    }
    while lo + 1 < hi
        invariant
            lo < hi <= 0x2_0000_0000,
            (lo as int) * (lo as int) <= s,
            s < (hi as int) * (hi as int),
        decreases hi - lo,
    {
        let mid = lo + (hi - lo) / 2;
        proof {
            assert((mid as int) * (mid as int) <= 0x4_0000_0000_0000_0000) by (nonlinear_arith)
                requires
                    mid <= 0x2_0000_0000u64,
            ;
        }
        if (mid as u128) * (mid as u128) <= s {
            lo = mid;
        } else {
            hi = mid;
        }
    }
    lo
}

} // verus!
