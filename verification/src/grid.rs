//! The tile store: a dense row-major grid of wall/floor tiles together with
//! the list of accepted rooms, and the carving operations the generator uses.

use vstd::prelude::*;

use crate::rect::Rect;
use crate::vec2::Vec2Int;

verus! {

use vstd::math::{max, min};

/// The closed classification of one grid cell.
#[derive(Clone, Copy, PartialEq, Eq, Structural, Debug)]
pub enum TileType {
    Wall,
    Floor,
}

/// A fixed-size tile grid with row-major linearization `index = y * width + x`,
/// plus the rooms accepted while it was generated.
pub struct Grid {
    pub tiles: Vec<TileType>,
    pub rooms: Vec<Rect>,
    pub width: i32,
    pub height: i32,
}

/// `0 <= y*w + x < w*h` whenever `(x, y)` is inside a `w` by `h` grid.
pub proof fn lemma_idx_in_range(x: int, y: int, w: int, h: int)
    requires
        0 <= x < w,
        0 <= y < h,
    ensures
        0 <= y * w + x < w * h,
{
    assert(0 <= y * w + x < w * h) by (nonlinear_arith)
        requires
            0 <= x < w,
            0 <= y < h,
    ;
}

/// Row-major linearization is injective: two in-bounds coordinate pairs with
/// the same index are the same pair, so the inverse mapping recovers `(x, y)`.
pub proof fn lemma_linearize_unique(x1: int, y1: int, x2: int, y2: int, w: int, h: int)
    requires
        0 <= x1 < w,
        0 <= y1 < h,
        0 <= x2 < w,
        0 <= y2 < h,
        y1 * w + x1 == y2 * w + x2,
    ensures
        x1 == x2,
        y1 == y2,
{
    assert(y1 == y2) by (nonlinear_arith)
        requires
            0 <= x1 < w,
            0 <= x2 < w,
            y1 * w + x1 == y2 * w + x2,
    ;
}

impl Grid {
    /// Positive dimensions, a total cell count that fits an `i32`, and a tile
    /// vector of exactly `width * height` entries.
    pub open spec fn wf(self) -> bool {
        &&& 0 < self.width
        &&& 0 < self.height
        &&& (self.width as int) * (self.height as int) <= i32::MAX
        &&& self.tiles@.len() == (self.width as int) * (self.height as int)
    }

    pub open spec fn in_bounds(self, x: int, y: int) -> bool {
        0 <= x < self.width && 0 <= y < self.height
    }

    pub open spec fn in_bounds_v(self, v: Vec2Int) -> bool {
        self.in_bounds(v.x as int, v.y as int)
    }

    pub open spec fn idx_of(self, x: int, y: int) -> int {
        y * self.width + x
    }

    /// The tile stored at `(x, y)`; meaningful only for in-bounds coordinates.
    pub open spec fn tile_at(self, x: int, y: int) -> TileType {
        self.tiles@[self.idx_of(x, y)]
    }

    /// `(x, y)` is inside the grid and holds a floor tile.
    pub open spec fn floor_at(self, x: int, y: int) -> bool {
        self.in_bounds(x, y) && self.tile_at(x, y) == TileType::Floor
    }

    /// Every tile on the outer border of the grid is a wall.
    pub open spec fn border_walls(self) -> bool {
        forall|x: int, y: int|
            self.in_bounds(x, y) && (x == 0 || x == self.width - 1 || y == 0 || y == self.height
                - 1) ==> #[trigger] self.tile_at(x, y) == TileType::Wall
    }

    /// A grid of the given dimensions with every tile a wall and no rooms.
    pub fn new_walls(width: i32, height: i32) -> (r: Grid)
        requires
            0 < width,
            0 < height,
            width * height <= i32::MAX,
        ensures
            r.wf(),
            r.width == width,
            r.height == height,
            r.rooms@.len() == 0,
            forall|x: int, y: int| r.in_bounds(x, y) ==> #[trigger] r.tile_at(x, y)
                == TileType::Wall,
    {
        proof {
            lemma_idx_in_range(width - 1, height - 1, width as int, height as int);
        }
        let n: usize = (width as usize) * (height as usize);
        let mut tiles: Vec<TileType> = Vec::new();
        let mut i: usize = 0;
        while i < n
            invariant
                i <= n,
                tiles@.len() == i,
                forall|k: int| 0 <= k < i ==> tiles@[k] == TileType::Wall,
            decreases n - i,
        {
            tiles.push(TileType::Wall);
            i = i + 1;
        }
        let r = Grid { tiles, rooms: Vec::new(), width, height };
        proof {
            assert forall|x: int, y: int| r.in_bounds(x, y) implies #[trigger] r.tile_at(x, y)
                == TileType::Wall by {
                lemma_idx_in_range(x, y, width as int, height as int);
            }
        }
        r
    }

    /// The row-major index of an in-bounds coordinate pair.
    pub fn xy_idx(&self, x: i32, y: i32) -> (r: usize)
        requires
            self.wf(),
            self.in_bounds(x as int, y as int),
        ensures
            r == self.idx_of(x as int, y as int),
            r < self.tiles@.len(),
    {
        proof {
            lemma_idx_in_range(x as int, y as int, self.width as int, self.height as int);
        }
        (y as usize) * (self.width as usize) + (x as usize)
    }

    /// The inverse of `xy_idx`: the unique in-bounds `(x, y)` whose row-major
    /// index is `idx`.
    pub fn idx_xy(&self, idx: usize) -> (r: (i32, i32))
        requires
            self.wf(),
            idx < self.tiles@.len(),
        ensures
            self.in_bounds(r.0 as int, r.1 as int),
            self.idx_of(r.0 as int, r.1 as int) == idx,
    {
        let w = self.width as usize;
        let x = idx % w;
        let y = idx / w;
        proof {
            assert(idx == (y as int) * (w as int) + x && (x as int) < w && (y as int)
                < self.height) by (nonlinear_arith)
                requires
                    w as int == self.width as int,
                    0 < w as int,
                    x as int == idx as int % (w as int),
                    y as int == idx as int / (w as int),
                    idx < (self.width as int) * (self.height as int),
            ;
        }
        (x as i32, y as i32)
    }

    /// The number of tiles, `width * height`.
    pub fn len(&self) -> (r: usize)
        requires
            self.wf(),
        ensures
            r == self.tiles@.len(),
    {
        proof {
            lemma_idx_in_range(self.width - 1, self.height - 1, self.width as int,
                self.height as int);
        }
        (self.width as usize) * (self.height as usize)
    }

    pub fn bounds_check(&self, x: i32, y: i32) -> (r: bool)
        ensures
            r == self.in_bounds(x as int, y as int),
    {
        0 <= x && x < self.width && 0 <= y && y < self.height
    }

    /// The tile classification at an in-bounds coordinate pair.
    pub fn tile(&self, x: i32, y: i32) -> (r: TileType)
        requires
            self.wf(),
            self.in_bounds(x as int, y as int),
        ensures
            r == self.tile_at(x as int, y as int),
    {
        let idx = self.xy_idx(x, y);
        self.tiles[idx]
    }

    /// A fresh tile vector of this grid's size with every entry `t`.
    pub(crate) fn make_filled(&self, t: TileType) -> (r: Vec<TileType>)
        requires
            self.wf(),
        ensures
            r@.len() == self.tiles@.len(),
            forall|k: int| 0 <= k < r@.len() ==> r@[k] == t,
    {
        let n: usize = self.len();
        let mut tiles: Vec<TileType> = Vec::new();
        let mut i: usize = 0;
        while i < n
            invariant
                i <= n,
                tiles@.len() == i,
                forall|k: int| 0 <= k < i ==> tiles@[k] == t,
            decreases n - i,
        {
            tiles.push(t);
            i = i + 1;
        }
        tiles
    }

    fn set_tile(&mut self, x: i32, y: i32, t: TileType)
        requires
            old(self).wf(),
            old(self).in_bounds(x as int, y as int),
        ensures
            final(self).wf(),
            final(self).width == old(self).width,
            final(self).height == old(self).height,
            final(self).rooms@ == old(self).rooms@,
            final(self).tiles@ == old(self).tiles@.update(
                old(self).idx_of(x as int, y as int),
                t,
            ),
    {
        let idx = self.xy_idx(x, y);
        self.tiles.set(idx, t);
    }

    /// Write one cell, silently skipping off-grid coordinates.
    pub(crate) fn poke(&mut self, x: i32, y: i32, t: TileType)
        requires
            old(self).wf(),
        ensures
            final(self).wf(),
            final(self).width == old(self).width,
            final(self).height == old(self).height,
            final(self).rooms@ == old(self).rooms@,
            forall|cx: int, cy: int|
                old(self).in_bounds(cx, cy) ==> #[trigger] final(self).tile_at(cx, cy) == (if cx
                    == x && cy == y {
                    t
                } else {
                    old(self).tile_at(cx, cy)
                }),
    {
        if self.bounds_check(x, y) {
            let ghost pre = *self;
            self.set_tile(x, y, t);
            proof {
                assert forall|cx: int, cy: int| pre.in_bounds(cx, cy) implies #[trigger] self
                    .tile_at(cx, cy) == (if cx == x && cy == y {
                    t
                } else {
                    pre.tile_at(cx, cy)
                }) by {
                    lemma_idx_in_range(cx, cy, pre.width as int, pre.height as int);
                    lemma_idx_in_range(x as int, y as int, pre.width as int, pre.height as int);
                    if !(cx == x && cy == y) && pre.idx_of(cx, cy) == pre.idx_of(
                        x as int,
                        y as int,
                    ) {
                        lemma_linearize_unique(cx, cy, x as int, y as int, pre.width as int,
                            pre.height as int);
                    }
                }
            }
        }
    }

    /// Carve a room's footprint to floor, leaving the rectangle's topmost row
    /// and leftmost column as wall so that adjacent rooms keep a separating
    /// border. Off-grid parts of the footprint are skipped.
    pub fn apply_room_to_map(&mut self, room: &Rect)
        requires
            old(self).wf(),
            room.x < room.x2,
            room.y < room.y2,
        ensures
            final(self).wf(),
            final(self).width == old(self).width,
            final(self).height == old(self).height,
            final(self).rooms@ == old(self).rooms@,
            forall|cx: int, cy: int|
                old(self).in_bounds(cx, cy) ==> #[trigger] final(self).tile_at(cx, cy) == (if room.x
                    + 1 <= cx <= room.x2 && room.y + 1 <= cy <= room.y2 {
                    TileType::Floor
                } else {
                    old(self).tile_at(cx, cy)
                }),
    {
        let ghost pre = *self;
        let y_lo: i32 = if room.y + 1 > 0 {
            room.y + 1
        } else {
            0
        };
        let y_hi: i32 = if room.y2 < self.height - 1 {
            room.y2
        } else {
            self.height - 1
        };
        let x_lo: i32 = if room.x + 1 > 0 {
            room.x + 1
        } else {
            0
        };
        let x_hi: i32 = if room.x2 < self.width - 1 {
            room.x2
        } else {
            self.width - 1
        };
        let mut y = y_lo;
        while y <= y_hi
            invariant
                self.wf(),
                self.width == pre.width,
                self.height == pre.height,
                self.rooms@ == pre.rooms@,
                pre.wf(),
                y_lo <= y,
                y_lo == if room.y + 1 > 0 {
                    room.y + 1 as int
                } else {
                    0
                },
                y_hi <= self.height - 1,
                y_hi == if room.y2 < pre.height - 1 {
                    room.y2 as int
                } else {
                    pre.height - 1
                },
                x_lo == if room.x + 1 > 0 {
                    room.x + 1 as int
                } else {
                    0
                },
                x_hi == if room.x2 < pre.width - 1 {
                    room.x2 as int
                } else {
                    pre.width - 1
                },
                forall|cx: int, cy: int|
                    pre.in_bounds(cx, cy) ==> #[trigger] self.tile_at(cx, cy) == (if room.x + 1
                        <= cx <= room.x2 && room.y + 1 <= cy <= room.y2 && cy < y {
                        TileType::Floor
                    } else {
                        pre.tile_at(cx, cy)
                    }),
            decreases y_hi + 1 - y,
        {
            let mut x = x_lo;
            while x <= x_hi
                invariant
                    self.wf(),
                    self.width == pre.width,
                    self.height == pre.height,
                    self.rooms@ == pre.rooms@,
                    pre.wf(),
                    x_lo <= x,
                    y_lo <= y <= y_hi <= self.height - 1,
                    0 <= y_lo,
                    y_lo == if room.y + 1 > 0 {
                        room.y + 1 as int
                    } else {
                        0
                    },
                    x_lo == if room.x + 1 > 0 {
                        room.x + 1 as int
                    } else {
                        0
                    },
                    x_hi == if room.x2 < pre.width - 1 {
                        room.x2 as int
                    } else {
                        pre.width - 1
                    },
                    y_hi == if room.y2 < pre.height - 1 {
                        room.y2 as int
                    } else {
                        pre.height - 1
                    },
                    forall|cx: int, cy: int|
                        pre.in_bounds(cx, cy) ==> #[trigger] self.tile_at(cx, cy) == (if room.x + 1
                            <= cx <= room.x2 && room.y + 1 <= cy <= room.y2 && (cy < y || (cy == y
                            && cx < x)) {
                            TileType::Floor
                        } else {
                            pre.tile_at(cx, cy)
                        }),
                decreases x_hi + 1 - x,
            {
                self.poke(x, y, TileType::Floor);
                x = x + 1;
            }
            y = y + 1;
        }
    }

    /// Carve a horizontal corridor at row `y` spanning the columns between
    /// `x1` and `x2` inclusive; off-grid cells are silently skipped.
    pub fn apply_horizontal_tunnel(&mut self, x1: i32, x2: i32, y: i32)
        requires
            old(self).wf(),
        ensures
            final(self).wf(),
            final(self).width == old(self).width,
            final(self).height == old(self).height,
            final(self).rooms@ == old(self).rooms@,
            forall|cx: int, cy: int|
                old(self).in_bounds(cx, cy) ==> #[trigger] final(self).tile_at(cx, cy) == (if cy
                    == y && min(x1 as int, x2 as int) <= cx <= max(x1 as int, x2 as int) {
                    TileType::Floor
                } else {
                    old(self).tile_at(cx, cy)
                }),
    {
        let ghost pre = *self;
        let lo_raw: i32 = if x1 < x2 {
            x1
        } else {
            x2
        };
        let hi_raw: i32 = if x1 < x2 {
            x2
        } else {
            x1
        };
        let lo: i32 = if lo_raw > 0 {
            lo_raw
        } else {
            0
        };
        let hi: i32 = if hi_raw < self.width - 1 {
            hi_raw
        } else {
            self.width - 1
        };
        let mut x = lo;
        while x <= hi
            invariant
                self.wf(),
                self.width == pre.width,
                self.height == pre.height,
                self.rooms@ == pre.rooms@,
                pre.wf(),
                lo <= x,
                hi <= self.width - 1,
                lo == max(min(x1 as int, x2 as int), 0),
                hi == min(max(x1 as int, x2 as int), pre.width - 1),
                forall|cx: int, cy: int|
                    pre.in_bounds(cx, cy) ==> #[trigger] self.tile_at(cx, cy) == (if cy == y && min(
                        x1 as int,
                        x2 as int,
                    ) <= cx <= max(x1 as int, x2 as int) && cx < x {
                        TileType::Floor
                    } else {
                        pre.tile_at(cx, cy)
                    }),
            decreases hi + 1 - x,
        {
            self.poke(x, y, TileType::Floor);
            x = x + 1;
        }
    }

    /// Carve a vertical corridor at column `x` spanning the rows between
    /// `y1` and `y2` inclusive; off-grid cells are silently skipped.
    pub fn apply_vertical_tunnel(&mut self, y1: i32, y2: i32, x: i32)
        requires
            old(self).wf(),
        ensures
            final(self).wf(),
            final(self).width == old(self).width,
            final(self).height == old(self).height,
            final(self).rooms@ == old(self).rooms@,
            forall|cx: int, cy: int|
                old(self).in_bounds(cx, cy) ==> #[trigger] final(self).tile_at(cx, cy) == (if cx
                    == x && min(y1 as int, y2 as int) <= cy <= max(y1 as int, y2 as int) {
                    TileType::Floor
                } else {
                    old(self).tile_at(cx, cy)
                }),
    {
        let ghost pre = *self;
        let lo_raw: i32 = if y1 < y2 {
            y1
        } else {
            y2
        };
        let hi_raw: i32 = if y1 < y2 {
            y2
        } else {
            y1
        };
        let lo: i32 = if lo_raw > 0 {
            lo_raw
        } else {
            0
        };
        let hi: i32 = if hi_raw < self.height - 1 {
            hi_raw
        } else {
            self.height - 1
        };
        let mut y = lo;
        while y <= hi
            invariant
                self.wf(),
                self.width == pre.width,
                self.height == pre.height,
                self.rooms@ == pre.rooms@,
                pre.wf(),
                lo <= y,
                hi <= self.height - 1,
                lo == max(min(y1 as int, y2 as int), 0),
                hi == min(max(y1 as int, y2 as int), pre.height - 1),
                forall|cx: int, cy: int|
                    pre.in_bounds(cx, cy) ==> #[trigger] self.tile_at(cx, cy) == (if cx == x && min(
                        y1 as int,
                        y2 as int,
                    ) <= cy <= max(y1 as int, y2 as int) && cy < y {
                        TileType::Floor
                    } else {
                        pre.tile_at(cx, cy)
                    }),
            decreases hi + 1 - y,
        {
            self.poke(x, y, TileType::Floor);
            y = y + 1;
        }
    }

    /// Whether the tile at a row-major index blocks sight and movement.
    pub fn is_opaque(&self, idx: usize) -> (r: bool)
        requires
            self.wf(),
            idx < self.tiles@.len(),
        ensures
            r == (self.tiles@[idx as int] == TileType::Wall),
    {
        self.tiles[idx] == TileType::Wall
    }

    /// One step of movement: the cell one `delta` away if it is a floor cell,
    /// the old position otherwise.
    pub fn try_move(&self, pos: Vec2Int, delta: Vec2Int) -> (r: Vec2Int)
        requires
            self.wf(),
            -1 <= delta.x <= 1,
            -1 <= delta.y <= 1,
            self.in_bounds_v(pos),
        ensures
            ({
                let nx = pos.x + delta.x;
                let ny = pos.y + delta.y;
                if self.floor_at(nx, ny) {
                    r.x == nx && r.y == ny
                } else {
                    r == pos
                }
            }),
    {
        let nx = pos.x + delta.x;
        let ny = pos.y + delta.y;
        if self.bounds_check(nx, ny) {
            if matches!(self.tile(nx, ny), TileType::Floor) {
                return Vec2Int { x: nx, y: ny };
            }
        }
        pos
    }
}

} // verus!
