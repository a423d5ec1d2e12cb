use dungeon_core::grid::Grid;
use dungeon_core::grid::TileType;
use dungeon_core::rect::Rect;
use dungeon_core::vec2::isqrt;
use dungeon_core::vec2::Vec2Int;

#[test]
fn test_center() {
    let room = Rect::new(0, 0, 8, 4);
    assert_eq!(room.center(), (4, 2));
    let room = Rect::new(10, 10, 8, 4);
    assert_eq!(room.center(), (14, 12));
    let room = Rect::new(10, 10, 7, 3);
    assert_eq!(room.center(), (13, 11));
}

#[test]
fn rect_intersect_touching_counts() {
    let a = Rect::new(0, 0, 4, 4);
    let b = Rect::new(4, 4, 3, 3);
    assert!(a.intersect(&b));
    assert!(b.intersect(&a));
    let c = Rect::new(9, 9, 3, 3);
    assert!(!a.intersect(&c));
    assert!(!c.intersect(&a));
}

#[test]
fn isqrt_exact_values() {
    assert_eq!(isqrt(0), 0);
    assert_eq!(isqrt(1), 1);
    assert_eq!(isqrt(15), 3);
    assert_eq!(isqrt(16), 4);
    assert_eq!(isqrt(24), 4);
    assert_eq!(isqrt(25), 5);
}

#[test]
fn distance_squared_and_rounded() {
    let o = Vec2Int::new(0, 0);
    assert_eq!(o.dist_squared(&Vec2Int::new(3, 4)), 25);
    assert_eq!(o.distance_rounded(&Vec2Int::new(3, 4)), 5);
    // sqrt(2) rounds down to 1, sqrt(5) rounds to 2, sqrt(8) rounds to 3
    assert_eq!(o.distance_rounded(&Vec2Int::new(1, 1)), 1);
    assert_eq!(o.distance_rounded(&Vec2Int::new(2, 1)), 2);
    assert_eq!(o.distance_rounded(&Vec2Int::new(2, 2)), 3);
    assert_eq!(o.distance_rounded(&o), 0);
    // negative coordinates measure the same
    assert_eq!(Vec2Int::new(-3, -4).distance_rounded(&o), 5);
}

#[test]
fn index_roundtrip() {
    let grid = Grid::new_walls(80, 50);
    assert_eq!(grid.len(), 80 * 50);
    let idx = grid.xy_idx(17, 23);
    assert_eq!(idx, 23 * 80 + 17);
    assert_eq!(grid.idx_xy(idx), (17, 23));
    assert_eq!(grid.idx_xy(0), (0, 0));
    assert_eq!(grid.xy_idx(0, 0), 0);
    assert_eq!(grid.idx_xy(80 * 50 - 1), (79, 49));
}

#[test]
fn try_move_blocked_by_walls() {
    let mut grid = Grid::new_walls(10, 10);
    let f1 = grid.xy_idx(4, 4);
    let f2 = grid.xy_idx(5, 4);
    grid.tiles[f1] = TileType::Floor;
    grid.tiles[f2] = TileType::Floor;
    let pos = Vec2Int::new(4, 4);
    let right = grid.try_move(pos, Vec2Int::new(1, 0));
    assert_eq!((right.x, right.y), (5, 4));
    let up = grid.try_move(pos, Vec2Int::new(0, 1));
    assert_eq!((up.x, up.y), (4, 4));
    // stepping off the grid edge keeps the old position
    let corner = Vec2Int::new(0, 0);
    let off = grid.try_move(corner, Vec2Int::new(-1, 0));
    assert_eq!((off.x, off.y), (0, 0));
}
