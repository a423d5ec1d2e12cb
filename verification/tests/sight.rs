use dungeon_core::grid::Grid;
use dungeon_core::grid::TileType;
use dungeon_core::vec2::Vec2Int;

/// A grid whose border is wall and whose interior is all floor.
fn open_arena(width: i32, height: i32) -> Grid {
    let shell = Grid::new_walls(width, height);
    Grid { tiles: shell.generate_empty_tiles(), rooms: Vec::new(), width, height }
}

fn put_wall(grid: &mut Grid, x: i32, y: i32) {
    let idx = grid.xy_idx(x, y);
    grid.tiles[idx] = TileType::Wall;
}

#[test]
fn open_line_is_visible() {
    let arena = open_arena(16, 16);
    assert!(arena.is_visible(Vec2Int::new(2, 2), Vec2Int::new(12, 7)));
    assert!(arena.is_visible(Vec2Int::new(3, 10), Vec2Int::new(3, 2)));
}

#[test]
fn wall_between_blocks_sight() {
    let mut arena = open_arena(16, 16);
    put_wall(&mut arena, 7, 5);
    // straight line through the wall cell
    assert!(!arena.is_visible(Vec2Int::new(2, 5), Vec2Int::new(12, 5)));
    // a parallel line one row away stays clear
    assert!(arena.is_visible(Vec2Int::new(2, 6), Vec2Int::new(12, 6)));
}

#[test]
fn endpoints_do_not_block_sight() {
    let mut arena = open_arena(16, 16);
    put_wall(&mut arena, 10, 5);
    // a wall tile can itself be seen: only cells strictly between count
    assert!(arena.is_visible(Vec2Int::new(2, 5), Vec2Int::new(10, 5)));
    assert!(arena.is_visible(Vec2Int::new(10, 5), Vec2Int::new(2, 5)));
}

#[test]
fn sight_is_symmetric() {
    let mut arena = open_arena(20, 20);
    put_wall(&mut arena, 9, 7);
    put_wall(&mut arena, 5, 12);
    put_wall(&mut arena, 11, 11);
    let probes = [
        (Vec2Int::new(2, 2), Vec2Int::new(17, 13)),
        (Vec2Int::new(2, 5), Vec2Int::new(16, 9)),
        (Vec2Int::new(3, 12), Vec2Int::new(8, 12)),
        (Vec2Int::new(9, 3), Vec2Int::new(9, 15)),
        (Vec2Int::new(4, 4), Vec2Int::new(4, 4)),
    ];
    for (a, b) in probes {
        assert_eq!(arena.is_visible(a, b), arena.is_visible(b, a));
    }
}

#[test]
fn range_boundary_is_strict() {
    let arena = open_arena(20, 20);
    let observer = Vec2Int::new(5, 5);
    // exactly at distance 5: not visible; just inside: visible
    assert!(!arena.is_visible_now(observer, 5, Vec2Int::new(10, 5)));
    assert!(!arena.is_visible_now(observer, 5, Vec2Int::new(8, 9)));
    assert!(arena.is_visible_now(observer, 5, Vec2Int::new(9, 5)));
    assert!(arena.is_visible_now(observer, 5, Vec2Int::new(8, 8)));
}

#[test]
fn blocked_candidate_is_not_visible_in_range() {
    let mut arena = open_arena(20, 20);
    put_wall(&mut arena, 7, 5);
    let observer = Vec2Int::new(5, 5);
    assert!(!arena.is_visible_now(observer, 6, Vec2Int::new(9, 5)));
    assert!(arena.is_visible_now(observer, 6, Vec2Int::new(9, 7)));
}
