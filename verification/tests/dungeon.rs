use dungeon_core::grid::Grid;
use dungeon_core::grid::TileType;
use dungeon_core::pathfinding::Path;
use dungeon_core::rect::Rect;
use dungeon_core::rng::GameRng;
use dungeon_core::vec2::Vec2Int;

#[test]
fn mod_test_pathfinding() {
    let mut rng = GameRng::from_seed(42);
    let map = Grid::new(&mut rng);
    let start = map.rooms.iter().nth(0).unwrap().center();
    let target = map.rooms.iter().nth(1).unwrap().center();
    let path = Path::calculate(Vec2Int::new(start.0, start.1), Vec2Int::new(target.0, target.1), &map);
    println!("start: {:?}, end: {:?}", start, target);
    println!("{:?}", path);
    assert!(path.is_some());
    let dead_end = Vec2Int::new(0, 0);
    let path = Path::calculate(Vec2Int::new(start.0, start.1), dead_end, &map);
    assert_eq!(path, None);
}

#[test]
fn pathfinding_test_pathfinding() {
    let mut rng = GameRng::from_seed(7);
    let map = Grid::new(&mut rng);
    let start = map.rooms.iter().nth(0).unwrap().center();
    let target = map.rooms.iter().nth(1).unwrap().center();
    let path = Path::calculate(Vec2Int::new(start.0, start.1), Vec2Int::new(target.0, target.1), &map);
    println!("start: {:?}, end: {:?}", start, target);
    println!("{:?}", path);
    assert!(path.is_some());
    let dead_end = Vec2Int::new(0, 0);
    let path = Path::calculate(Vec2Int::new(start.0, start.1), dead_end, &map);
    assert_eq!(path, None);
}

#[test]
fn rooms_never_overlap() {
    for seed in [1u64, 2, 3, 99, 12345] {
        let mut rng = GameRng::from_seed(seed);
        let map = Grid::new(&mut rng);
        for i in 0..map.rooms.len() {
            for j in 0..map.rooms.len() {
                if i != j {
                    assert!(!map.rooms[i].intersect(&map.rooms[j]));
                }
            }
        }
    }
}

#[test]
fn all_room_centers_connected() {
    let mut rng = GameRng::from_seed(2024);
    let map = Grid::new(&mut rng);
    assert!(map.rooms.len() >= 2);
    for i in 0..map.rooms.len() {
        for j in 0..map.rooms.len() {
            if i != j {
                let (ax, ay) = map.rooms[i].center();
                let (bx, by) = map.rooms[j].center();
                let path = Path::calculate(Vec2Int::new(ax, ay), Vec2Int::new(bx, by), &map);
                assert!(path.is_some());
            }
        }
    }
}

#[test]
fn border_tiles_stay_walls() {
    for seed in [5u64, 77, 4096] {
        let mut rng = GameRng::from_seed(seed);
        let map = Grid::new(&mut rng);
        for x in 0..map.width {
            assert_eq!(map.tile(x, 0), TileType::Wall);
            assert_eq!(map.tile(x, map.height - 1), TileType::Wall);
        }
        for y in 0..map.height {
            assert_eq!(map.tile(0, y), TileType::Wall);
            assert_eq!(map.tile(map.width - 1, y), TileType::Wall);
        }
    }
}

#[test]
fn empty_tiles_have_wall_border_and_floor_inside() {
    let grid = Grid::new_walls(12, 9);
    let tiles = grid.generate_empty_tiles();
    assert_eq!(tiles.len(), 12 * 9);
    for x in 0..12i32 {
        for y in 0..9i32 {
            let idx = (y * 12 + x) as usize;
            let expect_wall = x == 0 || x == 11 || y == 0 || y == 8;
            assert_eq!(tiles[idx] == TileType::Wall, expect_wall);
        }
    }
}

#[test]
fn seeded_generation_is_reproducible() {
    let mut rng_a = GameRng::from_seed(31337);
    let mut rng_b = GameRng::from_seed(31337);
    let map_a = Grid::new(&mut rng_a);
    let map_b = Grid::new(&mut rng_b);
    assert_eq!(map_a.rooms.len(), map_b.rooms.len());
    for (ra, rb) in map_a.rooms.iter().zip(map_b.rooms.iter()) {
        assert_eq!((ra.x, ra.y, ra.w, ra.h), (rb.x, rb.y, rb.w, rb.h));
    }
    assert_eq!(map_a.tiles, map_b.tiles);
}

#[test]
fn rng_range_stays_inside_bounds() {
    let mut rng = GameRng::from_seed(9);
    for _ in 0..200 {
        let v = rng.range(6, 10);
        assert!((6..=10).contains(&v));
    }
    assert_eq!(rng.range(3, 3), 3);
}

#[test]
fn generation_accepts_at_least_one_room() {
    for seed in [0u64, 1, 999] {
        let mut rng = GameRng::from_seed(seed);
        let map = Grid::new(&mut rng);
        assert!(map.rooms.len() >= 1);
    }
}

#[test]
fn tiny_grids_generate_without_panic() {
    // far too small for any room with its margin: all wall, no rooms
    let mut rng = GameRng::from_seed(3);
    let g = Grid::generate(5, 5, &mut rng);
    assert_eq!((g.width, g.height), (5, 5));
    assert!(g.rooms.is_empty());
    for t in &g.tiles {
        assert_eq!(*t, TileType::Wall);
    }
    // the smallest grid that fits every draw always accepts a first room
    let mut rng2 = GameRng::from_seed(4);
    let g2 = Grid::generate(13, 13, &mut rng2);
    assert!(g2.rooms.len() >= 1);
}

#[test]
fn floor_appears_only_in_rooms_and_corridors() {
    let mut rng = GameRng::from_seed(55);
    let map = Grid::new(&mut rng);
    let centers: Vec<(i32, i32)> = map.rooms.iter().map(|r| r.center()).collect();
    for x in 0..map.width {
        for y in 0..map.height {
            if map.tile(x, y) == TileType::Floor {
                let in_room = map
                    .rooms
                    .iter()
                    .any(|r| r.x + 1 <= x && x <= r.x2 && r.y + 1 <= y && y <= r.y2);
                let on_corridor = centers.windows(2).any(|pair| {
                    let (ax, ay) = pair[0];
                    let (bx, by) = pair[1];
                    ((y == ay || y == by) && x >= ax.min(bx) && x <= ax.max(bx))
                        || ((x == ax || x == bx) && y >= ay.min(by) && y <= ay.max(by))
                });
                assert!(in_room || on_corridor);
            }
        }
    }
}

#[test]
fn two_room_scenario_connects() {
    let mut grid = Grid::new_walls(10, 10);
    let room_a = Rect::new(1, 1, 3, 3);
    let room_b = Rect::new(6, 6, 3, 3);
    grid.apply_room_to_map(&room_a);
    grid.rooms.push(room_a);
    let (ax, ay) = room_a.center();
    let (bx, by) = room_b.center();
    grid.apply_room_to_map(&room_b);
    grid.apply_horizontal_tunnel(ax, bx, ay);
    grid.apply_vertical_tunnel(ay, by, bx);
    grid.rooms.push(room_b);
    assert_eq!(grid.rooms.len(), 2);
    let floors = grid.tiles.iter().filter(|t| **t == TileType::Floor).count();
    assert!(floors >= 18);
    let path = Path::calculate(Vec2Int::new(2, 2), Vec2Int::new(7, 7), &grid);
    assert!(path.is_some());
    assert!(path.unwrap().waypoints.len() > 0);
}
