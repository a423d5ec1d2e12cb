use dungeon_core::ai::plan_chase;
use dungeon_core::ai::wander;
use dungeon_core::ai::monster_turn;
use dungeon_core::ai::MonsterAction;
use dungeon_core::grid::Grid;
use dungeon_core::grid::TileType;
use dungeon_core::pathfinding::Path;
use dungeon_core::rng::GameRng;
use dungeon_core::vec2::Vec2Int;

/// A grid whose border is wall and whose interior is all floor.
fn open_arena(width: i32, height: i32) -> Grid {
    let shell = Grid::new_walls(width, height);
    Grid { tiles: shell.generate_empty_tiles(), rooms: Vec::new(), width, height }
}

fn manhattan(a: (i32, i32), b: (i32, i32)) -> i32 {
    (a.0 - b.0).abs() + (a.1 - b.1).abs()
}

#[test]
fn straight_route_has_manhattan_length() {
    let arena = open_arena(20, 12);
    let path = Path::calculate(Vec2Int::new(2, 5), Vec2Int::new(15, 5), &arena).unwrap();
    assert_eq!(path.waypoints.len(), manhattan((2, 5), (15, 5)) as usize);
}

#[test]
fn diagonal_route_has_manhattan_length() {
    let arena = open_arena(20, 20);
    let path = Path::calculate(Vec2Int::new(2, 2), Vec2Int::new(12, 9), &arena).unwrap();
    assert_eq!(path.waypoints.len(), manhattan((2, 2), (12, 9)) as usize);
}

#[test]
fn route_is_a_chain_of_adjacent_floor_cells() {
    let mut rng = GameRng::from_seed(404);
    let map = Grid::new(&mut rng);
    let (ax, ay) = map.rooms[0].center();
    let (bx, by) = map.rooms[map.rooms.len() - 1].center();
    let start = Vec2Int::new(ax, ay);
    let target = Vec2Int::new(bx, by);
    let path = Path::calculate(start, target, &map).unwrap();
    let cells: Vec<Vec2Int> = path.waypoints.iter().copied().collect();
    assert!(!cells.is_empty());
    let mut prev = start;
    for c in &cells {
        assert_eq!(manhattan((prev.x, prev.y), (c.x, c.y)), 1);
        assert_eq!(map.tile(c.x, c.y), TileType::Floor);
        prev = *c;
    }
    let last = cells[cells.len() - 1];
    assert_eq!((last.x, last.y), (bx, by));
}

#[test]
fn enclosed_target_yields_no_path() {
    let mut rng = GameRng::from_seed(1);
    let map = Grid::new(&mut rng);
    let (ax, ay) = map.rooms[0].center();
    // the map corner is never carved, so it is unreachable wall
    assert_eq!(map.tile(0, 0), TileType::Wall);
    let path = Path::calculate(Vec2Int::new(ax, ay), Vec2Int::new(0, 0), &map);
    assert!(path.is_none());
    // a floor pocket sealed on all four sides is unreachable too
    let mut arena = open_arena(12, 12);
    for (x, y) in [(5, 4), (5, 6), (4, 5), (6, 5)] {
        let idx = arena.xy_idx(x, y);
        arena.tiles[idx] = TileType::Wall;
    }
    let pocket = Path::calculate(Vec2Int::new(2, 2), Vec2Int::new(5, 5), &arena);
    assert!(pocket.is_none());
}

#[test]
fn start_equal_target_yields_no_path() {
    let arena = open_arena(8, 8);
    let spot = Vec2Int::new(3, 3);
    assert!(Path::calculate(spot, spot, &arena).is_none());
}

#[test]
fn occupancy_overlay_blocks_a_route() {
    let arena = open_arena(8, 5);
    // a corridor one tile high: blocking the middle column cuts it
    let mut blocked = vec![false; arena.len()];
    for y in 1..4 {
        blocked[(y * 8 + 4) as usize] = true;
    }
    let free = Path::calculate(Vec2Int::new(2, 2), Vec2Int::new(6, 2), &arena);
    assert!(free.is_some());
    let cut = Path::calculate_avoiding(Vec2Int::new(2, 2), Vec2Int::new(6, 2), &arena, &blocked);
    assert!(cut.is_none());
}

#[test]
fn next_waypoint_pops_front() {
    let arena = open_arena(10, 10);
    let mut path = Path::calculate(Vec2Int::new(2, 2), Vec2Int::new(5, 2), &arena).unwrap();
    let first = path.next_waypoint().unwrap();
    assert_eq!((first.x, first.y), (3, 2));
    let second = path.next_waypoint().unwrap();
    assert_eq!((second.x, second.y), (4, 2));
    let third = path.next_waypoint().unwrap();
    assert_eq!((third.x, third.y), (5, 2));
    assert!(path.next_waypoint().is_none());
}

#[test]
fn chase_is_planned_only_inside_sight_radius() {
    let arena = open_arena(20, 8);
    let enemy = Vec2Int::new(2, 3);
    let player = Vec2Int::new(12, 3);
    assert!(plan_chase(enemy, player, 8, &arena).is_none());
    let near_player = Vec2Int::new(7, 3);
    let plan = plan_chase(enemy, near_player, 8, &arena);
    assert!(plan.is_some());
    assert_eq!(plan.unwrap().waypoints.len(), 5);
}

#[test]
fn wander_steps_stay_on_floor() {
    let mut arena = open_arena(10, 10);
    // box the wanderer in on three sides: only the right cell stays open
    for (x, y) in [(3, 4), (4, 3), (4, 5)] {
        let idx = arena.xy_idx(x, y);
        arena.tiles[idx] = TileType::Wall;
    }
    let mut rng = GameRng::from_seed(8);
    let pos = Vec2Int::new(4, 4);
    for _ in 0..20 {
        let next = wander(pos, &arena, &mut rng);
        assert!(next == pos || (next.x, next.y) == (5, 4));
    }
}

#[test]
fn wander_moves_when_unboxed() {
    let arena = open_arena(10, 10);
    let mut rng = GameRng::from_seed(5);
    let pos = Vec2Int::new(5, 5);
    for _ in 0..10 {
        let next = wander(pos, &arena, &mut rng);
        assert_ne!((next.x, next.y), (5, 5));
        assert_eq!(manhattan((pos.x, pos.y), (next.x, next.y)), 1);
    }
}

#[test]
fn monster_turn_decisions() {
    let arena = open_arena(20, 8);
    let player = Vec2Int::new(5, 3);
    assert_eq!(monster_turn(Vec2Int::new(5, 4), player, 8, &arena), MonsterAction::Melee);
    match monster_turn(Vec2Int::new(9, 3), player, 8, &arena) {
        MonsterAction::MoveTo(step) => assert_eq!((step.x, step.y), (8, 3)),
        other => panic!("expected a step toward the player, got {:?}", other),
    }
    assert_eq!(monster_turn(Vec2Int::new(17, 3), player, 8, &arena), MonsterAction::Wait);
}
