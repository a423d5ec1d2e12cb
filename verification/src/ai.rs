//! Agent decisions: whether an enemy that can see the player plans a chase
//! route, and what a monster does on its turn.

use vstd::prelude::*;

use crate::grid::Grid;
use crate::pathfinding::empty_overlay;
use crate::pathfinding::has_path;
use crate::pathfinding::is_path;
use crate::pathfinding::walkable;
use crate::pathfinding::Path;
use crate::rng::GameRng;
use crate::vec2::adjacent;
use crate::vec2::dist_sq;
use crate::vec2::Vec2Int;
use crate::visibility::visible_within;

verus! {

/// What a monster does on its turn: attack an adjacent player, step toward a
/// player it can see, or stand still.
#[derive(Clone, Copy, PartialEq, Eq, Structural, Debug)]
pub enum MonsterAction {
    Melee,
    MoveTo(Vec2Int),
    Wait,
}

/// Plan a chase: an enemy that can see the player inside its sight radius
/// computes a route to the player, and otherwise does not search at all.
pub fn plan_chase(enemy: Vec2Int, player: Vec2Int, range: i32, map: &Grid) -> (r: Option<Path>)
    requires
        map.wf(),
        0 <= range,
    ensures
        r matches Some(p) ==> is_path(*map, empty_overlay(*map), enemy, player, p.waypoints@),
        r is Some <==> visible_within(*map, enemy, range as int, player) && map.in_bounds_v(enemy)
            && enemy != player && has_path(*map, empty_overlay(*map), enemy, player),
{
    if map.is_visible_now(enemy, range, player) {
        Path::calculate(enemy, player, map)
    } else {
        None
    }
}

/// One wandering step: draw one of the four unit directions and move there
/// when it is a floor cell, else stay put. Whichever direction was drawn,
/// a wanderer with floor on all four sides does move.
pub fn wander(pos: Vec2Int, map: &Grid, rng: &mut GameRng) -> (r: Vec2Int)
    requires
        map.wf(),
        map.in_bounds_v(pos),
    ensures
        r == pos || (adjacent(pos, r) && map.floor_at(r.x as int, r.y as int)),
        map.floor_at(pos.x - 1, pos.y as int) && map.floor_at(pos.x + 1, pos.y as int)
            && map.floor_at(pos.x as int, pos.y + 1) && map.floor_at(pos.x as int, pos.y - 1)
            ==> r != pos && adjacent(pos, r) && map.floor_at(r.x as int, r.y as int),
{
    let k = rng.range(0, 3);
    let dir = Vec2Int::direction(k as usize);
    map.try_move(pos, dir)
}

/// One monster turn: melee when the player is strictly closer than one and a
/// half tiles (so adjacent, diagonals included); otherwise step along a route
/// toward a player that is visible within the sight radius; otherwise wait.
pub fn monster_turn(monster: Vec2Int, player: Vec2Int, range: i32, map: &Grid) -> (r: MonsterAction)
    requires
        map.wf(),
        0 <= range,
    ensures
        r is Melee <==> dist_sq(monster, player) < 3,
        r matches MonsterAction::MoveTo(w) ==> walkable(*map, empty_overlay(*map), w) && adjacent(
            monster,
            w,
        ),
        dist_sq(monster, player) >= 3 && visible_within(*map, monster, range as int, player)
            && map.in_bounds_v(monster) && has_path(*map, empty_overlay(*map), monster, player)
            ==> r is MoveTo,
{
    let d = monster.dist_squared(&player);
    if d < 3 {
        return MonsterAction::Melee;
    }
    proof {
        if monster == player {
            assert((monster.x - player.x) * (monster.x - player.x) + (monster.y - player.y) * (
            monster.y - player.y) == 0) by (nonlinear_arith)
                requires
                    monster.x == player.x,
                    monster.y == player.y,
            ;
        }
    }
    if map.is_visible_now(monster, range, player) {
        match Path::calculate(monster, player, map) {
            Some(mut route) => {
                match route.next_waypoint() {
                    Some(step) => MonsterAction::MoveTo(step),
                    None => MonsterAction::Wait,
                }
            },
            None => MonsterAction::Wait,
        }
    } else {
        MonsterAction::Wait
    }
}

} // verus!
