use hexdefense::hex::HexCoord;
use hexdefense::walker::WalkEvent;
use hexdefense::map::WorldMap;
use hexdefense::world::{EnemyArrivedAtEnd, World};

fn h(q: i32, r: i32) -> HexCoord {
    HexCoord::new(q, r)
}

#[test]
fn walker_handle_advances_until_arrival() {
    let mut w = World::new();
    let e = w.spawn_walker(vec![h(0, 0), h(1, 0), h(2, 0)], 10);
    assert_eq!(w.advance(e, 100), Some(WalkEvent::Progressing));
    assert_eq!(w.advance(e, 100), Some(WalkEvent::ArrivedAtEnd));
    assert!(w.walker(e).unwrap().is_finished());
    assert!(w.despawn(e));
    assert_eq!(w.advance(e, 100), None);
    assert!(!w.despawn(e));
    assert!(!w.is_live(e));
}

#[test]
fn stale_handles_change_nothing() {
    let mut w = World::new();
    let b = w.place_building(h(1, 1));
    assert_eq!(w.advance(b, 100), None);
    assert_eq!(w.advance(42, 100), None);
    assert_eq!(w.advance_combat(42, 100), None);
    assert_eq!(w.advance_projectile(b, 100), None);
    assert!(w.is_live(b));
}

#[test]
fn building_spawns_projectile_that_expires() {
    let mut w = World::new();
    let b = w.place_building(h(0, 0));
    let mut shots = vec![];
    for _ in 0..8 {
        if let Some(p) = w.advance_combat(b, 100) {
            shots.push(p);
        }
    }
    assert_eq!(shots, vec![1]);
    let p = shots[0];
    assert_eq!(w.advance_projectile(p, 100), Some(false));
    assert_eq!(w.advance_projectile(p, 100), Some(false));
    assert_eq!(w.advance_projectile(p, 100), Some(true));
    assert!(!w.is_live(p));
    assert_eq!(w.advance_projectile(p, 100), None);
}

#[test]
fn arrived_enemy_is_replaced_at_route_start() {
    let map = WorldMap::hexagon(h(0, 0), 13, 0);
    let mut w = World::new();
    let e = w.spawn_enemy(&map, 1000).unwrap();
    let mut arrived = false;
    for _ in 0..100 {
        if w.advance(e, 1) == Some(WalkEvent::ArrivedAtEnd) {
            arrived = true;
            break;
        }
    }
    assert!(arrived);
    let fresh = w.respawn_enemy(EnemyArrivedAtEnd(e), &map, 1000).unwrap().unwrap();
    assert!(!w.is_live(e));
    assert_eq!(w.respawn_enemy(EnemyArrivedAtEnd(e), &map, 1000), None);
    assert!(!w.is_live(fresh + 1));
    let walker = w.walker(fresh).unwrap();
    assert_eq!(walker.path()[0], h(0, -13));
    assert_eq!(walker.current_index(), 1);
    assert!(!walker.is_finished());
    let small = WorldMap::hexagon(h(0, 0), 4, 0);
    assert!(w.spawn_enemy(&small, 1000).is_err());
}

#[test]
fn walking_enemy_is_not_respawned() {
    let map = WorldMap::hexagon(h(0, 0), 13, 0);
    let mut w = World::new();
    let e = w.spawn_enemy(&map, 1).unwrap();
    w.advance(e, 10);
    assert_eq!(w.respawn_enemy(EnemyArrivedAtEnd(e), &map, 1), None);
    assert!(w.is_live(e));
    assert_eq!(w.respawn_enemy(EnemyArrivedAtEnd(77), &map, 1), None);
}

#[test]
fn projectile_removed_exactly_when_lifetime_ends() {
    let mut w = World::new();
    let b = w.place_building(h(0, 0));
    let p = w.advance_combat(b, 800).unwrap();
    assert_eq!(w.advance_projectile(p, 299), Some(false));
    assert!(w.is_live(p));
    assert_eq!(w.advance_projectile(p, 1), Some(true));
    assert!(!w.is_live(p));
}

#[test]
fn enemy_route_has_thirty_two_cells() {
    let map = WorldMap::hexagon(h(0, 0), 13, 0);
    let mut w = World::new();
    let e = w.spawn_enemy(&map, 1).unwrap();
    let path = w.walker(e).unwrap().path().clone();
    assert_eq!(path.len(), 32);
    assert_eq!(path.iter().filter(|c| **c == h(5, -7)).count(), 1);
    assert_eq!(path.iter().filter(|c| **c == h(0, 0)).count(), 1);
}
