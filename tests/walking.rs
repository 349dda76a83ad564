use hexdefense::hex::{HexCoord, LatticePoint};
use hexdefense::map::WorldMap;
use hexdefense::walker::{WalkEvent, WalkingPath, ARRIVAL_TOLERANCE, STEP_LENGTH};

fn h(q: i32, r: i32) -> HexCoord {
    HexCoord::new(q, r)
}

fn scaled(c: HexCoord) -> LatticePoint {
    let p = c.lattice();
    LatticePoint { x: p.x * STEP_LENGTH as i64, y: p.y * STEP_LENGTH as i64 }
}

#[test]
fn walker_reaches_last_waypoint_once() {
    let mut w = WalkingPath::new(vec![h(0, 0), h(1, 0), h(2, 0)], 4);
    let mut arrivals = 0;
    for _ in 0..10 {
        if w.tick(250) == WalkEvent::ArrivedAtEnd {
            arrivals += 1;
        }
    }
    assert_eq!(arrivals, 1);
    assert!(w.is_finished());
    assert_eq!(w.world_position(), scaled(h(2, 0)));
    assert_eq!(w.tick(250), WalkEvent::Halted);
}

#[test]
fn walker_moves_in_between_cells() {
    let mut w = WalkingPath::new(vec![h(0, 0), h(1, 0)], 1);
    assert_eq!(w.world_position(), LatticePoint { x: 0, y: 0 });
    assert_eq!(w.tick(400), WalkEvent::Progressing);
    assert_eq!(w.progress(), 400);
    assert_eq!(w.world_position(), LatticePoint { x: 3 * 400, y: 400 });
    assert_eq!(w.tick(2000), WalkEvent::ArrivedAtEnd);
    assert_eq!(w.world_position(), scaled(h(1, 0)));
}

#[test]
fn zero_tick_changes_nothing() {
    let mut w = WalkingPath::new(vec![h(0, 0), h(1, 0), h(2, 0)], 3);
    w.tick(100);
    let index = w.current_index();
    let progress = w.progress();
    for _ in 0..5 {
        assert_eq!(w.tick(0), WalkEvent::Progressing);
    }
    assert_eq!(w.current_index(), index);
    assert_eq!(w.progress(), progress);
    let mut single = WalkingPath::new(vec![h(4, 4)], 3);
    assert_eq!(single.tick(0), WalkEvent::Progressing);
    assert!(!single.is_finished());
    assert_eq!(single.tick(1), WalkEvent::ArrivedAtEnd);
}

#[test]
fn arrival_within_tolerance() {
    let mut w = WalkingPath::new(vec![h(0, 0), h(0, 1), h(0, 2)], 1);
    let short = STEP_LENGTH - ARRIVAL_TOLERANCE;
    assert_eq!(w.tick(short - 1), WalkEvent::Progressing);
    assert_eq!(w.current_index(), 1);
    assert_eq!(w.tick(1), WalkEvent::Progressing);
    assert_eq!(w.current_index(), 2);
    assert_eq!(w.progress(), 0);
    assert_eq!(w.world_position(), scaled(h(0, 1)));
}

#[test]
fn index_never_decreases() {
    let mut w = WalkingPath::new(vec![h(0, 0), h(1, 0), h(1, 1), h(1, 2)], 2);
    let mut last = w.current_index();
    for dt in [0u64, 100, 300, 0, 700, 250, 1000, 5, 0, 900, 900] {
        w.tick(dt);
        assert!(w.current_index() >= last);
        last = w.current_index();
    }
    assert!(w.is_finished());
}

#[test]
fn repeated_cell_keeps_moving_forward() {
    let path = vec![h(0, 0), h(1, 0), h(1, 1), h(0, 1), h(0, 0), h(-1, 0)];
    let mut w = WalkingPath::new(path.clone(), 1000);
    let mut seen = vec![];
    let mut arrivals = 0;
    for _ in 0..8 {
        if w.tick(1) == WalkEvent::ArrivedAtEnd {
            arrivals += 1;
        }
        seen.push(w.current_index());
    }
    assert_eq!(seen, vec![2, 3, 4, 5, 5, 5, 5, 5]);
    assert_eq!(arrivals, 1);
    assert_eq!(w.target(), h(-1, 0));
}

#[test]
fn spawned_enemy_walks_the_route() {
    let m = WorldMap::hexagon(h(0, 0), 13, 0);
    let mut w = WalkingPath::spawn_enemy(&m, 10).unwrap();
    assert_eq!(w.path()[0], h(0, -13));
    assert_eq!(w.current_index(), 1);
    let steps = w.path().len() - 1;
    let mut arrivals = 0;
    for _ in 0..steps + 3 {
        if w.tick(100) == WalkEvent::ArrivedAtEnd {
            arrivals += 1;
        }
    }
    assert_eq!(arrivals, 1);
    assert_eq!(w.world_position(), scaled(h(-9, 13)));
    assert!(WalkingPath::spawn_enemy(&WorldMap::hexagon(h(0, 0), 5, 0), 10).is_err());
}
