use hexdefense::hex::HexCoord;
use hexdefense::map::WorldMap;
use hexdefense::path::{enemy_waypoints, stitch, RouteError};

fn h(q: i32, r: i32) -> HexCoord {
    HexCoord::new(q, r)
}

fn assert_walk(m: &WorldMap, p: &Vec<HexCoord>, start: HexCoord, goal: HexCoord) {
    assert_eq!(p[0], start);
    assert_eq!(*p.last().unwrap(), goal);
    for w in p.windows(2) {
        assert_eq!(w[0].distance_to(&w[1]), 1);
    }
    for c in p {
        assert!(m.contains(*c));
    }
}

#[test]
fn hexagon_route_first_leg() {
    let m = WorldMap::hexagon(h(0, 0), 13, 0);
    let start = h(0, -13);
    let goal = h(5, -7);
    let p = m.find_path(start, goal).unwrap();
    assert_walk(&m, &p, start, goal);
    assert_eq!(p.len() - 1, start.distance_to(&goal) as usize);
    assert_eq!(p.len(), 12);
}

#[test]
fn open_grid_paths_take_the_grid_distance() {
    let m = WorldMap::hexagon(h(0, 0), 6, 0);
    let pairs = [
        (h(0, 0), h(6, -6)),
        (h(-6, 0), h(6, 0)),
        (h(0, -6), h(-3, 6)),
        (h(2, 1), h(-1, -2)),
    ];
    for (a, b) in pairs {
        let p = m.find_path(a, b).unwrap();
        assert_walk(&m, &p, a, b);
        assert_eq!(p.len() - 1, a.distance_to(&b) as usize);
    }
}

#[test]
fn path_avoids_impassable_cells() {
    let mut m = WorldMap::new();
    let full = h(0, 0).hexagon(4);
    let mut handle: u64 = 0;
    for c in full {
        if c.q == 0 && c.r > -4 {
            continue;
        }
        m.insert(c, handle);
        handle += 1;
    }
    let p = m.find_path(h(-2, 2), h(2, -1)).unwrap();
    assert_walk(&m, &p, h(-2, 2), h(2, -1));
    for c in &p {
        assert!(!(c.q == 0 && c.r > -4));
    }
    assert!(p.len() - 1 > 4);
}

#[test]
fn unreachable_goal_gives_none() {
    let mut m = WorldMap::new();
    m.insert(h(0, 0), 1);
    m.insert(h(1, 0), 2);
    m.insert(h(5, 5), 3);
    assert!(m.find_path(h(0, 0), h(5, 5)).is_none());
    assert!(m.find_path(h(0, 0), h(9, 9)).is_none());
    assert!(m.find_path(h(9, 9), h(0, 0)).is_none());
}

#[test]
fn path_to_itself_is_one_cell() {
    let m = WorldMap::hexagon(h(0, 0), 2, 0);
    assert_eq!(m.find_path(h(1, 0), h(1, 0)), Some(vec![h(1, 0)]));
}

#[test]
fn stitched_junction_appears_once() {
    let m = WorldMap::hexagon(h(0, 0), 5, 0);
    let a = h(-4, 0);
    let b = h(0, 0);
    let c = h(3, -3);
    let first = m.find_path(a, b).unwrap();
    let second = m.find_path(b, c).unwrap();
    let joined = stitch(&first, &second).unwrap();
    assert_eq!(joined.iter().filter(|x| **x == b).count(), 1);
    assert_eq!(joined.len(), first.len() + second.len() - 1);
    assert_walk(&m, &joined, a, c);
}

#[test]
fn stitch_refuses_legs_that_do_not_meet() {
    assert_eq!(stitch(&vec![h(0, 0), h(1, 0)], &vec![h(2, 0), h(3, 0)]), None);
    assert_eq!(stitch(&vec![], &vec![h(2, 0)]), None);
    assert_eq!(stitch(&vec![h(0, 0), h(1, 0)], &vec![h(1, 0), h(2, 0)]), Some(vec![h(0, 0), h(1, 0), h(2, 0)]));
}

#[test]
fn route_through_reports_failing_leg() {
    let m = WorldMap::hexagon(h(0, 0), 3, 0);
    assert_eq!(m.route_through(&vec![]), Err(RouteError::NoWaypoints));
    assert_eq!(m.route_through(&vec![h(0, 0)]), Ok(vec![h(0, 0)]));
    let r = m.route_through(&vec![h(0, 0), h(2, 0), h(9, 9), h(1, 1)]);
    assert_eq!(r, Err(RouteError::LegUnreachable(1)));
}

#[test]
fn enemy_route_crosses_the_map() {
    let m = WorldMap::hexagon(h(0, 0), 13, 0);
    let w = enemy_waypoints();
    let p = m.enemy_route().unwrap();
    assert_walk(&m, &p, w[0], w[3]);
    let steps: usize = w.windows(2).map(|x| x[0].distance_to(&x[1]) as usize).sum();
    assert_eq!(p.len() - 1, steps);
    for x in &w {
        assert!(p.contains(x));
    }
}

#[test]
fn enemy_route_fails_on_small_map() {
    let m = WorldMap::hexagon(h(0, 0), 10, 0);
    assert_eq!(m.enemy_route(), Err(RouteError::LegUnreachable(0)));
}
