use hexdefense::hex::HexCoord;
use hexdefense::map::WorldMap;
use hexdefense::route::{locate, RoutePlanner};

fn h(q: i32, r: i32) -> HexCoord {
    HexCoord::new(q, r)
}

#[test]
fn two_picks_choose_one_route_and_reset() {
    let m = WorldMap::hexagon(h(0, 0), 4, 0);
    let locs = vec![(500u64, h(-2, 0)), (501u64, h(2, -1))];
    let mut planner = RoutePlanner::new();
    assert!(!planner.submit_pick(500));
    assert!(planner.submit_pick(501));
    let cells = planner.resolve(&m, &locs);
    assert_eq!(cells.first(), Some(&h(-2, 0)));
    assert_eq!(cells.last(), Some(&h(2, -1)));
    assert_eq!(cells.len() - 1, h(-2, 0).distance_to(&h(2, -1)) as usize);
    assert_eq!(planner.first, None);
    assert_eq!(planner.second, None);
}

#[test]
fn failed_lookup_still_resets() {
    let m = WorldMap::hexagon(h(0, 0), 2, 0);
    let locs = vec![(1u64, h(0, 0))];
    let mut planner = RoutePlanner::new();
    planner.submit_pick(1);
    assert!(planner.submit_pick(99));
    assert!(planner.resolve(&m, &locs).is_empty());
    assert_eq!(planner.first, None);
    assert_eq!(planner.second, None);
    assert!(!planner.submit_pick(1));
}

#[test]
fn no_path_still_resets() {
    let mut m = WorldMap::new();
    m.insert(h(0, 0), 1);
    m.insert(h(4, 0), 2);
    let locs = vec![(7u64, h(0, 0)), (8u64, h(4, 0))];
    let mut planner = RoutePlanner::new();
    planner.submit_pick(7);
    planner.submit_pick(8);
    assert!(planner.resolve(&m, &locs).is_empty());
    assert_eq!(planner.first, None);
}

#[test]
fn locate_takes_first_entry() {
    let locs = vec![(3u64, h(1, 1)), (4u64, h(2, 2)), (3u64, h(5, 5))];
    assert_eq!(locate(&locs, 3), Some(h(1, 1)));
    assert_eq!(locate(&locs, 4), Some(h(2, 2)));
    assert_eq!(locate(&locs, 9), None);
}
