use hexdefense::hex::HexCoord;
use hexdefense::map::WorldMap;

fn h(q: i32, r: i32) -> HexCoord {
    HexCoord::new(q, r)
}

#[test]
fn distance_matches_cubic_axes() {
    assert_eq!(h(0, 0).distance_to(&h(0, 0)), 0);
    assert_eq!(h(0, -13).distance_to(&h(5, -7)), 11);
    assert_eq!(h(5, -7).distance_to(&h(0, 0)), 7);
    assert_eq!(h(0, 0).distance_to(&h(-9, 13)), 13);
    assert_eq!(h(2, -1).distance_to(&h(-1, 2)), 3);
}

#[test]
fn neighbors_in_grid_order() {
    let n = h(3, -2).neighbors();
    assert_eq!(n, vec![h(4, -3), h(3, -3), h(2, -2), h(2, -1), h(3, -1), h(4, -2)]);
}

#[test]
fn ring_holds_cells_at_exact_radius() {
    let c = h(1, 1);
    assert_eq!(c.ring(0), vec![c]);
    let r1 = c.ring(1);
    assert_eq!(r1.len(), 6);
    for n in c.neighbors() {
        assert!(r1.contains(&n));
    }
    let r3 = c.ring(3);
    assert_eq!(r3.len(), 18);
    for x in &r3 {
        assert_eq!(c.distance_to(x), 3);
    }
}

#[test]
fn hexagon_holds_cells_within_radius() {
    let cells = h(0, 0).hexagon(2);
    assert_eq!(cells.len(), 19);
    for x in &cells {
        assert!(h(0, 0).distance_to(x) <= 2);
    }
    assert!(cells.contains(&h(2, -2)));
    assert!(!cells.contains(&h(3, 0)));
}

#[test]
fn map_hexagon_of_radius_thirteen() {
    let m = WorldMap::hexagon(h(0, 0), 13, 100);
    assert_eq!(m.len(), 3 * 13 * 14 + 1);
    assert!(m.contains(h(0, -13)));
    assert!(m.contains(h(-9, 13)));
    assert!(!m.contains(h(0, -14)));
    assert!(m.cell_at(h(7, 7)).is_none());
}

#[test]
fn insert_refuses_duplicates_and_far_cells() {
    let mut m = WorldMap::new();
    assert!(m.insert(h(0, 0), 7));
    assert!(!m.insert(h(0, 0), 8));
    assert!(!m.insert(h(2_000_000, 0), 9));
    assert_eq!(m.len(), 1);
    assert_eq!(m.cell_at(h(0, 0)), Some(7));
    assert_eq!(m.cell_at(h(1, 0)), None);
    assert_eq!(m.step_cost(0, 0), Some(1));
    assert_eq!(m.step_cost(1, 0), None);
}

#[test]
fn coord_of_finds_the_cell_of_an_entity() {
    let mut m = WorldMap::new();
    m.insert(h(1, 2), 10);
    m.insert(h(-3, 4), 11);
    assert_eq!(m.coord_of(11), Some(h(-3, 4)));
    assert_eq!(m.coord_of(12), None);
}

#[test]
fn selection_around_marks_cell_and_present_neighbours() {
    let mut m = WorldMap::new();
    m.insert(h(0, 0), 1);
    m.insert(h(1, 0), 2);
    m.insert(h(0, 1), 3);
    m.insert(h(2, 0), 4);
    let mut sel = m.selection_around(h(0, 0));
    sel.sort();
    assert_eq!(sel, vec![1, 2, 3]);
    assert!(m.selection_around(h(5, 5)).is_empty());
}

#[test]
fn map_neighbors_only_lists_present_cells() {
    let m = WorldMap::hexagon(h(0, 0), 2, 0);
    assert_eq!(m.neighbors(h(0, 0)), h(0, 0).neighbors());
    assert_eq!(m.neighbors(h(2, 0)), vec![h(2, -1), h(1, 0), h(1, 1)]);
    assert!(m.neighbors(h(9, 9)).is_empty());
}

#[test]
fn hexagon_cells_get_distinct_handles() {
    let m = WorldMap::hexagon(h(0, 0), 13, 100);
    assert_eq!(m.len(), 547);
    let mut handles: Vec<u64> = h(0, 0).hexagon(13).iter().map(|c| m.cell_at(*c).unwrap()).collect();
    assert_eq!(handles[0], 100);
    handles.sort();
    handles.dedup();
    assert_eq!(handles.len(), 547);
    assert_eq!(handles[546], 646);
}
