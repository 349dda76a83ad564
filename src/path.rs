//! Shortest paths between cells of a map, and routes stitched from them.

use vstd::prelude::*;
use hexx::Hex;
use crate::hex::{HexCoord, adjacent, hex_distance, abs};
use crate::map::WorldMap;

verus! {

/// `p` leads from `start` to `goal` through open cells, one grid step at a time.
pub open spec fn is_walk(open: Set<HexCoord>, p: Seq<HexCoord>, start: HexCoord, goal: HexCoord) -> bool {
    &&& p.len() >= 1
    &&& p[0] == start
    &&& p.last() == goal
    &&& forall|i: int| 0 <= i < p.len() ==> open.contains(#[trigger] p[i])
    &&& forall|i: int| 0 <= i < p.len() - 1 ==> adjacent(#[trigger] p[i], p[i + 1])
}

/// Some walk leads from `start` to `goal`.
pub open spec fn reachable(open: Set<HexCoord>, start: HexCoord, goal: HexCoord) -> bool {
    exists|p: Seq<HexCoord>| is_walk(open, p, start, goal)
}

/// `p` is a walk from `start` to `goal` and no walk between them is shorter.
pub open spec fn is_shortest_walk(open: Set<HexCoord>, p: Seq<HexCoord>, start: HexCoord, goal: HexCoord) -> bool {
    &&& is_walk(open, p, start, goal)
    &&& forall|w: Seq<HexCoord>| #[trigger] is_walk(open, w, start, goal) ==> p.len() <= w.len()
}

/// Relies on hexx's `algorithms::a_star`: with every cell of the map costing one
/// step and every other coordinate excluded, it returns a cheapest path from `start`
/// to `goal` that enters only cells of the map, or `None` where there is none. Its
/// search explores every cell reachable from `start` before giving up, and its
/// heuristic (the distance to `start`) is consistent for unit costs, so the first
/// path it completes to `goal` is a cheapest one.
#[verifier::external_body]
fn a_star_path(map: &WorldMap, start: HexCoord, goal: HexCoord) -> (r: Option<Vec<HexCoord>>)
    requires
        map.wf(),
        map@.contains_key(start),
    ensures
        r is None <==> !reachable(map@.dom(), start, goal),
        r matches Some(p) ==> is_shortest_walk(map@.dom(), p@, start, goal),
{
    hexx::algorithms::a_star(Hex::new(start.q, start.r), Hex::new(goal.q, goal.r), |h| map.step_cost(h.x, h.y))
        .map(|p| p.into_iter().map(|h| HexCoord { q: h.x, r: h.y }).collect())
}

impl WorldMap {
    /// A shortest path from `start` to `goal` over the cells of the map, or `None`
    /// where no path joins them. A path from a cell to itself is that one cell.
    pub fn find_path(&self, start: HexCoord, goal: HexCoord) -> (r: Option<Vec<HexCoord>>)
        requires
            self.wf(),
        ensures
            r is None <==> !reachable(self@.dom(), start, goal),
            r matches Some(p) ==> is_shortest_walk(self@.dom(), p@, start, goal),
    {
        if self.contains(start) {
            a_star_path(self, start, goal)
        } else {
            assert forall|p: Seq<HexCoord>| !is_walk(self@.dom(), p, start, goal) by {
                if is_walk(self@.dom(), p, start, goal) {
                    assert(self@.dom().contains(p[0]));
                }
            }
            None
        }
    }
}

/// Two legs joined at the cell where the first ends and the second starts, that
/// cell kept once.
pub open spec fn joined(first: Seq<HexCoord>, second: Seq<HexCoord>) -> Seq<HexCoord> {
    first + second.subrange(1, second.len() as int)
}

/// Joins two legs, or `None` where either is empty or the first does not end where
/// the second starts.
pub fn stitch(first: &Vec<HexCoord>, second: &Vec<HexCoord>) -> (r: Option<Vec<HexCoord>>)
    ensures
        r is Some <==> (first@.len() >= 1 && second@.len() >= 1 && first@.last() == second@[0]),
        r matches Some(p) ==> p@ == joined(first@, second@),
{
    if first.len() == 0 || second.len() == 0 || first[first.len() - 1] != second[0] {
        return None;
    }
    let mut out = first.clone();
    let mut i: usize = 1;
    while i < second.len()
        invariant
            1 <= i <= second@.len(),
            out@ == first@ + second@.subrange(1, i as int),
        decreases second@.len() - i,
    {
        out.push(second[i]);
        proof {
            assert(second@.subrange(1, i + 1) == second@.subrange(1, i as int).push(second@[i as int]));
        }
        i = i + 1;
    }
    Some(out)
}

/// A walk is no shorter than the distance between its ends.
pub proof fn lemma_walk_length(open: Set<HexCoord>, p: Seq<HexCoord>, start: HexCoord, goal: HexCoord)
    requires
        is_walk(open, p, start, goal),
    ensures
        p.len() - 1 >= hex_distance(start, goal),
    decreases p.len(),
{
    if p.len() > 1 {
        let rest = p.subrange(1, p.len() as int);
        assert(adjacent(p[0], p[1]));
        assert forall|i: int| 0 <= i < rest.len() - 1 implies adjacent(#[trigger] rest[i], rest[i + 1]) by {
            assert(adjacent(p[i + 1], p[i + 2]));
        }
        assert forall|i: int| 0 <= i < rest.len() implies open.contains(#[trigger] rest[i]) by {
            assert(open.contains(p[i + 1]));
        }
        lemma_walk_length(open, rest, p[1], goal);
    }
}

/// A cell that is not open lies on no walk.
pub proof fn lemma_walk_avoids_closed(open: Set<HexCoord>, p: Seq<HexCoord>, start: HexCoord, goal: HexCoord, c: HexCoord)
    requires
        is_walk(open, p, start, goal),
        !open.contains(c),
    ensures
        !p.contains(c),
{
    if p.contains(c) {
        let i = choose|i: int| 0 <= i < p.len() && p[i] == c;
        assert(open.contains(p[i]));
    }
}

/// Cutting out the stretch between two visits of one cell leaves a walk.
proof fn lemma_cut_walk(open: Set<HexCoord>, p: Seq<HexCoord>, start: HexCoord, goal: HexCoord, a: int, b: int)
    requires
        is_walk(open, p, start, goal),
        0 <= a < b < p.len(),
        p[a] == p[b],
    ensures
        is_walk(open, p.subrange(0, a) + p.subrange(b, p.len() as int), start, goal),
{
    let w = p.subrange(0, a) + p.subrange(b, p.len() as int);
    assert forall|k: int| 0 <= k < w.len() implies open.contains(#[trigger] w[k]) by {
        if k < a {
            assert(w[k] == p[k]);
        } else {
            assert(w[k] == p[k + b - a]);
        }
    }
    assert forall|k: int| 0 <= k < w.len() - 1 implies adjacent(#[trigger] w[k], w[k + 1]) by {
        if k + 1 < a {
            assert(w[k] == p[k] && w[k + 1] == p[k + 1]);
        } else if k + 1 == a {
            assert(w[k] == p[k] && w[k + 1] == p[b]);
            assert(adjacent(p[k], p[k + 1]));
        } else {
            assert(w[k] == p[k + b - a] && w[k + 1] == p[k + 1 + b - a]);
            assert(adjacent(p[k + b - a], p[k + b - a + 1]));
        }
    }
    if a == 0 {
        assert(w[0] == p[b]);
    } else {
        assert(w[0] == p[0]);
    }
    assert(w.last() == p.last());
}

/// A shortest walk visits no cell twice.
pub proof fn lemma_shortest_walk_simple(open: Set<HexCoord>, p: Seq<HexCoord>, start: HexCoord, goal: HexCoord)
    requires
        is_shortest_walk(open, p, start, goal),
    ensures
        p.no_duplicates(),
{
    assert forall|i: int, j: int| 0 <= i < p.len() && 0 <= j < p.len() && i != j implies p[i] != p[j] by {
        if p[i] == p[j] {
            let a = if i < j { i } else { j };
            let b = if i < j { j } else { i };
            lemma_cut_walk(open, p, start, goal, a, b);
            let w = p.subrange(0, a) + p.subrange(b, p.len() as int);
            assert(is_walk(open, w, start, goal));
            assert(p.len() <= w.len());
        }
    }
}

/// One grid step from `a` toward `b`: the neighbour of `a` one step nearer to `b`.
pub open spec fn step_toward(a: HexCoord, b: HexCoord) -> HexCoord {
    let dq = b.q - a.q;
    let dr = b.r - a.r;
    if dq > 0 && dr < 0 {
        HexCoord { q: (a.q + 1) as i32, r: (a.r - 1) as i32 }
    } else if dq < 0 && dr > 0 {
        HexCoord { q: (a.q - 1) as i32, r: (a.r + 1) as i32 }
    } else if dq > 0 {
        HexCoord { q: (a.q + 1) as i32, r: a.r }
    } else if dq < 0 {
        HexCoord { q: (a.q - 1) as i32, r: a.r }
    } else if dr > 0 {
        HexCoord { q: a.q, r: (a.r + 1) as i32 }
    } else {
        HexCoord { q: a.q, r: (a.r - 1) as i32 }
    }
}

proof fn lemma_step_toward(a: HexCoord, b: HexCoord)
    requires
        a != b,
    ensures
        adjacent(a, step_toward(a, b)),
        hex_distance(step_toward(a, b), b) == hex_distance(a, b) - 1,
{
}

/// The cells met by stepping greedily from `a` to `b`.
pub open spec fn greedy_route(a: HexCoord, b: HexCoord) -> Seq<HexCoord>
    decreases hex_distance(a, b),
{
    if a == b {
        seq![a]
    } else {
        seq![a] + greedy_route(step_toward(a, b), b)
    }
}

/// `c` lies on some shortest grid route from `a` to `b`.
pub open spec fn between(a: HexCoord, b: HexCoord, c: HexCoord) -> bool {
    hex_distance(a, c) + hex_distance(c, b) == hex_distance(a, b)
}

/// The grid distance obeys the triangle inequality.
pub proof fn lemma_triangle(x: HexCoord, y: HexCoord, z: HexCoord)
    ensures
        hex_distance(x, z) <= hex_distance(x, y) + hex_distance(y, z),
{
}

proof fn lemma_between_step(a: HexCoord, s: HexCoord, b: HexCoord, c: HexCoord)
    requires
        adjacent(a, s),
        hex_distance(s, b) == hex_distance(a, b) - 1,
        between(s, b, c),
    ensures
        between(a, b, c),
{
    lemma_triangle(a, s, c);
    lemma_triangle(a, c, b);
}

proof fn lemma_greedy_route(a: HexCoord, b: HexCoord)
    ensures
        greedy_route(a, b).len() == hex_distance(a, b) + 1,
        greedy_route(a, b)[0] == a,
        greedy_route(a, b).last() == b,
        forall|i: int| 0 <= i < greedy_route(a, b).len() - 1
            ==> adjacent(#[trigger] greedy_route(a, b)[i], greedy_route(a, b)[i + 1]),
        forall|i: int| 0 <= i < greedy_route(a, b).len() ==> between(a, b, #[trigger] greedy_route(a, b)[i]),
    decreases hex_distance(a, b),
{
    let g = greedy_route(a, b);
    if a != b {
        let s = step_toward(a, b);
        lemma_step_toward(a, b);
        lemma_greedy_route(s, b);
        let t = greedy_route(s, b);
        assert(g == seq![a] + t);
        assert forall|i: int| 0 <= i < g.len() - 1 implies adjacent(#[trigger] g[i], g[i + 1]) by {
            if i == 0 {
                assert(g[1] == t[0]);
            } else {
                assert(g[i] == t[i - 1] && g[i + 1] == t[i]);
                assert(adjacent(t[i - 1], t[i]));
            }
        }
        assert forall|i: int| 0 <= i < g.len() implies between(a, b, #[trigger] g[i]) by {
            if i > 0 {
                assert(g[i] == t[i - 1]);
                assert(between(s, b, t[i - 1]));
                lemma_between_step(a, s, b, t[i - 1]);
            } else {
                assert(g[0] == a);
            }
        }
    }
}

/// Where every cell on a shortest grid route between `start` and `goal` is open,
/// the two are joined, and every shortest path between them takes exactly as many
/// steps as the grid distance.
pub proof fn lemma_open_grid_shortest(open: Set<HexCoord>, start: HexCoord, goal: HexCoord)
    requires
        forall|c: HexCoord| between(start, goal, c) ==> #[trigger] open.contains(c),
    ensures
        reachable(open, start, goal),
        forall|p: Seq<HexCoord>| #[trigger] is_shortest_walk(open, p, start, goal)
            ==> p.len() - 1 == hex_distance(start, goal),
{
    let g = greedy_route(start, goal);
    lemma_greedy_route(start, goal);
    assert forall|i: int| 0 <= i < g.len() implies open.contains(#[trigger] g[i]) by {
        assert(between(start, goal, g[i]));
    }
    assert(is_walk(open, g, start, goal));
    assert forall|p: Seq<HexCoord>| #[trigger] is_shortest_walk(open, p, start, goal)
        implies p.len() - 1 == hex_distance(start, goal) by {
        lemma_walk_length(open, p, start, goal);
    }
}

/// A path that `find_path` returns never enters a coordinate that is not a cell
/// of the map.
pub proof fn lemma_path_avoids_impassable(map: WorldMap, p: Seq<HexCoord>, start: HexCoord, goal: HexCoord, c: HexCoord)
    requires
        is_shortest_walk(map@.dom(), p, start, goal),
        !map@.contains_key(c),
    ensures
        !p.contains(c),
{
    lemma_walk_avoids_closed(map@.dom(), p, start, goal, c);
}

/// Joining a shortest leg from `a` to `b` with a shortest leg from `b` to `c`
/// gives a walk from `a` to `c` on which `b` stands exactly once.
pub proof fn lemma_stitch_junction_once(
    open: Set<HexCoord>,
    first: Seq<HexCoord>,
    second: Seq<HexCoord>,
    a: HexCoord,
    b: HexCoord,
    c: HexCoord,
)
    requires
        is_shortest_walk(open, first, a, b),
        is_shortest_walk(open, second, b, c),
    ensures
        is_walk(open, joined(first, second), a, c),
        joined(first, second)[first.len() - 1] == b,
        forall|i: int| 0 <= i < joined(first, second).len() && #[trigger] joined(first, second)[i] == b
            ==> i == first.len() - 1,
{
    lemma_shortest_walk_simple(open, first, a, b);
    lemma_shortest_walk_simple(open, second, b, c);
    lemma_joined_walk(open, first, second, a, b, c);
    let j = joined(first, second);
    assert forall|i: int| 0 <= i < j.len() && #[trigger] j[i] == b implies i == first.len() - 1 by {
        if i < first.len() {
            assert(first[i] == first[first.len() - 1]);
        } else {
            let k = i - first.len() + 1;
            assert(j[i] == second[k]);
            assert(second[k] == second[0]);
        }
    }
}

/// Two walks that meet make one walk.
pub proof fn lemma_joined_walk(
    open: Set<HexCoord>,
    first: Seq<HexCoord>,
    second: Seq<HexCoord>,
    a: HexCoord,
    b: HexCoord,
    c: HexCoord,
)
    requires
        is_walk(open, first, a, b),
        is_walk(open, second, b, c),
    ensures
        is_walk(open, joined(first, second), a, c),
        joined(first, second).len() == first.len() + second.len() - 1,
{
    let j = joined(first, second);
    let n = first.len();
    assert forall|i: int| 0 <= i < j.len() implies open.contains(#[trigger] j[i]) by {
        if i >= n {
            assert(j[i] == second[i - n + 1]);
        }
    }
    assert forall|i: int| 0 <= i < j.len() - 1 implies adjacent(#[trigger] j[i], j[i + 1]) by {
        if i < n - 1 {
            assert(j[i] == first[i] && j[i + 1] == first[i + 1]);
        } else if i == n - 1 {
            assert(j[i + 1] == second[1]);
            assert(adjacent(second[0], second[1]));
        } else {
            assert(j[i] == second[i - n + 1] && j[i + 1] == second[i - n + 2]);
            assert(adjacent(second[i - n + 1], second[i - n + 2]));
        }
    }
    if second.len() > 1 {
        assert(j.last() == second.last());
    }
}

/// Why no route could be stitched through a list of waypoints.
#[derive(PartialEq, Eq, Structural, Clone, Copy, Debug)]
pub enum RouteError {
    /// The list holds no waypoint.
    NoWaypoints,
    /// No path joins waypoint `i` to waypoint `i + 1`.
    LegUnreachable(usize),
}

/// The legs laid end to end from `origin`, each junction cell kept once.
pub open spec fn stitched(origin: HexCoord, legs: Seq<Seq<HexCoord>>) -> Seq<HexCoord>
    decreases legs.len(),
{
    if legs.len() == 0 {
        seq![origin]
    } else {
        joined(stitched(origin, legs.drop_last()), legs.last())
    }
}

/// Every leg from `w[j]` to `w[j + 1]`, for `j < n`, can be walked.
pub open spec fn legs_reachable(open: Set<HexCoord>, w: Seq<HexCoord>, n: int) -> bool {
    forall|j: int| 0 <= j < n ==> reachable(open, #[trigger] w[j], w[j + 1])
}

/// `legs[j]` is a shortest walk from `w[j]` to `w[j + 1]`, for each leg.
pub open spec fn shortest_legs(open: Set<HexCoord>, w: Seq<HexCoord>, legs: Seq<Seq<HexCoord>>) -> bool {
    forall|j: int| 0 <= j < legs.len() ==> is_shortest_walk(open, #[trigger] legs[j], w[j], w[j + 1])
}

impl WorldMap {
    /// The route through `waypoints` in order: a shortest path for each consecutive
    /// pair, the legs joined at the waypoints. Fails with the first leg that no path
    /// joins.
    pub fn route_through(&self, waypoints: &Vec<HexCoord>) -> (r: Result<Vec<HexCoord>, RouteError>)
        requires
            self.wf(),
        ensures
            r == Err::<Vec<HexCoord>, RouteError>(RouteError::NoWaypoints) <==> waypoints@.len() == 0,
            r is Ok <==> waypoints@.len() >= 1 && legs_reachable(self@.dom(), waypoints@, waypoints@.len() - 1),
            r matches Err(RouteError::LegUnreachable(i)) ==> {
                &&& i < waypoints@.len() - 1
                &&& legs_reachable(self@.dom(), waypoints@, i as int)
                &&& !reachable(self@.dom(), waypoints@[i as int], waypoints@[i + 1])
            },
            r matches Ok(p) ==> exists|legs: Seq<Seq<HexCoord>>| {
                &&& legs.len() == waypoints@.len() - 1
                &&& shortest_legs(self@.dom(), waypoints@, legs)
                &&& p@ == stitched(waypoints@[0], legs)
            },
            r matches Ok(p) ==> waypoints@.len() >= 2 ==> is_walk(self@.dom(), p@, waypoints@[0], waypoints@.last()),
    {
        if waypoints.len() == 0 {
            return Err(RouteError::NoWaypoints);
        }
        let ghost open = self@.dom();
        let ghost w = waypoints@;
        let mut acc: Vec<HexCoord> = Vec::new();
        acc.push(waypoints[0]);
        let ghost mut legs: Seq<Seq<HexCoord>> = Seq::empty();
        let mut i: usize = 0;
        assert(acc@ == stitched(w[0], legs));
        while i < waypoints.len() - 1
            invariant
                self.wf(),
                open == self@.dom(),
                w == waypoints@,
                w.len() >= 1,
                0 <= i < w.len(),
                legs.len() == i,
                shortest_legs(open, w, legs),
                legs_reachable(open, w, i as int),
                acc@ == stitched(w[0], legs),
                acc@.len() >= 1,
                acc@.last() == w[i as int],
                i >= 1 ==> is_walk(open, acc@, w[0], w[i as int]),
            decreases w.len() - i,
        {
            let next = self.find_path(waypoints[i], waypoints[i + 1]);
            match next {
                None => {
                    return Err(RouteError::LegUnreachable(i));
                },
                Some(leg) => {
                    let ghost prev = acc@;
                    let joined_leg = stitch(&acc, &leg);
                    match joined_leg {
                        Some(p) => {
                            proof {
                                let legs2 = legs.push(leg@);
                                assert(legs2.drop_last() == legs);
                                assert(shortest_legs(open, w, legs2)) by {
                                    assert forall|j: int| 0 <= j < legs2.len() implies is_shortest_walk(open, #[trigger] legs2[j], w[j], w[j + 1]) by {
                                        if j < i {
                                            assert(legs2[j] == legs[j]);
                                        }
                                    }
                                }
                                assert(legs_reachable(open, w, i + 1)) by {
                                    assert forall|j: int| 0 <= j < i + 1 implies reachable(open, #[trigger] w[j], w[j + 1]) by {
                                        if j == i {
                                            assert(is_walk(open, leg@, w[j], w[j + 1]));
                                        }
                                    }
                                }
                                if i == 0 {
                                    assert(joined(prev, leg@) =~= leg@);
                                } else {
                                    lemma_joined_walk(open, prev, leg@, w[0], w[i as int], w[i + 1]);
                                }
                                if leg@.len() > 1 {
                                    assert(p@.last() == leg@.last());
                                } else {
                                    assert(p@ =~= prev);
                                }
                                legs = legs2;
                            }
                            acc = p;
                        },
                        None => {
                            assert(false);
                        },
                    }
                },
            }
            i = i + 1;
        }
        Ok(acc)
    }
}

/// The waypoints of the enemies' route across the map.
pub fn enemy_waypoints() -> (w: Vec<HexCoord>)
    ensures
        w@ == enemy_waypoints_seq(),
{
    let mut w: Vec<HexCoord> = Vec::new();
    w.push(HexCoord { q: 0, r: -13i32 });
    w.push(HexCoord { q: 5, r: -7i32 });
    w.push(HexCoord { q: 0, r: 0 });
    w.push(HexCoord { q: -9i32, r: 13 });
    w
}

impl WorldMap {
    /// The route that enemies walk: through `enemy_waypoints` in order.
    pub fn enemy_route(&self) -> (r: Result<Vec<HexCoord>, RouteError>)
        requires
            self.wf(),
        ensures
            r is Ok <==> legs_reachable(self@.dom(), enemy_waypoints_seq(), 3),
            r matches Err(e) ==> e != RouteError::NoWaypoints,
            r matches Ok(p) ==> is_walk(self@.dom(), p@, HexCoord { q: 0, r: -13i32 }, HexCoord { q: -9i32, r: 13 }),
            r matches Ok(p) ==> is_enemy_route(self@.dom(), p@),
    {
        let w = enemy_waypoints();
        self.route_through(&w)
    }
}

/// The enemies' waypoints as a sequence.
pub open spec fn enemy_waypoints_seq() -> Seq<HexCoord> {
    seq![
        HexCoord { q: 0, r: -13i32 },
        HexCoord { q: 5, r: -7i32 },
        HexCoord { q: 0, r: 0 },
        HexCoord { q: -9i32, r: 13 },
    ]
}

/// `p` is the enemies' route over `open`: a shortest leg between each two
/// consecutive waypoints, the legs joined at the waypoints.
pub open spec fn is_enemy_route(open: Set<HexCoord>, p: Seq<HexCoord>) -> bool {
    exists|legs: Seq<Seq<HexCoord>>| {
        &&& legs.len() == 3
        &&& shortest_legs(open, enemy_waypoints_seq(), legs)
        &&& p == stitched(HexCoord { q: 0, r: -13i32 }, legs)
    }
}

/// A cell on a shortest grid route between two cells of a hexagon lies in the
/// hexagon too.
pub proof fn lemma_hexagon_convex(center: HexCoord, radius: int, a: HexCoord, b: HexCoord, c: HexCoord)
    requires
        hex_distance(center, a) <= radius,
        hex_distance(center, b) <= radius,
        between(a, b, c),
    ensures
        hex_distance(center, c) <= radius,
{
    lemma_distance_half_sum(a, c);
    lemma_distance_half_sum(c, b);
    lemma_distance_half_sum(a, b);
    let (aq, ar, as_) = (a.q as int, a.r as int, -a.q - a.r);
    let (bq, br, bs) = (b.q as int, b.r as int, -b.q - b.r);
    let (cq, cr, cs) = (c.q as int, c.r as int, -c.q - c.r);
    assert(abs(aq - cq) + abs(cq - bq) >= abs(aq - bq));
    assert(abs(ar - cr) + abs(cr - br) >= abs(ar - br));
    assert(abs(as_ - cs) + abs(cs - bs) >= abs(as_ - bs));
    assert(abs(aq - cq) + abs(cq - bq) == abs(aq - bq));
    assert(abs(ar - cr) + abs(cr - br) == abs(ar - br));
    assert(abs(as_ - cs) + abs(cs - bs) == abs(as_ - bs));
    let (oq, or, os) = (center.q as int, center.r as int, -center.q - center.r);
    assert(abs(cq - oq) <= radius);
    assert(abs(cr - or) <= radius);
    assert(abs(cs - os) <= radius);
}

/// The grid distance is half the sum of the absolute differences over the three
/// cubic axes.
pub proof fn lemma_distance_half_sum(a: HexCoord, b: HexCoord)
    ensures
        2 * hex_distance(a, b) == abs(a.q - b.q) + abs(a.r - b.r) + abs((-a.q - a.r) - (-b.q - b.r)),
{
}

/// Between two cells of a map that holds a whole hexagon, a path exists, and
/// every shortest path takes as many steps as the grid distance.
pub proof fn lemma_hexagon_leg(open: Set<HexCoord>, center: HexCoord, radius: int, a: HexCoord, b: HexCoord)
    requires
        forall|c: HexCoord| hex_distance(center, c) <= radius ==> #[trigger] open.contains(c),
        hex_distance(center, a) <= radius,
        hex_distance(center, b) <= radius,
    ensures
        reachable(open, a, b),
        forall|p: Seq<HexCoord>| #[trigger] is_shortest_walk(open, p, a, b) ==> p.len() - 1 == hex_distance(a, b),
{
    assert forall|c: HexCoord| between(a, b, c) implies #[trigger] open.contains(c) by {
        lemma_hexagon_convex(center, radius, a, b, c);
    }
    lemma_open_grid_shortest(open, a, b);
}

proof fn lemma_stitched_three(origin: HexCoord, legs: Seq<Seq<HexCoord>>)
    requires
        legs.len() == 3,
        legs[0].len() >= 1,
        legs[1].len() >= 1,
        legs[2].len() >= 1,
    ensures
        stitched(origin, legs).len() == legs[0].len() + legs[1].len() + legs[2].len() - 2,
{
    let l1 = legs.drop_last();
    let l0 = l1.drop_last();
    assert(l0.drop_last().len() == 0);
    assert(l0.last() == legs[0]);
    assert(l1.last() == legs[1]);
    assert(stitched(origin, l0.drop_last()) == seq![origin]);
    assert(stitched(origin, l0).len() == legs[0].len());
    assert(stitched(origin, l1).len() == legs[0].len() + legs[1].len() - 1);
}

#[verifier::spinoff_prover]
proof fn lemma_enemy_legs_on_hexagon(open: Set<HexCoord>)
    requires
        forall|c: HexCoord| hex_distance(HexCoord { q: 0, r: 0 }, c) <= 13 ==> #[trigger] open.contains(c),
    ensures
        legs_reachable(open, enemy_waypoints_seq(), 3),
        forall|p: Seq<HexCoord>| #[trigger] is_shortest_walk(open, p, enemy_waypoints_seq()[0], enemy_waypoints_seq()[1])
            ==> p.len() == 12,
        forall|p: Seq<HexCoord>| #[trigger] is_shortest_walk(open, p, enemy_waypoints_seq()[1], enemy_waypoints_seq()[2])
            ==> p.len() == 8,
        forall|p: Seq<HexCoord>| #[trigger] is_shortest_walk(open, p, enemy_waypoints_seq()[2], enemy_waypoints_seq()[3])
            ==> p.len() == 14,
{
    let w = enemy_waypoints_seq();
    let o = HexCoord { q: 0, r: 0 };
    lemma_hexagon_leg(open, o, 13, w[0], w[1]);
    lemma_hexagon_leg(open, o, 13, w[1], w[2]);
    lemma_hexagon_leg(open, o, 13, w[2], w[3]);
    assert forall|j: int| 0 <= j < 3 implies reachable(open, #[trigger] w[j], w[j + 1]) by {
        if j == 0 {
        } else if j == 1 {
        } else {
        }
    }
}

/// On a map that holds the hexagon of radius 13 around the origin, every leg of the
/// enemies' route can be walked, and a route of shortest legs through its
/// waypoints has 32 cells: 11, 7 and 13 steps.
#[verifier::spinoff_prover]
pub proof fn lemma_enemy_route_on_hexagon(open: Set<HexCoord>, legs: Seq<Seq<HexCoord>>)
    requires
        forall|c: HexCoord| hex_distance(HexCoord { q: 0, r: 0 }, c) <= 13 ==> #[trigger] open.contains(c),
        legs.len() == 3,
        shortest_legs(open, enemy_waypoints_seq(), legs),
    ensures
        legs_reachable(open, enemy_waypoints_seq(), 3),
        stitched(HexCoord { q: 0, r: -13i32 }, legs).len() == 32,
{
    lemma_enemy_legs_on_hexagon(open);
    let w = enemy_waypoints_seq();
    assert(is_shortest_walk(open, legs[0], w[0], w[1]));
    assert(is_shortest_walk(open, legs[1], w[1], w[2]));
    assert(is_shortest_walk(open, legs[2], w[2], w[3]));
    lemma_stitched_three(w[0], legs);
}

/// In a walk that takes exactly as many steps as the grid distance between its
/// ends, the i-th cell lies i steps from the start and the rest from the goal.
pub proof fn lemma_geodesic_positions(open: Set<HexCoord>, p: Seq<HexCoord>, a: HexCoord, b: HexCoord)
    requires
        is_walk(open, p, a, b),
        p.len() - 1 == hex_distance(a, b),
    ensures
        forall|i: int| 0 <= i < p.len() ==> hex_distance(a, #[trigger] p[i]) == i
            && hex_distance(p[i], b) == p.len() - 1 - i,
{
    assert forall|i: int| 0 <= i < p.len() implies hex_distance(a, #[trigger] p[i]) == i
        && hex_distance(p[i], b) == p.len() - 1 - i by {
        let pre = p.subrange(0, i + 1);
        let suf = p.subrange(i, p.len() as int);
        assert forall|k: int| 0 <= k < pre.len() - 1 implies adjacent(#[trigger] pre[k], pre[k + 1]) by {
            assert(adjacent(p[k], p[k + 1]));
        }
        assert forall|k: int| 0 <= k < suf.len() - 1 implies adjacent(#[trigger] suf[k], suf[k + 1]) by {
            assert(adjacent(p[k + i], p[k + i + 1]));
        }
        assert(is_walk(open, pre, a, p[i]));
        assert(is_walk(open, suf, p[i], b));
        lemma_walk_length(open, pre, a, p[i]);
        lemma_walk_length(open, suf, p[i], b);
        lemma_triangle(a, p[i], b);
    }
}

proof fn lemma_stitched_three_layout(origin: HexCoord, legs: Seq<Seq<HexCoord>>)
    requires
        legs.len() == 3,
        legs[0].len() >= 1,
        legs[1].len() >= 1,
        legs[2].len() >= 1,
        legs[0][0] == origin,
    ensures
        stitched(origin, legs) == legs[0] + legs[1].subrange(1, legs[1].len() as int)
            + legs[2].subrange(1, legs[2].len() as int),
{
    let l1 = legs.drop_last();
    let l0 = l1.drop_last();
    assert(l0.drop_last().len() == 0);
    assert(l0.last() == legs[0]);
    assert(l1.last() == legs[1]);
    assert(legs.last() == legs[2]);
    assert(stitched(origin, l0.drop_last()) == seq![origin]);
    assert(joined(seq![origin], legs[0]) =~= legs[0]);
    assert(stitched(origin, l0) == legs[0]);
    assert(stitched(origin, l1) == joined(legs[0], legs[1]));
}

proof fn lemma_route_indices(p: Seq<HexCoord>, l0: Seq<HexCoord>, l1: Seq<HexCoord>, l2: Seq<HexCoord>)
    requires
        l0.len() == 12,
        l1.len() == 8,
        l2.len() == 14,
        p == l0 + l1.subrange(1, 8) + l2.subrange(1, 14),
        forall|i: int| 0 <= i < 12 ==> hex_distance(enemy_waypoints_seq()[0], #[trigger] l0[i]) == i,
        forall|i: int| 0 <= i < 8 ==> hex_distance(enemy_waypoints_seq()[1], #[trigger] l1[i]) == i,
        forall|i: int| 0 <= i < 14 ==> hex_distance(enemy_waypoints_seq()[2], #[trigger] l2[i]) == i
            && hex_distance(l2[i], enemy_waypoints_seq()[3]) == 13 - i,
        l0[11] == enemy_waypoints_seq()[1],
        l1[7] == enemy_waypoints_seq()[2],
    ensures
        p.len() == 32,
        p[11] == enemy_waypoints_seq()[1],
        p[18] == enemy_waypoints_seq()[2],
        forall|i: int| 0 <= i < 32 && #[trigger] p[i] == enemy_waypoints_seq()[1] ==> i == 11,
        forall|i: int| 0 <= i < 32 && #[trigger] p[i] == enemy_waypoints_seq()[2] ==> i == 18,
{
    let w = enemy_waypoints_seq();
    assert(hex_distance(w[0], w[2]) == 13);
    assert(hex_distance(w[1], w[3]) == 20);
    assert forall|i: int| 0 <= i < 32 implies
        (#[trigger] p[i] == w[1] ==> i == 11) && (p[i] == w[2] ==> i == 18) by {
        if i < 12 {
            assert(p[i] == l0[i]);
            assert(hex_distance(w[0], l0[i]) == i);
        } else if i < 19 {
            assert(p[i] == l1[i - 11]);
            assert(hex_distance(w[1], l1[i - 11]) == i - 11);
        } else {
            assert(p[i] == l2[i - 18]);
            assert(hex_distance(w[2], l2[i - 18]) == i - 18);
            assert(hex_distance(l2[i - 18], w[3]) == 31 - i);
        }
    }
    assert(p[11] == l0[11]);
    assert(p[18] == l1[7]);
}

/// On a map that holds the hexagon of radius 13 around the origin, the route of
/// shortest legs through the enemies' waypoints passes each inner waypoint once:
/// (5, -7) only at cell 11 and (0, 0) only at cell 18.
#[verifier::spinoff_prover]
#[verifier::rlimit(50)]
pub proof fn lemma_enemy_route_junctions_once(open: Set<HexCoord>, legs: Seq<Seq<HexCoord>>)
    requires
        forall|c: HexCoord| hex_distance(HexCoord { q: 0, r: 0 }, c) <= 13 ==> #[trigger] open.contains(c),
        legs.len() == 3,
        shortest_legs(open, enemy_waypoints_seq(), legs),
    ensures
        stitched(enemy_waypoints_seq()[0], legs)[11] == enemy_waypoints_seq()[1],
        stitched(enemy_waypoints_seq()[0], legs)[18] == enemy_waypoints_seq()[2],
        forall|i: int| 0 <= i < 32 && #[trigger] stitched(enemy_waypoints_seq()[0], legs)[i] == enemy_waypoints_seq()[1]
            ==> i == 11,
        forall|i: int| 0 <= i < 32 && #[trigger] stitched(enemy_waypoints_seq()[0], legs)[i] == enemy_waypoints_seq()[2]
            ==> i == 18,
{
    let w = enemy_waypoints_seq();
    let o = HexCoord { q: 0, r: 0 };
    let (l0, l1, l2) = (legs[0], legs[1], legs[2]);
    assert(is_shortest_walk(open, l0, w[0], w[1]));
    assert(is_shortest_walk(open, l1, w[1], w[2]));
    assert(is_shortest_walk(open, l2, w[2], w[3]));
    lemma_hexagon_leg_positions(open, o, 13, w[0], w[1], l0);
    lemma_hexagon_leg_positions(open, o, 13, w[1], w[2], l1);
    lemma_hexagon_leg_positions(open, o, 13, w[2], w[3], l2);
    lemma_stitched_three_layout(w[0], legs);
    lemma_route_indices(stitched(w[0], legs), l0, l1, l2);
}

/// A shortest leg between two cells of a map that holds a whole hexagon takes as
/// many steps as the grid distance, its i-th cell i steps from the start.
proof fn lemma_hexagon_leg_positions(
    open: Set<HexCoord>,
    center: HexCoord,
    radius: int,
    a: HexCoord,
    b: HexCoord,
    leg: Seq<HexCoord>,
)
    requires
        forall|c: HexCoord| hex_distance(center, c) <= radius ==> #[trigger] open.contains(c),
        hex_distance(center, a) <= radius,
        hex_distance(center, b) <= radius,
        is_shortest_walk(open, leg, a, b),
    ensures
        leg.len() == hex_distance(a, b) + 1,
        leg[0] == a,
        leg.last() == b,
        forall|i: int| 0 <= i < leg.len() ==> hex_distance(a, #[trigger] leg[i]) == i
            && hex_distance(leg[i], b) == leg.len() - 1 - i,
{
    lemma_hexagon_leg(open, center, radius, a, b);
    lemma_geodesic_positions(open, leg, a, b);
}

} // verus!
