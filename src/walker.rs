//! A walker that follows a path of cells at a fixed speed, one waypoint after
//! another, until it arrives at the last one.

use vstd::prelude::*;
use crate::hex::{HexCoord, LatticePoint, in_bounds, lattice_of};
use crate::map::WorldMap;
use crate::path::{RouteError, is_walk, is_enemy_route, legs_reachable, enemy_waypoints_seq};

verus! {

/// World units between the centres of two adjacent cells.
pub const STEP_LENGTH: u64 = 1000;

/// A walker whose remaining distance to its target is at most this many world
/// units has arrived there.
pub const ARRIVAL_TOLERANCE: u64 = 5;

/// What one tick of a walker brought about.
#[derive(PartialEq, Eq, Structural, Clone, Copy, Debug)]
pub enum WalkEvent {
    /// Still under way (a waypoint short of the last may have been reached).
    Progressing,
    /// The last waypoint was reached on this tick.
    ArrivedAtEnd,
    /// The walker had already arrived at the end; nothing happened.
    Halted,
}

/// The state of a walker, as values.
pub struct WalkView {
    pub path: Seq<HexCoord>,
    pub index: int,
    pub progress: int,
    pub speed: int,
    pub finished: bool,
}

/// The distance from the waypoint before `index` to the one at `index`; none for
/// the first waypoint, where the walker starts.
pub open spec fn segment_length(index: int) -> int {
    if index == 0 { 0 } else { STEP_LENGTH as int }
}

/// The waypoint index that a walker on `path` aims at first: the second waypoint,
/// or the only one.
pub open spec fn first_target(path: Seq<HexCoord>) -> int {
    if path.len() >= 2 { 1 } else { 0 }
}

/// A walker as it starts out on `path` at `speed`.
pub open spec fn start_state(path: Seq<HexCoord>, speed: int) -> WalkView {
    WalkView { path, index: first_target(path), progress: 0, speed, finished: false }
}

/// A consistent walker state: a target on the path, and, while walking, still
/// further from it than the arrival tolerance.
pub open spec fn walk_wf(v: WalkView) -> bool {
    &&& v.path.len() >= 1
    &&& 0 <= v.index < v.path.len()
    &&& v.path.len() >= 2 ==> v.index >= 1
    &&& 0 <= v.speed <= u64::MAX
    &&& 0 <= v.progress
    &&& v.index == 0 ==> v.progress == 0
    &&& v.index >= 1 && !v.finished ==> v.progress + ARRIVAL_TOLERANCE < STEP_LENGTH
    &&& v.finished ==> v.index == v.path.len() - 1 && v.progress == 0
}

pub open spec fn min(a: int, b: int) -> int {
    if a <= b { a } else { b }
}

/// One tick of `dt` milliseconds: move toward the target, never past it; on
/// arriving, aim at the next waypoint, or end the walk at the last one.
pub open spec fn tick_step(v: WalkView, dt: int) -> (WalkView, WalkEvent) {
    if v.finished {
        (v, WalkEvent::Halted)
    } else if v.speed * dt == 0 {
        (v, WalkEvent::Progressing)
    } else {
        let seg = segment_length(v.index);
        let p = v.progress + min(v.speed * dt, seg - v.progress);
        if seg - p <= ARRIVAL_TOLERANCE {
            if v.index == v.path.len() - 1 {
                (WalkView { progress: 0, finished: true, ..v }, WalkEvent::ArrivedAtEnd)
            } else {
                (WalkView { index: v.index + 1, progress: 0, ..v }, WalkEvent::Progressing)
            }
        } else {
            (WalkView { progress: p, ..v }, WalkEvent::Progressing)
        }
    }
}

/// Ticks of the given lengths, one after another: the final state and the number
/// of them that arrived at the end.
pub open spec fn run(v: WalkView, dts: Seq<int>) -> (WalkView, int)
    decreases dts.len(),
{
    if dts.len() == 0 {
        (v, 0)
    } else {
        let (next, ev) = tick_step(v, dts[0]);
        let (last, count) = run(next, dts.subrange(1, dts.len() as int));
        (last, count + if ev == WalkEvent::ArrivedAtEnd { 1int } else { 0int })
    }
}

/// The position of a walker, in lattice units times `STEP_LENGTH`: its target when
/// it stands on it, else the point between the previous waypoint and the target
/// that its progress gives.
pub open spec fn position_of(v: WalkView) -> (int, int) {
    let to = lattice_of(v.path[v.index]);
    if v.finished || v.index == 0 {
        (to.x * STEP_LENGTH, to.y * STEP_LENGTH)
    } else {
        let from = lattice_of(v.path[v.index - 1]);
        let p = v.progress;
        (from.x * (STEP_LENGTH - p) + to.x * p, from.y * (STEP_LENGTH - p) + to.y * p)
    }
}

/// A tick keeps a walker consistent and never moves its target back.
pub proof fn lemma_tick_step_wf(v: WalkView, dt: int)
    requires
        walk_wf(v),
        dt >= 0,
    ensures
        walk_wf(tick_step(v, dt).0),
        tick_step(v, dt).0.index >= v.index,
        tick_step(v, dt).0.path == v.path,
        tick_step(v, dt).0.speed == v.speed,
        v.finished ==> tick_step(v, dt).0.finished,
        tick_step(v, dt).1 == WalkEvent::ArrivedAtEnd ==> !v.finished && tick_step(v, dt).0.finished,
{
    assert(v.speed * dt >= 0) by (nonlinear_arith)
        requires v.speed >= 0, dt >= 0;
}

/// A tick of no time changes nothing and arrives nowhere.
pub proof fn lemma_zero_tick(v: WalkView)
    ensures
        tick_step(v, 0).0 == v,
        tick_step(v, 0).1 != WalkEvent::ArrivedAtEnd,
{
}

/// However the ticks go, a walker arrives at the end of its path at most once,
/// and not at all once it has arrived; its target never moves back.
pub proof fn lemma_arrives_at_most_once(v: WalkView, dts: Seq<int>)
    requires
        walk_wf(v),
        forall|k: int| 0 <= k < dts.len() ==> #[trigger] dts[k] >= 0,
    ensures
        walk_wf(run(v, dts).0),
        run(v, dts).0.index >= v.index,
        run(v, dts).0.path == v.path,
        0 <= run(v, dts).1 <= 1,
        v.finished ==> run(v, dts).1 == 0 && run(v, dts).0.finished,
        run(v, dts).1 == 1 ==> run(v, dts).0.finished,
    decreases dts.len(),
{
    if dts.len() > 0 {
        let (next, ev) = tick_step(v, dts[0]);
        lemma_tick_step_wf(v, dts[0]);
        let rest = dts.subrange(1, dts.len() as int);
        assert forall|k: int| 0 <= k < rest.len() implies #[trigger] rest[k] >= 0 by {
            assert(rest[k] == dts[k + 1]);
        }
        lemma_arrives_at_most_once(next, rest);
    }
}

/// A walker that covers at least one cell step on every tick arrives at the end of
/// its path exactly once within as many ticks as it has waypoints left.
pub proof fn lemma_arrives_exactly_once(v: WalkView, dts: Seq<int>)
    requires
        walk_wf(v),
        !v.finished,
        dts.len() >= v.path.len() - v.index,
        forall|k: int| 0 <= k < dts.len() ==> #[trigger] dts[k] >= 0 && v.speed * dts[k] >= STEP_LENGTH,
    ensures
        run(v, dts).1 == 1,
        run(v, dts).0.finished,
        run(v, dts).0.index == v.path.len() - 1,
    decreases dts.len(),
{
    let (next, ev) = tick_step(v, dts[0]);
    lemma_tick_step_wf(v, dts[0]);
    let rest = dts.subrange(1, dts.len() as int);
    assert forall|k: int| 0 <= k < rest.len() implies #[trigger] rest[k] >= 0 && next.speed * rest[k] >= STEP_LENGTH by {
        assert(rest[k] == dts[k + 1]);
    }
    assert(v.speed * dts[0] >= STEP_LENGTH);
    if v.index == v.path.len() - 1 {
        assert(ev == WalkEvent::ArrivedAtEnd);
        lemma_arrives_at_most_once(next, rest);
    } else {
        assert(next.index == v.index + 1);
        assert(ev == WalkEvent::Progressing);
        lemma_arrives_exactly_once(next, rest);
    }
}

/// The ticks a walker still needs at one world unit per tick: the steps from the
/// previous waypoint to the last one, less what it has already covered.
pub open spec fn units_left(v: WalkView) -> int {
    (v.path.len() - v.index) * STEP_LENGTH - v.progress
}

/// A walker that covers at least one world unit on every tick arrives at the end
/// of its path exactly once within `units_left` ticks.
pub proof fn lemma_arrives_with_steady_progress(v: WalkView, dts: Seq<int>)
    requires
        walk_wf(v),
        !v.finished,
        dts.len() >= units_left(v),
        forall|k: int| 0 <= k < dts.len() ==> #[trigger] dts[k] >= 0 && v.speed * dts[k] >= 1,
    ensures
        run(v, dts).1 == 1,
        run(v, dts).0.finished,
    decreases dts.len(),
{
    let (next, ev) = tick_step(v, dts[0]);
    lemma_tick_step_wf(v, dts[0]);
    let rest = dts.subrange(1, dts.len() as int);
    assert forall|k: int| 0 <= k < rest.len() implies #[trigger] rest[k] >= 0 && next.speed * rest[k] >= 1 by {
        assert(rest[k] == dts[k + 1]);
    }
    assert(v.speed * dts[0] >= 1);
    if ev == WalkEvent::ArrivedAtEnd {
        lemma_arrives_at_most_once(next, rest);
    } else {
        assert(!next.finished);
        assert(units_left(next) <= units_left(v) - 1);
        lemma_arrives_with_steady_progress(next, rest);
    }
}

/// A walker that started on `path` arrives at its end exactly once when every
/// tick covers at least one cell step and there are as many ticks as steps (one
/// for a path of a single cell).
pub proof fn lemma_fresh_walker_arrives_once(path: Seq<HexCoord>, speed: int, dts: Seq<int>)
    requires
        path.len() >= 1,
        0 <= speed <= u64::MAX,
        dts.len() >= if path.len() >= 2 { path.len() - 1 } else { 1 },
        forall|k: int| 0 <= k < dts.len() ==> #[trigger] dts[k] >= 0 && speed * dts[k] >= STEP_LENGTH,
    ensures
        run(start_state(path, speed), dts).1 == 1,
        run(start_state(path, speed), dts).0.finished,
{
    lemma_arrives_exactly_once(start_state(path, speed), dts);
}

/// A walker that follows a path of cells.
pub struct WalkingPath {
    path: Vec<HexCoord>,
    current_index: usize,
    progress: u64,
    speed: u64,
    finished: bool,
}

impl WalkingPath {
    pub closed spec fn view(&self) -> WalkView {
        WalkView {
            path: self.path@,
            index: self.current_index as int,
            progress: self.progress as int,
            speed: self.speed as int,
            finished: self.finished,
        }
    }

    /// Consistent, and every waypoint within the coordinate bound.
    pub open spec fn wf(&self) -> bool {
        &&& walk_wf(self@)
        &&& forall|i: int| 0 <= i < self@.path.len() ==> in_bounds(#[trigger] self@.path[i])
    }

    /// A walker at the first waypoint of `path`, aiming at the second, moving
    /// `speed` world units per millisecond.
    pub fn new(path: Vec<HexCoord>, speed: u64) -> (w: WalkingPath)
        requires
            path@.len() >= 1,
            forall|i: int| 0 <= i < path@.len() ==> in_bounds(#[trigger] path@[i]),
        ensures
            w.wf(),
            w@ == start_state(path@, speed as int),
    {
        let first: usize = if path.len() >= 2 { 1 } else { 0 };
        WalkingPath { path, current_index: first, progress: 0, speed, finished: false }
    }

    /// Advances the walker by `dt` milliseconds.
    pub fn tick(&mut self, dt: u64) -> (ev: WalkEvent)
        requires
            old(self).wf(),
        ensures
            final(self).wf(),
            (final(self)@, ev) == tick_step(old(self)@, dt as int),
            final(self)@.index >= old(self)@.index,
            dt == 0 ==> final(self)@ == old(self)@ && ev != WalkEvent::ArrivedAtEnd,
    {
        proof {
            lemma_tick_step_wf(self@, dt as int);
        }
        if self.finished {
            return WalkEvent::Halted;
        }
        proof {
            assert(dt == 0 ==> self.speed as int * dt as int == 0) by (nonlinear_arith);
        }
        let travel: u64 = match self.speed.checked_mul(dt) {
            Some(t) => t,
            None => u64::MAX,
        };
        if travel == 0 {
            return WalkEvent::Progressing;
        }
        let seg: u64 = if self.current_index == 0 { 0 } else { STEP_LENGTH };
        let remaining = seg - self.progress;
        let moved = if travel <= remaining { travel } else { remaining };
        let p = self.progress + moved;
        if seg - p <= ARRIVAL_TOLERANCE {
            self.progress = 0;
            if self.current_index == self.path.len() - 1 {
                self.finished = true;
                WalkEvent::ArrivedAtEnd
            } else {
                self.current_index = self.current_index + 1;
                WalkEvent::Progressing
            }
        } else {
            self.progress = p;
            WalkEvent::Progressing
        }
    }

    /// The index of the waypoint that the walker aims at (the last one once it has
    /// arrived).
    pub fn current_index(&self) -> (i: usize)
        ensures
            i == self@.index,
    {
        self.current_index
    }

    /// The waypoint that the walker aims at.
    pub fn target(&self) -> (c: HexCoord)
        requires
            self.wf(),
        ensures
            c == self@.path[self@.index],
    {
        self.path[self.current_index]
    }

    /// Whether the walker has arrived at the end of its path.
    pub fn is_finished(&self) -> (b: bool)
        ensures
            b == self@.finished,
    {
        self.finished
    }

    /// The distance covered since the previous waypoint, in world units.
    pub fn progress(&self) -> (p: u64)
        ensures
            p == self@.progress,
    {
        self.progress
    }

    /// The path the walker follows.
    pub fn path(&self) -> (p: &Vec<HexCoord>)
        ensures
            p@ == self@.path,
    {
        &self.path
    }

    /// The walker's position in lattice units times `STEP_LENGTH`.
    pub fn world_position(&self) -> (pos: LatticePoint)
        requires
            self.wf(),
        ensures
            (pos.x as int, pos.y as int) == position_of(self@),
    {
        let to = self.path[self.current_index].lattice();
        proof {
            assert(in_bounds(self@.path[self@.index]));
        }
        if self.finished || self.current_index == 0 {
            proof {
                assert(-3_000_000 <= to.x <= 3_000_000 && -3_000_000 <= to.y <= 3_000_000);
            }
            LatticePoint { x: to.x * 1000, y: to.y * 1000 }
        } else {
            let from = self.path[self.current_index - 1].lattice();
            let p = self.progress as i64;
            proof {
                assert(in_bounds(self@.path[self@.index - 1]));
                let tx = to.x as int;
                let ty = to.y as int;
                let fx = from.x as int;
                let fy = from.y as int;
                let pp = p as int;
                assert(0 <= pp <= 1000);
                assert(-3_000_000_000 <= fx * (1000 - pp) <= 3_000_000_000) by (nonlinear_arith)
                    requires -3_000_000 <= fx <= 3_000_000, 0 <= pp <= 1000;
                assert(-3_000_000_000 <= tx * pp <= 3_000_000_000) by (nonlinear_arith)
                    requires -3_000_000 <= tx <= 3_000_000, 0 <= pp <= 1000;
                assert(-3_000_000_000 <= fy * (1000 - pp) <= 3_000_000_000) by (nonlinear_arith)
                    requires -3_000_000 <= fy <= 3_000_000, 0 <= pp <= 1000;
                assert(-3_000_000_000 <= ty * pp <= 3_000_000_000) by (nonlinear_arith)
                    requires -3_000_000 <= ty <= 3_000_000, 0 <= pp <= 1000;
            }
            LatticePoint {
                x: from.x * (1000 - p) + to.x * p,
                y: from.y * (1000 - p) + to.y * p,
            }
        }
    }

    /// An enemy on the enemies' route across `map`, moving `speed` world units per
    /// millisecond; the route's error where a leg of it cannot be walked.
    pub fn spawn_enemy(map: &WorldMap, speed: u64) -> (r: Result<WalkingPath, RouteError>)
        requires
            map.wf(),
        ensures
            r is Ok <==> legs_reachable(map@.dom(), enemy_waypoints_seq(), 3),
            r matches Ok(w) ==> {
                &&& w.wf()
                &&& w@ == start_state(w@.path, speed as int)
                &&& is_walk(map@.dom(), w@.path, HexCoord { q: 0, r: -13i32 }, HexCoord { q: -9i32, r: 13 })
                &&& is_enemy_route(map@.dom(), w@.path)
            },
    {
        match map.enemy_route() {
            Ok(p) => {
                proof {
                    assert forall|i: int| 0 <= i < p@.len() implies in_bounds(#[trigger] p@[i]) by {
                        assert(map@.dom().contains(p@[i]));
                        map.lemma_cells_in_bounds(p@[i]);
                    }
                }
                Ok(WalkingPath::new(p, speed))
            },
            Err(e) => Err(e),
        }
    }
}

} // verus!
