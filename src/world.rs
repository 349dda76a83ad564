//! The table of live game entities, addressed by stable integer handles. A
//! handle that names no entity of the expected kind is stale: every operation on
//! it leaves the world unchanged and reports that nothing happened.

use vstd::prelude::*;
use crate::hex::{HexCoord, in_bounds};
use crate::map::WorldMap;
use crate::path::{RouteError, is_walk, is_enemy_route, legs_reachable, enemy_waypoints_seq};
use crate::walker::{WalkingPath, WalkEvent, tick_step, start_state};
use crate::combat::{HasAttack, Bullet, timer_step, saturating_sum, ATTACK_PERIOD_MS, BULLET_SPEED, BULLET_LIFETIME_MS};

verus! {

/// The handle of an entity of the world: its slot in the table.
pub type Handle = usize;

/// A live entity, by kind.
pub enum Entity {
    /// An enemy walking its path.
    Walker(WalkingPath),
    /// A building with its attack.
    Building(HasAttack),
    /// A projectile in flight.
    Projectile(Bullet),
}

/// Signal that the walker `0` arrived at the end of its path.
#[derive(PartialEq, Eq, Structural, Clone, Copy, Debug)]
pub struct EnemyArrivedAtEnd(pub Handle);

/// The entities of the world. Slots are never reused, so a handle stays valid
/// until its entity is removed, and stale afterwards.
pub struct World {
    slots: Vec<Option<Entity>>,
}

impl World {
    pub closed spec fn slots(&self) -> Seq<Option<Entity>> {
        self.slots@
    }

    /// Every walker in the world is consistent, and every building's timer is
    /// consistent with no poll left untaken.
    pub open spec fn wf(&self) -> bool {
        forall|k: int| 0 <= k < self.slots().len() ==> Self::entity_wf(#[trigger] self.slots()[k])
    }

    pub open spec fn entity_wf(e: Option<Entity>) -> bool {
        match e {
            Some(Entity::Walker(w)) => w.wf(),
            Some(Entity::Building(b)) => b.timer.wf() && !b.timer.pending(),
            _ => true,
        }
    }

    /// Every slot but `h` is as it was.
    pub open spec fn others_unchanged(before: Seq<Option<Entity>>, after: Seq<Option<Entity>>, h: int) -> bool {
        &&& after.len() == before.len()
        &&& forall|k: int| 0 <= k < before.len() && k != h ==> #[trigger] after[k] == before[k]
    }

    pub fn new() -> (w: World)
        ensures
            w.wf(),
            w.slots().len() == 0,
    {
        World { slots: Vec::new() }
    }

    fn spawn(&mut self, e: Entity) -> (h: Handle)
        requires
            old(self).wf(),
            Self::entity_wf(Some(e)),
        ensures
            final(self).wf(),
            h == old(self).slots().len(),
            final(self).slots() == old(self).slots().push(Some(e)),
    {
        let h = self.slots.len();
        self.slots.push(Some(e));
        proof {
            assert forall|k: int| 0 <= k < self.slots().len() implies Self::entity_wf(#[trigger] self.slots()[k]) by {
                if k < h {
                    assert(self.slots()[k] == old(self).slots()[k]);
                }
            }
        }
        h
    }

    /// Adds a walker that starts on `path` at `speed` world units per millisecond.
    pub fn spawn_walker(&mut self, path: Vec<HexCoord>, speed: u64) -> (h: Handle)
        requires
            old(self).wf(),
            path@.len() >= 1,
            forall|i: int| 0 <= i < path@.len() ==> in_bounds(#[trigger] path@[i]),
        ensures
            final(self).wf(),
            h == old(self).slots().len(),
            final(self).slots().len() == old(self).slots().len() + 1,
            Self::others_unchanged(old(self).slots(), final(self).slots().drop_last(), h as int),
            final(self).slots()[h as int] matches Some(Entity::Walker(w)) && w@ == start_state(path@, speed as int),
    {
        let w = WalkingPath::new(path, speed);
        let h = self.spawn(Entity::Walker(w));
        proof {
            assert(final(self).slots().drop_last() == old(self).slots());
        }
        h
    }

    /// Adds a building on `at`, firing every `ATTACK_PERIOD_MS`.
    pub fn place_building(&mut self, at: HexCoord) -> (h: Handle)
        requires
            old(self).wf(),
        ensures
            final(self).wf(),
            h == old(self).slots().len(),
            final(self).slots().len() == old(self).slots().len() + 1,
            Self::others_unchanged(old(self).slots(), final(self).slots().drop_last(), h as int),
            final(self).slots()[h as int] matches Some(Entity::Building(b))
                && b.origin == at && b.timer.period() == ATTACK_PERIOD_MS && b.timer.elapsed() == 0,
    {
        let h = self.spawn(Entity::Building(HasAttack::place(at)));
        proof {
            assert(final(self).slots().drop_last() == old(self).slots());
        }
        h
    }

    /// Removes the entity `h`; false where `h` is stale.
    pub fn despawn(&mut self, h: Handle) -> (removed: bool)
        requires
            old(self).wf(),
        ensures
            final(self).wf(),
            removed == (h < old(self).slots().len() && old(self).slots()[h as int] is Some),
            Self::others_unchanged(old(self).slots(), final(self).slots(), h as int),
            h < old(self).slots().len() ==> final(self).slots()[h as int] is None,
    {
        if h >= self.slots.len() {
            return false;
        }
        let removed = self.slots[h].is_some();
        self.slots.set(h, None);
        proof {
            assert forall|k: int| 0 <= k < self.slots().len() implies Self::entity_wf(#[trigger] self.slots()[k]) by {
                if k != h {
                    assert(self.slots()[k] == old(self).slots()[k]);
                }
            }
        }
        removed
    }

    /// Takes the entity out of slot `h`, leaving the slot empty.
    fn take(&mut self, h: Handle) -> (e: Option<Entity>)
        requires
            h < old(self).slots().len(),
        ensures
            e == old(self).slots()[h as int],
            final(self).slots() == old(self).slots().update(h as int, None),
    {
        let mut out: Option<Entity> = None;
        std::mem::swap(&mut self.slots[h], &mut out);
        out
    }

    /// Advances the walker `h` by `dt` milliseconds; `None`, and nothing changed,
    /// where `h` is no walker.
    pub fn advance(&mut self, h: Handle, dt: u64) -> (r: Option<WalkEvent>)
        requires
            old(self).wf(),
        ensures
            final(self).wf(),
            Self::others_unchanged(old(self).slots(), final(self).slots(), h as int),
            r is Some <==> (h < old(self).slots().len() && old(self).slots()[h as int] matches Some(Entity::Walker(_))),
            r is None ==> final(self).slots() == old(self).slots(),
            r matches Some(ev) ==> (old(self).slots()[h as int] matches Some(Entity::Walker(w0))
                && final(self).slots()[h as int] matches Some(Entity::Walker(w1))
                && (w1@, ev) == tick_step(w0@, dt as int)),
    {
        if h >= self.slots.len() {
            return None;
        }
        let ghost before = self.slots();
        let taken = self.take(h);
        match taken {
            Some(Entity::Walker(mut w)) => {
                proof {
                    assert(before[h as int] matches Some(Entity::Walker(x)) && x.wf());
                }
                let ev = w.tick(dt);
                self.slots.set(h, Some(Entity::Walker(w)));
                proof {
                    assert forall|k: int| 0 <= k < self.slots().len() implies Self::entity_wf(#[trigger] self.slots()[k]) by {
                        if k != h {
                            assert(self.slots()[k] == before[k]);
                        }
                    }
                }
                Some(ev)
            },
            other => {
                self.slots.set(h, other);
                proof {
                    assert(self.slots() =~= before);
                }
                None
            },
        }
    }

    /// Advances the building `h` by `dt` milliseconds; when it fires, the new
    /// projectile is added and its handle returned. Stale handles change nothing.
    pub fn advance_combat(&mut self, h: Handle, dt: u64) -> (r: Option<Handle>)
        requires
            old(self).wf(),
        ensures
            final(self).wf(),
            !(h < old(self).slots().len() && old(self).slots()[h as int] matches Some(Entity::Building(_)))
                ==> r is None && final(self).slots() == old(self).slots(),
            h < old(self).slots().len() ==> (old(self).slots()[h as int] matches Some(Entity::Building(b0)) ==> {
                &&& (final(self).slots()[h as int] matches Some(Entity::Building(b1))
                    && b1.origin == b0.origin && b1.timer.period() == b0.timer.period()
                    && (b1.timer.elapsed() as int, r is Some) == timer_step(b0.timer.period(), b0.timer.elapsed(), dt as int))
                &&& r is None ==> final(self).slots().len() == old(self).slots().len()
                &&& r matches Some(p) ==> (p == old(self).slots().len() && final(self).slots().len() == p + 1
                    && (final(self).slots()[p as int] matches Some(Entity::Projectile(s))
                    && s.origin_cell() == b0.origin && s.speed() == BULLET_SPEED
                    && s.remaining() == BULLET_LIFETIME_MS && s.travelled() == 0))
                &&& forall|k: int| 0 <= k < old(self).slots().len() && k != h ==> #[trigger] final(self).slots()[k] == old(self).slots()[k]
            }),
    {
        if h >= self.slots.len() {
            return None;
        }
        let ghost before = self.slots();
        let taken = self.take(h);
        match taken {
            Some(Entity::Building(mut b)) => {
                proof {
                    assert(Self::entity_wf(before[h as int]));
                }
                let shot = b.advance_combat(dt);
                self.slots.set(h, Some(Entity::Building(b)));
                proof {
                    assert forall|k: int| 0 <= k < self.slots().len() implies Self::entity_wf(#[trigger] self.slots()[k]) by {
                        if k != h {
                            assert(self.slots()[k] == before[k]);
                        }
                    }
                }
                match shot {
                    Some(s) => {
                        let p = self.spawn(Entity::Projectile(s));
                        Some(p)
                    },
                    None => None,
                }
            },
            other => {
                self.slots.set(h, other);
                proof {
                    assert(self.slots() =~= before);
                }
                None
            },
        }
    }

    /// Advances the projectile `h` by `dt` milliseconds and removes it once its
    /// lifetime has run out: `Some(true)` then, `Some(false)` while it flies, and
    /// `None`, with nothing changed, where `h` is no projectile.
    pub fn advance_projectile(&mut self, h: Handle, dt: u64) -> (r: Option<bool>)
        requires
            old(self).wf(),
        ensures
            final(self).wf(),
            Self::others_unchanged(old(self).slots(), final(self).slots(), h as int),
            r is Some <==> (h < old(self).slots().len() && old(self).slots()[h as int] matches Some(Entity::Projectile(_))),
            r is None ==> final(self).slots() == old(self).slots(),
            r matches Some(x) ==> (old(self).slots()[h as int] matches Some(Entity::Projectile(b0))
                && x == (b0.remaining() <= dt)),
            r == Some(true) ==> final(self).slots()[h as int] is None,
            r == Some(false) ==> (old(self).slots()[h as int] matches Some(Entity::Projectile(b0))
                && final(self).slots()[h as int] matches Some(Entity::Projectile(b1))
                && b1.origin_cell() == b0.origin_cell() && b1.speed() == b0.speed()
                && b1.travelled() == saturating_sum(b0.travelled(), b0.speed() * dt)
                && b1.remaining() == b0.remaining() - dt && b1.remaining() > 0),
    {
        if h >= self.slots.len() {
            return None;
        }
        let ghost before = self.slots();
        let taken = self.take(h);
        match taken {
            Some(Entity::Projectile(mut b)) => {
                let expired = b.tick(dt);
                if !expired {
                    self.slots.set(h, Some(Entity::Projectile(b)));
                }
                proof {
                    assert forall|k: int| 0 <= k < self.slots().len() implies Self::entity_wf(#[trigger] self.slots()[k]) by {
                        if k != h {
                            assert(self.slots()[k] == before[k]);
                        }
                    }
                }
                Some(expired)
            },
            other => {
                self.slots.set(h, other);
                proof {
                    assert(self.slots() =~= before);
                }
                None
            },
        }
    }

    /// The walker `h`, if `h` is one.
    pub fn walker(&self, h: Handle) -> (r: Option<&WalkingPath>)
        ensures
            r matches Some(w) ==> h < self.slots().len() && self.slots()[h as int] == Some(Entity::Walker(*w)),
            r is None ==> !(h < self.slots().len() && self.slots()[h as int] matches Some(Entity::Walker(_))),
    {
        if h >= self.slots.len() {
            return None;
        }
        match &self.slots[h] {
            Some(Entity::Walker(w)) => Some(w),
            _ => None,
        }
    }

    /// Whether slot `h` holds an entity.
    pub fn is_live(&self, h: Handle) -> (b: bool)
        ensures
            b == (h < self.slots().len() && self.slots()[h as int] is Some),
    {
        h < self.slots.len() && self.slots[h].is_some()
    }

    /// Adds an enemy at the start of the enemies' route across `map`, moving
    /// `speed` world units per millisecond; the route's error, with nothing added,
    /// where a leg of it cannot be walked.
    pub fn spawn_enemy(&mut self, map: &WorldMap, speed: u64) -> (r: Result<Handle, RouteError>)
        requires
            old(self).wf(),
            map.wf(),
        ensures
            final(self).wf(),
            r is Ok <==> legs_reachable(map@.dom(), enemy_waypoints_seq(), 3),
            r is Err ==> final(self).slots() == old(self).slots(),
            r matches Ok(h) ==> {
                &&& h == old(self).slots().len()
                &&& final(self).slots().drop_last() == old(self).slots()
                &&& final(self).slots().len() == h + 1
                &&& final(self).slots()[h as int] matches Some(Entity::Walker(w))
                    && w@ == start_state(w@.path, speed as int)
                    && is_walk(map@.dom(), w@.path, HexCoord { q: 0, r: -13i32 }, HexCoord { q: -9i32, r: 13 })
                    && is_enemy_route(map@.dom(), w@.path)
            },
    {
        match WalkingPath::spawn_enemy(map, speed) {
            Ok(w) => {
                let h = self.spawn(Entity::Walker(w));
                proof {
                    assert(final(self).slots().drop_last() == old(self).slots());
                }
                Ok(h)
            },
            Err(e) => Err(e),
        }
    }

    /// Handles an enemy's arrival at the end of the route: removes it and adds a
    /// fresh one at the route's start, so that traffic keeps looping. Where the
    /// handle names no walker that has arrived (it is stale, or was handled
    /// already), nothing changes and `None` is returned.
    pub fn respawn_enemy(&mut self, arrived: EnemyArrivedAtEnd, map: &WorldMap, speed: u64)
        -> (r: Option<Result<Handle, RouteError>>)
        requires
            old(self).wf(),
            map.wf(),
        ensures
            final(self).wf(),
            r is Some <==> (arrived.0 < old(self).slots().len()
                && (old(self).slots()[arrived.0 as int] matches Some(Entity::Walker(w)) && w@.finished)),
            r is None ==> final(self).slots() == old(self).slots(),
            r is Some ==> final(self).slots()[arrived.0 as int] is None,
            r is Some ==> forall|k: int| 0 <= k < old(self).slots().len() && k != arrived.0
                ==> #[trigger] final(self).slots()[k] == old(self).slots()[k],
            r matches Some(x) ==> (x is Ok <==> legs_reachable(map@.dom(), enemy_waypoints_seq(), 3)),
            r matches Some(Err(_)) ==> final(self).slots().len() == old(self).slots().len(),
            r matches Some(Ok(h)) ==> {
                &&& h == old(self).slots().len()
                &&& final(self).slots().len() == h + 1
                &&& final(self).slots()[h as int] matches Some(Entity::Walker(w))
                    && w@ == start_state(w@.path, speed as int)
                    && is_walk(map@.dom(), w@.path, HexCoord { q: 0, r: -13i32 }, HexCoord { q: -9i32, r: 13 })
                    && is_enemy_route(map@.dom(), w@.path)
            },
    {
        let done = match self.walker(arrived.0) {
            Some(w) => w.is_finished(),
            None => false,
        };
        if !done {
            return None;
        }
        self.despawn(arrived.0);
        let ghost mid = self.slots();
        let r = self.spawn_enemy(map, speed);
        proof {
            if r is Ok {
                assert forall|k: int| 0 <= k < mid.len() implies #[trigger] self.slots()[k] == mid[k] by {
                    assert(self.slots().drop_last()[k] == self.slots()[k]);
                }
            }
        }
        Some(r)
    }
}

} // verus!
