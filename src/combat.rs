//! Buildings that fire on a fixed period, and the projectiles they fire.

use vstd::prelude::*;
use vstd::arithmetic::div_mod::{lemma_fundamental_div_mod, lemma_fundamental_div_mod_converse, lemma_mod_bound};
use crate::hex::HexCoord;

verus! {

/// The period, in milliseconds, at which a placed building fires.
pub const ATTACK_PERIOD_MS: u64 = 800;

/// How far a projectile travels per millisecond, in world units.
pub const BULLET_SPEED: u64 = 2;

/// How long a projectile lives, in milliseconds.
pub const BULLET_LIFETIME_MS: u64 = 300;

/// A repeating timer: time accumulates, and whenever it reaches the period the
/// timer becomes ready and its accumulator starts over with what ran past the
/// period. A tick that spans several periods makes it ready once.
pub struct AttackTimer {
    period: u64,
    elapsed: u64,
    pending: bool,
}

/// `a + b`, held at `u64::MAX`.
pub open spec fn saturating_sum(a: int, b: int) -> int {
    if a + b > u64::MAX { u64::MAX as int } else { a + b }
}

/// A tick of `dt` on a timer: the accumulated time after it, and whether the
/// period was reached. A timer of period zero is ready on every tick.
pub open spec fn timer_step(period: int, elapsed: int, dt: int) -> (int, bool) {
    if period == 0 {
        (0, true)
    } else if elapsed + dt >= period {
        ((elapsed + dt) % period, true)
    } else {
        (elapsed + dt, false)
    }
}

/// Ticks of the given lengths, each followed by one poll of the timer, as
/// `HasAttack::advance_combat` does: the accumulated time after them all and how
/// many polls found the timer ready.
pub open spec fn timer_run(period: int, elapsed: int, dts: Seq<int>) -> (int, int)
    decreases dts.len(),
{
    if dts.len() == 0 {
        (elapsed, 0)
    } else {
        let (e, fired) = timer_step(period, elapsed, dts[0]);
        let (last, count) = timer_run(period, e, dts.subrange(1, dts.len() as int));
        (last, count + if fired { 1int } else { 0int })
    }
}

pub open spec fn total(dts: Seq<int>) -> int
    decreases dts.len(),
{
    if dts.len() == 0 { 0 } else { dts[0] + total(dts.subrange(1, dts.len() as int)) }
}

proof fn lemma_step_within_period(period: int, elapsed: int, dt: int)
    requires
        period > 0,
        0 <= elapsed < period,
        0 <= dt <= period,
    ensures
        timer_step(period, elapsed, dt).1 ==> timer_step(period, elapsed, dt).0 == elapsed + dt - period,
        0 <= timer_step(period, elapsed, dt).0 < period,
{
    if elapsed + dt >= period {
        lemma_fundamental_div_mod_converse(elapsed + dt, period, 1, elapsed + dt - period);
    }
}

proof fn lemma_timer_run_sum(period: int, elapsed: int, dts: Seq<int>)
    requires
        period > 0,
        0 <= elapsed < period,
        forall|k: int| 0 <= k < dts.len() ==> 0 <= #[trigger] dts[k] <= period,
    ensures
        timer_run(period, elapsed, dts).1 * period + timer_run(period, elapsed, dts).0 == elapsed + total(dts),
        0 <= timer_run(period, elapsed, dts).0 < period,
        timer_run(period, elapsed, dts).1 >= 0,
    decreases dts.len(),
{
    if dts.len() > 0 {
        let rest = dts.subrange(1, dts.len() as int);
        assert forall|k: int| 0 <= k < rest.len() implies 0 <= #[trigger] rest[k] <= period by {
            assert(rest[k] == dts[k + 1]);
        }
        let (e, fired) = timer_step(period, elapsed, dts[0]);
        lemma_step_within_period(period, elapsed, dts[0]);
        lemma_timer_run_sum(period, e, rest);
        let (last, c) = timer_run(period, e, rest);
        let f: int = if fired { 1 } else { 0 };
        assert((c + f) * period == c * period + f * period) by (nonlinear_arith);
    }
}

/// Over ticks of total length `T`, none longer than the period `P`, a fresh timer
/// polled once after each tick is ready exactly `floor(T / P)` times, and what is
/// left over is `T mod P`.
pub proof fn lemma_ready_count(period: int, dts: Seq<int>)
    requires
        period > 0,
        forall|k: int| 0 <= k < dts.len() ==> 0 <= #[trigger] dts[k] <= period,
    ensures
        timer_run(period, 0, dts).1 == total(dts) / period,
        timer_run(period, 0, dts).0 == total(dts) % period,
{
    lemma_timer_run_sum(period, 0, dts);
    let (e, c) = timer_run(period, 0, dts);
    lemma_fundamental_div_mod_converse(total(dts), period, c, e);
}

impl AttackTimer {
    pub closed spec fn period(&self) -> int {
        self.period as int
    }

    pub closed spec fn elapsed(&self) -> int {
        self.elapsed as int
    }

    /// The period was reached and no poll has taken it yet.
    pub closed spec fn pending(&self) -> bool {
        self.pending
    }

    /// The accumulated time stays below the period.
    pub open spec fn wf(&self) -> bool {
        &&& self.period() > 0 ==> self.elapsed() < self.period()
        &&& self.period() == 0 ==> self.elapsed() == 0
    }

    /// A timer with nothing accumulated yet.
    pub fn new(period_ms: u64) -> (t: AttackTimer)
        ensures
            t.wf(),
            t.period() == period_ms,
            t.elapsed() == 0,
            !t.pending(),
    {
        AttackTimer { period: period_ms, elapsed: 0, pending: false }
    }

    /// Adds `dt` milliseconds; where the period is reached the timer becomes ready
    /// and keeps only the time past the last full period.
    pub fn tick(&mut self, dt: u64)
        requires
            old(self).wf(),
        ensures
            final(self).wf(),
            final(self).period() == old(self).period(),
            final(self).elapsed() == timer_step(old(self).period(), old(self).elapsed(), dt as int).0,
            final(self).pending() == (old(self).pending() || timer_step(old(self).period(), old(self).elapsed(), dt as int).1),
    {
        if self.period == 0 {
            self.elapsed = 0;
            self.pending = true;
            return;
        }
        let room = self.period - self.elapsed;
        if dt >= room {
            let over = dt - room;
            let e = over % self.period;
            proof {
                let p = self.period as int;
                let x = over as int;
                lemma_fundamental_div_mod(x, p);
                lemma_mod_bound(x, p);
                assert(x == p * (x / p) + x % p);
                assert(x / p >= 0) by (nonlinear_arith)
                    requires
                        x == p * (x / p) + x % p,
                        0 <= x % p < p,
                        x >= 0;
                assert(self.elapsed as int + dt as int == (x / p + 1) * p + x % p) by (nonlinear_arith)
                    requires
                        x == p * (x / p) + x % p,
                        x == self.elapsed as int + dt as int - p;
                lemma_fundamental_div_mod_converse(self.elapsed as int + dt as int, p, x / p + 1, x % p);
            }
            self.elapsed = e;
            self.pending = true;
        } else {
            self.elapsed = self.elapsed + dt;
        }
    }

    /// Whether the timer has reached its period since the last poll; the poll takes
    /// it, so the next one says no until the period is reached again.
    pub fn ready(&mut self) -> (r: bool)
        ensures
            r == old(self).pending(),
            !final(self).pending(),
            final(self).period() == old(self).period(),
            final(self).elapsed() == old(self).elapsed(),
    {
        let r = self.pending;
        self.pending = false;
        r
    }

    /// The period in milliseconds.
    pub fn period_ms(&self) -> (p: u64)
        ensures
            p == self.period(),
    {
        self.period
    }

    /// The time accumulated since the period was last reached, in milliseconds.
    pub fn elapsed_ms(&self) -> (e: u64)
        ensures
            e == self.elapsed(),
    {
        self.elapsed
    }
}

/// A building's attack: a timer, and the cell from which it fires.
pub struct HasAttack {
    pub timer: AttackTimer,
    pub origin: HexCoord,
}

/// A projectile: it flies straight along its building's facing at a fixed speed
/// until its lifetime runs out.
pub struct Bullet {
    origin: HexCoord,
    speed: u64,
    remaining_ms: u64,
    travelled: u64,
}

impl Bullet {
    pub closed spec fn origin_cell(&self) -> HexCoord {
        self.origin
    }

    pub closed spec fn speed(&self) -> int {
        self.speed as int
    }

    pub closed spec fn remaining(&self) -> int {
        self.remaining_ms as int
    }

    pub closed spec fn travelled(&self) -> int {
        self.travelled as int
    }

    /// A projectile leaving `origin` with the given speed and lifetime.
    pub fn new(origin: HexCoord, speed: u64, lifetime_ms: u64) -> (b: Bullet)
        ensures
            b.origin_cell() == origin,
            b.speed() == speed,
            b.remaining() == lifetime_ms,
            b.travelled() == 0,
    {
        Bullet { origin, speed, remaining_ms: lifetime_ms, travelled: 0 }
    }

    /// Advances the projectile by `dt` milliseconds; true when its lifetime has run
    /// out, at which point it is to be removed and its effect applied.
    pub fn tick(&mut self, dt: u64) -> (expired: bool)
        ensures
            final(self).origin_cell() == old(self).origin_cell(),
            final(self).speed() == old(self).speed(),
            final(self).travelled() == saturating_sum(old(self).travelled(), old(self).speed() * dt),
            final(self).remaining() == if old(self).remaining() >= dt { old(self).remaining() - dt } else { 0 },
            expired == (final(self).remaining() == 0),
    {
        let step: u64 = match self.speed.checked_mul(dt) {
            Some(s) => s,
            None => u64::MAX,
        };
        proof {
            assert(self.speed as int * dt as int >= 0) by (nonlinear_arith);
        }
        self.travelled = match self.travelled.checked_add(step) {
            Some(t) => t,
            None => u64::MAX,
        };
        self.remaining_ms = if self.remaining_ms >= dt { self.remaining_ms - dt } else { 0 };
        self.remaining_ms == 0
    }

    /// The cell of the building that fired the projectile.
    pub fn origin(&self) -> (c: HexCoord)
        ensures
            c == self.origin_cell(),
    {
        self.origin
    }

    /// The distance flown so far, in world units.
    pub fn travelled_units(&self) -> (t: u64)
        ensures
            t == self.travelled(),
    {
        self.travelled
    }

    /// The lifetime left, in milliseconds.
    pub fn remaining_ms(&self) -> (r: u64)
        ensures
            r == self.remaining(),
    {
        self.remaining_ms
    }
}

impl HasAttack {
    /// A building placed on `origin`, firing every `ATTACK_PERIOD_MS`.
    pub fn place(origin: HexCoord) -> (b: HasAttack)
        ensures
            b.origin == origin,
            b.timer.wf(),
            b.timer.period() == ATTACK_PERIOD_MS,
            b.timer.elapsed() == 0,
            !b.timer.pending(),
    {
        HasAttack { timer: AttackTimer::new(ATTACK_PERIOD_MS), origin }
    }

    /// Advances the building by `dt` milliseconds and fires one projectile from its
    /// cell when its timer is ready.
    pub fn advance_combat(&mut self, dt: u64) -> (shot: Option<Bullet>)
        requires
            old(self).timer.wf(),
        ensures
            final(self).origin == old(self).origin,
            final(self).timer.wf(),
            !final(self).timer.pending(),
            final(self).timer.period() == old(self).timer.period(),
            final(self).timer.elapsed() == timer_step(old(self).timer.period(), old(self).timer.elapsed(), dt as int).0,
            shot is Some == (old(self).timer.pending() || timer_step(old(self).timer.period(), old(self).timer.elapsed(), dt as int).1),
            shot matches Some(b) ==> b.origin_cell() == old(self).origin && b.speed() == BULLET_SPEED
                && b.remaining() == BULLET_LIFETIME_MS && b.travelled() == 0,
    {
        self.timer.tick(dt);
        if self.timer.ready() {
            Some(Bullet::new(self.origin, BULLET_SPEED, BULLET_LIFETIME_MS))
        } else {
            None
        }
    }
}

} // verus!
