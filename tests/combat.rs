use hexdefense::combat::{AttackTimer, Bullet, HasAttack, ATTACK_PERIOD_MS, BULLET_LIFETIME_MS, BULLET_SPEED};
use hexdefense::hex::HexCoord;

#[test]
fn building_fires_on_eighth_tick() {
    let mut b = HasAttack::place(HexCoord::new(2, 3));
    assert_eq!(b.timer.period_ms(), 800);
    for i in 1..=8 {
        let shot = b.advance_combat(100);
        if i < 8 {
            assert!(shot.is_none());
        } else {
            let s = shot.unwrap();
            assert_eq!(s.origin(), HexCoord::new(2, 3));
            assert_eq!(s.remaining_ms(), BULLET_LIFETIME_MS);
        }
    }
    assert_eq!(b.timer.elapsed_ms(), 0);
}

#[test]
fn ready_count_is_floor_of_time_over_period() {
    let mut t = AttackTimer::new(300);
    let dts = [100u64, 250, 0, 300, 40, 299, 1, 120, 300];
    let total: u64 = dts.iter().sum();
    let mut count = 0;
    for dt in dts {
        t.tick(dt);
        if t.ready() {
            count += 1;
        }
    }
    assert_eq!(count, total / 300);
    assert_eq!(t.elapsed_ms(), total % 300);
}

#[test]
fn long_tick_fires_once_and_keeps_remainder() {
    let mut t = AttackTimer::new(ATTACK_PERIOD_MS);
    t.tick(2000);
    assert_eq!(t.elapsed_ms(), 400);
    assert!(t.ready());
    assert!(!t.ready());
    t.tick(399);
    assert!(!t.ready());
    t.tick(1);
    assert!(t.ready());
    assert_eq!(t.elapsed_ms(), 0);
}

#[test]
fn huge_tick_does_not_overflow() {
    let mut t = AttackTimer::new(7);
    t.tick(3);
    t.tick(u64::MAX);
    assert!(t.ready());
    assert_eq!(t.elapsed_ms(), ((u64::MAX as u128 + 3) % 7) as u64);
}

#[test]
fn zero_period_fires_every_tick() {
    let mut t = AttackTimer::new(0);
    t.tick(0);
    assert!(t.ready());
    t.tick(5);
    assert!(t.ready());
    assert_eq!(t.elapsed_ms(), 0);
}

#[test]
fn building_fires_once_per_long_tick() {
    let mut b = HasAttack::place(HexCoord::new(0, 0));
    assert!(b.advance_combat(2000).is_some());
    assert_eq!(b.timer.elapsed_ms(), 400);
    assert!(b.advance_combat(300).is_none());
    assert!(b.advance_combat(100).is_some());
}

#[test]
fn bullet_flies_then_expires() {
    let mut b = Bullet::new(HexCoord::new(0, 0), BULLET_SPEED, BULLET_LIFETIME_MS);
    assert!(!b.tick(100));
    assert_eq!(b.travelled_units(), 100 * BULLET_SPEED);
    assert_eq!(b.remaining_ms(), 200);
    assert!(!b.tick(150));
    assert!(b.tick(100));
    assert_eq!(b.remaining_ms(), 0);
    assert_eq!(b.travelled_units(), 350 * BULLET_SPEED);
}
