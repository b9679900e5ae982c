use daniengine::particles::{ParticleSystem, Spawn, INITIAL_SEED, LCG_INCREMENT, LCG_MULTIPLIER};
use std::cell::RefCell;

const BLANK: Spawn =
    Spawn { slot: usize::MAX, direction_draw: 0, speed_draw: 0, life_draw: 0, size_draw: 0 };

/// A pool whose records are the spawns themselves.
fn pool(capacity: usize) -> ParticleSystem<Spawn> {
    ParticleSystem::new(capacity, BLANK)
}

fn keep(spawn: Spawn) -> Spawn {
    spawn
}

fn step(state: u32) -> u32 {
    state.wrapping_mul(LCG_MULTIPLIER).wrapping_add(LCG_INCREMENT)
}

/// The slots that hold a living particle.
fn alive_slots(pool: &ParticleSystem<Spawn>) -> Vec<usize> {
    (0..pool.capacity()).filter(|&i| pool.is_alive(i)).collect()
}

/// Ends a step in which the particles in the slots `dying` run out.
fn expire(pool: &mut ParticleSystem<Spawn>, dying: &[usize]) {
    pool.update(|s| (s, dying.contains(&s.slot)));
}

fn draws(s: &Spawn) -> [u32; 4] {
    [s.direction_draw, s.speed_draw, s.life_draw, s.size_draw]
}

#[test]
fn new_pool_is_inert() {
    let pool = pool(8);
    assert_eq!(pool.capacity(), 8);
    assert_eq!(pool.alive_count(), 0);
    for i in 0..8 {
        assert!(!pool.is_alive(i));
        assert!(pool.particle(i).is_none());
    }
    assert!(!pool.is_alive(8));
    assert!(pool.particle(8).is_none());
    assert!(pool.living().is_empty());
    assert_eq!(pool.alloc_slot_index(), Some(0));
}

#[test]
fn empty_pool_has_no_slot() {
    let mut pool = pool(0);
    assert_eq!(pool.capacity(), 0);
    assert_eq!(pool.alloc_slot_index(), None);
    pool.emit_burst(3, keep);
    assert_eq!(pool.alive_count(), 0);
    assert!(pool.living().is_empty());
    assert_eq!(pool.rand_u32(), 0xec945ac8);
}

#[test]
fn generator_starts_from_fixed_seed() {
    assert_eq!(INITIAL_SEED, 0x1234ABCD);
    let mut pool = pool(1);
    assert_eq!(pool.rand_u32(), 0xec945ac8);
    assert_eq!(pool.rand_u32(), 0x39ab3f87);
    assert_eq!(pool.rand_u32(), 0x999ff73a);
    assert_eq!(pool.rand_u32(), 0xeab99d51);
}

#[test]
fn generator_follows_recurrence() {
    let mut pool = pool(0);
    let mut state = INITIAL_SEED;
    for _ in 0..1000 {
        state = step(state);
        assert_eq!(pool.rand_u32(), state);
    }
}

#[test]
fn burst_draws_in_order() {
    let mut pool = pool(10);
    pool.emit_burst(3, keep);
    assert_eq!(alive_slots(&pool), vec![0, 1, 2]);
    let made = pool.living();
    assert_eq!(made.len(), 3);
    assert_eq!(made[0].slot, 0);
    assert_eq!(draws(&made[0]), [0xec945ac8, 0x39ab3f87, 0x999ff73a, 0xeab99d51]);
    assert_eq!(made[1].slot, 1);
    assert_eq!(draws(&made[1]), [0x7973367c, 0xa11a1fab, 0xeb13b10e, 0x4f588515]);
    assert_eq!(made[2].slot, 2);
    assert_eq!(draws(&made[2]), [0x88011370, 0x782b900f, 0xc3823e22, 0x201fa719]);
    assert_eq!(pool.rand_u32(), step(0x201fa719));
}

#[test]
fn burst_stores_what_the_host_makes() {
    let mut pool: ParticleSystem<(usize, u64)> = ParticleSystem::new(4, (7, 7));
    pool.emit_burst(2, |s| (s.slot, s.direction_draw as u64 + s.size_draw as u64));
    assert_eq!(pool.particle(0), Some((0, 0xec945ac8 + 0xeab99d51)));
    assert_eq!(pool.particle(1), Some((1, 0x7973367c + 0x4f588515)));
    assert_eq!(pool.particle(2), None);
    assert_eq!(pool.living(), vec![(0, 0xec945ac8 + 0xeab99d51), (1, 0x7973367c + 0x4f588515)]);
}

#[test]
fn host_is_asked_once_for_each_new_particle() {
    let asked = RefCell::new(Vec::new());
    let mut pool = pool(3);
    pool.emit_burst(5, |s| {
        asked.borrow_mut().push(s.slot);
        s
    });
    assert_eq!(*asked.borrow(), vec![0, 1, 2]);
}

#[test]
fn zero_count_burst_is_a_no_op() {
    let mut pool = pool(4);
    pool.emit_burst(0, keep);
    assert_eq!(pool.alive_count(), 0);
    assert_eq!(pool.rand_u32(), 0xec945ac8);
}

#[test]
fn pool_exhaustion() {
    let mut pool = pool(4);
    pool.emit_burst(4, keep);
    assert_eq!(alive_slots(&pool), vec![0, 1, 2, 3]);
    assert_eq!(pool.alive_count(), 4);
    assert_eq!(pool.alloc_slot_index(), None);
    let before = pool.living();

    pool.emit_burst(1, keep);
    assert_eq!(pool.alive_count(), 4);
    let after = pool.living();
    for (a, b) in before.iter().zip(after.iter()) {
        assert_eq!(a.slot, b.slot);
        assert_eq!(draws(a), draws(b));
    }

    expire(&mut pool, &[2]);
    assert_eq!(pool.alive_count(), 3);
    assert!(!pool.is_alive(2));
    assert_eq!(pool.alloc_slot_index(), Some(2));
    pool.emit_burst(1, keep);
    assert_eq!(pool.alive_count(), 4);
    let reborn = pool.particle(2).unwrap();
    let mut state = before[3].size_draw;
    for draw in draws(&reborn) {
        state = step(state);
        assert_eq!(draw, state);
    }
}

#[test]
fn dropped_burst_draws_nothing() {
    let mut a = pool(2);
    let mut b = pool(2);
    a.emit_burst(2, keep);
    b.emit_burst(2, keep);
    a.emit_burst(5, keep);
    assert_eq!(a.rand_u32(), b.rand_u32());
}

#[test]
fn burst_is_truncated_to_free_slots() {
    let mut pool = pool(5);
    pool.emit_burst(5, keep);
    let first = pool.living();
    expire(&mut pool, &[1, 3]);
    pool.emit_burst(64, keep);
    assert_eq!(pool.alive_count(), 5);
    let second = pool.living();
    for i in [0, 2, 4] {
        assert_eq!(draws(&first[i]), draws(&second[i]));
    }
    for i in [1, 3] {
        assert_ne!(draws(&first[i]), draws(&second[i]));
        assert_eq!(second[i].slot, i);
    }
    let mut state = first[4].size_draw;
    for i in [1, 3] {
        for draw in draws(&second[i]) {
            state = step(state);
            assert_eq!(draw, state);
        }
    }
}

#[test]
fn first_fit_reuses_lowest_slots() {
    let mut pool = pool(6);
    pool.emit_burst(4, keep);
    expire(&mut pool, &[0, 2]);
    assert_eq!(alive_slots(&pool), vec![1, 3]);
    pool.emit_burst(3, keep);
    assert_eq!(alive_slots(&pool), vec![0, 1, 2, 3, 4]);
    assert!(!pool.is_alive(5));
}

#[test]
fn update_never_revives() {
    let mut pool = pool(4);
    pool.emit_burst(2, keep);
    expire(&mut pool, &[1, 3]);
    assert_eq!(alive_slots(&pool), vec![0]);
    expire(&mut pool, &[]);
    assert_eq!(alive_slots(&pool), vec![0]);
}

#[test]
fn update_steps_each_living_particle_once_in_slot_order() {
    let mut pool = pool(5);
    pool.emit_burst(5, keep);
    expire(&mut pool, &[1, 4]);
    let seen = RefCell::new(Vec::new());
    pool.update(|mut s| {
        seen.borrow_mut().push(s.slot);
        s.life_draw = 42;
        (s, false)
    });
    assert_eq!(*seen.borrow(), vec![0, 2, 3]);
    for s in pool.living() {
        assert_eq!(s.life_draw, 42);
    }
    assert_eq!(alive_slots(&pool), vec![0, 2, 3]);
}

#[test]
fn update_stores_the_record_of_a_dying_particle() {
    let mut pool: ParticleSystem<u32> = ParticleSystem::new(2, 0);
    pool.emit_burst(2, |s| s.slot as u32 + 10);
    pool.update(|p| (p + 1, p == 10));
    assert_eq!(pool.particle(0), None);
    assert_eq!(pool.particle(1), Some(12));
    pool.emit_burst(1, |_| 50);
    assert_eq!(pool.living(), vec![50, 12]);
}

#[test]
fn update_leaves_generator_alone() {
    let mut pool = pool(2);
    pool.emit_burst(1, keep);
    expire(&mut pool, &[0, 1]);
    assert_eq!(pool.rand_u32(), 0x7973367c);
}

#[test]
fn for_each_alive_changes_the_living_only() {
    let mut pool: ParticleSystem<u32> = ParticleSystem::new(4, 1);
    pool.emit_burst(3, |s| s.slot as u32 * 100);
    pool.update(|p| (p, p == 100));
    let seen = RefCell::new(Vec::new());
    pool.for_each_alive(|p| {
        seen.borrow_mut().push(p);
        p + 5
    });
    assert_eq!(*seen.borrow(), vec![0, 200]);
    assert_eq!(pool.living(), vec![5, 205]);
    assert_eq!(pool.alive_count(), 2);
    assert_eq!(pool.particle(1), None);
    assert_eq!(pool.rand_u32(), step(0x201fa719));
}

#[test]
fn capacity_is_never_exceeded() {
    let mut pool = pool(16);
    for round in 0..200usize {
        pool.emit_burst(round % 7, keep);
        assert!(pool.alive_count() <= 16);
        assert_eq!(pool.capacity(), 16);
        pool.update(|s| (s, (s.slot + round) % 3 == 0));
        assert!(pool.alive_count() <= 16);
        assert_eq!(pool.capacity(), 16);
        assert_eq!(pool.living().len(), pool.alive_count());
    }
}

#[test]
fn equal_runs_give_equal_pools() {
    let mut a = pool(32);
    let mut b = pool(32);
    for round in 0..50usize {
        a.emit_burst(round % 5 + 1, keep);
        b.emit_burst(round % 5 + 1, keep);
        a.update(|s| (s, (s.slot * 7 + round) % 4 == 0));
        b.update(|s| (s, (s.slot * 7 + round) % 4 == 0));
        for i in 0..32 {
            assert_eq!(a.is_alive(i), b.is_alive(i));
            assert_eq!(a.particle(i).map(|s| draws(&s)), b.particle(i).map(|s| draws(&s)));
        }
    }
    assert_eq!(a.rand_u32(), b.rand_u32());
}

// ---------------------------------------------------------------------
// The pool under a host that keeps real-valued records.

#[derive(Clone, Copy, Debug, PartialEq)]
struct Particle {
    pos: [f32; 2],
    vel: [f32; 2],
    life: f32,
    life_total: f32,
    size: f32,
}

const AT_REST: Particle =
    Particle { pos: [0.0, 0.0], vel: [0.0, 0.0], life: 0.0, life_total: 0.0, size: 0.0 };

/// The number in [0, 1] that a generator output stands for.
fn unit(draw: u32) -> f32 {
    (draw as f32) / (u32::MAX as f32 + 1.0)
}

/// The number between `a` and `b` that a generator output stands for.
fn between(a: f32, b: f32, draw: u32) -> f32 {
    a + (b - a) * unit(draw)
}

/// A host's burst: upward within a quarter turn to either side.
fn spark(origin: [f32; 2], life_min: f32, life_max: f32) -> impl Fn(Spawn) -> Particle {
    let half_pi = std::f32::consts::FRAC_PI_2;
    move |s| {
        let dir = -half_pi + between(-half_pi, half_pi, s.direction_draw);
        let speed = between(80.0, 220.0, s.speed_draw);
        let life = between(life_min, life_max, s.life_draw);
        let size = between(2.0, 4.0, s.size_draw);
        Particle {
            pos: origin,
            vel: [dir.cos() * speed, dir.sin() * speed],
            life,
            life_total: life,
            size,
        }
    }
}

/// A host's step under the gravity `g`.
fn fall(g: [f32; 2], dt: f32) -> impl Fn(Particle) -> (Particle, bool) {
    move |mut p| {
        p.vel[0] += g[0] * dt;
        p.vel[1] += g[1] * dt;
        p.pos[0] += p.vel[0] * dt;
        p.pos[1] += p.vel[1] * dt;
        p.life -= dt;
        (p, p.life <= 0.0)
    }
}

#[test]
fn draws_spread_over_the_unit_interval() {
    let mut pool = pool(0);
    let mut low = 0;
    for _ in 0..4096 {
        let u = unit(pool.rand_u32());
        assert!((0.0..=1.0).contains(&u));
        if u < 0.5 {
            low += 1;
        }
    }
    assert!(1800 < low && low < 2300, "{low} of 4096 draws below one half");
}

#[test]
fn end_to_end_burst_of_64() {
    let mut pool = ParticleSystem::new(10_000, AT_REST);
    pool.emit_burst(64, spark([160.0, 90.0], 0.6, 1.2));
    assert_eq!(pool.alive_count(), 64);
    let made = pool.living();
    assert_eq!(made.len(), 64);
    for (i, p) in made.iter().enumerate() {
        assert!(pool.is_alive(i));
        assert_eq!(pool.particle(i), Some(*p));
        assert_eq!(p.pos, [160.0, 90.0]);
        assert!(p.vel[1] <= 0.0, "slot {i} flies downward");
        let speed = (p.vel[0] * p.vel[0] + p.vel[1] * p.vel[1]).sqrt();
        assert!((79.9..=220.1).contains(&speed));
        assert!((0.6..=1.2).contains(&p.life));
        assert_eq!(p.life, p.life_total);
        assert!((2.0..=4.0).contains(&p.size));
    }
    assert!(!pool.is_alive(64));
    assert_eq!(pool.alloc_slot_index(), Some(64));
}

#[test]
fn lifetime_runs_down_step_by_step() {
    let mut pool = ParticleSystem::new(8, AT_REST);
    pool.emit_burst(8, spark([0.0, 0.0], 0.6, 1.2));
    let dt = 0.05;
    let mut steps = 0;
    while pool.alive_count() > 0 {
        let before: Vec<Option<Particle>> = (0..8).map(|i| pool.particle(i)).collect();
        pool.update(fall([0.0, 500.0], dt));
        for i in 0..8 {
            match (before[i], pool.particle(i)) {
                (Some(old), Some(new)) => {
                    assert_eq!(new.life, old.life - dt);
                    assert!(new.life > 0.0);
                    assert_eq!(new.life_total, old.life_total);
                }
                (Some(old), None) => assert!(old.life - dt <= 0.0),
                (None, found) => assert!(found.is_none()),
            }
        }
        steps += 1;
        assert!(steps <= 25);
    }
    assert!(steps >= 12);
}

#[test]
fn expired_particles_free_their_slots() {
    let mut pool = ParticleSystem::new(4, AT_REST);
    pool.emit_burst(4, spark([0.0, 0.0], 0.5, 0.5));
    assert_eq!(pool.alive_count(), 4);
    pool.emit_burst(1, spark([9.0, 9.0], 0.5, 0.5));
    assert_eq!(pool.alive_count(), 4);
    for p in pool.living() {
        assert_eq!(p.pos, [0.0, 0.0]);
        assert_eq!(p.life, 0.5);
    }

    let mut steps = 0;
    while pool.alive_count() == 4 {
        pool.update(fall([0.0, 300.0], 0.1));
        steps += 1;
        assert!(steps <= 6);
    }
    assert!(steps >= 5);
    assert_eq!(pool.alive_count(), 0);
    pool.emit_burst(1, spark([9.0, 9.0], 0.5, 0.5));
    assert_eq!(pool.alive_count(), 1);
    assert_eq!(pool.particle(0).unwrap().pos, [9.0, 9.0]);
}

#[test]
fn equal_runs_give_equal_fields() {
    let run = || {
        let mut pool = ParticleSystem::new(64, AT_REST);
        for round in 0..40 {
            pool.emit_burst(round % 9, spark([round as f32, 1.0], 0.2, 0.7));
            pool.update(fall([0.0, 500.0], 1.0 / 60.0));
        }
        (0..64).map(|i| pool.particle(i)).collect::<Vec<_>>()
    };
    let a = run();
    let b = run();
    assert_eq!(a.len(), b.len());
    for (x, y) in a.iter().zip(b.iter()) {
        match (x, y) {
            (Some(p), Some(q)) => {
                assert_eq!(p.pos.map(f32::to_bits), q.pos.map(f32::to_bits));
                assert_eq!(p.vel.map(f32::to_bits), q.vel.map(f32::to_bits));
                assert_eq!(p.life.to_bits(), q.life.to_bits());
            }
            (None, None) => {}
            _ => panic!("one run has a particle where the other has none"),
        }
    }
}
