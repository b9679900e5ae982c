//! The particle pool: a fixed number of reusable slots and the generator
//! that feeds every random choice.
//!
//! The pool owns one record per slot and knows which slots hold a living
//! particle. What a record is made of is the host's business: the pool hands
//! the host the generator outputs of a new particle and stores the record
//! that the host makes of them, and at every step it hands each living
//! record to the host and stores what comes back.

use vstd::prelude::*;
use crate::particles::laws::{apply, PoolOp};

pub mod laws;

verus! {

/// Multiplier of the linear congruential generator.
pub const LCG_MULTIPLIER: u32 = 1664525;

/// Increment of the linear congruential generator.
pub const LCG_INCREMENT: u32 = 1013904223;

/// State of the generator in a freshly built pool.
pub const INITIAL_SEED: u32 = 0x1234ABCD;

/// The generator's successor function:
/// `state * 1664525 + 1013904223` modulo 2^32.
pub open spec fn lcg_next(state: u32) -> u32 {
    ((state as int * 1664525 + 1013904223) % 0x1_0000_0000) as u32
}

/// The state after `n` steps from `seed`; for `n > 0` also the `n`-th output.
pub open spec fn lcg_nth(seed: u32, n: nat) -> u32
    decreases n,
{
    if n == 0 {
        seed
    } else {
        lcg_next(lcg_nth(seed, (n - 1) as nat))
    }
}

/// How many of the slots `0 .. upto` are inert.
pub open spec fn inert_before(alive: Seq<bool>, upto: int) -> nat
    decreases upto,
{
    if upto <= 0 {
        0
    } else if 0 <= upto - 1 < alive.len() && !alive[upto - 1] {
        inert_before(alive, upto - 1) + 1
    } else {
        inert_before(alive, upto - 1)
    }
}

/// How many slots are inert.
pub open spec fn inert_count(alive: Seq<bool>) -> nat {
    inert_before(alive, alive.len() as int)
}

/// How many slots are alive.
pub open spec fn alive_count(alive: Seq<bool>) -> nat {
    (alive.len() - inert_count(alive)) as nat
}

/// How many particles a burst of `count` creates: as many as asked for, as
/// far as inert slots remain.
pub open spec fn burst_size(alive: Seq<bool>, count: nat) -> nat {
    if count <= inert_count(alive) {
        count
    } else {
        inert_count(alive)
    }
}

/// The liveness flags after a burst of `count`. Slots are taken first-fit
/// from index 0, so an inert slot is taken exactly when fewer than
/// `burst_size` inert slots precede it.
pub open spec fn after_burst(alive: Seq<bool>, count: nat) -> Seq<bool> {
    Seq::new(alive.len(), |i: int| alive[i] || inert_before(alive, i) < burst_size(alive, count))
}

/// The slots that are inert, as flags.
pub open spec fn gone(alive: Seq<bool>) -> Seq<bool> {
    Seq::new(alive.len(), |i: int| !alive[i])
}

/// The liveness flags after a step in which the slots flagged in `expired`
/// ran out of lifetime. Slots without a flag are left as they are.
pub open spec fn after_update(alive: Seq<bool>, expired: Seq<bool>) -> Seq<bool> {
    Seq::new(alive.len(), |i: int| alive[i] && !(i < expired.len() && expired[i]))
}

/// What the pool is, mathematically: one liveness flag per slot and the
/// state of the generator.
pub struct PoolView {
    pub alive: Seq<bool>,
    pub rng: u32,
}

/// A particle that a burst has just created: the slot it occupies and the
/// four generator outputs drawn for it, in the order in which they were
/// drawn.
#[derive(Clone, Copy, Debug)]
pub struct Spawn {
    /// Index of the slot that the particle occupies.
    pub slot: usize,
    /// First draw: places the direction within the spread.
    pub direction_draw: u32,
    /// Second draw: places the speed within its range.
    pub speed_draw: u32,
    /// Third draw: places the lifetime within its range.
    pub life_draw: u32,
    /// Fourth draw: places the size within its range.
    pub size_draw: u32,
}

/// What a burst of `count` on `pre` hands out as its `j`-th particle.
pub open spec fn is_nth_spawn(pre: PoolView, j: int, s: Spawn) -> bool {
    &&& s.slot < pre.alive.len()
    &&& !pre.alive[s.slot as int]
    &&& inert_before(pre.alive, s.slot as int) == j
    &&& s.direction_draw == lcg_nth(pre.rng, (4 * j + 1) as nat)
    &&& s.speed_draw == lcg_nth(pre.rng, (4 * j + 2) as nat)
    &&& s.life_draw == lcg_nth(pre.rng, (4 * j + 3) as nat)
    &&& s.size_draw == lcg_nth(pre.rng, (4 * j + 4) as nat)
}

/// Whether a burst of `count` on slots with the liveness flags `alive`
/// takes slot `i`.
pub open spec fn taken_by_burst(alive: Seq<bool>, count: nat, i: int) -> bool {
    0 <= i < alive.len() && !alive[i] && inert_before(alive, i) < burst_size(alive, count)
}

/// The records of the living particles, in slot order: of `records`, those
/// whose slot is flagged in `alive`.
pub open spec fn living<P>(alive: Seq<bool>, records: Seq<P>) -> Seq<P>
    decreases records.len(),
{
    if records.len() == 0 {
        Seq::empty()
    } else if records.len() <= alive.len() && alive[records.len() - 1] {
        living(alive, records.drop_last()).push(records.last())
    } else {
        living(alive, records.drop_last())
    }
}

/// A fixed-capacity pool of particle slots with its own generator. Every
/// slot holds a record of type `P`; the record of an inert slot is whatever
/// was last stored there.
pub struct ParticleSystem<P> {
    records: Vec<P>,
    alive: Vec<bool>,
    rng_state: u32,
}

impl<P> View for ParticleSystem<P> {
    type V = PoolView;

    closed spec fn view(&self) -> PoolView {
        PoolView { alive: self.alive@, rng: self.rng_state }
    }
}

impl<P> ParticleSystem<P> {
    #[verifier::type_invariant]
    spec fn well_formed(&self) -> bool {
        self.records.len() == self.alive.len()
    }

    /// The record of every slot, living or not.
    pub closed spec fn records(&self) -> Seq<P> {
        self.records@
    }
}

/// Counting one more slot adds that slot if it is inert.
pub proof fn lemma_inert_before_step(alive: Seq<bool>, i: int)
    requires
        0 <= i < alive.len(),
    ensures
        inert_before(alive, i + 1) == inert_before(alive, i) + if alive[i] { 0nat } else { 1nat },
{
}

/// The count of inert slots grows with the range counted and never exceeds
/// its length.
pub proof fn lemma_inert_before_monotone(alive: Seq<bool>, a: int, b: int)
    requires
        0 <= a <= b,
    ensures
        inert_before(alive, a) <= inert_before(alive, b),
        inert_before(alive, b) - inert_before(alive, a) <= b - a,
    decreases b - a,
{
    if a < b {
        lemma_inert_before_monotone(alive, a, b - 1);
    }
}

/// Two inert slots never have the same number of inert slots before them.
pub proof fn lemma_inert_rank_increases(alive: Seq<bool>, a: int, b: int)
    requires
        0 <= a < b,
        a < alive.len(),
        !alive[a],
    ensures
        inert_before(alive, a) < inert_before(alive, b),
{
    lemma_inert_before_step(alive, a);
    lemma_inert_before_monotone(alive, a + 1, b);
}

/// Where `m` inert slots lie below `upto`, one of them has exactly `m - 1`
/// inert slots before it.
pub proof fn lemma_last_inert(alive: Seq<bool>, upto: int) -> (j: int)
    requires
        inert_before(alive, upto) > 0,
    ensures
        0 <= j < upto,
        j < alive.len(),
        !alive[j],
        inert_before(alive, j) + 1 == inert_before(alive, upto),
    decreases upto,
{
    if 0 <= upto - 1 < alive.len() && !alive[upto - 1] {
        upto - 1
    } else {
        lemma_last_inert(alive, upto - 1)
    }
}

/// The flags `cur` are the flags `pre` with the first `n` inert slots taken.
pub open spec fn taken_first(pre: Seq<bool>, cur: Seq<bool>, n: nat) -> bool {
    &&& cur.len() == pre.len()
    &&& forall|i: int|
        0 <= i < pre.len() ==> #[trigger] cur[i] == (pre[i] || inert_before(pre, i) < n)
}

/// When the first `n` inert slots are taken and none is left, `pre` had
/// at most `n` inert slots.
proof fn lemma_pool_full(pre: Seq<bool>, cur: Seq<bool>, n: nat)
    requires
        taken_first(pre, cur, n),
        forall|k: int| 0 <= k < cur.len() ==> cur[k],
    ensures
        inert_count(pre) <= n,
{
    if inert_count(pre) > n {
        let j = lemma_last_inert(pre, pre.len() as int);
        assert(cur[j]);
    }
}

/// When the first `n` inert slots are taken and `i` is the first slot still
/// inert, then `i` is the inert slot of `pre` with `n` inert slots before
/// it, and taking it gives the flags with the first `n + 1` taken.
proof fn lemma_take_slot(pre: Seq<bool>, cur: Seq<bool>, n: nat, i: int)
    requires
        taken_first(pre, cur, n),
        0 <= i < cur.len(),
        !cur[i],
        forall|k: int| 0 <= k < i ==> cur[k],
    ensures
        !pre[i],
        inert_before(pre, i) == n,
        n < inert_count(pre),
        taken_first(pre, cur.update(i, true), n + 1),
{
    if inert_before(pre, i) > n {
        let j = lemma_last_inert(pre, i);
        assert(cur[j]);
    }
    lemma_inert_rank_increases(pre, i, pre.len() as int);
    let next = cur.update(i, true);
    assert forall|k: int| 0 <= k < pre.len() implies #[trigger] next[k] == (pre[k] || inert_before(
        pre,
        k,
    ) < n + 1) by {
        if k != i {
            assert(next[k] == cur[k]);
            if !pre[k] {
                if k < i {
                    lemma_inert_rank_increases(pre, k, i);
                } else {
                    lemma_inert_rank_increases(pre, i, k);
                }
            }
        }
    }
}

/// The four outputs that follow `4 * n` steps are one step apart each.
proof fn lemma_four_draws(seed: u32, n: nat)
    ensures
        lcg_nth(seed, 4 * n + 1) == lcg_next(lcg_nth(seed, 4 * n)),
        lcg_nth(seed, 4 * n + 2) == lcg_next(lcg_nth(seed, 4 * n + 1)),
        lcg_nth(seed, 4 * n + 3) == lcg_next(lcg_nth(seed, 4 * n + 2)),
        lcg_nth(seed, 4 * n + 4) == lcg_next(lcg_nth(seed, 4 * n + 3)),
        4 * n + 4 == 4 * (n + 1),
{
}

/// What a burst of `count` does: it takes the pool from `pre` with the
/// records `before` to `post` with the records `after`, where `make` makes
/// the record of each new particle.
pub open spec fn burst_outcome<P, F: Fn(Spawn) -> P>(
    pre: PoolView,
    before: Seq<P>,
    count: nat,
    make: F,
    post: PoolView,
    after: Seq<P>,
) -> bool {
    &&& post == apply(pre, PoolOp::Burst { count })
    &&& after.len() == before.len()
    &&& forall|j: int, s: Spawn|
        0 <= j < burst_size(pre.alive, count) && #[trigger] is_nth_spawn(pre, j, s)
            ==> make.ensures((s,), after[s.slot as int])
    &&& forall|i: int|
        0 <= i < before.len() && !taken_by_burst(pre.alive, count, i) ==> #[trigger] after[i]
            == before[i]
}

/// What the end of a step does: it takes the pool from `pre` with the
/// records `before` to `post` with the records `after`, where `step` says
/// what becomes of each living particle and whether it has run out.
pub open spec fn step_outcome<P, F: Fn(P) -> (P, bool)>(
    pre: PoolView,
    before: Seq<P>,
    step: F,
    post: PoolView,
    after: Seq<P>,
) -> bool {
    &&& post.rng == pre.rng
    &&& post.alive.len() == pre.alive.len()
    &&& after.len() == before.len()
    &&& forall|i: int|
        #![trigger after[i]]
        #![trigger post.alive[i]]
        0 <= i < pre.alive.len() && pre.alive[i] ==> step.ensures(
            (before[i],),
            (after[i], !post.alive[i]),
        )
    &&& forall|i: int|
        #![trigger after[i]]
        #![trigger post.alive[i]]
        0 <= i < pre.alive.len() && !pre.alive[i] ==> (after[i] == before[i] && !post.alive[i])
}

/// What a change of the living particles does: it takes the records
/// `before` to the records `after`, where `change` says what becomes of
/// each living particle's record.
pub open spec fn change_outcome<P, F: Fn(P) -> P>(
    alive: Seq<bool>,
    before: Seq<P>,
    change: F,
    after: Seq<P>,
) -> bool {
    &&& after.len() == before.len()
    &&& forall|i: int|
        0 <= i < alive.len() && alive[i] ==> change.ensures((before[i],), #[trigger] after[i])
    &&& forall|i: int| 0 <= i < alive.len() && !alive[i] ==> #[trigger] after[i] == before[i]
}

/// A slot has one rank among the inert slots, and a rank has one particle.
pub proof fn lemma_nth_spawn_unique(pre: PoolView, j: int, a: Spawn, b: Spawn)
    requires
        is_nth_spawn(pre, j, a),
        is_nth_spawn(pre, j, b),
    ensures
        a == b,
{
    if a.slot < b.slot {
        lemma_inert_rank_increases(pre.alive, a.slot as int, b.slot as int);
    } else if b.slot < a.slot {
        lemma_inert_rank_increases(pre.alive, b.slot as int, a.slot as int);
    }
}

impl<P: Copy> ParticleSystem<P> {
    /// A pool of `capacity` slots, all inert and all holding `blank`, with
    /// the generator at its fixed seed.
    pub fn new(capacity: usize, blank: P) -> (pool: Self)
        ensures
            pool@.alive.len() == capacity,
            pool.records().len() == capacity,
            forall|i: int| 0 <= i < capacity ==> !pool@.alive[i],
            forall|i: int| 0 <= i < capacity ==> pool.records()[i] == blank,
            pool@.rng == INITIAL_SEED,
    {
        let mut records: Vec<P> = Vec::new();
        let mut alive: Vec<bool> = Vec::new();
        let mut i: usize = 0;
        while i < capacity
            invariant
                i <= capacity,
                alive@.len() == i,
                records@.len() == i,
                forall|k: int| 0 <= k < i ==> !alive@[k],
                forall|k: int| 0 <= k < i ==> records@[k] == blank,
            decreases capacity - i,
        {
            records.push(blank);
            alive.push(false);
            i += 1;
        }
        ParticleSystem { records, alive, rng_state: INITIAL_SEED }
    }

    /// The number of slots, fixed when the pool was built.
    pub fn capacity(&self) -> (n: usize)
        ensures
            n == self@.alive.len(),
            n == self.records().len(),
    {
        proof {
            use_type_invariant(self);
        }
        self.alive.len()
    }

    /// Whether slot `i` holds a living particle. A slot that the pool does
    /// not have holds none.
    pub fn is_alive(&self, i: usize) -> (b: bool)
        ensures
            b == (i < self@.alive.len() && self@.alive[i as int]),
    {
        i < self.alive.len() && self.alive[i]
    }

    /// The record of the living particle in slot `i`; `None` where the slot
    /// is inert or the pool has no such slot.
    pub fn particle(&self, i: usize) -> (found: Option<P>)
        ensures
            found == if i < self@.alive.len() && self@.alive[i as int] {
                Some(self.records()[i as int])
            } else {
                None
            },
    {
        proof {
            use_type_invariant(self);
        }
        if i < self.alive.len() && self.alive[i] {
            Some(self.records[i])
        } else {
            None
        }
    }

    /// The records of the living particles, in slot order.
    pub fn living(&self) -> (found: Vec<P>)
        ensures
            found@ == living(self@.alive, self.records()),
    {
        proof {
            use_type_invariant(self);
        }
        let len: usize = self.alive.len();
        let mut found: Vec<P> = Vec::new();
        let mut i: usize = 0;
        while i < len
            invariant
                len == self.alive@.len(),
                len == self.records@.len(),
                i <= len,
                found@ == living(self.alive@, self.records@.take(i as int)),
            decreases len - i,
        {
            proof {
                let r = self.records@.take(i + 1);
                assert(r.drop_last() =~= self.records@.take(i as int));
                assert(r.last() == self.records@[i as int]);
            }
            if self.alive[i] {
                found.push(self.records[i]);
            }
            i += 1;
        }
        proof {
            assert(self.records@.take(len as int) =~= self.records@);
        }
        found
    }

    /// The number of living particles. It never exceeds the capacity.
    pub fn alive_count(&self) -> (n: usize)
        ensures
            n == alive_count(self@.alive),
            n <= self@.alive.len(),
    {
        let len: usize = self.alive.len();
        let mut n: usize = 0;
        let mut i: usize = 0;
        while i < len
            invariant
                len == self.alive@.len(),
                i <= len,
                n + inert_before(self.alive@, i as int) == i,
            decreases len - i,
        {
            proof {
                lemma_inert_before_step(self.alive@, i as int);
            }
            if self.alive[i] {
                n += 1;
            }
            i += 1;
        }
        n
    }

    /// The first inert slot, scanning from index 0; `None` when every slot
    /// is alive.
    pub fn alloc_slot_index(&self) -> (found: Option<usize>)
        ensures
            match found {
                Some(i) => {
                    &&& i < self@.alive.len()
                    &&& !self@.alive[i as int]
                    &&& forall|k: int| 0 <= k < i ==> self@.alive[k]
                },
                None => forall|k: int| 0 <= k < self@.alive.len() ==> self@.alive[k],
            },
    {
        let len: usize = self.alive.len();
        let mut i: usize = 0;
        while i < len
            invariant
                len == self.alive@.len(),
                i <= len,
                forall|k: int| 0 <= k < i ==> self.alive@[k],
            decreases len - i,
        {
            if !self.alive[i] {
                return Some(i);
            }
            i += 1;
        }
        None
    }

    /// Steps the generator once and returns its new state.
    pub fn rand_u32(&mut self) -> (draw: u32)
        ensures
            draw == lcg_next(old(self)@.rng),
            final(self)@ == apply(old(self)@, PoolOp::Draw),
            final(self).records() == old(self).records(),
    {
        proof {
            use_type_invariant(&*self);
        }
        self.rng_state = self.rng_state.wrapping_mul(LCG_MULTIPLIER).wrapping_add(LCG_INCREMENT);
        proof {
            let s = old(self).rng_state as int;
            assert(((s * 1664525) % 0x1_0000_0000 + 1013904223) % 0x1_0000_0000 == (s * 1664525
                + 1013904223) % 0x1_0000_0000) by (nonlinear_arith);
        }
        self.rng_state
    }

    /// Creates up to `count` particles. Each takes the first inert slot,
    /// scanning from index 0, and four fresh generator outputs, of which
    /// `make` makes the particle's record. When no inert slot is left the
    /// rest of the request is dropped.
    pub fn emit_burst<F: Fn(Spawn) -> P>(&mut self, count: usize, make: F)
        requires
            forall|s: Spawn| #[trigger] make.requires((s,)),
        ensures
            burst_outcome(
                old(self)@,
                old(self).records(),
                count as nat,
                make,
                final(self)@,
                final(self).records(),
            ),
    {
        proof {
            use_type_invariant(&*self);
        }
        let ghost pre = self@;
        let ghost pre_records = self.records@;
        let ghost mut spawns: Seq<Spawn> = Seq::empty();
        let mut n: usize = 0;
        let mut full = false;
        while n < count && !full
            invariant
                pre == old(self)@,
                pre_records == old(self).records(),
                forall|s: Spawn| #[trigger] make.requires((s,)),
                n <= count,
                n <= inert_count(pre.alive),
                full ==> inert_count(pre.alive) <= n,
                spawns.len() == n,
                self@.alive.len() == pre.alive.len(),
                self.records@.len() == pre.alive.len(),
                pre_records.len() == pre.alive.len(),
                taken_first(pre.alive, self@.alive, n as nat),
                self@.rng == lcg_nth(pre.rng, (4 * n) as nat),
                forall|j: int| 0 <= j < n ==> is_nth_spawn(pre, j, #[trigger] spawns[j]),
                forall|j: int|
                    0 <= j < n ==> make.ensures(
                        (#[trigger] spawns[j],),
                        self.records@[spawns[j].slot as int],
                    ),
                forall|i: int|
                    0 <= i < pre_records.len() && !(!pre.alive[i] && inert_before(pre.alive, i)
                        < n) ==> #[trigger] self.records@[i] == pre_records[i],
            decreases count - n, if full { 0int } else { 1int },
        {
            let found = self.alloc_slot_index();
            match found {
                None => {
                    proof {
                        lemma_pool_full(pre.alive, self@.alive, n as nat);
                    }
                    full = true;
                },
                Some(i) => {
                    let ghost before = self@.alive;
                    let ghost before_records = self.records@;
                    let direction_draw = self.rand_u32();
                    let speed_draw = self.rand_u32();
                    let life_draw = self.rand_u32();
                    let size_draw = self.rand_u32();
                    let spawn = Spawn { slot: i, direction_draw, speed_draw, life_draw, size_draw };
                    let record = make(spawn);
                    self.records[i] = record;
                    self.alive[i] = true;
                    proof {
                        lemma_take_slot(pre.alive, before, n as nat, i as int);
                        assert(self@.alive =~= before.update(i as int, true));
                        lemma_four_draws(pre.rng, n as nat);
                        assert(is_nth_spawn(pre, n as int, spawn));
                        let ghost earlier = spawns;
                        spawns = spawns.push(spawn);
                        assert forall|j: int| 0 <= j < n + 1 implies make.ensures(
                            (#[trigger] spawns[j],),
                            self.records@[spawns[j].slot as int],
                        ) by {
                            if j < n {
                                assert(spawns[j] == earlier[j]);
                                assert(is_nth_spawn(pre, j, earlier[j]));
                                assert(earlier[j].slot != i);
                                assert(self.records@[earlier[j].slot as int]
                                    == before_records[earlier[j].slot as int]);
                            }
                        }
                        assert forall|j: int| 0 <= j < n + 1 implies is_nth_spawn(
                            pre,
                            j,
                            #[trigger] spawns[j],
                        ) by {
                            if j < n {
                                assert(spawns[j] == earlier[j]);
                            }
                        }
                    }
                    n += 1;
                },
            }
        }
        proof {
            assert(burst_size(pre.alive, count as nat) == n);
            assert(self@.alive =~= after_burst(pre.alive, count as nat));
            assert forall|j: int, s: Spawn|
                0 <= j < burst_size(pre.alive, count as nat) && #[trigger] is_nth_spawn(
                    pre,
                    j,
                    s,
                ) implies make.ensures((s,), self.records@[s.slot as int]) by {
                lemma_nth_spawn_unique(pre, j, s, spawns[j]);
            }
        }
    }

    /// Ends one step: `step` is handed the record of every living particle,
    /// in slot order, and answers with the record as it is after the step
    /// and with whether the particle has run out of lifetime. The new
    /// record is stored, and the particle that has run out becomes inert.
    /// Inert slots are left as they are.
    pub fn update<F: Fn(P) -> (P, bool)>(&mut self, step: F)
        requires
            forall|p: P| #[trigger] step.requires((p,)),
        ensures
            step_outcome(
                old(self)@,
                old(self).records(),
                step,
                final(self)@,
                final(self).records(),
            ),
            final(self)@ == apply(
                old(self)@,
                PoolOp::Update { expired: gone(final(self)@.alive) },
            ),
    {
        proof {
            use_type_invariant(&*self);
        }
        let len: usize = self.alive.len();
        let mut i: usize = 0;
        while i < len
            invariant
                len == self.alive@.len(),
                len == self.records@.len(),
                len == old(self).alive@.len(),
                len == old(self).records@.len(),
                i <= len,
                self.rng_state == old(self).rng_state,
                forall|p: P| #[trigger] step.requires((p,)),
                forall|k: int|
                    #![trigger self.records@[k]]
                    #![trigger self.alive@[k]]
                    0 <= k < i && old(self).alive@[k] ==> step.ensures(
                        (old(self).records@[k],),
                        (self.records@[k], !self.alive@[k]),
                    ),
                forall|k: int|
                    #![trigger self.records@[k]]
                    #![trigger self.alive@[k]]
                    0 <= k < i && !old(self).alive@[k] ==> (self.records@[k] == old(
                        self
                    ).records@[k] && !self.alive@[k]),
                forall|k: int|
                    #![trigger self.records@[k]]
                    #![trigger self.alive@[k]]
                    i <= k < len ==> (self.records@[k] == old(self).records@[k] && self.alive@[k]
                        == old(self).alive@[k]),
            decreases len - i,
        {
            if self.alive[i] {
                let (next, expired) = step(self.records[i]);
                self.records[i] = next;
                if expired {
                    self.alive[i] = false;
                }
            }
            i += 1;
        }
        proof {
            assert(self@.alive =~= after_update(old(self)@.alive, gone(self@.alive)));
        }
    }

    /// Hands the record of every living particle to `change`, in slot order,
    /// and stores what comes back. Nothing is born and nothing dies; inert
    /// slots are left as they are.
    pub fn for_each_alive<F: Fn(P) -> P>(&mut self, change: F)
        requires
            forall|p: P| #[trigger] change.requires((p,)),
        ensures
            final(self)@ == old(self)@,
            change_outcome(old(self)@.alive, old(self).records(), change, final(self).records()),
    {
        proof {
            use_type_invariant(&*self);
        }
        let len: usize = self.alive.len();
        let mut i: usize = 0;
        while i < len
            invariant
                len == self.alive@.len(),
                len == self.records@.len(),
                len == old(self).records@.len(),
                i <= len,
                self.rng_state == old(self).rng_state,
                self.alive@ == old(self).alive@,
                forall|p: P| #[trigger] change.requires((p,)),
                forall|k: int|
                    0 <= k < i && self.alive@[k] ==> change.ensures(
                        (old(self).records@[k],),
                        #[trigger] self.records@[k],
                    ),
                forall|k: int|
                    0 <= k < i && !self.alive@[k] ==> #[trigger] self.records@[k] == old(
                        self
                    ).records@[k],
                forall|k: int| i <= k < len ==> #[trigger] self.records@[k] == old(self).records@[k],
            decreases len - i,
        {
            if self.alive[i] {
                let next = change(self.records[i]);
                self.records[i] = next;
            }
            i += 1;
        }
    }
}

} // verus!
