//! What holds of the pool over whole runs: the capacity is never exceeded,
//! equal runs give equal pools, and only a burst brings a slot to life.

use vstd::prelude::*;
use crate::particles::{
    after_burst, after_update, alive_count, burst_outcome, burst_size, inert_before, inert_count,
    is_nth_spawn, lcg_next, lcg_nth, lemma_inert_before_monotone, lemma_inert_rank_increases,
    lemma_last_inert, step_outcome, taken_by_burst, PoolView, Spawn,
};

verus! {

/// One call on the pool, as the pool sees it.
pub enum PoolOp {
    /// A burst that asks for `count` particles.
    Burst { count: nat },
    /// The end of a step in which the flagged slots ran out of lifetime.
    Update { expired: Seq<bool> },
    /// One draw from the generator.
    Draw,
}

/// The pool after one call.
pub open spec fn apply(pre: PoolView, op: PoolOp) -> PoolView {
    match op {
        PoolOp::Burst { count } => PoolView {
            alive: after_burst(pre.alive, count),
            rng: lcg_nth(pre.rng, 4 * burst_size(pre.alive, count)),
        },
        PoolOp::Update { expired } => PoolView {
            alive: after_update(pre.alive, expired),
            rng: pre.rng,
        },
        PoolOp::Draw => PoolView { alive: pre.alive, rng: lcg_next(pre.rng) },
    }
}

/// The pool after a sequence of calls, in order.
pub open spec fn run(pre: PoolView, ops: Seq<PoolOp>) -> PoolView
    decreases ops.len(),
{
    if ops.len() == 0 {
        pre
    } else {
        apply(run(pre, ops.drop_last()), ops.last())
    }
}

/// After a burst, the inert slots below any index are those that were inert
/// before, less the ones that the burst took.
proof fn lemma_inert_before_after_burst(alive: Seq<bool>, count: nat, upto: int)
    requires
        0 <= upto <= alive.len(),
    ensures
        inert_before(after_burst(alive, count), upto) == if inert_before(alive, upto) <= burst_size(
            alive,
            count,
        ) {
            0
        } else {
            inert_before(alive, upto) - burst_size(alive, count)
        },
    decreases upto,
{
    if upto > 0 {
        lemma_inert_before_after_burst(alive, count, upto - 1);
    }
}

/// After a step, no fewer slots are inert below any index than before.
proof fn lemma_inert_before_after_update(alive: Seq<bool>, expired: Seq<bool>, upto: int)
    requires
        0 <= upto <= alive.len(),
    ensures
        inert_before(after_update(alive, expired), upto) >= inert_before(alive, upto),
    decreases upto,
{
    if upto > 0 {
        lemma_inert_before_after_update(alive, expired, upto - 1);
    }
}

/// The living particles never outnumber the slots.
pub proof fn lemma_alive_within_capacity(alive: Seq<bool>)
    ensures
        alive_count(alive) + inert_count(alive) == alive.len(),
        alive_count(alive) <= alive.len(),
{
    lemma_inert_before_monotone(alive, 0, alive.len() as int);
}

/// A burst keeps the number of slots and adds exactly the particles it
/// creates: as many as asked for, or as many as there were inert slots.
pub proof fn lemma_burst_alive_count(alive: Seq<bool>, count: nat)
    ensures
        after_burst(alive, count).len() == alive.len(),
        alive_count(after_burst(alive, count)) == alive_count(alive) + burst_size(alive, count),
        alive_count(after_burst(alive, count)) <= alive.len(),
{
    lemma_alive_within_capacity(alive);
    lemma_alive_within_capacity(after_burst(alive, count));
    lemma_inert_before_after_burst(alive, count, alive.len() as int);
}

/// A step keeps the number of slots and never adds a living particle.
pub proof fn lemma_update_alive_count(alive: Seq<bool>, expired: Seq<bool>)
    ensures
        after_update(alive, expired).len() == alive.len(),
        alive_count(after_update(alive, expired)) <= alive_count(alive),
{
    lemma_alive_within_capacity(alive);
    lemma_alive_within_capacity(after_update(alive, expired));
    lemma_inert_before_after_update(alive, expired, alive.len() as int);
}

/// Capacity invariant: whatever sequence of bursts, steps and draws is run, the
/// pool keeps the capacity it was built with, and the living particles never
/// outnumber it.
pub proof fn lemma_capacity_invariant(pre: PoolView, ops: Seq<PoolOp>)
    ensures
        run(pre, ops).alive.len() == pre.alive.len(),
        alive_count(run(pre, ops).alive) <= pre.alive.len(),
    decreases ops.len(),
{
    if ops.len() > 0 {
        lemma_capacity_invariant(pre, ops.drop_last());
    }
    lemma_alive_within_capacity(run(pre, ops).alive);
}

/// Every particle that a burst creates has its slot and its draws: for
/// each rank below the burst's size there is the particle of that rank.
pub proof fn lemma_nth_spawn_exists(pre: PoolView, count: nat, j: int) -> (s: Spawn)
    requires
        0 <= j < burst_size(pre.alive, count),
        pre.alive.len() <= usize::MAX,
    ensures
        is_nth_spawn(pre, j, s),
        taken_by_burst(pre.alive, count, s.slot as int),
{
    let slot = lemma_inert_slot_of_rank(pre.alive, pre.alive.len() as int, j);
    Spawn {
        slot: slot as usize,
        direction_draw: lcg_nth(pre.rng, (4 * j + 1) as nat),
        speed_draw: lcg_nth(pre.rng, (4 * j + 2) as nat),
        life_draw: lcg_nth(pre.rng, (4 * j + 3) as nat),
        size_draw: lcg_nth(pre.rng, (4 * j + 4) as nat),
    }
}

/// Where more than `rank` inert slots lie below `upto`, one of them has
/// exactly `rank` inert slots before it.
proof fn lemma_inert_slot_of_rank(alive: Seq<bool>, upto: int, rank: int) -> (i: int)
    requires
        0 <= rank < inert_before(alive, upto),
    ensures
        0 <= i < upto,
        i < alive.len(),
        !alive[i],
        inert_before(alive, i) == rank,
    decreases upto,
{
    let last = lemma_last_inert(alive, upto);
    if inert_before(alive, last) == rank {
        last
    } else {
        lemma_inert_slot_of_rank(alive, last, rank)
    }
}

/// Whether a function of the host gives one answer to each question.
pub open spec fn is_function<A, R, F: Fn(A) -> R>(f: F) -> bool {
    forall|a: A, r1: R, r2: R| f.ensures((a,), r1) && f.ensures((a,), r2) ==> r1 == r2
}

/// Determinism of a burst: where the host makes one record of each set of
/// draws, one pool and one request give one pool and one set of records.
pub proof fn lemma_burst_deterministic<P, F: Fn(Spawn) -> P>(
    pre: PoolView,
    before: Seq<P>,
    count: nat,
    make: F,
    post_a: PoolView,
    after_a: Seq<P>,
    post_b: PoolView,
    after_b: Seq<P>,
)
    requires
        before.len() == pre.alive.len(),
        pre.alive.len() <= usize::MAX,
        is_function(make),
        burst_outcome(pre, before, count, make, post_a, after_a),
        burst_outcome(pre, before, count, make, post_b, after_b),
    ensures
        post_a == post_b,
        after_a == after_b,
{
    assert forall|i: int| 0 <= i < before.len() implies after_a[i] == after_b[i] by {
        if taken_by_burst(pre.alive, count, i) {
            let j = inert_before(pre.alive, i) as int;
            let s = Spawn {
                slot: i as usize,
                direction_draw: lcg_nth(pre.rng, (4 * j + 1) as nat),
                speed_draw: lcg_nth(pre.rng, (4 * j + 2) as nat),
                life_draw: lcg_nth(pre.rng, (4 * j + 3) as nat),
                size_draw: lcg_nth(pre.rng, (4 * j + 4) as nat),
            };
            assert(is_nth_spawn(pre, j, s));
            assert(make.ensures((s,), after_a[i]));
            assert(make.ensures((s,), after_b[i]));
        }
    }
    assert(after_a =~= after_b);
}

/// Determinism of a step: where the host gives one answer for each record,
/// one pool gives one pool and one set of records.
pub proof fn lemma_step_deterministic<P, F: Fn(P) -> (P, bool)>(
    pre: PoolView,
    before: Seq<P>,
    step: F,
    post_a: PoolView,
    after_a: Seq<P>,
    post_b: PoolView,
    after_b: Seq<P>,
)
    requires
        before.len() == pre.alive.len(),
        is_function(step),
        step_outcome(pre, before, step, post_a, after_a),
        step_outcome(pre, before, step, post_b, after_b),
    ensures
        post_a == post_b,
        after_a == after_b,
{
    assert forall|i: int| 0 <= i < before.len() implies after_a[i] == after_b[i]
        && post_a.alive[i] == post_b.alive[i] by {
        if pre.alive[i] {
            assert(step.ensures((before[i],), (after_a[i], !post_a.alive[i])));
            assert(step.ensures((before[i],), (after_b[i], !post_b.alive[i])));
        }
    }
    assert(after_a =~= after_b);
    assert(post_a.alive =~= post_b.alive);
}

/// A step leaves the records of inert slots as they are, and leaves the
/// slots inert: what a particle was when it ran out stays in its slot until
/// a burst takes the slot.
pub proof fn lemma_step_keeps_the_dead<P, F: Fn(P) -> (P, bool)>(
    pre: PoolView,
    before: Seq<P>,
    step: F,
    post: PoolView,
    after: Seq<P>,
    i: int,
)
    requires
        step_outcome(pre, before, step, post, after),
        0 <= i < pre.alive.len(),
        !pre.alive[i],
    ensures
        !post.alive[i],
        after[i] == before[i],
{
}

/// Determinism of a run: the same seed and the same calls in the same order
/// give the same pool.
pub proof fn lemma_run_deterministic(a: PoolView, b: PoolView, ops: Seq<PoolOp>)
    requires
        a.alive == b.alive,
        a.rng == b.rng,
    ensures
        run(a, ops) == run(b, ops),
{
}

/// An inert slot stays inert until a burst takes it: a step never brings a
/// slot to life, and a burst never ends a life.
pub proof fn lemma_only_bursts_revive(pre: PoolView, op: PoolOp, i: int)
    requires
        0 <= i < pre.alive.len(),
    ensures
        !pre.alive[i] && apply(pre, op).alive[i] ==> op is Burst,
        pre.alive[i] && !apply(pre, op).alive[i] ==> op is Update && op->expired[i],
{
}

/// A burst on a pool without an inert slot creates nothing and changes
/// nothing, the generator included.
pub proof fn lemma_full_pool_drops_burst(pre: PoolView, count: nat)
    requires
        inert_count(pre.alive) == 0,
    ensures
        burst_size(pre.alive, count) == 0,
        apply(pre, PoolOp::Burst { count }) == pre,
{
    assert forall|i: int| 0 <= i < pre.alive.len() implies pre.alive[i] by {
        if !pre.alive[i] {
            lemma_inert_rank_increases(pre.alive, i, pre.alive.len() as int);
        }
    }
    assert(after_burst(pre.alive, count) =~= pre.alive);
}

/// A step in which a living particle runs out leaves a slot for the next
/// burst.
pub proof fn lemma_expiry_frees_slot(alive: Seq<bool>, expired: Seq<bool>, i: int)
    requires
        0 <= i < alive.len(),
        i < expired.len(),
        alive[i],
        expired[i],
    ensures
        !after_update(alive, expired)[i],
        inert_count(after_update(alive, expired)) >= 1,
        burst_size(after_update(alive, expired), 1) == 1,
{
    lemma_inert_rank_increases(after_update(alive, expired), i, alive.len() as int);
}

} // verus!
