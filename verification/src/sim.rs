//! Agent state and the per-tick update rule.
//!
//! A [`Simulation`] owns a fixed population of agents on a toroidal grid
//! whose axis sizes are powers of two. Positions live in one flat table,
//! agent `i`'s coordinates at slots `2i` and `2i + 1`; scores are fixed at
//! construction. Each tick every agent takes a bounded random step whose
//! direction bias depends on the agent's index modulo four, and wraparound
//! is enforced purely by masking.

use vstd::prelude::*;
use vstd::arithmetic::power2::{pow2, lemma2_to64, lemma_pow2_strictly_increases};
use vstd::arithmetic::div_mod::{
    lemma_add_mod_noop, lemma_mod_add_multiples_vanish, lemma_mod_division_less_than_divisor,
    lemma_small_mod,
};
use vstd::bits::{lemma_u32_shl_is_mul, lemma_u32_pow2_no_overflow, lemma_u32_low_bits_mask_is_mod, low_bits_mask};
use crate::rng::rand_below;

verus! {

/// Largest supported population: keeps index arithmetic and the frame
/// length (12 bytes per agent plus a header) far from any machine limit.
pub const MAX_AGENTS: u32 = 0x100_0000;

/// Bumps are drawn uniformly from `[0, BUMP_RANGE)`.
pub const BUMP_RANGE: u32 = 5;

/// True when agent `i` drifts toward positive x (directions 0 and 1).
pub open spec fn x_forward(i: nat) -> bool {
    i % 4 == 0 || i % 4 == 1
}

/// True when agent `i` drifts toward positive y (directions 0 and 2).
pub open spec fn y_forward(i: nat) -> bool {
    i % 4 == 0 || i % 4 == 2
}

/// The wraparound-equivalent non-negative delta of a backward step by `b`
/// on an axis of size `dim`: adding it modulo `dim` subtracts `b` modulo
/// `dim`.
pub open spec fn back_delta(b: nat, dim: nat) -> nat
    recommends
        1 <= dim,
{
    (dim - (b % dim)) as nat
}

/// One axis step with wraparound: a forward step adds the bump modulo the
/// axis size, a backward step subtracts it modulo the axis size.
pub open spec fn step_coord(x: nat, b: nat, dim: nat, forward: bool) -> nat
    recommends
        1 <= dim,
        x < dim,
{
    if forward {
        (x + b) % dim
    } else {
        (x + back_delta(b, dim)) % dim
    }
}

/// Bounds invariant: whatever the bump, a step along an axis lands inside
/// the axis.
pub proof fn lemma_step_in_bounds(x: nat, b: nat, dim: nat, forward: bool)
    requires
        1 <= dim,
    ensures
        step_coord(x, b, dim, forward) < dim,
{
}

/// Undoing a backward step: adding the same bump back, modulo the axis
/// size, returns to the starting coordinate. This is what makes the
/// backward delta a wraparound-equivalent negative step.
pub proof fn lemma_back_step_inverse(x: nat, b: nat, dim: nat)
    requires
        1 <= dim,
        x < dim,
    ensures
        (step_coord(x, b, dim, false) + b) % dim == x,
{
    let m = dim as int;
    let e = b % dim;
    let s = step_coord(x, b, dim, false);
    lemma_mod_division_less_than_divisor((x + dim - e) as int, m);
    lemma_mod_division_less_than_divisor(b as int, m);
    lemma_small_mod(s, dim);
    lemma_small_mod(e, dim);
    lemma_small_mod(x, dim);
    // Replace b by its residue e, fold e back into the shifted sum, and
    // drop the full turn of dim.
    assert(((s + b) as int) % m == ((s + e) as int) % m) by {
        lemma_add_mod_noop(s as int, b as int, m);
        lemma_add_mod_noop(s as int, e as int, m);
    }
    assert(((s + e) as int) % m == ((x + dim) as int) % m) by {
        lemma_add_mod_noop((x + dim - e) as int, e as int, m);
        assert((x + dim - e) + e == (x + dim) as int);
    }
    assert(((x + dim) as int) % m == (x as int) % m) by {
        lemma_mod_add_multiples_vanish(x as int, m);
    }
}

/// Direction bias is a function of the agent index alone: an agent with
/// index 0 modulo 4 steps forward (adds its bumps modulo the axis size) on
/// both axes, and an agent with index 3 modulo 4 steps backward on both
/// axes (adding the bump back recovers the coordinate), for every fixed
/// pair of bump draws.
pub proof fn lemma_direction_bias(
    i: nat,
    x: nat,
    y: nat,
    bx: nat,
    by: nat,
    dim_x: nat,
    dim_y: nat,
)
    requires
        1 <= dim_x,
        1 <= dim_y,
        x < dim_x,
        y < dim_y,
    ensures
        i % 4 == 0 ==> step_coord(x, bx, dim_x, x_forward(i)) == (x + bx) % dim_x
            && step_coord(y, by, dim_y, y_forward(i)) == (y + by) % dim_y,
        i % 4 == 3 ==> (step_coord(x, bx, dim_x, x_forward(i)) + bx) % dim_x == x
            && (step_coord(y, by, dim_y, y_forward(i)) + by) % dim_y == y,
{
    if i % 4 == 3 {
        lemma_back_step_inverse(x, bx, dim_x);
        lemma_back_step_inverse(y, by, dim_y);
    }
}

/// One masked step along an axis of size `2^scale`.
fn step_coord_exec(x: u32, b: u32, dim: u32, scale: u8, forward: bool) -> (nx: u32)
    requires
        1 <= scale < 32,
        dim as nat == pow2(scale as nat),
        x < dim,
        b < BUMP_RANGE,
    ensures
        nx as nat == step_coord(x as nat, b as nat, dim as nat, forward),
        nx < dim,
{
    proof {
        lemma2_to64();
        lemma_u32_pow2_no_overflow(scale as nat);
        if (scale as nat) < 31 {
            lemma_pow2_strictly_increases(scale as nat, 31);
        }
        assert(dim <= 0x8000_0000);
        lemma_u32_low_bits_mask_is_mod(b, scale as nat);
        assert(low_bits_mask(scale as nat) == dim - 1);
    }
    let mask: u32 = dim - 1;
    let e: u32 = b & mask;
    let bump: u32 = if forward {
        b
    } else {
        dim - e
    };
    let sum: u32 = x + bump;
    proof {
        lemma_u32_low_bits_mask_is_mod(sum, scale as nat);
    }
    sum & mask
}

/// One full step for agent `i`: bump draws `bx`, `by`, axes of size
/// `2^scale_x` and `2^scale_y`. The step direction on each axis is fixed by
/// `i` modulo 4.
pub fn step_agent(
    i: usize,
    x: u32,
    y: u32,
    bx: u32,
    by: u32,
    scale_x: u8,
    scale_y: u8,
    dim_x: u32,
    dim_y: u32,
) -> (p: (u32, u32))
    requires
        1 <= scale_x < 32,
        1 <= scale_y < 32,
        dim_x as nat == pow2(scale_x as nat),
        dim_y as nat == pow2(scale_y as nat),
        x < dim_x,
        y < dim_y,
        bx < BUMP_RANGE,
        by < BUMP_RANGE,
    ensures
        p.0 as nat == step_coord(x as nat, bx as nat, dim_x as nat, x_forward(i as nat)),
        p.1 as nat == step_coord(y as nat, by as nat, dim_y as nat, y_forward(i as nat)),
        p.0 < dim_x,
        p.1 < dim_y,
{
    let dir: usize = i % 4;
    let fx: bool = dir == 0 || dir == 1;
    let fy: bool = dir == 0 || dir == 2;
    let nx = step_coord_exec(x, bx, dim_x, scale_x, fx);
    let ny = step_coord_exec(y, by, dim_y, scale_y, fy);
    (nx, ny)
}

/// One per-connection simulation instance: fixed configuration, the live
/// position table, the immutable score table, and the tick index.
pub struct Simulation {
    pub agent_count: usize,
    pub scale_x: u8,
    pub scale_y: u8,
    pub dim_x: u32,
    pub dim_y: u32,
    pub sim_dim: u16,
    pub positions: Vec<u32>,
    pub scores: Vec<u16>,
    pub tick: u64,
}

impl Simulation {
    /// Axis size governing position slot `j`: x for even slots, y for odd.
    pub open spec fn slot_dim(self, j: int) -> u32 {
        if j % 2 == 0 {
            self.dim_x
        } else {
            self.dim_y
        }
    }

    /// Axis scale governing position slot `j`.
    pub open spec fn slot_scale(self, j: int) -> u8 {
        if j % 2 == 0 {
            self.scale_x
        } else {
            self.scale_y
        }
    }

    /// Well-formedness: the axis sizes are the configured powers of two, the
    /// tables have their configured lengths, and every stored value is in
    /// bounds.
    pub open spec fn wf(self) -> bool {
        &&& 1 <= self.scale_x < 32
        &&& 1 <= self.scale_y < 32
        &&& self.dim_x as nat == pow2(self.scale_x as nat)
        &&& self.dim_y as nat == pow2(self.scale_y as nat)
        &&& 1 <= self.sim_dim
        &&& 1 <= self.agent_count <= MAX_AGENTS
        &&& self.positions.len() == 2 * self.agent_count
        &&& self.scores.len() == self.agent_count
        &&& forall|j: int|
            0 <= j < self.positions.len() ==> (#[trigger] self.positions[j]) < self.slot_dim(j)
        &&& forall|i: int| 0 <= i < self.scores.len() ==> (#[trigger] self.scores[i]) < self.sim_dim
    }

    /// Creates a simulation instance with randomized positions and scores:
    /// every position coordinate below its axis size, every score below
    /// `sim_dim`, tick index zero. Nothing more is promised of the drawn
    /// values.
    pub fn new(agent_count: u32, sim_dim: u16, scale_x: u8, scale_y: u8) -> (sim: Simulation)
        requires
            1 <= agent_count <= MAX_AGENTS,
            1 <= sim_dim,
            1 <= scale_x < 32,
            1 <= scale_y < 32,
        ensures
            sim.wf(),
            sim.agent_count == agent_count as usize,
            sim.scale_x == scale_x,
            sim.scale_y == scale_y,
            sim.sim_dim == sim_dim,
            sim.dim_x as nat == pow2(scale_x as nat),
            sim.dim_y as nat == pow2(scale_y as nat),
            sim.tick == 0,
    {
        proof {
            lemma_u32_pow2_no_overflow(scale_x as nat);
            lemma_u32_pow2_no_overflow(scale_y as nat);
            lemma_u32_shl_is_mul(1u32, scale_x as u32);
            lemma_u32_shl_is_mul(1u32, scale_y as u32);
        }
        let dim_x: u32 = 1u32 << (scale_x as u32);
        let dim_y: u32 = 1u32 << (scale_y as u32);
        let count: usize = agent_count as usize;
        let mut positions: Vec<u32> = Vec::with_capacity(2 * count);
        let mut k: usize = 0;
        while k < count
            invariant
                k <= count,
                count <= MAX_AGENTS,
                1 <= dim_x,
                1 <= dim_y,
                positions.len() == 2 * k,
                forall|j: int|
                    0 <= j < positions.len() ==> (#[trigger] positions[j]) < (if j % 2 == 0 {
                        dim_x
                    } else {
                        dim_y
                    }),
            decreases count - k,
        {
            positions.push(rand_below(dim_x));
            positions.push(rand_below(dim_y));
            k = k + 1;
        }
        let mut scores: Vec<u16> = Vec::with_capacity(count);
        let mut k: usize = 0;
        while k < count
            invariant
                k <= count,
                1 <= sim_dim,
                scores.len() == k,
                forall|i: int| 0 <= i < scores.len() ==> (#[trigger] scores[i]) < sim_dim,
            decreases count - k,
        {
            let s: u32 = rand_below(sim_dim as u32);
            scores.push(s as u16);
            k = k + 1;
        }
        Simulation {
            agent_count: count,
            scale_x,
            scale_y,
            dim_x,
            dim_y,
            sim_dim,
            positions,
            scores,
            tick: 0,
        }
    }

    /// The configuration and score table of `b` are those of `a`; only
    /// positions and the tick may differ.
    pub open spec fn same_config(a: Simulation, b: Simulation) -> bool {
        &&& b.agent_count == a.agent_count
        &&& b.scale_x == a.scale_x
        &&& b.scale_y == a.scale_y
        &&& b.dim_x == a.dim_x
        &&& b.dim_y == a.dim_y
        &&& b.sim_dim == a.sim_dim
        &&& b.scores == a.scores
        &&& b.positions.len() == a.positions.len()
    }

    /// As [`Simulation::same_config`], with the tick also unchanged.
    pub open spec fn same_frozen_state(a: Simulation, b: Simulation) -> bool {
        Self::same_config(a, b) && b.tick == a.tick
    }

    /// Agent `i` of `b` stands exactly one step of the update rule, with
    /// bumps `bx` and `by`, away from agent `i` of `a`.
    pub open spec fn is_step(a: Simulation, b: Simulation, i: int, bx: nat, by: nat) -> bool {
        &&& bx < BUMP_RANGE
        &&& by < BUMP_RANGE
        &&& b.positions[2 * i] as nat == step_coord(
            a.positions[2 * i] as nat,
            bx,
            a.dim_x as nat,
            x_forward(i as nat),
        )
        &&& b.positions[2 * i + 1] as nat == step_coord(
            a.positions[2 * i + 1] as nat,
            by,
            a.dim_y as nat,
            y_forward(i as nat),
        )
    }

    /// Agent `i` of `b` stands one step of the update rule away from agent
    /// `i` of `a`, for some pair of bump draws.
    pub open spec fn stepped_agent(a: Simulation, b: Simulation, i: int) -> bool {
        exists|bx: nat, by: nat| #[trigger] Self::is_step(a, b, i, bx, by)
    }

    /// Every agent of `b` stands one step of the update rule away from the
    /// corresponding agent of `a`, each with its own pair of bump draws.
    pub open spec fn stepped(a: Simulation, b: Simulation) -> bool {
        forall|i: int| 0 <= i < a.agent_count ==> #[trigger] Self::stepped_agent(a, b, i)
    }

    /// Advances every agent by one step of the update rule with fresh random
    /// bump draws. The configuration, scores and tick are untouched, and
    /// every new position is again in bounds.
    #[verifier::loop_isolation(false)]
    pub fn advance(&mut self)
        requires
            old(self).wf(),
        ensures
            final(self).wf(),
            Self::same_frozen_state(*old(self), *final(self)),
            Self::stepped(*old(self), *final(self)),
    {
        let ghost orig: Simulation = *self;
        let ghost mut bxs: Seq<nat> = Seq::empty();
        let ghost mut bys: Seq<nat> = Seq::empty();
        let count: usize = self.agent_count;
        let mut i: usize = 0;
        while i < count
            invariant
                i <= count,
                self.agent_count == orig.agent_count,
                self.scale_x == orig.scale_x,
                self.scale_y == orig.scale_y,
                self.dim_x == orig.dim_x,
                self.dim_y == orig.dim_y,
                self.sim_dim == orig.sim_dim,
                self.scores == orig.scores,
                self.tick == orig.tick,
                self.positions.len() == orig.positions.len(),
                bxs.len() == i,
                bys.len() == i,
                forall|j: int|
                    2 * i <= j < self.positions.len() ==> (#[trigger] self.positions[j])
                        == orig.positions[j],
                forall|k: int| 0 <= k < i ==> (#[trigger] bxs[k]) < BUMP_RANGE,
                forall|k: int| 0 <= k < i ==> (#[trigger] bys[k]) < BUMP_RANGE,
                forall|k: int|
                    0 <= k < i ==> (#[trigger] self.positions[2 * k]) as nat == step_coord(
                        orig.positions[2 * k] as nat,
                        bxs[k],
                        orig.dim_x as nat,
                        x_forward(k as nat),
                    ) && self.positions[2 * k + 1] as nat == step_coord(
                        orig.positions[2 * k + 1] as nat,
                        bys[k],
                        orig.dim_y as nat,
                        y_forward(k as nat),
                    ),
                forall|j: int|
                    0 <= j < self.positions.len() ==> (#[trigger] self.positions[j])
                        < self.slot_dim(j),
            decreases count - i,
        {
            let ghost prev: Simulation = *self;
            let x: u32 = self.positions[2 * i];
            let y: u32 = self.positions[2 * i + 1];
            let bx: u32 = rand_below(BUMP_RANGE);
            let by: u32 = rand_below(BUMP_RANGE);
            let p = step_agent(i, x, y, bx, by, self.scale_x, self.scale_y, self.dim_x, self.dim_y);
            self.positions[2 * i] = p.0;
            self.positions[2 * i + 1] = p.1;
            proof {
                bxs = bxs.push(bx as nat);
                bys = bys.push(by as nat);
                assert forall|k: int| 0 <= k < i + 1 implies (#[trigger] bxs[k]) < BUMP_RANGE && bys[k]
                    < BUMP_RANGE && (self.positions[2 * k]) as nat == step_coord(
                    orig.positions[2 * k] as nat,
                    bxs[k],
                    orig.dim_x as nat,
                    x_forward(k as nat),
                ) && self.positions[2 * k + 1] as nat == step_coord(
                    orig.positions[2 * k + 1] as nat,
                    bys[k],
                    orig.dim_y as nat,
                    y_forward(k as nat),
                ) by {
                    if k < i {
                        assert(self.positions[2 * k] == prev.positions[2 * k]);
                        assert(self.positions[2 * k + 1] == prev.positions[2 * k + 1]);
                        assert(prev.positions[2 * k] as nat == step_coord(
                            orig.positions[2 * k] as nat,
                            bxs[k],
                            orig.dim_x as nat,
                            x_forward(k as nat),
                        ));
                    } else {
                        assert(self.positions[2 * i as int] == p.0);
                        assert(self.positions[2 * i as int + 1] == p.1);
                    }
                }
            }
            i = i + 1;
        }
        proof {
            assert forall|i: int| 0 <= i < orig.agent_count implies #[trigger] Self::stepped_agent(
                orig,
                *self,
                i,
            ) by {
                assert(Self::is_step(orig, *self, i, bxs[i], bys[i]));
            }
        }
    }
}

} // verus!
