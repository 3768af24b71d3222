//! The per-connection simulation driver.
//!
//! One driver runs per accepted connection, as a state machine over two
//! phases. Construction builds the randomized agent state and enters
//! `Running`; each turn of the caller's loop asks for the current frame,
//! attempts the send itself, and feeds the verdict back through
//! [`Driver::on_send_result`]. A successful send advances the tick and the
//! agent positions; the first failure moves the driver to `Terminated`, after
//! which nothing is encoded, sent or updated again. Pacing the loop (one
//! frame roughly every 30 milliseconds, with no catch-up when a turn runs
//! long) is the caller's concern, as is closing the transport.

use vstd::prelude::*;
use crate::codec::{encode_frame, frame_len, frame_spec, frame_tick, lemma_frame_roundtrip};
use crate::sim::Simulation;

verus! {

/// Lifecycle phase of one connection's driver.
#[derive(Clone, Copy, Debug, PartialEq, Eq, Structural)]
pub enum Phase {
    Running,
    Terminated,
}

/// One connection's driver: the owned simulation instance, the lifecycle
/// phase, and the encoder's capacity hint, carried over from the previous
/// frame's actual length so the buffer is sized right from the second tick
/// on.
pub struct Driver {
    pub sim: Simulation,
    pub phase: Phase,
    pub frame_capacity: usize,
}

impl Driver {
    pub open spec fn wf(self) -> bool {
        self.sim.wf()
    }

    /// Builds the driver for one accepted connection: freshly randomized
    /// agent state, tick zero, phase `Running`.
    pub fn new(agent_count: u32, sim_dim: u16, scale_x: u8, scale_y: u8) -> (d: Driver)
        requires
            1 <= agent_count <= crate::sim::MAX_AGENTS,
            1 <= sim_dim,
            1 <= scale_x < 32,
            1 <= scale_y < 32,
        ensures
            d.wf(),
            d.phase is Running,
            d.sim.tick == 0,
            d.sim.agent_count == agent_count as usize,
            d.sim.sim_dim == sim_dim,
            d.sim.scale_x == scale_x,
            d.sim.scale_y == scale_y,
    {
        let sim = Simulation::new(agent_count, sim_dim, scale_x, scale_y);
        let capacity: usize = (sim_dim as usize) * 12 + 64;
        Driver { sim, phase: Phase::Running, frame_capacity: capacity }
    }

    /// Encodes the current tick's frame, remembering its length as the next
    /// capacity hint. The simulation state is untouched: encoding is a pure
    /// snapshot.
    pub fn frame(&mut self) -> (buf: Vec<u8>)
        requires
            old(self).wf(),
            old(self).phase is Running,
        ensures
            final(self).wf(),
            final(self).sim == old(self).sim,
            final(self).phase == old(self).phase,
            buf@ == frame_spec(old(self).sim),
            buf.len() == frame_len(old(self).sim.agent_count as nat),
    {
        let buf = encode_frame(&self.sim, self.frame_capacity);
        self.frame_capacity = buf.len();
        buf
    }

    /// Feeds back the transport's verdict on the frame just sent. A failed
    /// send terminates the driver with the simulation exactly as it was: no
    /// retry, no further update. A successful send advances the tick by one
    /// and steps every agent once, leaving the configuration and scores
    /// untouched.
    pub fn on_send_result(&mut self, ok: bool)
        requires
            old(self).wf(),
            old(self).phase is Running,
            old(self).sim.tick < u64::MAX,
        ensures
            final(self).wf(),
            !ok ==> final(self).phase is Terminated && final(self).sim == old(self).sim,
            ok ==> final(self).phase is Running && final(self).sim.tick == old(self).sim.tick + 1
                && Simulation::same_config(old(self).sim, final(self).sim)
                && Simulation::stepped(old(self).sim, final(self).sim),
    {
        if ok {
            self.sim.advance();
            let ghost stepped_sim: Simulation = self.sim;
            self.sim.tick = self.sim.tick + 1;
            proof {
                let a = old(self).sim;
                // The tick bump leaves the position table alone, so every
                // agent's step witness carries over.
                assert forall|i: int| 0 <= i < a.agent_count implies #[trigger] Simulation::stepped_agent(
                    a,
                    self.sim,
                    i,
                ) by {
                    assert(Simulation::stepped_agent(a, stepped_sim, i));
                    let (bx, by): (nat, nat) = choose|bx: nat, by: nat|
                        Simulation::is_step(a, stepped_sim, i, bx, by);
                    assert(Simulation::is_step(a, self.sim, i, bx, by));
                }
            }
        } else {
            self.phase = Phase::Terminated;
        }
    }
}

/// Between two consecutive successfully sent frames the encoded tick index
/// increases by exactly one: the tick a frame carries is the simulation's,
/// and a successful send is the only thing that advances it.
pub proof fn lemma_tick_strictly_increases(a: Simulation, b: Simulation)
    requires
        a.wf(),
        b.wf(),
        b.tick == a.tick + 1,
    ensures
        frame_tick(frame_spec(b)) == frame_tick(frame_spec(a)) + 1,
{
    lemma_frame_roundtrip(a);
    lemma_frame_roundtrip(b);
}

} // verus!
