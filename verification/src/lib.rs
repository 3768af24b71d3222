//! Core of a live agent-visualization feed: a fixed population of agents
//! performs a biased random walk on a toroidal grid whose axis sizes are
//! powers of two, and each tick of the simulation is serialized into a
//! compact binary frame for a websocket client.
//!
//! The crate is organized leaves-first:
//! - [`norm`] turns grid coordinates and scores into exactly-representable
//!   single-precision bit patterns on a fixed 2^-24 grid;
//! - [`codec`] lays one tick out as a self-contained little-endian frame
//!   and decodes it back;
//! - [`sim`] owns the agent state and the per-tick update rule;
//! - [`driver`] is the per-connection state machine around encode and send.

pub mod codec;
pub mod driver;
pub mod norm;
mod rng;
pub mod sim;
