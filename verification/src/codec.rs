//! The binary frame codec.
//!
//! One tick is laid out as a self-contained little-endian buffer:
//!
//! | bytes      | field                                               |
//! |------------|-----------------------------------------------------|
//! | 0..8       | tick index, `u64`                                   |
//! | 8..12      | agent count `N`, `u32`                              |
//! | 12..12+8N  | `2N` normalized position words, agent-major, x then y |
//! | ..12+12N   | `N` normalized score words                          |
//!
//! Every value word is the single-precision bit pattern of a frac24 grid
//! point in `[0, 1)` (see [`crate::norm`]), so a receiver reads the buffer
//! field by field with no external schema. Encoding and decoding are both
//! verified, and [`lemma_frame_roundtrip`] states that a frame produced from
//! a well-formed simulation decodes to exactly its agent count, tick and
//! normalized values.

use vstd::prelude::*;
use vstd::arithmetic::power2::{pow2, lemma2_to64};
use crate::norm::{
    bits_frac24, bits_ok, coord_frac24, frac24_bits, frac24_to_bits, bits_to_frac24,
    coord_to_frac24, lemma_coord_frac24_bound, lemma_coord_recovery, lemma_frac24_bits_bound,
    lemma_frac24_bits_roundtrip, lemma_score_frac24_bound, lemma_score_recovery, score_frac24,
    score_to_frac24,
};
use crate::sim::Simulation;

verus! {

/// Little-endian bytes of a 32-bit word.
pub open spec fn le4(w: u32) -> Seq<u8> {
    seq![
        (w & 0xff) as u8,
        ((w >> 8u32) & 0xff) as u8,
        ((w >> 16u32) & 0xff) as u8,
        ((w >> 24u32) & 0xff) as u8,
    ]
}

/// Little-endian bytes of a 64-bit word.
pub open spec fn le8(w: u64) -> Seq<u8> {
    seq![
        (w & 0xff) as u8,
        ((w >> 8u64) & 0xff) as u8,
        ((w >> 16u64) & 0xff) as u8,
        ((w >> 24u64) & 0xff) as u8,
        ((w >> 32u64) & 0xff) as u8,
        ((w >> 40u64) & 0xff) as u8,
        ((w >> 48u64) & 0xff) as u8,
        ((w >> 56u64) & 0xff) as u8,
    ]
}

/// The 32-bit word assembled from four little-endian bytes.
pub open spec fn from_le4(b0: u8, b1: u8, b2: u8, b3: u8) -> u32 {
    (b0 as u32) | ((b1 as u32) << 8u32) | ((b2 as u32) << 16u32) | ((b3 as u32) << 24u32)
}

/// The 64-bit word assembled from eight little-endian bytes.
pub open spec fn from_le8(
    b0: u8,
    b1: u8,
    b2: u8,
    b3: u8,
    b4: u8,
    b5: u8,
    b6: u8,
    b7: u8,
) -> u64 {
    (b0 as u64) | ((b1 as u64) << 8u64) | ((b2 as u64) << 16u64) | ((b3 as u64) << 24u64) | (
    (b4 as u64) << 32u64) | ((b5 as u64) << 40u64) | ((b6 as u64) << 48u64) | ((b7 as u64)
        << 56u64)
}

/// The 32-bit word at byte offset `off`.
pub open spec fn word_at(b: Seq<u8>, off: int) -> u32 {
    from_le4(b[off], b[off + 1], b[off + 2], b[off + 3])
}

/// The 64-bit word at byte offset `off`.
pub open spec fn word8_at(b: Seq<u8>, off: int) -> u64 {
    from_le8(
        b[off],
        b[off + 1],
        b[off + 2],
        b[off + 3],
        b[off + 4],
        b[off + 5],
        b[off + 6],
        b[off + 7],
    )
}

/// Serializing a 32-bit word and reassembling it is the identity.
pub proof fn lemma_le4_roundtrip(w: u32)
    ensures
        from_le4(le4(w)[0], le4(w)[1], le4(w)[2], le4(w)[3]) == w,
{
    assert((((w & 0xff) as u8) as u32) | (((((w >> 8u32) & 0xff) as u8) as u32) << 8u32) | (((((w
        >> 16u32) & 0xff) as u8) as u32) << 16u32) | (((((w >> 24u32) & 0xff) as u8) as u32)
        << 24u32) == w) by (bit_vector);
}

/// Serializing a 64-bit word and reassembling it is the identity.
pub proof fn lemma_le8_roundtrip(w: u64)
    ensures
        from_le8(
            le8(w)[0],
            le8(w)[1],
            le8(w)[2],
            le8(w)[3],
            le8(w)[4],
            le8(w)[5],
            le8(w)[6],
            le8(w)[7],
        ) == w,
{
    assert((((w & 0xff) as u8) as u64) | (((((w >> 8u64) & 0xff) as u8) as u64) << 8u64) | (((((w
        >> 16u64) & 0xff) as u8) as u64) << 16u64) | (((((w >> 24u64) & 0xff) as u8) as u64)
        << 24u64) | (((((w >> 32u64) & 0xff) as u8) as u64) << 32u64) | (((((w >> 40u64) & 0xff)
        as u8) as u64) << 40u64) | (((((w >> 48u64) & 0xff) as u8) as u64) << 48u64) | (((((w
        >> 56u64) & 0xff) as u8) as u64) << 56u64) == w) by (bit_vector);
}

/// Appends the four little-endian bytes of `w`.
fn push_le4(buf: &mut Vec<u8>, w: u32)
    ensures
        final(buf)@ == old(buf)@ + le4(w),
{
    proof {
        assert((w & 0xff) < 256 && ((w >> 8u32) & 0xff) < 256 && ((w >> 16u32) & 0xff) < 256 && ((w
            >> 24u32) & 0xff) < 256) by (bit_vector);
    }
    buf.push((w & 0xff) as u8);
    buf.push(((w >> 8u32) & 0xff) as u8);
    buf.push(((w >> 16u32) & 0xff) as u8);
    buf.push(((w >> 24u32) & 0xff) as u8);
    proof {
        assert(buf@ =~= old(buf)@ + le4(w));
    }
}

/// Appends the eight little-endian bytes of `w`.
fn push_le8(buf: &mut Vec<u8>, w: u64)
    ensures
        final(buf)@ == old(buf)@ + le8(w),
{
    proof {
        assert((w & 0xff) < 256 && ((w >> 8u64) & 0xff) < 256 && ((w >> 16u64) & 0xff) < 256 && ((w
            >> 24u64) & 0xff) < 256 && ((w >> 32u64) & 0xff) < 256 && ((w >> 40u64) & 0xff) < 256
            && ((w >> 48u64) & 0xff) < 256 && ((w >> 56u64) & 0xff) < 256) by (bit_vector);
    }
    buf.push((w & 0xff) as u8);
    buf.push(((w >> 8u64) & 0xff) as u8);
    buf.push(((w >> 16u64) & 0xff) as u8);
    buf.push(((w >> 24u64) & 0xff) as u8);
    buf.push(((w >> 32u64) & 0xff) as u8);
    buf.push(((w >> 40u64) & 0xff) as u8);
    buf.push(((w >> 48u64) & 0xff) as u8);
    buf.push(((w >> 56u64) & 0xff) as u8);
    proof {
        assert(buf@ =~= old(buf)@ + le8(w));
    }
}

/// Reads the 32-bit word at byte offset `off`.
fn read_le4(buf: &Vec<u8>, off: usize) -> (w: u32)
    requires
        off + 4 <= buf.len(),
    ensures
        w == word_at(buf@, off as int),
{
    (buf[off] as u32) | ((buf[off + 1] as u32) << 8u32) | ((buf[off + 2] as u32) << 16u32) | ((
    buf[off + 3] as u32) << 24u32)
}

/// Reads the 64-bit word at byte offset `off`.
fn read_le8(buf: &Vec<u8>, off: usize) -> (w: u64)
    requires
        off + 8 <= buf.len(),
    ensures
        w == word8_at(buf@, off as int),
{
    (buf[off] as u64) | ((buf[off + 1] as u64) << 8u64) | ((buf[off + 2] as u64) << 16u64) | ((
    buf[off + 3] as u64) << 24u64) | ((buf[off + 4] as u64) << 32u64) | ((buf[off + 5] as u64)
        << 40u64) | ((buf[off + 6] as u64) << 48u64) | ((buf[off + 7] as u64) << 56u64)
}

/// Value word for position slot `j`: the bit pattern of the coordinate
/// normalized by its axis size.
pub open spec fn coord_word(sim: Simulation, j: int) -> u32 {
    frac24_bits(coord_frac24(sim.positions[j] as nat, sim.slot_scale(j) as nat)) as u32
}

/// Value word for agent `i`'s score, normalized by `sim_dim`.
pub open spec fn score_word(sim: Simulation, i: int) -> u32 {
    frac24_bits(score_frac24(sim.scores[i] as nat, sim.sim_dim as nat)) as u32
}

/// Bytes of the first `j` position words.
pub open spec fn pos_bytes(sim: Simulation, j: int) -> Seq<u8>
    decreases j,
{
    if j <= 0 {
        Seq::empty()
    } else {
        pos_bytes(sim, j - 1) + le4(coord_word(sim, j - 1))
    }
}

/// Bytes of the first `i` score words.
pub open spec fn score_bytes(sim: Simulation, i: int) -> Seq<u8>
    decreases i,
{
    if i <= 0 {
        Seq::empty()
    } else {
        score_bytes(sim, i - 1) + le4(score_word(sim, i - 1))
    }
}

/// Length in bytes of a frame for `n` agents.
pub open spec fn frame_len(n: nat) -> nat {
    12 + 12 * n
}

/// The one frame a well-formed simulation produces for its current tick.
pub open spec fn frame_spec(sim: Simulation) -> Seq<u8> {
    le8(sim.tick) + le4(sim.agent_count as u32) + pos_bytes(sim, 2 * sim.agent_count as int)
        + score_bytes(sim, sim.agent_count as int)
}

pub proof fn lemma_pos_bytes_len(sim: Simulation, j: int)
    requires
        j >= 0,
    ensures
        pos_bytes(sim, j).len() == 4 * j,
    decreases j,
{
    if j > 0 {
        lemma_pos_bytes_len(sim, j - 1);
    }
}

pub proof fn lemma_score_bytes_len(sim: Simulation, i: int)
    requires
        i >= 0,
    ensures
        score_bytes(sim, i).len() == 4 * i,
    decreases i,
{
    if i > 0 {
        lemma_score_bytes_len(sim, i - 1);
    }
}

/// Byte `t` of position word `q` inside the position section.
pub proof fn lemma_pos_bytes_index(sim: Simulation, j: int, q: int, t: int)
    requires
        0 <= q < j,
        0 <= t < 4,
    ensures
        pos_bytes(sim, j)[4 * q + t] == le4(coord_word(sim, q))[t],
    decreases j,
{
    lemma_pos_bytes_len(sim, j - 1);
    if q < j - 1 {
        lemma_pos_bytes_index(sim, j - 1, q, t);
    }
}

/// Byte `t` of score word `q` inside the score section.
pub proof fn lemma_score_bytes_index(sim: Simulation, i: int, q: int, t: int)
    requires
        0 <= q < i,
        0 <= t < 4,
    ensures
        score_bytes(sim, i)[4 * q + t] == le4(score_word(sim, q))[t],
    decreases i,
{
    lemma_score_bytes_len(sim, i - 1);
    if q < i - 1 {
        lemma_score_bytes_index(sim, i - 1, q, t);
    }
}

/// Tick index carried by a frame.
pub open spec fn frame_tick(b: Seq<u8>) -> u64 {
    word8_at(b, 0)
}

/// Agent count carried by a frame.
pub open spec fn frame_count(b: Seq<u8>) -> nat {
    word_at(b, 8) as nat
}

/// A byte string is an acceptable frame when its length matches its declared
/// agent count and every value word denotes an exact frac24 grid point.
pub open spec fn frame_wf(b: Seq<u8>) -> bool {
    &&& b.len() >= 12
    &&& b.len() == frame_len(frame_count(b))
    &&& forall|q: int|
        0 <= q < 3 * frame_count(b) ==> #[trigger] bits_ok(word_at(b, 12 + 4 * q) as nat)
}

/// Frac24 numerator carried by value word `q` of a frame.
pub open spec fn frame_value(b: Seq<u8>, q: int) -> nat {
    bits_frac24(word_at(b, 12 + 4 * q) as nat)
}

/// Encodes the current tick of a well-formed simulation. The capacity hint
/// only pre-sizes the buffer (callers pass the previous frame's length to
/// avoid regrowing it); the output is the full frame whatever the hint.
#[verifier::loop_isolation(false)]
pub fn encode_frame(sim: &Simulation, capacity_hint: usize) -> (buf: Vec<u8>)
    requires
        sim.wf(),
    ensures
        buf@ == frame_spec(*sim),
        buf.len() == frame_len(sim.agent_count as nat),
{
    proof {
        lemma2_to64();
    }
    let mut buf: Vec<u8> = Vec::with_capacity(capacity_hint);
    push_le8(&mut buf, sim.tick);
    push_le4(&mut buf, sim.agent_count as u32);
    proof {
        assert(buf@ =~= le8(sim.tick) + le4(sim.agent_count as u32) + pos_bytes(*sim, 0));
    }
    let n: usize = sim.agent_count;
    let mut j: usize = 0;
    while j < 2 * n
        invariant
            j <= 2 * n,
            buf@ == le8(sim.tick) + le4(sim.agent_count as u32) + pos_bytes(*sim, j as int),
        decreases 2 * n - j,
    {
        let x: u32 = sim.positions[j];
        let s: u8 = if j % 2 == 0 {
            sim.scale_x
        } else {
            sim.scale_y
        };
        proof {
            assert(sim.positions[j as int] < sim.slot_dim(j as int));
        }
        let t: u32 = coord_to_frac24(x, s);
        let w: u32 = frac24_to_bits(t);
        push_le4(&mut buf, w);
        proof {
            lemma_frac24_bits_bound(t as nat);
            assert(w == coord_word(*sim, j as int));
            assert(buf@ =~= le8(sim.tick) + le4(sim.agent_count as u32) + pos_bytes(
                *sim,
                j as int + 1,
            ));
        }
        j = j + 1;
    }
    let ghost header: Seq<u8> = le8(sim.tick) + le4(sim.agent_count as u32) + pos_bytes(
        *sim,
        2 * sim.agent_count as int,
    );
    proof {
        assert(buf@ =~= header + score_bytes(*sim, 0));
    }
    let mut i: usize = 0;
    while i < n
        invariant
            i <= n,
            buf@ == header + score_bytes(*sim, i as int),
        decreases n - i,
    {
        let sc: u16 = sim.scores[i];
        let t: u32 = score_to_frac24(sc, sim.sim_dim);
        let w: u32 = frac24_to_bits(t);
        push_le4(&mut buf, w);
        proof {
            lemma_frac24_bits_bound(t as nat);
            assert(w == score_word(*sim, i as int));
            assert(buf@ =~= header + score_bytes(*sim, i as int + 1));
        }
        i = i + 1;
    }
    proof {
        assert(buf@ =~= frame_spec(*sim));
        lemma_pos_bytes_len(*sim, 2 * sim.agent_count as int);
        lemma_score_bytes_len(*sim, sim.agent_count as int);
    }
    buf
}

/// One decoded frame: the tick index and the frac24 numerators of every
/// normalized position coordinate and score.
pub struct Frame {
    pub tick: u64,
    pub positions: Vec<u32>,
    pub scores: Vec<u32>,
}

/// Decodes a frame, accepting exactly the byte strings that [`frame_wf`]
/// describes and returning the tick, the `2N` position numerators and the
/// `N` score numerators they carry.
#[verifier::loop_isolation(false)]
pub fn decode_frame(buf: &Vec<u8>) -> (r: Option<Frame>)
    ensures
        r is Some <==> frame_wf(buf@),
        r is Some ==> (r->0).tick == frame_tick(buf@),
        r is Some ==> (r->0).positions.len() == 2 * frame_count(buf@) && (r->0).scores.len()
            == frame_count(buf@),
        r is Some ==> forall|j: int|
            0 <= j < 2 * frame_count(buf@) ==> ((r->0).positions[j] as nat) == #[trigger] frame_value(
                buf@,
                j,
            ),
        r is Some ==> forall|i: int|
            0 <= i < frame_count(buf@) ==> ((r->0).scores[i] as nat) == #[trigger] frame_value(
                buf@,
                2 * frame_count(buf@) + i,
            ),
{
    if buf.len() < 12 {
        return None;
    }
    let tick: u64 = read_le8(buf, 0);
    let count: u32 = read_le4(buf, 8);
    let n: usize = count as usize;
    let body: usize = buf.len() - 12;
    if body % 12 != 0 || body / 12 != n {
        proof {
            vstd::arithmetic::div_mod::lemma_fundamental_div_mod(body as int, 12);
        }
        return None;
    }
    proof {
        vstd::arithmetic::div_mod::lemma_fundamental_div_mod(body as int, 12);
        assert(buf.len() == frame_len(frame_count(buf@)));
    }
    let mut positions: Vec<u32> = Vec::with_capacity(2 * n);
    let mut j: usize = 0;
    while j < 2 * n
        invariant
            j <= 2 * n,
            positions.len() == j,
            forall|q: int| 0 <= q < j ==> #[trigger] bits_ok(word_at(buf@, 12 + 4 * q) as nat),
            forall|q: int|
                0 <= q < j ==> (positions[q] as nat) == #[trigger] frame_value(buf@, q),
        decreases 2 * n - j,
    {
        let w: u32 = read_le4(buf, 12 + 4 * j);
        let t: Option<u32> = bits_to_frac24(w);
        match t {
            Some(v) => {
                positions.push(v);
            },
            None => {
                proof {
                    assert(!bits_ok(word_at(buf@, 12 + 4 * (j as int)) as nat));
                }
                return None;
            },
        }
        j = j + 1;
    }
    let mut scores: Vec<u32> = Vec::with_capacity(n);
    let mut i: usize = 0;
    while i < n
        invariant
            i <= n,
            scores.len() == i,
            forall|q: int|
                0 <= q < 2 * n + i ==> #[trigger] bits_ok(word_at(buf@, 12 + 4 * q) as nat),
            forall|q: int|
                0 <= q < 2 * n ==> (positions[q] as nat) == #[trigger] frame_value(buf@, q),
            forall|q: int|
                0 <= q < i ==> (scores[q] as nat) == #[trigger] frame_value(buf@, 2 * n + q),
        decreases n - i,
    {
        let w: u32 = read_le4(buf, 12 + 8 * n + 4 * i);
        proof {
            assert(12 + 8 * n + 4 * i == 12 + 4 * (2 * n + i as int));
        }
        let t: Option<u32> = bits_to_frac24(w);
        match t {
            Some(v) => {
                scores.push(v);
            },
            None => {
                proof {
                    assert(!bits_ok(word_at(buf@, 12 + 4 * (2 * n + i as int)) as nat));
                }
                return None;
            },
        }
        i = i + 1;
    }
    Some(Frame { tick, positions, scores })
}

/// A frame produced from a well-formed simulation is acceptable and decodes
/// to exactly that simulation's tick, agent count and normalized values.
pub proof fn lemma_frame_roundtrip(sim: Simulation)
    requires
        sim.wf(),
    ensures
        frame_wf(frame_spec(sim)),
        frame_count(frame_spec(sim)) == sim.agent_count,
        frame_tick(frame_spec(sim)) == sim.tick,
        forall|j: int|
            0 <= j < 2 * sim.agent_count ==> #[trigger] frame_value(frame_spec(sim), j)
                == coord_frac24(sim.positions[j] as nat, sim.slot_scale(j) as nat),
        forall|i: int|
            0 <= i < sim.agent_count ==> #[trigger] frame_value(
                frame_spec(sim),
                2 * sim.agent_count + i,
            ) == score_frac24(sim.scores[i] as nat, sim.sim_dim as nat),
{
    lemma2_to64();
    let b = frame_spec(sim);
    let n = sim.agent_count as int;
    let cw = sim.agent_count as u32;
    let hdr = le8(sim.tick) + le4(cw);
    let pb = pos_bytes(sim, 2 * n);
    let sb = score_bytes(sim, n);
    lemma_pos_bytes_len(sim, 2 * n);
    lemma_score_bytes_len(sim, n);
    assert(b.len() == 12 + 12 * n);
    // Header fields.
    assert(frame_tick(b) == sim.tick) by {
        assert forall|t: int| 0 <= t < 8 implies b[t] == le8(sim.tick)[t] by {}
        lemma_le8_roundtrip(sim.tick);
    }
    assert(frame_count(b) == sim.agent_count) by {
        assert forall|t: int| 0 <= t < 4 implies b[8 + t] == le4(cw)[t] by {}
        lemma_le4_roundtrip(cw);
    }
    // Every value word round-trips through its frac24 numerator.
    assert forall|q: int| 0 <= q < 2 * n implies word_at(b, 12 + 4 * q) == coord_word(sim, q) by {
        assert forall|t: int| 0 <= t < 4 implies b[12 + 4 * q + t] == le4(coord_word(sim, q))[t] by {
            lemma_pos_bytes_index(sim, 2 * n, q, t);
            assert(b[12 + 4 * q + t] == pb[4 * q + t]);
        }
        lemma_le4_roundtrip(coord_word(sim, q));
    }
    assert forall|q: int| 0 <= q < n implies word_at(b, 12 + 4 * (2 * n + q)) == score_word(
        sim,
        q,
    ) by {
        assert forall|t: int| 0 <= t < 4 implies b[12 + 4 * (2 * n + q) + t] == le4(
            score_word(sim, q),
        )[t] by {
            lemma_score_bytes_index(sim, n, q, t);
            assert(b[12 + 8 * n + 4 * q + t] == sb[4 * q + t]);
        }
        lemma_le4_roundtrip(score_word(sim, q));
    }
    assert forall|j: int| 0 <= j < 2 * n implies #[trigger] frame_value(b, j) == coord_frac24(
        sim.positions[j] as nat,
        sim.slot_scale(j) as nat,
    ) && bits_ok(word_at(b, 12 + 4 * j) as nat) by {
        let t = coord_frac24(sim.positions[j] as nat, sim.slot_scale(j) as nat);
        assert(sim.positions[j] < sim.slot_dim(j));
        lemma_coord_frac24_bound(sim.positions[j] as nat, sim.slot_scale(j) as nat);
        lemma_frac24_bits_bound(t);
        lemma_frac24_bits_roundtrip(t);
        assert(word_at(b, 12 + 4 * j) == coord_word(sim, j));
        assert(word_at(b, 12 + 4 * j) as nat == frac24_bits(t));
    }
    assert forall|i: int| 0 <= i < n implies #[trigger] frame_value(b, 2 * n + i) == score_frac24(
        sim.scores[i] as nat,
        sim.sim_dim as nat,
    ) && bits_ok(word_at(b, 12 + 4 * (2 * n + i)) as nat) by {
        let t = score_frac24(sim.scores[i] as nat, sim.sim_dim as nat);
        lemma_score_frac24_bound(sim.scores[i] as nat, sim.sim_dim as nat);
        lemma_frac24_bits_bound(t);
        lemma_frac24_bits_roundtrip(t);
        assert(word_at(b, 12 + 4 * (2 * n + i)) == score_word(sim, i));
        assert(word_at(b, 12 + 4 * (2 * n + i)) as nat == frac24_bits(t));
    }
    assert forall|q: int| 0 <= q < 3 * frame_count(b) implies #[trigger] bits_ok(
        word_at(b, 12 + 4 * q) as nat,
    ) by {
        // Mention the value at q so the per-section facts above apply.
        if q < 2 * n {
            assert(frame_value(b, q) == coord_frac24(
                sim.positions[q] as nat,
                sim.slot_scale(q) as nat,
            ));
        } else {
            assert(frame_value(b, 2 * n + (q - 2 * n)) == score_frac24(
                sim.scores[q - 2 * n] as nat,
                sim.sim_dim as nat,
            ));
            assert(word_at(b, 12 + 4 * (2 * n + (q - 2 * n))) == word_at(b, 12 + 4 * q));
        }
    }
}

/// Normalization round trip for positions: scaling the value a frame
/// carries for position slot `j` back by its axis size recovers the stored
/// coordinate, exactly on axes of size up to 2^24 and to within the grid
/// spacing on larger axes.
pub proof fn lemma_position_recovery(sim: Simulation, j: int)
    requires
        sim.wf(),
        0 <= j < 2 * sim.agent_count,
    ensures
        (frame_value(frame_spec(sim), j) * pow2(sim.slot_scale(j) as nat)) / pow2(24)
            <= sim.positions[j],
        sim.slot_scale(j) <= 24 ==> (frame_value(frame_spec(sim), j) * pow2(
            sim.slot_scale(j) as nat,
        )) / pow2(24) == sim.positions[j],
{
    lemma_frame_roundtrip(sim);
    assert(sim.positions[j] < sim.slot_dim(j));
    lemma_coord_recovery(sim.positions[j] as nat, sim.slot_scale(j) as nat);
}

/// Normalization round trip for scores: scaling the value a frame carries
/// for agent `i`'s score back by the score ceiling and rounding to the
/// nearest integer recovers the stored score.
pub proof fn lemma_score_value_recovery(sim: Simulation, i: int)
    requires
        sim.wf(),
        0 <= i < sim.agent_count,
    ensures
        (frame_value(frame_spec(sim), 2 * sim.agent_count + i) * (sim.sim_dim as nat) + pow2(23)) / pow2(24)
            == sim.scores[i],
{
    lemma_frame_roundtrip(sim);
    lemma2_to64();
    lemma_score_recovery(sim.scores[i] as nat, sim.sim_dim as nat);
}

} // verus!
