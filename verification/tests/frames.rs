use abvt::codec::{decode_frame, encode_frame};
use abvt::norm::{bits_to_frac24, frac24_to_bits};
use abvt::sim::Simulation;

fn sample_sim() -> Simulation {
    Simulation {
        agent_count: 2,
        scale_x: 1,
        scale_y: 2,
        dim_x: 2,
        dim_y: 4,
        sim_dim: 1024,
        positions: vec![1, 3, 0, 2],
        scores: vec![0, 512],
        tick: 7,
    }
}

#[test]
fn frac24_bit_patterns_exact_values() {
    // 0 encodes as all-zero bits; 2^23 / 2^24 = 0.5 is 0x3F000000;
    // 1 / 2^24 has biased exponent 103 and empty mantissa.
    assert_eq!(frac24_to_bits(0), 0);
    assert_eq!(frac24_to_bits(1 << 23), 0x3F00_0000);
    assert_eq!(frac24_to_bits(1), 103u32 << 23);
    assert_eq!(frac24_to_bits(3 << 22), 0x3F40_0000); // 0.75
}

#[test]
fn frac24_bits_roundtrip_samples() {
    for t in [0u32, 1, 2, 3, 5, 255, 4096, (1 << 23) + 1, (1 << 24) - 1] {
        assert_eq!(bits_to_frac24(frac24_to_bits(t)), Some(t));
    }
}

#[test]
fn bits_to_frac24_rejects_out_of_range() {
    assert_eq!(bits_to_frac24(0x3F80_0000), None); // 1.0 is outside [0, 1)
    assert_eq!(bits_to_frac24(0x7FC0_0000), None); // NaN
    assert_eq!(bits_to_frac24(0xBF00_0000), None); // -0.5
    assert_eq!(bits_to_frac24(0x0000_0001), None); // subnormal, off the grid
}

#[test]
fn frame_roundtrip_small() {
    let sim = sample_sim();
    let buf = encode_frame(&sim, 0);
    assert_eq!(buf.len(), 12 + 12 * 2);
    let f = decode_frame(&buf).expect("own frame must decode");
    assert_eq!(f.tick, 7);
    assert_eq!(f.positions.len(), 4);
    assert_eq!(f.scores.len(), 2);
    // frac24 numerators: coordinate / axis size, scaled by 2^24.
    assert_eq!(f.positions[0], 1 << 23); // 1/2
    assert_eq!(f.positions[1], 3 << 22); // 3/4
    assert_eq!(f.positions[2], 0);
    assert_eq!(f.positions[3], 1 << 23); // 2/4
    assert_eq!(f.scores[0], 0);
    assert_eq!(f.scores[1], 1 << 23); // 512/1024
}

#[test]
fn frame_words_are_ieee754_singles() {
    let sim = Simulation {
        agent_count: 1,
        scale_x: 8,
        scale_y: 8,
        dim_x: 256,
        dim_y: 256,
        sim_dim: 1024,
        positions: vec![37, 200],
        scores: vec![700],
        tick: 0,
    };
    let buf = encode_frame(&sim, 0);
    let wx = u32::from_le_bytes([buf[12], buf[13], buf[14], buf[15]]);
    let wy = u32::from_le_bytes([buf[16], buf[17], buf[18], buf[19]]);
    let ws = u32::from_le_bytes([buf[20], buf[21], buf[22], buf[23]]);
    let vx = f32::from_bits(wx);
    let vy = f32::from_bits(wy);
    let vs = f32::from_bits(ws);
    assert_eq!(vx, 37.0f32 / 256.0);
    assert_eq!(vy, 200.0f32 / 256.0);
    assert_eq!(vs, 700.0f32 / 1024.0);
    assert!(vx >= 0.0 && vx < 1.0);
    // Multiplying a normalized coordinate back by its axis size recovers
    // the original integer exactly on axes this small.
    assert_eq!(vx * 256.0, 37.0f32);
    assert_eq!(vy * 256.0, 200.0f32);
}

#[test]
fn score_normalization_non_power_of_two() {
    // 1/3 is not representable; the encoded word sits on the 2^-24 grid
    // just below it.
    let sim = Simulation {
        agent_count: 1,
        scale_x: 1,
        scale_y: 1,
        dim_x: 2,
        dim_y: 2,
        sim_dim: 3,
        positions: vec![0, 0],
        scores: vec![1],
        tick: 0,
    };
    let buf = encode_frame(&sim, 0);
    let ws = u32::from_le_bytes([buf[20], buf[21], buf[22], buf[23]]);
    let vs = f32::from_bits(ws);
    let exact = 1.0f64 / 3.0;
    let vsd = vs as f64;
    assert!(vsd <= exact);
    assert!(exact - vsd < 1.0 / 16_000_000.0);
}

#[test]
fn encode_ignores_capacity_hint() {
    let sim = sample_sim();
    let a = encode_frame(&sim, 0);
    let b = encode_frame(&sim, 1);
    let c = encode_frame(&sim, 100_000);
    assert_eq!(a, b);
    assert_eq!(a, c);
    assert_eq!(a.len(), 12 + 12 * sim.agent_count);
}

#[test]
fn decode_rejects_malformed() {
    // Too short for the header.
    assert!(decode_frame(&vec![]).is_none());
    assert!(decode_frame(&vec![0u8; 11]).is_none());
    // Length no longer matching the declared agent count.
    let sim = sample_sim();
    let mut long = encode_frame(&sim, 0);
    long.push(0);
    assert!(decode_frame(&long).is_none());
    let mut short = encode_frame(&sim, 0);
    short.pop();
    assert!(decode_frame(&short).is_none());
    // A value word outside [0, 1).
    let mut bad = encode_frame(&sim, 0);
    let one = 0x3F80_0000u32.to_le_bytes();
    for k in 0..4 {
        bad[12 + k] = one[k];
    }
    assert!(decode_frame(&bad).is_none());
}
