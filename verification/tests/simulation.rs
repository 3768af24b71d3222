use abvt::codec::decode_frame;
use abvt::driver::{Driver, Phase};
use abvt::sim::{step_agent, Simulation};

#[test]
fn update_rule_example_scenario() {
    // Agent 0 on a 2x2 grid at (1, 1): direction 0, so both deltas are the
    // bumps themselves, masked into the axis.
    assert_eq!(step_agent(0, 1, 1, 0, 0, 1, 1, 2, 2), (1, 1));
    assert_eq!(step_agent(0, 1, 1, 1, 1, 1, 1, 2, 2), (0, 0));
}

#[test]
fn update_rule_direction_bias() {
    // Direction 0: forward on both axes.
    assert_eq!(step_agent(0, 4, 4, 3, 2, 3, 3, 8, 8), (7, 6));
    // Direction 1: forward in x, backward in y.
    assert_eq!(step_agent(1, 0, 0, 2, 1, 3, 3, 8, 8), (2, 7));
    // Direction 2: backward in x, forward in y.
    assert_eq!(step_agent(2, 0, 0, 2, 1, 3, 3, 8, 8), (6, 1));
    // Direction 3: backward on both axes, with wraparound.
    assert_eq!(step_agent(3, 4, 4, 3, 2, 3, 3, 8, 8), (1, 2));
    // Direction is the index modulo 4.
    assert_eq!(step_agent(7, 4, 4, 3, 2, 3, 3, 8, 8), (1, 2));
}

#[test]
fn initial_state_within_bounds() {
    let sim = Simulation::new(64, 10, 3, 4);
    assert_eq!(sim.agent_count, 64);
    assert_eq!(sim.positions.len(), 128);
    assert_eq!(sim.scores.len(), 64);
    assert_eq!(sim.tick, 0);
    assert_eq!(sim.dim_x, 8);
    assert_eq!(sim.dim_y, 16);
    for i in 0..64 {
        assert!(sim.positions[2 * i] < 8);
        assert!(sim.positions[2 * i + 1] < 16);
        assert!(sim.scores[i] < 10);
    }
}

#[test]
fn positions_stay_in_bounds_many_ticks() {
    // The tiniest axes exercise wraparound hardest: every bump of 2 or more
    // wraps on a 2-wide axis.
    let mut sim = Simulation::new(16, 4, 1, 1);
    for _ in 0..200 {
        sim.advance();
        for j in 0..sim.positions.len() {
            assert!(sim.positions[j] < 2);
        }
    }
    assert_eq!(sim.positions.len(), 32);
}

#[test]
fn advance_leaves_scores_and_tick_alone() {
    let mut sim = Simulation::new(8, 100, 4, 4);
    let scores = sim.scores.clone();
    let tick = sim.tick;
    sim.advance();
    assert_eq!(sim.scores, scores);
    assert_eq!(sim.tick, tick);
}

#[test]
fn tick_increases_between_sent_frames() {
    let mut d = Driver::new(2, 8, 2, 2);
    let f1 = decode_frame(&d.frame()).expect("frame decodes");
    d.on_send_result(true);
    let f2 = decode_frame(&d.frame()).expect("frame decodes");
    assert_eq!(f1.tick, 0);
    assert_eq!(f2.tick, f1.tick + 1);
}

#[test]
fn frames_decode_to_agent_count_entries() {
    let mut d = Driver::new(5, 32, 4, 4);
    for _ in 0..3 {
        let f = decode_frame(&d.frame()).expect("frame decodes");
        assert_eq!(f.positions.len(), 10);
        assert_eq!(f.scores.len(), 5);
        d.on_send_result(true);
    }
}

#[test]
fn driver_terminates_on_fifth_send_failure() {
    let mut d = Driver::new(4, 16, 3, 3);
    let mut successful_sends = 0u32;
    for k in 1..=5u32 {
        assert_eq!(d.phase, Phase::Running);
        let frame = d.frame();
        assert!(!frame.is_empty());
        let before = d.sim.positions.clone();
        let ok = k != 5; // the transport fails on the fifth call
        d.on_send_result(ok);
        if ok {
            successful_sends += 1;
            assert_eq!(d.sim.tick, k as u64);
        } else {
            // No fifth update: the state is exactly as before the failure.
            assert_eq!(d.sim.positions, before);
            assert_eq!(d.phase, Phase::Terminated);
        }
    }
    assert_eq!(successful_sends, 4);
    assert_eq!(d.sim.tick, 4); // exactly four updates happened
}
