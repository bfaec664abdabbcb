//! The integer arithmetic on binary32 patterns, held against the machine's floats.

use zhixing_node::clock::later;
use zhixing_node::ieee::{
    canonicalize, exceeds_zero, is_not_a_number, reward, scores_high, step_reputation,
    within_unit_interval, ReputationStep,
};

const STEPS: [(ReputationStep, f32); 4] = [
    (ReputationStep::ConfirmedHigh, 0.02),
    (ReputationStep::MissedLow, -0.005),
    (ReputationStep::MisledHigh, -0.03),
    (ReputationStep::ConfirmedLow, 0.01),
];

/// A fixed sequence of well-mixed words.
fn words(n: usize) -> Vec<u64> {
    let mut x: u64 = 0x9e37_79b9_7f4a_7c15;
    (0..n)
        .map(|_| {
            x ^= x << 13;
            x ^= x >> 7;
            x ^= x << 17;
            x
        })
        .collect()
}

fn stepped(rep: f32, by: f32) -> f32 {
    (rep + by).max(0.05)
}

#[test]
fn reputations_move_as_the_machine_moves_them() {
    for w in words(20_000) {
        // any pattern, and patterns near the ordinary reputations
        for rep in [f32::from_bits(w as u32), 0.04 + (w % 100_000) as f32 / 40_000.0] {
            for (step, by) in STEPS {
                let expected = stepped(rep, by);
                assert_eq!(
                    step_reputation(rep.to_bits(), step),
                    expected.to_bits(),
                    "{rep} by {by}"
                );
            }
        }
    }
}

#[test]
fn reputations_at_the_edges() {
    for rep in [
        0.0f32,
        -0.0,
        0.05,
        0.03,
        0.08,
        0.00390625,
        0.0039,
        1.0,
        f32::MAX,
        f32::INFINITY,
        f32::NEG_INFINITY,
        f32::NAN,
        f32::MIN_POSITIVE,
        16_777_216.0,
        4_294_967_296.0,
    ] {
        for (step, by) in STEPS {
            assert_eq!(step_reputation(rep.to_bits(), step), stepped(rep, by).to_bits());
        }
    }
    assert_eq!(step_reputation(1.0f32.to_bits(), ReputationStep::ConfirmedHigh), 0x3f82_8f5c);
}

#[test]
fn reputations_never_fall_below_the_floor() {
    let mut rep = 1.0f32.to_bits();
    for _ in 0..100 {
        let next = step_reputation(rep, ReputationStep::MisledHigh);
        assert!(next <= rep);
        rep = next;
    }
    assert_eq!(rep, 0.05f32.to_bits());
    assert!(step_reputation(rep, ReputationStep::ConfirmedLow) > rep);
}

#[test]
fn rewards_are_what_the_machine_computes() {
    for pair in words(20_000).chunks(2) {
        let base = pair[0] >> (pair[1] % 64);
        for dk in [
            f32::from_bits(pair[1] as u32 & 0x7fff_ffff),
            (pair[1] % 1_000_000) as f32 / 500_000.0,
        ] {
            if dk > 0.0 {
                let expected = (base as f64 * dk as f64).round() as u64;
                assert_eq!(reward(base, dk.to_bits()), expected, "{base} times {dk}");
            }
        }
    }
}

#[test]
fn rewards_at_the_edges() {
    let r = |base: u64, dk: f32| reward(base, dk.to_bits());
    assert_eq!(r(8_000_000, 1.2), 9_600_000);
    assert_eq!(r(0, f32::INFINITY), 0);
    assert_eq!(r(1, f32::INFINITY), u64::MAX);
    assert_eq!(r(u64::MAX, 1.0), u64::MAX);
    assert_eq!(r(u64::MAX, 2.0), u64::MAX);
    assert_eq!(r(1, 0.5), 1); // halves are rounded away from zero
    assert_eq!(r(1, 0.49999997), 0);
    assert_eq!(r(3, 0.5), 2);
    assert_eq!(r(u64::MAX, f32::from_bits(1)), 0);
    assert_eq!(r(9_007_199_254_740_993, 1.0), 9_007_199_254_740_992); // beyond 53 bits
}

#[test]
fn comparisons_are_what_the_machine_computes() {
    let mut patterns: Vec<u32> = words(20_000).iter().map(|&w| w as u32).collect();
    for x in [0.0f32, -0.0, 1.0, 0.6, 0.599999, 0.600001, 1.0000001, f32::INFINITY] {
        patterns.push(x.to_bits());
    }
    patterns.push(0x7f80_0001);
    patterns.push(0xff80_0001);
    for bits in patterns {
        let x = f32::from_bits(bits);
        assert_eq!(is_not_a_number(bits), x.is_nan());
        assert_eq!(canonicalize(bits), if x.is_nan() { 0x7fc0_0000 } else { bits });
        assert_eq!(within_unit_interval(bits), (0.0..=1.0).contains(&x));
        assert_eq!(scores_high(bits), x > 0.6);
        assert_eq!(exceeds_zero(bits), x > 0.0);
    }
}

#[test]
fn days_are_added_as_the_machine_adds_them() {
    let mut times: Vec<f32> = words(4_000).iter().map(|&w| f32::from_bits(w as u32)).collect();
    for x in [
        0.0f32,
        -0.0,
        1.0,
        -1.0,
        0.1,
        -3.5,
        19_000.25,
        16_777_216.0,
        -16_777_215.0,
        f32::MAX,
        f32::MIN,
        f32::MIN_POSITIVE,
        f32::from_bits(1),
        f32::INFINITY,
        f32::NEG_INFINITY,
        1.8446744e19,
        -1.8446744e19,
    ] {
        times.push(x);
    }
    let mut counts: Vec<usize> = words(60).iter().map(|&w| (w >> (w % 64)) as usize).collect();
    counts.extend([0, 1, 2, 3, 10, 16_777_215, 16_777_217, 33_554_431, usize::MAX]);
    for &t in &times {
        for &n in &counts {
            let sum = t + n as f32;
            let got = f32::from_bits(later(t.to_bits(), n));
            if sum.is_nan() {
                assert!(got.is_nan());
            } else {
                assert_eq!(got.to_bits(), sum.to_bits(), "{t} plus {n}");
            }
        }
    }
    assert_eq!(later(1.0f32.to_bits(), 9), 10.0f32.to_bits());
    assert_eq!(later(f32::NAN.to_bits(), 1), 0x7fc0_0000);
}
