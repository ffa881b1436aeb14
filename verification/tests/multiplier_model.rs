use arith_drill::multiplier::{complexity_multiplier, full_multiplier, milli_log10, time_multiplier};
use arith_drill::round::{Op, Problem, Round};

fn round_at(a: i64, b: i64, op: Op, elapsed_ns: u64) -> Round {
    Round { problem: Problem { a, b, op }, input: Vec::new(), start: 0, end: elapsed_ns }
}

#[test]
fn time_multiplier_branches() {
    // below a quarter second: the bonus
    assert_eq!(time_multiplier(100_000_000), 5000);
    assert_eq!(time_multiplier(249_999_999), 5000);
    // the inverse-decay regime, in milli units
    assert_eq!(time_multiplier(250_000_000), 4000);
    assert_eq!(time_multiplier(1_000_000_000), 1000);
    assert_eq!(time_multiplier(3_000_000_000), 333);
    assert_eq!(time_multiplier(5_000_000_000), 200);
    // above five seconds: back up to 1.0
    assert_eq!(time_multiplier(5_000_000_001), 1000);
    assert_eq!(time_multiplier(10_000_000_000), 1000);
    // above ten seconds: 0.1
    assert_eq!(time_multiplier(10_000_000_001), 100);
    assert_eq!(time_multiplier(20_000_000_000), 100);
    // past the timeout breakpoint: zero
    assert_eq!(time_multiplier(20_000_000_001), 0);
    assert_eq!(time_multiplier(u64::MAX), 0);
}

#[test]
fn time_multiplier_never_negative_and_bounded() {
    for ns in [0u64, 1, 249_999_999, 250_000_000, 999_999_999, 7_000_000_000, 30_000_000_000] {
        let tm = time_multiplier(ns);
        assert!(tm <= 5000);
    }
}

#[test]
fn time_multiplier_monotone_on_each_regime() {
    // non-increasing within the inverse regime and within the slow regimes
    let probes = [250_000_000u64, 400_000_000, 1_000_000_000, 5_000_000_000];
    for w in probes.windows(2) {
        assert!(time_multiplier(w[0]) >= time_multiplier(w[1]));
    }
    let slow = [5_000_000_001u64, 10_000_000_000, 10_000_000_001, 20_000_000_000];
    for w in slow.windows(2) {
        assert!(time_multiplier(w[0]) >= time_multiplier(w[1]));
    }
}

#[test]
fn milli_log10_values() {
    assert_eq!(milli_log10(1), 0);
    assert_eq!(milli_log10(2), 301);
    assert_eq!(milli_log10(5), 698);
    assert_eq!(milli_log10(7), 845);
    assert_eq!(milli_log10(10), 1000);
    assert_eq!(milli_log10(100), 2000);
    assert_eq!(milli_log10(1000), 3000);
    assert_eq!(milli_log10(999), 2999);
}

#[test]
fn complexity_weights() {
    // log10(7 + 3) is exactly one, so the weights show through directly
    assert_eq!(complexity_multiplier(&round_at(7, 3, Op::Add, 0)), 2000);
    assert_eq!(complexity_multiplier(&round_at(7, 3, Op::Sub, 0)), 3000);
    assert_eq!(complexity_multiplier(&round_at(7, 3, Op::Mul, 0)), 4000);
    assert_eq!(complexity_multiplier(&round_at(7, 3, Op::Div, 0)), 8000);
}

#[test]
fn full_multiplier_zero_exactly_on_timeout() {
    // at the breakpoint the round still scores; past it, exactly zero
    assert!(full_multiplier(&round_at(7, 3, Op::Add, 20_000_000_000)) > 0);
    assert_eq!(full_multiplier(&round_at(7, 3, Op::Add, 20_000_000_001)), 0);
    assert_eq!(full_multiplier(&round_at(1, 1, Op::Add, 21_000_000_000)), 0);
    // even the smallest problem at the slowest non-timeout pace scores one
    assert_eq!(full_multiplier(&round_at(1, 1, Op::Add, 15_000_000_000)), 1);
}

#[test]
fn full_multiplier_values() {
    // the scenario multiplier: bonus region, addition of 7 and 3
    assert_eq!(full_multiplier(&round_at(7, 3, Op::Add, 100_000_000)), 100);
    // division is weighted heaviest
    assert_eq!(full_multiplier(&round_at(99, 1, Op::Div, 1_000_000_000)), 160);
}
