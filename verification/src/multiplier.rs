//! The multiplier model: pure integer functions mapping elapsed answer time
//! and problem complexity to a point multiplier.
//!
//! Scaled quantities are held in thousandths ("milli" units): a time
//! multiplier of `5.0` is `5000`, a complexity multiplier of `0.602` is
//! `602`. The base-10 logarithm of the operand sum is computed to the same
//! precision by a fixed-point mantissa-squaring routine.

use vstd::prelude::*;

use crate::round::{Op, Problem, Round, RoundView};

verus! {

/// Breakpoints of the time multiplier, in nanoseconds.
pub const BONUS_NS: u64 = 250_000_000;

pub const TIMEOUT_NS: u64 = 20_000_000_000;

pub const SLOW_NS: u64 = 10_000_000_000;

pub const LAZY_NS: u64 = 5_000_000_000;

/// The time multiplier in milli units, as a function of the precise elapsed
/// time in nanoseconds:
/// below a quarter second a bonus of 5.0; above twenty seconds a timeout
/// (0); above ten seconds 0.1; above five seconds 1.0; otherwise the
/// inverse `1/t` of the elapsed time in seconds, truncated to milli units.
pub open spec fn time_multiplier_spec(ns: u64) -> u64 {
    if ns < BONUS_NS {
        5000
    } else if ns > TIMEOUT_NS {
        0
    } else if ns > SLOW_NS {
        100
    } else if ns > LAZY_NS {
        1000
    } else {
        (1_000_000_000_000u64 / ns) as u64
    }
}

/// Computes the time multiplier (milli units) for an elapsed time in
/// nanoseconds.
pub fn time_multiplier(ns: u64) -> (tm: u64)
    ensures
        tm == time_multiplier_spec(ns),
        tm <= 5000,
{
    if ns < BONUS_NS {
        5000
    } else if ns > TIMEOUT_NS {
        0
    } else if ns > SLOW_NS {
        100
    } else if ns > LAZY_NS {
        1000
    } else {
        let q = 1_000_000_000_000u64 / ns;
        proof {
            vstd::arithmetic::div_mod::lemma_div_is_ordered_by_denominator(
                1_000_000_000_000,
                BONUS_NS as int,
                ns as int,
            );
        }
        q
    }
}

/// The time multiplier is never negative, and it never exceeds the bonus
/// value awarded below the quarter-second breakpoint.
pub proof fn lemma_time_multiplier_range(ns: u64)
    ensures
        0 <= time_multiplier_spec(ns) <= 5000,
{
    if ns >= BONUS_NS && ns <= LAZY_NS {
        vstd::arithmetic::div_mod::lemma_div_is_ordered_by_denominator(
            1_000_000_000_000,
            BONUS_NS as int,
            ns as int,
        );
    }
}

/// Away from the quarter-second bonus region, the time multiplier never
/// increases as the elapsed time grows — except across the five-second
/// breakpoint, where the model deliberately jumps from the inverse-decay
/// regime back up to 1.0. The hypothesis keeps the two times on one side
/// of that breakpoint.
pub proof fn lemma_time_multiplier_monotone(ns1: u64, ns2: u64)
    requires
        BONUS_NS <= ns1 <= ns2 <= TIMEOUT_NS,
        ns2 <= LAZY_NS || LAZY_NS < ns1,
    ensures
        time_multiplier_spec(ns1) >= time_multiplier_spec(ns2),
{
    if ns2 <= LAZY_NS {
        vstd::arithmetic::div_mod::lemma_div_is_ordered_by_denominator(
            1_000_000_000_000,
            ns1 as int,
            ns2 as int,
        );
    }
}

/// The time multiplier is either zero (past the timeout breakpoint) or at
/// least 0.1.
pub proof fn lemma_time_multiplier_floor(ns: u64)
    ensures
        time_multiplier_spec(ns) == 0 <==> ns > TIMEOUT_NS,
        ns <= TIMEOUT_NS ==> time_multiplier_spec(ns) >= 100,
{
    if BONUS_NS <= ns && ns <= LAZY_NS {
        vstd::arithmetic::div_mod::lemma_div_is_ordered_by_denominator(
            1_000_000_000_000,
            ns as int,
            LAZY_NS as int,
        );
    }
}

/// Fixed-point scale of the logarithm mantissa: 2^60.
pub const LOG_SCALE: u128 = 1152921504606846976;

/// 10 raised to the power `e`.
pub open spec fn pow10(e: nat) -> nat
    decreases e,
{
    if e == 0 {
        1
    } else {
        10 * pow10((e - 1) as nat)
    }
}

pub proof fn lemma_pow10_pos(e: nat)
    ensures
        pow10(e) >= 1,
    decreases e,
{
    if e > 0 {
        lemma_pow10_pos((e - 1) as nat);
    }
}

pub proof fn lemma_pow10_increases(e1: nat, e2: nat)
    requires
        e1 <= e2,
    ensures
        pow10(e1) <= pow10(e2),
    decreases e2,
{
    if e1 < e2 {
        lemma_pow10_increases(e1, (e2 - 1) as nat);
        lemma_pow10_pos((e2 - 1) as nat);
    }
}

/// The number of decimal digits of `n`, less one: the integer part of
/// log10(n).
pub open spec fn log10_floor(n: nat) -> nat
    recommends
        n >= 1,
    decreases n,
{
    if n < 10 {
        0
    } else {
        1 + log10_floor(n / 10)
    }
}

/// The integer part of the logarithm is characterised by the two
/// enclosing powers of ten.
pub proof fn lemma_log10_floor_unique(n: nat, d: nat)
    requires
        pow10(d) <= n < pow10(d + 1),
    ensures
        log10_floor(n) == d,
    decreases d,
{
    if d == 0 {
        assert(pow10(1) == 10) by {
            reveal_with_fuel(pow10, 2);
        }
    } else {
        assert(pow10(d) >= 10) by {
            lemma_pow10_increases(1, d);
            assert(pow10(1) == 10) by {
                reveal_with_fuel(pow10, 2);
            }
        }
        assert(n / 10 >= pow10((d - 1) as nat)) by {
            vstd::arithmetic::div_mod::lemma_div_is_ordered(pow10(d) as int, n as int, 10);
            vstd::arithmetic::div_mod::lemma_div_multiples_vanish(
                pow10((d - 1) as nat) as int,
                10,
            );
        }
        assert(n / 10 < pow10(d)) by {
            assert(n < 10 * pow10(d));
            vstd::arithmetic::div_mod::lemma_multiply_divide_lt(n as int, 10, pow10(d) as int);
        }
        lemma_log10_floor_unique(n / 10, (d - 1) as nat);
    }
}

/// If `n` is below `pow10(e)`, its logarithm's integer part is below `e`.
pub proof fn lemma_log10_floor_below(n: nat, e: nat)
    requires
        1 <= n < pow10(e),
        1 <= e,
    ensures
        log10_floor(n) < e,
    decreases e,
{
    if n < 10 {
    } else {
        assert(e >= 2) by {
            if e < 2 {
                assert(pow10(1) == 10) by {
                    reveal_with_fuel(pow10, 2);
                }
            }
        }
        assert(n / 10 < pow10((e - 1) as nat)) by {
            vstd::arithmetic::div_mod::lemma_multiply_divide_lt(
                n as int,
                10,
                pow10((e - 1) as nat) as int,
            );
        }
        assert(n / 10 >= 1) by {
            vstd::arithmetic::div_mod::lemma_div_is_ordered(10, n as int, 10);
        }
        lemma_log10_floor_below(n / 10, (e - 1) as nat);
    }
}

/// One squaring step of the fixed-point mantissa `x`, which stands for the
/// real number `x / LOG_SCALE` in `[1, 10)`: the square is renormalised
/// back into `[1, 10)`, and the emitted bit records whether it had reached
/// ten.
pub open spec fn mantissa_step(x: nat) -> (nat, nat) {
    let sq = (x * x) / (LOG_SCALE as nat);
    if sq >= 10 * (LOG_SCALE as nat) {
        (1nat, sq / 10)
    } else {
        (0nat, sq)
    }
}

/// The first `k` binary fraction bits of log10 of the mantissa `x`,
/// packed into one integer with the first bit highest.
pub open spec fn mantissa_bits(x: nat, k: nat) -> nat
    decreases k,
{
    if k == 0 {
        0
    } else {
        mantissa_step(x).0 * vstd::arithmetic::power2::pow2((k - 1) as nat) + mantissa_bits(
            mantissa_step(x).1,
            (k - 1) as nat,
        )
    }
}

pub proof fn lemma_mantissa_bits_bound(x: nat, k: nat)
    ensures
        mantissa_bits(x, k) < vstd::arithmetic::power2::pow2(k),
    decreases k,
{
    vstd::arithmetic::power2::lemma_pow2_pos(k);
    if k > 0 {
        lemma_mantissa_bits_bound(mantissa_step(x).1, (k - 1) as nat);
        vstd::arithmetic::power2::lemma_pow2_unfold(k);
    }
}

/// log10(n) in milli units: the integer part is exact, the fraction comes
/// from ten binary mantissa bits rounded half-up to thousandths.
pub open spec fn milli_log10_spec(n: nat) -> nat
    recommends
        n >= 1,
{
    let d = log10_floor(n);
    let x0 = (n * (LOG_SCALE as nat)) / pow10(d);
    1000 * d + (mantissa_bits(x0, 10) * 1000 + 512) / 1024
}

pub proof fn lemma_milli_log10_range(n: nat)
    requires
        1 <= n,
    ensures
        1000 * log10_floor(n) <= milli_log10_spec(n) < 1000 * (log10_floor(n) + 1),
{
    let d = log10_floor(n);
    let x0 = (n * (LOG_SCALE as nat)) / pow10(d);
    let bits = mantissa_bits(x0, 10);
    assert(bits < 1024) by {
        lemma_mantissa_bits_bound(x0, 10);
        vstd::arithmetic::power2::lemma2_to64();
    }
    assert((bits * 1000 + 512) / 1024 < 1000) by {
        assert(bits * 1000 + 512 < 1024000) by (nonlinear_arith)
            requires
                bits < 1024,
        ;
        vstd::arithmetic::div_mod::lemma_multiply_divide_lt(
            (bits * 1000 + 512) as int,
            1024,
            1000,
        );
    }
}

/// Every power of ten dominates the same power of two.
pub proof fn lemma_pow10_ge_pow2(e: nat)
    ensures
        pow10(e) >= vstd::arithmetic::power2::pow2(e),
    decreases e,
{
    vstd::arithmetic::power2::lemma2_to64();
    if e > 0 {
        lemma_pow10_ge_pow2((e - 1) as nat);
        vstd::arithmetic::power2::lemma_pow2_unfold(e);
        vstd::arithmetic::power2::lemma_pow2_pos((e - 1) as nat);
        assert(pow10(e) == 10 * pow10((e - 1) as nat));
        assert(vstd::arithmetic::power2::pow2(e) == 2 * vstd::arithmetic::power2::pow2(
            (e - 1) as nat,
        ));
    }
}

/// A power of ten that fits in 64 bits has a small exponent.
proof fn lemma_pow10_small_exponent(e: nat)
    requires
        pow10(e) <= u64::MAX,
    ensures
        e <= 63,
{
    if e > 63 {
        lemma_pow10_increases(64, e);
        lemma_pow10_ge_pow2(64);
        vstd::arithmetic::power2::lemma2_to64_rest();
    }
}

/// Computes log10(n) in milli units.
pub fn milli_log10(n: u64) -> (r: u64)
    requires
        1 <= n,
    ensures
        r == milli_log10_spec(n as nat),
{
    // Integer part: find the largest power of ten not above n.
    let mut d: u64 = 0;
    let mut p: u64 = 1;
    let mut m: u64 = n;
    while m >= 10
        invariant
            1 <= n,
            p == pow10(d as nat),
            1 <= p <= n,
            m == n as int / p as int,
            d <= 63,
        decreases m,
    {
        proof {
            vstd::arithmetic::div_mod::lemma_fundamental_div_mod(n as int, p as int);
            vstd::arithmetic::div_mod::lemma_mod_division_less_than_divisor(n as int, p as int);
            vstd::arithmetic::mul::lemma_mul_is_commutative(p as int, m as int);
            vstd::arithmetic::mul::lemma_mul_inequality(10, m as int, p as int);
            vstd::arithmetic::div_mod::lemma_div_denominator(n as int, p as int, 10);
            assert(pow10((d + 1) as nat) == 10 * pow10(d as nat));
            lemma_pow10_small_exponent((d + 1) as nat);
        }
        m = m / 10;
        p = p * 10;
        d = d + 1;
    }
    proof {
        vstd::arithmetic::div_mod::lemma_fundamental_div_mod(n as int, p as int);
        vstd::arithmetic::div_mod::lemma_mod_division_less_than_divisor(n as int, p as int);
        vstd::arithmetic::mul::lemma_mul_is_commutative(p as int, m as int);
        vstd::arithmetic::mul::lemma_mul_inequality(m as int, 9, p as int);
        assert(n < 10 * p);
        assert(pow10((d + 1) as nat) == 10 * pow10(d as nat));
        lemma_log10_floor_unique(n as nat, d as nat);
        lemma_pow10_small_exponent(d as nat);
    }
    // Fixed-point mantissa x0 = n / 10^d, scaled by LOG_SCALE.
    let x0: u128 = ((n as u128) * LOG_SCALE) / (p as u128);
    proof {
        vstd::arithmetic::mul::lemma_mul_upper_bound(
            n as int,
            u64::MAX as int,
            LOG_SCALE as int,
            LOG_SCALE as int,
        );
        assert(x0 >= LOG_SCALE) by {
            vstd::arithmetic::mul::lemma_mul_inequality(p as int, n as int, LOG_SCALE as int);
            vstd::arithmetic::mul::lemma_mul_is_commutative(p as int, LOG_SCALE as int);
            vstd::arithmetic::div_mod::lemma_div_is_ordered(
                (p as int) * (LOG_SCALE as int),
                (n as int) * (LOG_SCALE as int),
                p as int,
            );
            vstd::arithmetic::div_mod::lemma_div_multiples_vanish(LOG_SCALE as int, p as int);
        }
        assert(x0 < 10 * LOG_SCALE) by {
            assert((n as int) * (LOG_SCALE as int) < (p as int) * (10 * LOG_SCALE as int))
                by (nonlinear_arith)
                requires
                    n < 10 * (p as int),
                    LOG_SCALE > 0,
                    p >= 1,
            ;
            vstd::arithmetic::div_mod::lemma_multiply_divide_lt(
                (n as int) * (LOG_SCALE as int),
                p as int,
                10 * (LOG_SCALE as int),
            );
        }
    }
    let ghost x0n: nat = x0 as nat;
    // Ten mantissa-squaring iterations produce ten binary fraction bits.
    let mut x: u128 = x0;
    let mut f: u64 = 0;
    let mut i: u64 = 0;
    proof {
        vstd::arithmetic::power2::lemma2_to64();
    }
    while i < 10
        invariant
            i <= 10,
            LOG_SCALE <= x < 10 * LOG_SCALE,
            f < vstd::arithmetic::power2::pow2(i as nat),
            mantissa_bits(x0n, 10) == f * vstd::arithmetic::power2::pow2((10 - i) as nat)
                + mantissa_bits(x as nat, (10 - i) as nat),
        decreases 10 - i,
    {
        proof {
            vstd::arithmetic::power2::lemma2_to64();
            if i < 9 {
                vstd::arithmetic::power2::lemma_pow2_strictly_increases(i as nat, 9);
            }
            assert((x as int) * (x as int) < 100 * (LOG_SCALE as int) * (LOG_SCALE as int))
                by (nonlinear_arith)
                requires
                    0 <= x < 10 * (LOG_SCALE as int),
            ;
        }
        let sq: u128 = (x * x) / LOG_SCALE;
        proof {
            assert(sq >= LOG_SCALE) by {
                assert((x as int) * (x as int) >= (LOG_SCALE as int) * (LOG_SCALE as int))
                    by (nonlinear_arith)
                    requires
                        x >= LOG_SCALE as int,
                ;
                vstd::arithmetic::div_mod::lemma_div_is_ordered(
                    (LOG_SCALE as int) * (LOG_SCALE as int),
                    (x as int) * (x as int),
                    LOG_SCALE as int,
                );
                vstd::arithmetic::div_mod::lemma_div_multiples_vanish(
                    LOG_SCALE as int,
                    LOG_SCALE as int,
                );
            }
        }
        let ghost prev_x: nat = x as nat;
        let ghost prev_f: u64 = f;
        let ghost k: nat = (10 - i) as nat;
        let b: u64;
        if sq >= 10 * LOG_SCALE {
            b = 1;
            f = f * 2 + 1;
            x = sq / 10;
            proof {
                vstd::arithmetic::div_mod::lemma_div_is_ordered(
                    10 * (LOG_SCALE as int),
                    sq as int,
                    10,
                );
                vstd::arithmetic::div_mod::lemma_div_multiples_vanish(LOG_SCALE as int, 10);
                vstd::arithmetic::div_mod::lemma_multiply_divide_lt(
                    sq as int,
                    10,
                    10 * (LOG_SCALE as int),
                );
            }
        } else {
            b = 0;
            f = f * 2;
            x = sq;
        }
        proof {
            vstd::arithmetic::power2::lemma_pow2_unfold(k);
            assert(mantissa_step(prev_x) == (b as nat, x as nat));
            assert(mantissa_bits(prev_x, k) == (b as nat) * vstd::arithmetic::power2::pow2(
                (k - 1) as nat,
            ) + mantissa_bits(x as nat, (k - 1) as nat));
            assert((f as int) * vstd::arithmetic::power2::pow2((k - 1) as nat) == (prev_f as int)
                * vstd::arithmetic::power2::pow2(k) + (b as int)
                * vstd::arithmetic::power2::pow2((k - 1) as nat)) by (nonlinear_arith)
                requires
                    f == 2 * prev_f + b,
                    vstd::arithmetic::power2::pow2(k) == 2 * vstd::arithmetic::power2::pow2(
                        (k - 1) as nat,
                    ),
            ;
        }
        i = i + 1;
    }
    proof {
        vstd::arithmetic::power2::lemma2_to64();
        assert(i == 10);
        assert((10 - i) as nat == 0);
        assert(mantissa_bits(x as nat, 0) == 0);
        assert(mantissa_bits(x0n, 10) == f * vstd::arithmetic::power2::pow2(0));
        assert(mantissa_bits(x0n, 10) == f);
        assert(f * 1000 + 512 < 1024000) by (nonlinear_arith)
            requires
                f < 1024,
        ;
    }
    let frac: u64 = (f * 1000 + 512) / 1024;
    proof {
        assert(frac < 1000) by {
            vstd::arithmetic::div_mod::lemma_multiply_divide_lt(
                (f * 1000 + 512) as int,
                1024,
                1000,
            );
        }
    }
    1000 * d + frac
}

/// A mantissa that is an exact one contributes no fraction bits.
proof fn lemma_mantissa_bits_one(k: nat)
    ensures
        mantissa_bits(LOG_SCALE as nat, k) == 0,
    decreases k,
{
    if k > 0 {
        vstd::arithmetic::div_mod::lemma_div_multiples_vanish(LOG_SCALE as int, LOG_SCALE as int);
        assert(mantissa_step(LOG_SCALE as nat) == (0nat, LOG_SCALE as nat));
        lemma_mantissa_bits_one((k - 1) as nat);
    }
}

/// The milli logarithm is exact at powers of ten.
pub proof fn lemma_milli_log10_exact_at_powers(d: nat)
    ensures
        milli_log10_spec(pow10(d)) == 1000 * d,
{
    let n = pow10(d);
    lemma_pow10_pos(d);
    assert(pow10(d + 1) == 10 * pow10(d));
    lemma_log10_floor_unique(n, d);
    assert((n * (LOG_SCALE as nat)) / pow10(d) == LOG_SCALE as nat) by {
        vstd::arithmetic::div_mod::lemma_div_multiples_vanish(LOG_SCALE as int, n as int);
    }
    lemma_mantissa_bits_one(10);
    assert((0 * 1000 + 512) / 1024 == 0) by {
        vstd::arithmetic::div_mod::lemma_basic_div(512, 1024);
    }
}

/// For a mantissa of at least two, the first two squarings already force
/// the packed fraction bits to a quarter of their range.
proof fn lemma_mantissa_bits_quarter(x: nat)
    requires
        2 * (LOG_SCALE as nat) <= x < 10 * (LOG_SCALE as nat),
    ensures
        mantissa_bits(x, 10) >= 256,
{
    let s = LOG_SCALE as nat;
    let sq = (x * x) / s;
    assert(sq >= 4 * s) by {
        assert(x * x >= s * (4 * s)) by (nonlinear_arith)
            requires
                x >= 2 * s,
                s > 0,
        ;
        vstd::arithmetic::div_mod::lemma_div_is_ordered(
            (s * (4 * s)) as int,
            (x * x) as int,
            s as int,
        );
        vstd::arithmetic::div_mod::lemma_div_multiples_vanish((4 * s) as int, s as int);
    }
    vstd::arithmetic::power2::lemma2_to64();
    if sq >= 10 * s {
        assert(mantissa_step(x).0 == 1);
        assert(mantissa_bits(x, 10) >= 512);
    } else {
        let x1 = sq;
        assert(mantissa_step(x) == (0nat, x1));
        let sq1 = (x1 * x1) / s;
        assert(sq1 >= 16 * s) by {
            assert(x1 * x1 >= s * (16 * s)) by (nonlinear_arith)
                requires
                    x1 >= 4 * s,
                    s > 0,
            ;
            vstd::arithmetic::div_mod::lemma_div_is_ordered(
                (s * (16 * s)) as int,
                (x1 * x1) as int,
                s as int,
            );
            vstd::arithmetic::div_mod::lemma_div_multiples_vanish((16 * s) as int, s as int);
        }
        assert(mantissa_step(x1).0 == 1);
        assert(mantissa_bits(x1, 9) >= 256);
        assert(mantissa_bits(x, 10) == mantissa_bits(x1, 9));
    }
}

/// Any argument of at least two has a milli logarithm of at least 250.
pub proof fn lemma_milli_log10_quarter(n: nat)
    requires
        2 <= n,
    ensures
        milli_log10_spec(n) >= 250,
{
    let d = log10_floor(n);
    if d == 0 {
        let s = LOG_SCALE as nat;
        assert(n < 10);
        let x0 = (n * s) / pow10(0);
        assert(x0 == n * s) by {
            vstd::arithmetic::div_mod::lemma_div_basics_2((n * s) as int);
        }
        assert(2 * s <= x0 < 10 * s) by {
            vstd::arithmetic::mul::lemma_mul_inequality(2, n as int, s as int);
            vstd::arithmetic::mul::lemma_mul_inequality(n as int, 9, s as int);
        }
        lemma_mantissa_bits_quarter(x0);
        let bits = mantissa_bits(x0, 10);
        assert((bits * 1000 + 512) / 1024 >= 250) by {
            vstd::arithmetic::mul::lemma_mul_inequality(256, bits as int, 1000);
            vstd::arithmetic::div_mod::lemma_div_is_ordered(
                256512,
                (bits * 1000 + 512) as int,
                1024,
            );
            vstd::arithmetic::div_mod::lemma_fundamental_div_mod_converse(256512, 1024, 250, 512);
        }
    } else {
        lemma_milli_log10_range(n);
    }
}

/// Weight of each operator in the complexity multiplier: division is
/// judged hardest, addition easiest.
pub open spec fn op_weight_spec(op: Op) -> u64 {
    match op {
        Op::Add => 2,
        Op::Sub => 3,
        Op::Mul => 4,
        Op::Div => 8,
    }
}

/// The complexity multiplier in milli units: log10 of the operand sum,
/// times the operator weight.
pub open spec fn complexity_multiplier_spec(p: Problem) -> nat {
    (op_weight_spec(p.op) as nat) * milli_log10_spec((p.a + p.b) as nat)
}

/// For well-formed problems the complexity multiplier lies between 0.5
/// and 80.
pub proof fn lemma_complexity_multiplier_range(p: Problem)
    requires
        p.wf(),
    ensures
        500 <= complexity_multiplier_spec(p) <= 79992,
{
    let s = (p.a + p.b) as nat;
    lemma_milli_log10_quarter(s);
    lemma_milli_log10_range(s);
    assert(pow10(10) == 10_000_000_000) by {
        reveal_with_fuel(pow10, 11);
    }
    lemma_log10_floor_below(s, 10);
    let w = op_weight_spec(p.op) as nat;
    let l = milli_log10_spec(s);
    assert(l <= 9999);
    assert(500 <= w * l && w * l <= 79992) by (nonlinear_arith)
        requires
            2 <= w <= 8,
            250 <= l <= 9999,
    ;
}

/// The full multiplier: ten times the product of the time and complexity
/// multipliers, carried in milli units and rounded half-up to an integer.
pub open spec fn full_multiplier_spec(r: RoundView) -> nat {
    (10 * (time_multiplier_spec(r.elapsed_ns()) as nat) * complexity_multiplier_spec(r.problem)
        + 500_000) / 1_000_000
}

/// The full multiplier is bounded, and it is zero exactly when the time
/// multiplier is: when the elapsed time exceeds the timeout breakpoint.
pub proof fn lemma_full_multiplier_zero_iff_timeout(r: RoundView)
    requires
        r.wf(),
    ensures
        full_multiplier_spec(r) <= 4000,
        full_multiplier_spec(r) == 0 <==> r.elapsed_ns() > TIMEOUT_NS,
        full_multiplier_spec(r) == 0 <==> time_multiplier_spec(r.elapsed_ns()) == 0,
{
    let tm = time_multiplier_spec(r.elapsed_ns()) as nat;
    let cm = complexity_multiplier_spec(r.problem);
    lemma_time_multiplier_range(r.elapsed_ns());
    lemma_time_multiplier_floor(r.elapsed_ns());
    lemma_complexity_multiplier_range(r.problem);
    assert(10 * tm * cm <= 3_999_600_000) by (nonlinear_arith)
        requires
            tm <= 5000,
            cm <= 79992,
    ;
    assert((10 * tm * cm + 500_000) / 1_000_000 <= 4000) by {
        vstd::arithmetic::div_mod::lemma_multiply_divide_lt(
            (10 * tm * cm + 500_000) as int,
            1_000_000,
            4001,
        );
    }
    if tm == 0 {
        assert(10 * tm * cm == 0) by (nonlinear_arith)
            requires
                tm == 0,
        ;
        assert((500_000int) / 1_000_000 == 0) by {
            vstd::arithmetic::div_mod::lemma_basic_div(500_000, 1_000_000);
        }
    } else {
        assert(tm >= 100);
        assert(10 * tm * cm >= 500_000) by (nonlinear_arith)
            requires
                tm >= 100,
                cm >= 500,
        ;
        assert((10 * tm * cm + 500_000) / 1_000_000 >= 1) by {
            vstd::arithmetic::div_mod::lemma_div_is_ordered(
                1_000_000,
                (10 * tm * cm + 500_000) as int,
                1_000_000,
            );
            vstd::arithmetic::div_mod::lemma_div_by_self(1_000_000);
        }
    }
}

/// Computes the complexity multiplier (milli units) of the round's
/// problem.
pub fn complexity_multiplier(r: &Round) -> (cm: u64)
    requires
        r.wf(),
    ensures
        cm == complexity_multiplier_spec(r.problem),
        500 <= cm <= 79992,
{
    let s: i64 = r.problem.a + r.problem.b;
    let l: u64 = milli_log10(s as u64);
    let w: u64 = match r.problem.op {
        Op::Add => 2,
        Op::Sub => 3,
        Op::Mul => 4,
        Op::Div => 8,
    };
    proof {
        lemma_complexity_multiplier_range(r.problem);
    }
    w * l
}

/// Computes the full multiplier of a round. A result of exactly zero
/// signals a timeout to the caller.
pub fn full_multiplier(r: &Round) -> (m: u64)
    requires
        r.wf(),
    ensures
        m == full_multiplier_spec(r@),
        m <= 4000,
        m == 0 <==> r@.elapsed_ns() > TIMEOUT_NS,
{
    let elapsed: u64 = r.end - r.start;
    let tm: u64 = time_multiplier(elapsed);
    let cm: u64 = complexity_multiplier(r);
    proof {
        lemma_full_multiplier_zero_iff_timeout(r@);
        assert(10 * (tm as int) * (cm as int) <= 3_999_600_000) by (nonlinear_arith)
            requires
                tm <= 5000,
                cm <= 79992,
        ;
    }
    (10 * tm * cm + 500_000) / 1_000_000
}

} // verus!
