//! IEEE-754 binary32 values as bit patterns.
//!
//! Scores, reputations, times and delta-K values are binary32 numbers. Consensus
//! needs every node to compute the same bits, so the library holds them as `u32`
//! bit patterns and does the little arithmetic it needs on integers.

use vstd::arithmetic::div_mod::*;
use vstd::arithmetic::power2::*;
use vstd::prelude::*;

verus! {

/// Positive infinity; the patterns above it, up to the sign bit, are NaNs.
pub const INFINITY: u32 = 0x7f80_0000;

/// The one NaN pattern that is ever written out.
pub const CANONICAL_NAN: u32 = 0x7fc0_0000;

/// The number one.
pub const ONE: u32 = 0x3f80_0000;

/// Negative zero, which compares equal to zero.
pub const NEGATIVE_ZERO: u32 = 0x8000_0000;

/// The binary32 number nearest to 0.6.
pub const HIGH_SCORE: u32 = 0x3f19_999a;

/// The binary32 number nearest to 0.05, below which no reputation falls.
pub const REPUTATION_FLOOR: u32 = 0x3d4c_cccd;

/// The binary32 number nearest to 0.05, in units of 2^-31.
pub const FLOOR_UNITS: u32 = 0x0666_6668;

/// Whether a bit pattern is a NaN.
pub open spec fn is_nan(bits: u32) -> bool {
    bits % 0x8000_0000 > INFINITY
}

/// The pattern itself, or the canonical one for a NaN.
pub open spec fn canonical(bits: u32) -> u32 {
    if is_nan(bits) {
        CANONICAL_NAN
    } else {
        bits
    }
}

/// Whether a value lies in the closed interval from zero to one.
pub open spec fn in_unit_interval(bits: u32) -> bool {
    bits <= ONE || bits == NEGATIVE_ZERO
}

/// Whether a value exceeds 0.6.
pub open spec fn is_high_score(bits: u32) -> bool {
    HIGH_SCORE < bits <= INFINITY
}

/// Whether a value exceeds zero.
pub open spec fn is_positive(bits: u32) -> bool {
    0 < bits <= INFINITY
}

/// The power of two, counted from 2^-149, that scales the significand of a
/// non-negative finite value.
pub open spec fn exponent(bits: u32) -> nat {
    if bits < 0x80_0000 {
        0
    } else {
        (bits / 0x80_0000 - 1) as nat
    }
}

/// The significand of a non-negative finite value, which is
/// `significand(bits) * 2^(exponent(bits) - 149)`.
pub open spec fn significand(bits: u32) -> nat {
    (bits - exponent(bits) * 0x80_0000) as nat
}

/// How many low bits `n` has beyond `p` significant ones.
pub open spec fn excess(n: nat, p: nat) -> nat
    decreases n,
{
    if n < pow2(p) {
        0
    } else {
        proof {
            lemma_pow2_pos(p);
        }
        1 + excess(n / 2, p)
    }
}

/// `n` rounded to `p` significant bits, to nearest and ties to even, in units of
/// `2^excess(n, p)`.
pub open spec fn rounded(n: nat, p: nat) -> nat {
    let unit = pow2(excess(n, p));
    let q = n / unit;
    let r = n % unit;
    if 2 * r > unit || (2 * r == unit && q % 2 == 1) {
        q + 1
    } else {
        q
    }
}

/// The nearest number with `p` significant bits, ties to even.
pub open spec fn nearest(n: nat, p: nat) -> nat {
    rounded(n, p) * pow2(excess(n, p))
}

/// `base` times the value of `dk`, computed as binary64 arithmetic computes it
/// (each operand and the product rounded to 53 significant bits), then rounded to
/// a whole number, halves away from zero, and clamped to 64 bits.
pub open spec fn scaled_reward(base: u64, dk: u32) -> nat {
    if dk == INFINITY {
        if base == 0 {
            0
        } else {
            u64::MAX as nat
        }
    } else {
        let product = nearest(nearest(base as nat, 53) * significand(dk), 53);
        let e = exponent(dk);
        let whole = if e >= 149 {
            product * pow2((e - 149) as nat)
        } else {
            (product + pow2((148 - e) as nat)) / pow2((149 - e) as nat)
        };
        if whole > u64::MAX {
            u64::MAX as nat
        } else {
            whole
        }
    }
}

/// How a finalized decision moves the reputation of one who scored the item.
#[derive(Clone, Copy, PartialEq, Eq, Structural, Debug)]
pub enum ReputationStep {
    /// A high score on an accepted item: up by 0.02.
    ConfirmedHigh,
    /// A low score on an accepted item: down by 0.005.
    MissedLow,
    /// A high score on a rejected item: down by 0.03.
    MisledHigh,
    /// A low score on a rejected item: up by 0.01.
    ConfirmedLow,
}

/// The step in units of 2^-31, of which the binary32 number nearest to it is a
/// whole multiple.
pub open spec fn step_units(step: ReputationStep) -> int {
    match step {
        ReputationStep::ConfirmedHigh => 0x28f_5c28,
        ReputationStep::MissedLow => -0xa3_d70a,
        ReputationStep::MisledHigh => -0x3d7_0a3c,
        ReputationStep::ConfirmedLow => 0x147_ae14,
    }
}

/// The bit pattern of `n` units of 2^-149, the least positive number, rounded to
/// binary32.
pub open spec fn pattern_of(n: nat) -> nat {
    excess(n, 24) * 0x80_0000 + rounded(n, 24)
}

/// The bit pattern of `n` units of 2^-31, for at least 2^-8, rounded to binary32.
pub open spec fn pattern_of_units(n: nat) -> nat {
    118 * 0x80_0000 + pattern_of(n)
}

/// A reputation in units of 2^-31, for a finite one of at least 2^-8.
pub open spec fn units(rep: u32) -> nat {
    significand(rep) * pow2((exponent(rep) - 118) as nat)
}

/// A reputation moved by `step`: the binary32 sum, and at least the floor. A
/// negative reputation, a NaN and one below 2^-8 end at the floor whatever the
/// step; positive infinity stays.
pub open spec fn stepped(rep: u32, step: ReputationStep) -> u32 {
    if rep > INFINITY || exponent(rep) < 118 {
        REPUTATION_FLOOR
    } else if rep == INFINITY {
        INFINITY
    } else {
        let sum = units(rep) + step_units(step);
        if sum < FLOOR_UNITS {
            REPUTATION_FLOOR
        } else {
            pattern_of_units(sum as nat) as u32
        }
    }
}

/// Whether a bit pattern is a NaN.
pub fn is_not_a_number(bits: u32) -> (r: bool)
    ensures
        r == is_nan(bits),
{
    bits % 0x8000_0000 > INFINITY
}

/// The pattern to write out for a value.
pub fn canonicalize(bits: u32) -> (r: u32)
    ensures
        r == canonical(bits),
{
    if is_not_a_number(bits) {
        CANONICAL_NAN
    } else {
        bits
    }
}

/// Whether a value lies in the closed interval from zero to one.
pub fn within_unit_interval(bits: u32) -> (r: bool)
    ensures
        r == in_unit_interval(bits),
{
    bits <= ONE || bits == NEGATIVE_ZERO
}

/// Whether a value exceeds 0.6.
pub fn scores_high(bits: u32) -> (r: bool)
    ensures
        r == is_high_score(bits),
{
    HIGH_SCORE < bits && bits <= INFINITY
}

/// Whether a value exceeds zero.
pub fn exceeds_zero(bits: u32) -> (r: bool)
    ensures
        r == is_positive(bits),
{
    0 < bits && bits <= INFINITY
}

/// Two to the power `k`.
pub(crate) fn power_of_two(k: u32) -> (r: u128)
    requires
        k < 128,
    ensures
        r == pow2(k as nat),
{
    let mut r: u128 = 1;
    let mut i: u32 = 0;
    proof {
        lemma2_to64();
        lemma_small_powers(127);
    }
    while i < k
        invariant
            i <= k < 128,
            r == pow2(i as nat),
        decreases k - i,
    {
        proof {
            lemma_pow2_unfold((i + 1) as nat);
            lemma_small_powers((i + 1) as nat);
        }
        r = r * 2;
        i += 1;
    }
    r
}

pub proof fn lemma_small_powers(k: nat)
    ensures
        k <= 64 ==> pow2(k) <= 0x1_0000_0000_0000_0000,
        k <= 127 ==> pow2(k) <= 0x8000_0000_0000_0000_0000_0000_0000_0000,
{
    lemma2_to64();
    lemma_pow2_127();
    if k < 64 {
        lemma_pow2_strictly_increases(k, 64);
    }
    if k < 127 {
        lemma_pow2_strictly_increases(k, 127);
    }
}

/// `excess` is the only shift that leaves exactly `p` significant bits.
proof fn lemma_excess_unique(n: nat, p: nat, k: nat)
    requires
        n / pow2(k) < pow2(p),
        k == 0 || n / pow2((k - 1) as nat) >= pow2(p),
    ensures
        excess(n, p) == k,
    decreases n,
{
    lemma2_to64();
    lemma_pow2_pos(p);
    lemma_pow2_pos(k);
    if k == 0 {
        assert(n / 1 == n);
    } else {
        let k1 = (k - 1) as nat;
        lemma_pow2_pos(k1);
        lemma_pow2_unfold(k);
        if n < pow2(p) {
            assert(n / pow2(k1) <= n) by (nonlinear_arith)
                requires
                    pow2(k1) > 0,
                    n >= 0,
            ;
            assert(false);
        }
        lemma_div_denominator(n as int, 2, pow2(k1) as int);
        if k1 > 0 {
            let k2 = (k1 - 1) as nat;
            lemma_pow2_pos(k2);
            lemma_pow2_unfold(k1);
            lemma_div_denominator(n as int, 2, pow2(k2) as int);
        } else {
            assert(n / 1 == n);
        }
        if k1 > 0 {
            lemma_excess_unique(n / 2, p, k1);
        } else {
            assert((n / 2) / 1 == n / 2);
            lemma_excess_unique(n / 2, p, 0);
        }
    }
}

/// Rounds `n` to `p` significant bits: the significand and the shift.
pub(crate) fn round_to(n: u128, p: u32) -> (r: (u128, u32))
    requires
        0 < p <= 64,
        n < 0x4000_0000_0000_0000_0000_0000_0000_0000,
    ensures
        r.0 == rounded(n as nat, p as nat),
        r.1 == excess(n as nat, p as nat),
        r.0 <= pow2(p as nat),
        r.1 < 128,
        r.0 * pow2(r.1 as nat) <= 2 * n,
{
    let limit: u128 = power_of_two(p);
    let mut q: u128 = n;
    let mut unit: u128 = 1;
    let mut k: u32 = 0;
    proof {
        lemma2_to64();
        assert(n as nat / 1 == n);
        assert(n <= q * unit + (unit - 1)) by (nonlinear_arith)
            requires
                q == n,
                unit == 1,
        ;
    }
    while q >= limit
        invariant
            0 < p <= 64,
            limit == pow2(p as nat),
            n < 0x4000_0000_0000_0000_0000_0000_0000_0000,
            unit == pow2(k as nat),
            k < 128,
            q == n as nat / pow2(k as nat),
            k == 0 || n as nat / pow2((k - 1) as nat) >= pow2(p as nat),
        decreases q,
    {
        proof {
            lemma_pow2_pos(p as nat);
            lemma_pow2_pos(k as nat);
            lemma_pow2_unfold((k + 1) as nat);
            lemma_div_denominator(n as int, pow2(k as nat) as int, 2);
            lemma_fundamental_div_mod(n as int, pow2(k as nat) as int);
            assert(unit <= n) by (nonlinear_arith)
                requires
                    q == n as nat / pow2(k as nat),
                    q >= 1,
                    unit == pow2(k as nat),
                    n == pow2(k as nat) * (n as int / pow2(k as nat) as int) + n as int % pow2(
                        k as nat,
                    ) as int,
                    n as int % pow2(k as nat) as int >= 0,
            ;
            if k >= 126 {
                lemma_small_powers(127);
                if k > 126 {
                    lemma_pow2_strictly_increases(126, k as nat);
                }
                lemma_pow2_unfold(127);
                lemma_pow2_127();
                assert(false);
            }
        }
        q = q / 2;
        unit = unit * 2;
        k += 1;
    }
    proof {
        lemma_excess_unique(n as nat, p as nat, k as nat);
        lemma_pow2_pos(k as nat);
        lemma_fundamental_div_mod(n as int, unit as int);
    }
    let r: u128 = n % unit;
    let up: bool = r > unit - r || (r == unit - r && q % 2 == 1);
    proof {
        assert(up == (2 * r > unit || (2 * r == unit && q % 2 == 1)));
        assert(q * unit <= n) by (nonlinear_arith)
            requires
                n == unit * (n as int / unit as int) + n as int % unit as int,
                q == n as int / unit as int,
                n as int % unit as int >= 0,
        ;
        if up {
            assert((q + 1) * unit <= 2 * n) by (nonlinear_arith)
                requires
                    n == unit * q + r,
                    2 * r >= unit,
                    unit > 0,
                    q >= 0,
            ;
        }
    }
    if up {
        (q + 1, k)
    } else {
        (q, k)
    }
}

proof fn lemma_pow2_127()
    ensures
        pow2(127) == 0x8000_0000_0000_0000_0000_0000_0000_0000,
        pow2(126) == 0x4000_0000_0000_0000_0000_0000_0000_0000,
{
    lemma2_to64();
    lemma2_to64_rest();
    lemma_pow2_adds(64, 63);
    lemma_pow2_unfold(127);
    assert(pow2(127) == 0x8000_0000_0000_0000_0000_0000_0000_0000) by (nonlinear_arith)
        requires
            pow2(127) == pow2(64) * pow2(63),
            pow2(64) == 0x1_0000_0000_0000_0000,
            pow2(63) == 0x8000_0000_0000_0000,
    ;
}

/// The nearest number with `p` significant bits.
fn round_value(n: u128, p: u32) -> (r: u128)
    requires
        0 < p <= 64,
        n < 0x4000_0000_0000_0000_0000_0000_0000_0000,
    ensures
        r == nearest(n as nat, p as nat),
        r <= 2 * n,
{
    let (m, k) = round_to(n, p);
    let unit: u128 = power_of_two(k);
    m * unit
}

/// The significand and exponent of a non-negative finite value.
pub(crate) fn split(bits: u32) -> (r: (u32, u32))
    requires
        bits < INFINITY,
    ensures
        r.0 == significand(bits),
        r.1 == exponent(bits),
        r.0 < 0x100_0000,
        r.1 < 254,
        r.1 > 0 ==> r.0 >= 0x80_0000,
{
    if bits < 0x80_0000 {
        (bits, 0)
    } else {
        let e: u32 = bits / 0x80_0000 - 1;
        (bits - e * 0x80_0000, e)
    }
}

/// The reward for a delta-K of `dk` at a base emission of `base`.
pub fn reward(base: u64, dk: u32) -> (r: u64)
    requires
        is_positive(dk),
    ensures
        r == scaled_reward(base, dk),
{
    if dk == INFINITY {
        return if base == 0 {
            0
        } else {
            u64::MAX
        };
    }
    let (q, e) = split(dk);
    let b: u128 = round_value(base as u128, 53);
    assert(b * q <= 0x2_0000_0000_0000_0000 * 0x100_0000) by (nonlinear_arith)
        requires
            0 <= b <= 0x2_0000_0000_0000_0000,
            0 <= q <= 0x100_0000,
    ;
    let product: u128 = round_value(b * q as u128, 53);
    assert(product <= 0x4_0000_0000_0000_0000 * 0x100_0000);
    proof {
        lemma2_to64();
        lemma_pow2_127();
        lemma_pow2_adds(64, 26);
    }
    if e >= 149 {
        let up: u32 = e - 149;
        if product == 0 {
            assert(0 * pow2(up as nat) == 0);
            0
        } else if product > u64::MAX as u128 {
            proof {
                lemma_pow2_pos(up as nat);
                assert(product * pow2(up as nat) >= product) by (nonlinear_arith)
                    requires
                        pow2(up as nat) >= 1,
                        product >= 0,
                ;
            }
            u64::MAX
        } else if up >= 64 {
            proof {
                if up > 64 {
                    lemma_pow2_strictly_increases(64, up as nat);
                }
                assert(product * pow2(up as nat) >= pow2(up as nat)) by (nonlinear_arith)
                    requires
                        pow2(up as nat) >= 1,
                        product >= 1,
                ;
            }
            u64::MAX
        } else {
            let unit: u128 = power_of_two(up);
            proof {
                if up < 63 {
                    lemma_pow2_strictly_increases(up as nat, 63);
                }
                lemma2_to64_rest();
                assert(product * unit <= 0xffff_ffff_ffff_ffff * 0x8000_0000_0000_0000)
                    by (nonlinear_arith)
                    requires
                        0 <= product <= 0xffff_ffff_ffff_ffff,
                        0 <= unit <= 0x8000_0000_0000_0000,
                ;
            }
            let whole: u128 = product * unit;
            if whole > u64::MAX as u128 {
                u64::MAX
            } else {
                whole as u64
            }
        }
    } else {
        let down: u32 = 149 - e;
        if down > 100 {
            proof {
                lemma_pow2_unfold(down as nat);
                lemma_pow2_strictly_increases(90, (down - 1) as nat);
                assert(pow2(90) == 0x1_0000_0000_0000_0000 * 0x400_0000) by (nonlinear_arith)
                    requires
                        pow2(90) == pow2(64) * pow2(26),
                        pow2(64) == 0x1_0000_0000_0000_0000,
                        pow2(26) == 0x400_0000,
                ;
                assert(product < pow2((down - 1) as nat));
                lemma_small_quotient((product + pow2((down - 1) as nat)) as nat, pow2(down as nat));
            }
            0
        } else {
            let half: u128 = power_of_two(down - 1);
            let unit: u128 = power_of_two(down);
            proof {
                lemma_pow2_strictly_increases((down - 1) as nat, 100);
                lemma_pow2_strictly_increases(100, 126);
                lemma_pow2_pos(down as nat);
            }
            let whole: u128 = (product + half) / unit;
            if whole > u64::MAX as u128 {
                u64::MAX
            } else {
                whole as u64
            }
        }
    }
}

proof fn lemma_small_quotient(x: nat, d: nat)
    requires
        x < d,
    ensures
        x / d == 0,
{
    assert(x / d == 0) by (nonlinear_arith)
        requires
            x < d,
    ;
}

/// A change that is smaller than a quarter of a number's last place rounds back to
/// the number.
pub proof fn lemma_small_change_vanishes(q: nat, i: nat, d: int)
    requires
        0x80_0000 <= q < 0x100_0000,
        i >= 2,
        -pow2(i) < 4 * d < pow2(i),
    ensures
        q * pow2(i) + d >= 0,
        pattern_of((q * pow2(i) + d) as nat) == i * 0x80_0000 + q,
{
    lemma2_to64();
    let unit = pow2(i) as int;
    let i1 = (i - 1) as nat;
    let i2 = (i - 2) as nat;
    let half = pow2(i1) as int;
    let quarter = pow2(i2) as int;
    lemma_pow2_pos(i2);
    lemma_pow2_unfold(i);
    lemma_pow2_unfold(i1);
    assert(unit == 2 * half && half == 2 * quarter && quarter > 0);
    let n = q * unit + d;
    assert(q * unit >= 0x80_0000 * unit) by (nonlinear_arith)
        requires
            q >= 0x80_0000,
            unit > 0,
    ;
    if d >= 0 {
        lemma_fundamental_div_mod_converse(n, unit, q as int, d);
        assert(q * unit == (2 * q) * half) by (nonlinear_arith)
            requires
                unit == 2 * half,
        ;
        lemma_fundamental_div_mod_converse(n, half, (2 * q) as int, d);
        lemma_excess_unique(n as nat, 24, i);
    } else if q > 0x80_0000 {
        assert(q * unit == (q - 1) * unit + unit) by (nonlinear_arith);
        lemma_fundamental_div_mod_converse(n, unit, q - 1, unit + d);
        assert((q - 1) * unit == (2 * (q - 1)) * half) by (nonlinear_arith)
            requires
                unit == 2 * half,
        ;
        assert((2 * (q - 1)) * half + half == (2 * (q - 1) + 1) * half) by (nonlinear_arith);
        lemma_fundamental_div_mod_converse(n, half, 2 * (q - 1) + 1, half + d);
        lemma_excess_unique(n as nat, 24, i);
    } else {
        assert(q * unit == 0xff_ffff * half + half) by (nonlinear_arith)
            requires
                unit == 2 * half,
                q == 0x80_0000,
        ;
        lemma_fundamental_div_mod_converse(n, half, 0xff_ffff, half + d);
        assert(q * unit == 0x1ff_ffff * quarter + quarter) by (nonlinear_arith)
            requires
                unit == 4 * quarter,
                q == 0x80_0000,
        ;
        lemma_fundamental_div_mod_converse(n, quarter, 0x1ff_ffff, quarter + d);
        lemma_excess_unique(n as nat, 24, i1);
    }
}

/// Far above the size of a step, moving a reputation by one rounds back to it.
proof fn lemma_step_vanishes(q: nat, i: nat, d: int)
    requires
        0x80_0000 <= q < 0x100_0000,
        i >= 40,
        -0x800_0000 < d < 0x800_0000,
    ensures
        q * pow2(i) + d >= 0,
        pattern_of_units((q * pow2(i) + d) as nat) == (118 + i) * 0x80_0000 + q,
{
    lemma2_to64();
    lemma2_to64_rest();
    if i > 40 {
        lemma_pow2_strictly_increases(40, i);
    }
    lemma_small_change_vanishes(q, i, d);
}

/// The step in units of 2^-31: its size and whether it goes up.
fn step_size(step: ReputationStep) -> (r: (u128, bool))
    ensures
        step_units(step) == if r.1 {
            r.0 as int
        } else {
            -(r.0 as int)
        },
        r.0 < 0x800_0000,
{
    match step {
        ReputationStep::ConfirmedHigh => (0x28f_5c28, true),
        ReputationStep::MissedLow => (0xa3_d70a, false),
        ReputationStep::MisledHigh => (0x3d7_0a3c, false),
        ReputationStep::ConfirmedLow => (0x147_ae14, true),
    }
}

/// A reputation moved by one step.
pub fn step_reputation(rep: u32, step: ReputationStep) -> (r: u32)
    ensures
        r == stepped(rep, step),
{
    if rep > INFINITY {
        return REPUTATION_FLOOR;
    }
    if rep == INFINITY {
        return INFINITY;
    }
    let (q, e) = split(rep);
    if e < 118 {
        return REPUTATION_FLOOR;
    }
    let (size, up) = step_size(step);
    if e - 118 >= 40 {
        proof {
            let i = (e - 118) as nat;
            lemma_step_vanishes(q as nat, i, step_units(step));
            lemma2_to64();
            if i > 40 {
                lemma_pow2_strictly_increases(40, i);
            }
            lemma2_to64_rest();
            assert(q * pow2(i) >= pow2(i)) by (nonlinear_arith)
                requires
                    q >= 1,
                    pow2(i) > 0,
            ;
        }
        return rep;
    }
    let unit: u128 = power_of_two(e - 118);
    proof {
        lemma2_to64();
        lemma2_to64_rest();
        lemma_pow2_strictly_increases((e - 118) as nat, 40);
        assert(0 <= q * unit <= 0x100_0000 * 0x100_0000_0000) by (nonlinear_arith)
            requires
                0 <= q <= 0x100_0000,
                0 <= unit <= 0x100_0000_0000,
        ;
    }
    let whole: u128 = q as u128 * unit;
    if !up && whole < size {
        return REPUTATION_FLOOR;
    }
    let sum: u128 = if up {
        whole + size
    } else {
        whole - size
    };
    if sum < FLOOR_UNITS as u128 {
        return REPUTATION_FLOOR;
    }
    let (m, k) = round_to(sum, 24);
    proof {
        // The sum has at most 65 bits, so the shift stays small.
        lemma_excess_bound(sum as nat);
    }
    (118 + k) * 0x80_0000 + m as u32
}

proof fn lemma_excess_bound(n: nat)
    requires
        n <= 0x2_0000_0000_0000_0000,
    ensures
        excess(n, 24) <= 60,
{
    lemma2_to64();
    lemma2_to64_rest();
    lemma_pow2_adds(64, 20);
    assert(pow2(64) * pow2(20) > 2 * pow2(64)) by (nonlinear_arith)
        requires
            pow2(64) > 0,
            pow2(20) > 2,
    ;
    lemma_excess_halves(n, 60);
}

/// A number below `2^(24 + fuel)` has at most `fuel` excess bits.
pub proof fn lemma_excess_halves(n: nat, fuel: nat)
    requires
        n < pow2(24 + fuel),
    ensures
        excess(n, 24) <= fuel,
    decreases fuel,
{
    if n >= pow2(24) {
        lemma_pow2_unfold(24 + fuel);
        lemma_excess_halves(n / 2, (fuel - 1) as nat);
    }
}

/// What is left of a number above its excess bits has at most `p` bits, and exactly
/// `p` where there are any excess bits.
proof fn lemma_excess_leaves(n: nat, p: nat)
    requires
        p > 0,
    ensures
        n / pow2(excess(n, p)) < pow2(p),
        excess(n, p) > 0 ==> 2 * (n / pow2(excess(n, p))) >= pow2(p),
    decreases n,
{
    lemma2_to64();
    lemma_pow2_pos(p);
    lemma_pow2_unfold(p);
    if n >= pow2(p) {
        let k = excess(n / 2, p);
        lemma_excess_leaves(n / 2, p);
        lemma_pow2_pos(k);
        lemma_pow2_unfold(k + 1);
        lemma_div_denominator(n as int, 2, pow2(k) as int);
        if k == 0 {
            assert((n / 2) / 1 == n / 2);
        }
    } else {
        assert(n / 1 == n);
    }
}

/// A rounded number has at most `p` bits, or is the power of two above them; with
/// excess bits it has no fewer.
proof fn lemma_rounded_bounds(n: nat, p: nat)
    requires
        p > 0,
    ensures
        rounded(n, p) <= pow2(p),
        excess(n, p) > 0 ==> 2 * rounded(n, p) >= pow2(p),
{
    lemma_excess_leaves(n, p);
    lemma_at_most_next(n / pow2(excess(n, p)), rounded(n, p), pow2(p));
}

proof fn lemma_at_most_next(q: nat, r: nat, top: nat)
    requires
        q < top,
        q <= r <= q + 1,
    ensures
        r <= top,
        2 * q >= top ==> 2 * r >= top,
{
}

proof fn lemma_excess_grows(m: nat, n: nat, p: nat)
    requires
        m <= n,
    ensures
        excess(m, p) <= excess(n, p),
    decreases m,
{
    lemma_pow2_pos(p);
    if m >= pow2(p) {
        lemma_excess_grows(m / 2, n / 2, p);
    }
}

/// Rounding in the same unit keeps order.
proof fn lemma_rounding_keeps_order(m: nat, n: nat, p: nat)
    requires
        m <= n,
        excess(m, p) == excess(n, p),
    ensures
        rounded(m, p) <= rounded(n, p),
{
    let unit = pow2(excess(n, p));
    lemma_pow2_pos(excess(n, p));
    lemma_div_is_ordered(m as int, n as int, unit as int);
    lemma_fundamental_div_mod(m as int, unit as int);
    lemma_fundamental_div_mod(n as int, unit as int);
}

/// A larger number of units has no smaller pattern.
proof fn lemma_patterns_keep_order(m: nat, n: nat)
    requires
        m <= n,
    ensures
        pattern_of_units(m) <= pattern_of_units(n),
{
    lemma2_to64();
    lemma_excess_grows(m, n, 24);
    lemma_rounded_bounds(m, 24);
    lemma_rounded_bounds(n, 24);
    if excess(m, 24) == excess(n, 24) {
        lemma_rounding_keeps_order(m, n, 24);
    }
}

/// A normal number is the pattern of its own units.
proof fn lemma_pattern_of_own_units(rep: u32)
    requires
        exponent(rep) >= 118,
    ensures
        pattern_of_units(units(rep)) == rep,
{
    let q = significand(rep);
    let i = (exponent(rep) - 118) as nat;
    lemma2_to64();
    lemma_pow2_pos(i);
    lemma_div_by_multiple(q as int, pow2(i) as int);
    lemma_mod_multiples_basic(q as int, pow2(i) as int);
    if i > 0 {
        let i1 = (i - 1) as nat;
        lemma_pow2_pos(i1);
        lemma_pow2_unfold(i);
        assert(q * (2 * pow2(i1)) == (2 * q) * pow2(i1)) by (nonlinear_arith);
        lemma_div_by_multiple((2 * q) as int, pow2(i1) as int);
    }
    lemma_excess_unique(units(rep), 24, i);
}

proof fn lemma_floor_pattern()
    ensures
        pattern_of_units(FLOOR_UNITS as nat) == REPUTATION_FLOOR,
        exponent(REPUTATION_FLOOR) == 121,
{
    lemma2_to64();
    lemma_pattern_of_own_units(REPUTATION_FLOOR);
    assert(units(REPUTATION_FLOOR) == 0xcc_cccd * pow2(3));
}

/// A small reputation moved by a step, in the cases in which it is a rounded sum.
proof fn lemma_small_sum(rep: u32, step: ReputationStep)
    requires
        118 <= exponent(rep) < 158,
        units(rep) + step_units(step) >= FLOOR_UNITS,
    ensures
        stepped(rep, step) == pattern_of_units((units(rep) + step_units(step)) as nat),
        REPUTATION_FLOOR <= stepped(rep, step) < INFINITY,
{
    let i = (exponent(rep) - 118) as nat;
    let sum = (units(rep) + step_units(step)) as nat;
    lemma2_to64();
    lemma2_to64_rest();
    if i < 40 {
        lemma_pow2_strictly_increases(i, 40);
    }
    let q = significand(rep);
    assert(0 <= q * pow2(i) <= 0x100_0000 * 0x100_0000_0000) by (nonlinear_arith)
        requires
            0 <= q <= 0x100_0000,
            0 <= pow2(i) <= 0x100_0000_0000,
    ;
    lemma_excess_bound(sum);
    lemma_rounded_bounds(sum, 24);
    lemma_floor_pattern();
    lemma_patterns_keep_order(FLOOR_UNITS as nat, sum);
}

/// However a reputation is moved, it ends between the floor and infinity.
pub proof fn law_reputation_is_floored(rep: u32, step: ReputationStep)
    ensures
        REPUTATION_FLOOR <= stepped(rep, step) <= INFINITY,
{
    if rep < INFINITY && exponent(rep) >= 118 {
        if exponent(rep) >= 158 {
            lemma_large_reputation_stays(rep, step);
        } else if units(rep) + step_units(step) >= FLOOR_UNITS {
            lemma_small_sum(rep, step);
        }
    }
}

/// A score that the decision confirmed never lowers a reputation. Non-negative
/// values are ordered as their patterns are.
pub proof fn law_confirmed_scores_never_lower(rep: u32, step: ReputationStep)
    requires
        rep <= INFINITY,
        step is ConfirmedHigh || step is ConfirmedLow,
    ensures
        stepped(rep, step) >= rep,
{
    if rep < INFINITY && exponent(rep) >= 118 {
        lemma_pattern_of_own_units(rep);
        if exponent(rep) >= 158 {
            lemma_large_reputation_stays(rep, step);
        } else if units(rep) + step_units(step) >= FLOOR_UNITS {
            lemma_small_sum(rep, step);
            lemma_patterns_keep_order(units(rep), (units(rep) + step_units(step)) as nat);
        } else {
            lemma_floor_pattern();
            lemma_patterns_keep_order(units(rep), FLOOR_UNITS as nat);
        }
    }
}

/// A score that the decision contradicted never raises a reputation that is at the
/// floor or above it.
pub proof fn law_contradicted_scores_never_raise(rep: u32, step: ReputationStep)
    requires
        REPUTATION_FLOOR <= rep <= INFINITY,
        step is MissedLow || step is MisledHigh,
    ensures
        stepped(rep, step) <= rep,
{
    if rep < INFINITY {
        lemma_pattern_of_own_units(rep);
        if exponent(rep) >= 158 {
            lemma_large_reputation_stays(rep, step);
        } else if units(rep) + step_units(step) >= FLOOR_UNITS {
            lemma_small_sum(rep, step);
            lemma_patterns_keep_order((units(rep) + step_units(step)) as nat, units(rep));
        }
    }
}

/// A reputation of 2^32 or more is too large for a step to show.
proof fn lemma_large_reputation_stays(rep: u32, step: ReputationStep)
    requires
        158 <= exponent(rep),
        rep < INFINITY,
    ensures
        stepped(rep, step) == rep,
{
    let i = (exponent(rep) - 118) as nat;
    let q = significand(rep);
    lemma_step_vanishes(q, i, step_units(step));
    lemma2_to64();
    lemma2_to64_rest();
    if i > 40 {
        lemma_pow2_strictly_increases(40, i);
    }
    assert(q * pow2(i) >= pow2(i)) by (nonlinear_arith)
        requires
            q >= 1,
            pow2(i) > 0,
    ;
}

/// A number of at most `p` bits is its own nearest.
proof fn lemma_short_is_exact(n: nat, p: nat)
    requires
        n < pow2(p),
    ensures
        nearest(n, p) == n,
{
    lemma2_to64();
    assert(excess(n, p) == 0);
    assert(n / pow2(0) == n && n % pow2(0) == 0);
    assert(n * pow2(0) == n);
}

/// A reward is the base times the value that the bits of the delta-K spell, its
/// significand with the leading one that is not stored and its exponent, rounded to the
/// nearest whole number with halves going up; this holds wherever binary64 can hold the
/// product.
pub proof fn law_rewards_are_products(base: u64, dk: u32)
    requires
        0x80_0000 <= dk,
        dk / 0x80_0000 < 150,
        base * (0x80_0000 + dk % 0x80_0000) < 0x20_0000_0000_0000,
    ensures
        ({
            let r = scaled_reward(base, dk);
            let product = base * (0x80_0000 + dk % 0x80_0000);
            let unit = pow2((150 - dk / 0x80_0000) as nat);
            2 * (r * unit) <= 2 * product + unit < 2 * ((r + 1) * unit)
        }),
{
    let sig = significand(dk);
    let e = exponent(dk);
    assert(e == dk / 0x80_0000 - 1);
    assert(sig == 0x80_0000 + dk % 0x80_0000);
    let product = (base * sig) as nat;
    lemma2_to64();
    lemma2_to64_rest();
    assert(base <= product) by (nonlinear_arith)
        requires
            product == base * sig,
            sig >= 1,
            base >= 0,
    ;
    assert(pow2(53) == 0x20_0000_0000_0000);
    lemma_short_is_exact(base as nat, 53);
    lemma_short_is_exact(product, 53);
    let half = pow2((148 - e) as nat);
    let unit = pow2((149 - e) as nat);
    lemma_pow2_unfold((149 - e) as nat);
    lemma_pow2_pos((148 - e) as nat);
    let whole = (product + half) / unit;
    lemma_fundamental_div_mod((product + half) as int, unit as int);
    let left = (product + half) % unit;
    assert(whole <= product + half) by (nonlinear_arith)
        requires
            product + half == unit * whole + left,
            left >= 0,
            unit >= 1,
            whole >= 0,
    ;
    assert(whole <= u64::MAX) by {
        if half > 0x20_0000_0000_0000 {
            assert(whole <= 1) by (nonlinear_arith)
                requires
                    product + half == unit * whole + left,
                    left >= 0,
                    unit == 2 * half,
                    product < half,
                    whole >= 0,
            ;
        }
    }
    assert(2 * (whole * unit) <= 2 * product + unit < 2 * ((whole + 1) * unit)) by (nonlinear_arith)
        requires
            product + half == unit * whole + left,
            0 <= left < unit,
            unit == 2 * half,
    ;
}

/// No reward comes of nothing, and an infinite one is the most that a total can hold.
pub proof fn law_extreme_rewards(base: u64, dk: u32)
    requires
        dk <= 0x7f80_0000,
    ensures
        scaled_reward(0, dk) == 0,
        base > 0 ==> scaled_reward(base, 0x7f80_0000) == 0xffff_ffff_ffff_ffff,
        scaled_reward(base, 0) == 0,
        scaled_reward(base, dk) <= 0xffff_ffff_ffff_ffff,
{
    lemma2_to64();
    lemma_pow2_pos(53);
    lemma_short_is_exact(0, 53);
    assert(0 * significand(dk) == 0);
    assert(nearest(base as nat, 53) * 0 == 0);
    assert(significand(0) == 0 && exponent(0) == 0);
    let e = exponent(dk);
    if dk < INFINITY {
        if e >= 149 {
            assert(0 * pow2((e - 149) as nat) == 0);
        } else {
            let (half, unit) = (pow2((148 - e) as nat), pow2((149 - e) as nat));
            lemma_pow2_unfold((149 - e) as nat);
            lemma_pow2_pos((148 - e) as nat);
            lemma_basic_div(half as int, unit as int);
        }
    }
    lemma_pow2_unfold(149);
    lemma_pow2_pos(148);
    lemma_basic_div(pow2(148) as int, pow2(149) as int);
}

/// The four steps are 0.02 up, 0.005 down, 0.03 down and 0.01 up, each to within a
/// hundred units of 2^-31.
pub proof fn law_steps_are_these()
    ensures
        ({
            let one = pow2(31) as int;
            let close = |units: int, thousandths: int|
                -100 * 1000 < 1000 * units - thousandths * one < 100 * 1000;
            &&& close(step_units(ReputationStep::ConfirmedHigh), 20)
            &&& close(step_units(ReputationStep::MissedLow), -5)
            &&& close(step_units(ReputationStep::MisledHigh), -30)
            &&& close(step_units(ReputationStep::ConfirmedLow), 10)
        }),
{
    lemma2_to64();
}

} // verus!
