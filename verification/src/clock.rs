//! Times in days, as binary32 bit patterns, and how many days later it is.

use vstd::arithmetic::div_mod::*;
use vstd::arithmetic::mul::*;
use vstd::arithmetic::power2::*;
use vstd::prelude::*;

use crate::ieee;
use crate::ieee::{is_not_a_number, power_of_two, round_to, split, CANONICAL_NAN, INFINITY};

verus! {

/// The pattern without its sign.
pub open spec fn unsigned(bits: u32) -> u32 {
    (bits % 0x8000_0000) as u32
}

/// The size of a finite value, in units of 2^-149.
pub open spec fn magnitude(bits: u32) -> nat {
    ieee::significand(unsigned(bits)) * pow2(ieee::exponent(unsigned(bits)))
}

/// A finite value, in units of 2^-149.
pub open spec fn amount(bits: u32) -> int {
    if bits >= 0x8000_0000 {
        -(magnitude(bits) as int)
    } else {
        magnitude(bits) as int
    }
}

/// The binary32 number nearest to a whole number, in units of 2^-149.
pub open spec fn whole(n: nat) -> nat {
    ieee::nearest(n, 24) * pow2(149)
}

/// The bit pattern of an amount, rounded to binary32.
pub open spec fn pattern_of_amount(s: int) -> u32 {
    if s < 0 {
        (0x8000_0000 + ieee::pattern_of((-s) as nat)) as u32
    } else {
        ieee::pattern_of(s as nat) as u32
    }
}

/// The binary32 sum of a time and a whole number of days, which is first rounded to
/// binary32 itself. The sum with a NaN is a NaN, and an infinite time stays.
pub open spec fn days_later(start: u32, n: nat) -> u32 {
    if ieee::is_nan(start) {
        CANONICAL_NAN
    } else if unsigned(start) == INFINITY {
        start
    } else {
        pattern_of_amount(amount(start) + whole(n))
    }
}

// --- scaling ------------------------------------------------------------------

proof fn lemma_scaled_excess(s: nat, j: nat)
    requires
        s >= 0x80_0000 || j == 0,
    ensures
        ieee::excess(s * pow2(j), 24) == ieee::excess(s, 24) + j,
    decreases j,
{
    lemma2_to64();
    if j > 0 {
        let k = (j - 1) as nat;
        lemma_scaled_excess(s, k);
        lemma_pow2_unfold(j);
        lemma_pow2_pos(k);
        let less = s * pow2(k);
        assert(s * pow2(j) == 2 * less) by (nonlinear_arith)
            requires
                pow2(j) == 2 * pow2(k),
                less == s * pow2(k),
        ;
        assert(less >= s) by (nonlinear_arith)
            requires
                less == s * pow2(k),
                pow2(k) >= 1,
        ;
        assert((s * pow2(j)) / 2 == less);
    } else {
        assert(s * pow2(0) == s);
    }
}

/// A number with 24 bits or more rounds alike at every scale.
proof fn lemma_scaled(s: nat, j: nat)
    requires
        s >= 0x80_0000 || j == 0,
    ensures
        ieee::pattern_of(s * pow2(j)) == (ieee::excess(s, 24) + j) * 0x80_0000 + ieee::rounded(
            s,
            24,
        ),
{
    let k = ieee::excess(s, 24);
    lemma_scaled_excess(s, j);
    lemma_pow2_pos(j);
    lemma_pow2_pos(k);
    lemma_pow2_adds(k, j);
    let (unit, scale) = (pow2(k), pow2(j));
    let (q, r) = (s / unit, s % unit);
    lemma_fundamental_div_mod(s as int, unit as int);
    assert(s * scale == q * (unit * scale) + r * scale) by (nonlinear_arith)
        requires
            s == unit * q + r,
    ;
    assert(0 <= r * scale < unit * scale) by (nonlinear_arith)
        requires
            0 <= r < unit,
            scale > 0,
    ;
    lemma_fundamental_div_mod_converse(
        (s * scale) as int,
        (unit * scale) as int,
        q as int,
        (r * scale) as int,
    );
    assert((2 * (r * scale) > unit * scale) == (2 * r > unit) && (2 * (r * scale) == unit * scale)
        == (2 * r == unit)) by (nonlinear_arith)
        requires
            scale > 0,
    ;
}

/// A finite value has its own pattern.
proof fn lemma_own_pattern(bits: u32)
    requires
        bits < INFINITY,
    ensures
        ieee::pattern_of(magnitude(bits)) == bits,
        magnitude(bits) == 0 <==> bits == 0,
{
    lemma2_to64();
    let (q, e) = (ieee::significand(bits), ieee::exponent(bits));
    lemma_scaled(q, e);
    assert(q / 1 == q && q % 1 == 0);
    lemma_pow2_pos(e);
    assert(q * pow2(e) == 0 <==> q == 0) by (nonlinear_arith)
        requires
            pow2(e) > 0,
    ;
}

/// A positive number of at most 24 bits fills them at some scale.
proof fn lemma_fills(r: nat) -> (j: nat)
    requires
        0 < r < 0x100_0000,
    ensures
        0x80_0000 <= r * pow2(j) < 0x100_0000,
        j <= 23,
{
    lemma2_to64();
    let j = lemma_fills_within(r, 23);
    j
}

proof fn lemma_fills_within(r: nat, fuel: nat) -> (j: nat)
    requires
        0 < r < 0x100_0000,
        r * pow2(fuel) >= 0x80_0000,
    ensures
        0x80_0000 <= r * pow2(j) < 0x100_0000,
        j <= fuel,
    decreases fuel,
{
    lemma2_to64();
    if fuel == 0 {
        assert(r * pow2(0) == r);
        0
    } else {
        let less = (fuel - 1) as nat;
        lemma_pow2_unfold(fuel);
        assert(r * pow2(fuel) == 2 * (r * pow2(less))) by (nonlinear_arith)
            requires
                pow2(fuel) == 2 * pow2(less),
        ;
        if r * pow2(less) >= 0x80_0000 {
            lemma_fills_within(r, less)
        } else {
            fuel
        }
    }
}

/// The pattern of `s * 2^e`.
fn compose(s: u128, e: u32) -> (r: u32)
    requires
        s < 0x40_0000_0000_0000_0000_0000,
        e <= 189,
    ensures
        r == ieee::pattern_of(s as nat * pow2(e as nat)),
        r < INFINITY,
{
    let ghost all = s as nat * pow2(e as nat);
    let mut m: u128 = s;
    let mut k: u32 = e;
    while m < 0x80_0000 && k > 0
        invariant
            m < 0x40_0000_0000_0000_0000_0000,
            k <= e <= 189,
            all == m as nat * pow2(k as nat),
        decreases k,
    {
        proof {
            lemma_pow2_unfold(k as nat);
            assert(m as nat * pow2(k as nat) == (2 * m) as nat * pow2((k - 1) as nat))
                by (nonlinear_arith)
                requires
                    pow2(k as nat) == 2 * pow2((k - 1) as nat),
            ;
        }
        m = m * 2;
        k -= 1;
    }
    proof {
        lemma2_to64();
        lemma2_to64_rest();
        lemma_pow2_adds(64, 22);
        assert(pow2(86) == 0x40_0000_0000_0000_0000_0000) by (nonlinear_arith)
            requires
                pow2(86) == pow2(64) * pow2(22),
                pow2(64) == 0x1_0000_0000_0000_0000,
                pow2(22) == 0x40_0000,
        ;
        ieee::lemma_excess_halves(m as nat, 62);
        lemma_scaled(m as nat, k as nat);
    }
    let (q, x) = round_to(m, 24);
    (x + k) * 0x80_0000 + q as u32
}

// --- the sum ------------------------------------------------------------------

proof fn lemma_shifted(q: nat, e: nat, base: nat)
    requires
        base <= e,
    ensures
        q * pow2(e) == (q * pow2((e - base) as nat)) * pow2(base),
{
    lemma_pow2_adds((e - base) as nat, base);
    lemma_mul_is_associative(q as int, pow2((e - base) as nat) as int, pow2(base) as int);
}

/// Far below a value, a whole number of days vanishes.
proof fn lemma_days_vanish(q: nat, e: nat, r: nat, eb: nat, d: int)
    requires
        0x80_0000 <= q < 0x100_0000,
        r <= 0x100_0000,
        eb + 61 <= e,
        d == r * pow2(eb) || d == -(r * pow2(eb)),
    ensures
        q * pow2(e) + d > 0,
        ieee::pattern_of((q * pow2(e) + d) as nat) == e * 0x80_0000 + q,
{
    lemma2_to64();
    lemma2_to64_rest();
    lemma_shifted(1, e, eb);
    let gap = (e - eb) as nat;
    if gap > 61 {
        lemma_pow2_strictly_increases(61, gap);
    }
    lemma_pow2_pos(eb);
    assert(4 * (r * pow2(eb)) < pow2(e)) by (nonlinear_arith)
        requires
            r <= 0x100_0000,
            pow2(e) == (1 * pow2(gap)) * pow2(eb) || pow2(e) == 1 * pow2(gap) * pow2(eb) || 1
                * pow2(e) == (1 * pow2(gap)) * pow2(eb),
            pow2(gap) >= 0x2000_0000_0000_0000,
            pow2(eb) > 0,
    ;
    assert(q * pow2(e) >= pow2(e)) by (nonlinear_arith)
        requires
            q >= 1,
            pow2(e) > 0,
    ;
    assert(r * pow2(eb) >= 0) by (nonlinear_arith);
    ieee::lemma_small_change_vanishes(q, e, d);
}

/// Far below a whole number of days, a value vanishes.
proof fn lemma_start_vanishes(r: nat, eb: nat, q: nat, e: nat, d: int)
    requires
        0 < r <= 0x100_0000,
        q < 0x100_0000,
        e + 61 <= eb,
        d == q * pow2(e) || d == -(q * pow2(e)),
    ensures
        r * pow2(eb) + d > 0,
        ieee::pattern_of((r * pow2(eb) + d) as nat) == ieee::pattern_of(r * pow2(eb)),
{
    lemma2_to64();
    lemma2_to64_rest();
    let (full, i) = lemma_filled(r, eb);
    let gap = (i - e) as nat;
    lemma_shifted(1, i, e);
    if gap > 38 {
        lemma_pow2_strictly_increases(38, gap);
    }
    lemma_pow2_pos(e);
    lemma_pow2_pos(i);
    assert(4 * (q * pow2(e)) < pow2(i)) by (nonlinear_arith)
        requires
            q < 0x100_0000,
            1 * pow2(i) == (1 * pow2(gap)) * pow2(e),
            pow2(gap) >= 0x40_0000_0000,
            pow2(e) > 0,
    ;
    assert(full * pow2(i) >= pow2(i)) by (nonlinear_arith)
        requires
            full >= 1,
            pow2(i) > 0,
    ;
    assert(q * pow2(e) >= 0) by (nonlinear_arith);
    ieee::lemma_small_change_vanishes(full, i, d);
    ieee::lemma_small_change_vanishes(full, i, 0);
}

/// A positive number of at most 25 bits at some scale, with 24 bits filled.
proof fn lemma_filled(r: nat, e: nat) -> (n: (nat, nat))
    requires
        0 < r <= 0x100_0000,
        e >= 61,
    ensures
        0x80_0000 <= n.0 < 0x100_0000,
        n.0 * pow2(n.1) == r * pow2(e),
        n.1 + 23 >= e,
{
    lemma2_to64();
    if r == 0x100_0000 {
        lemma_pow2_unfold(e + 1);
        (0x80_0000, e + 1)
    } else {
        let j = lemma_fills(r);
        lemma_shifted(r, e, (e - j) as nat);
        assert((e - (e - j) as nat) as nat == j);
        (r * pow2(j), (e - j) as nat)
    }
}

/// The sum of two values of nearly the same scale: `q * 2^e`, with the given sign, and
/// `m * 2^b`.
fn near_sum(negative: bool, q: u32, e: u32, m: u128, b: u32) -> (r: u32)
    requires
        q <= 0x100_0000,
        m <= 0x100_0000,
        b <= 189,
        e <= b + 60,
        b <= e + 60,
    ensures
        r == pattern_of_amount(
            m as nat * pow2(b as nat) + if negative {
                -(q as nat * pow2(e as nat))
            } else {
                (q as nat * pow2(e as nat)) as int
            },
        ),
{
    let base: u32 = if e < b {
        e
    } else {
        b
    };
    let up: u128 = power_of_two(e - base);
    let over: u128 = power_of_two(b - base);
    proof {
        lemma2_to64();
        lemma2_to64_rest();
        if e - base < 60 {
            lemma_pow2_strictly_increases((e - base) as nat, 60);
        }
        if b - base < 60 {
            lemma_pow2_strictly_increases((b - base) as nat, 60);
        }
        lemma_shifted(q as nat, e as nat, base as nat);
        lemma_shifted(m as nat, b as nat, base as nat);
        lemma_pow2_pos(base as nat);
        assert(0 <= q * up <= 0x100_0000 * 0x1000_0000_0000_0000) by (nonlinear_arith)
            requires
                0 <= q <= 0x100_0000,
                0 <= up <= 0x1000_0000_0000_0000,
        ;
        assert(0 <= m * over <= 0x100_0000 * 0x1000_0000_0000_0000) by (nonlinear_arith)
            requires
                0 <= m <= 0x100_0000,
                0 <= over <= 0x1000_0000_0000_0000,
        ;
    }
    let x: u128 = q as u128 * up;
    let y: u128 = m * over;
    let ghost scale = pow2(base as nat) as int;
    if !negative {
        assert((x + y) * scale == x * scale + y * scale) by (nonlinear_arith);
        compose(x + y, base)
    } else if y >= x {
        assert((y - x) * scale == y * scale - x * scale) by (nonlinear_arith);
        assert((y - x) * scale >= 0) by (nonlinear_arith)
            requires
                y >= x,
                scale > 0,
        ;
        compose((y - x) as u128, base)
    } else {
        assert((x - y) * scale == x * scale - y * scale) by (nonlinear_arith);
        assert((x - y) * scale > 0) by (nonlinear_arith)
            requires
                x > y,
                scale > 0,
        ;
        0x8000_0000 + compose((x - y) as u128, base)
    }
}

// --- laws ---------------------------------------------------------------------

/// The amount of a normal positive time is its significand, with the leading one that is
/// not stored, scaled by its exponent: the pattern of one day has the amount 2^149.
pub proof fn law_amounts_are_read_from_the_bits(bits: u32)
    requires
        0x80_0000 <= bits < 0x7f80_0000,
    ensures
        amount(bits) == (0x80_0000 + bits % 0x80_0000) * pow2((bits / 0x80_0000 - 1) as nat),
        amount((0x8000_0000 + bits) as u32) == -amount(bits),
        bits == 0x3f80_0000 ==> amount(bits) == pow2(149),
{
    let e = (bits / 0x80_0000 - 1) as nat;
    assert(unsigned(bits) == bits);
    assert(unsigned((0x8000_0000 + bits) as u32) == bits);
    assert(ieee::exponent(bits) == e);
    assert(ieee::significand(bits) == 0x80_0000 + bits % 0x80_0000);
    lemma2_to64();
    lemma_pow2_adds(23, 126);
}

/// A whole number of days at a scale has a pattern of that amount.
proof fn lemma_whole_pattern(r: nat, e: nat)
    requires
        r <= 0x100_0000,
        61 <= e <= 200,
    ensures
        ieee::pattern_of(r * pow2(e)) < INFINITY,
        amount(ieee::pattern_of(r * pow2(e)) as u32) == r * pow2(e),
{
    lemma2_to64();
    if r == 0 {
        assert(0 * pow2(e) == 0);
        assert(ieee::pattern_of(0) == 0) by {
            assert(0nat / 1 == 0 && 0nat % 1 == 0);
        }
        assert(0 * pow2(0) == 0);
    } else {
        let (q, k) = lemma_filled(r, e);
        if k > 252 {
            lemma_pow2_adds(252, (k - 252) as nat);
            lemma_pow2_pos((k - 252) as nat);
            lemma_shifted(1, e, e);
            lemma_pow2_strictly_increases(e, 252);
            lemma_pow2_adds(e, (252 - e) as nat);
            lemma_pow2_strictly_increases(24, (252 - e) as nat);
            lemma_pow2_pos(e);
            assert(q * pow2(k) > r * pow2(e)) by (nonlinear_arith)
                requires
                    q >= 1,
                    r <= 0x100_0000,
                    pow2(k) == pow2(252) * pow2((k - 252) as nat),
                    pow2((k - 252) as nat) >= 1,
                    pow2(252) == pow2(e) * pow2((252 - e) as nat),
                    pow2((252 - e) as nat) > 0x100_0000,
                    pow2(e) > 0,
            ;
        }
        lemma_scaled(q, k);
        assert(q / 1 == q && q % 1 == 0);
        let p = (k * 0x80_0000 + q) as u32;
        assert(unsigned(p) == p);
        assert(ieee::exponent(p) == k);
        assert(ieee::significand(p) == q);
    }
}

/// A number that 24 bits can hold is its own nearest.
proof fn lemma_nearest_exact(n: nat)
    requires
        n <= 0x100_0000,
    ensures
        ieee::nearest(n, 24) == n,
{
    lemma2_to64();
    if n < 0x100_0000 {
        assert(ieee::excess(n, 24) == 0);
        assert(n / pow2(0) == n && n % pow2(0) == 0);
        assert(ieee::rounded(n, 24) == n);
        assert(n * pow2(0) == n);
    } else {
        reveal_with_fuel(ieee::excess, 2);
        assert(ieee::excess(n, 24) == 1);
        assert(n / pow2(1) == 0x80_0000 && n % pow2(1) == 0);
        assert(ieee::rounded(n, 24) == 0x80_0000);
    }
}

/// Days add up: from a whole number of days, `n` days later is `n` more, as long as
/// binary32 can count them.
pub proof fn law_days_add_up(start: u32, days: nat, n: nat)
    requires
        start < 0x7f80_0000,
        amount(start) == days * pow2(149),
        days + n <= 0x100_0000,
    ensures
        days_later(start, n) < 0x7f80_0000,
        amount(days_later(start, n)) == (days + n) * pow2(149),
{
    lemma2_to64();
    lemma_nearest_exact(n);
    assert((days + n) * pow2(149) == days * pow2(149) + n * pow2(149)) by (nonlinear_arith);
    assert(days * pow2(149) >= 0 && n * pow2(149) >= 0) by (nonlinear_arith);
    lemma_whole_pattern(days + n, 149);
}

/// No days later it is the same time, and a time without a number stays without one.
pub proof fn law_no_days_later(start: u32)
    ensures
        start < 0x7f80_0000 ==> days_later(start, 0) == start,
        start == 0x7f80_0000 || start == 0xff80_0000 ==> forall|n: nat| #[trigger]
            days_later(start, n) == start,
        start % 0x8000_0000 > 0x7f80_0000 ==> forall|n: nat|
            (#[trigger] days_later(start, n)) % 0x8000_0000 > 0x7f80_0000,
{
    lemma2_to64();
    lemma_nearest_exact(0);
    assert(0 * pow2(149) == 0);
    if start < 0x7f80_0000 {
        lemma_own_pattern(start);
    }
}

/// The time `n` days after `start`.
pub fn later(start: u32, n: usize) -> (r: u32)
    ensures
        r == days_later(start, n as nat),
{
    if is_not_a_number(start) {
        return CANONICAL_NAN;
    }
    let size: u32 = start % 0x8000_0000;
    if size == INFINITY {
        return start;
    }
    let negative: bool = start >= 0x8000_0000;
    let (q, e) = split(size);
    let (m, k) = round_to(n as u128, 24);
    let ghost mine = q as nat * pow2(e as nat);
    proof {
        lemma2_to64();
        lemma_pow2_adds(24, 40);
        ieee::lemma_excess_halves(n as nat, 40);
        lemma_own_pattern(size);
        assert(unsigned(start) == size && unsigned(size) == size);
        assert(magnitude(start) == mine && magnitude(size) == mine);
    }
    let b: u32 = k + 149;
    let ghost theirs = m as nat * pow2(b as nat);
    proof {
        lemma_pow2_adds(k as nat, 149);
        lemma_mul_is_associative(m as int, pow2(k as nat) as int, pow2(149) as int);
        assert(whole(n as nat) == theirs);
        assert(m == 0 ==> theirs == 0) by (nonlinear_arith)
            requires
                theirs == m as nat * pow2(b as nat),
        ;
        assert(q == 0 ==> mine == 0) by (nonlinear_arith)
            requires
                mine == q as nat * pow2(e as nat),
        ;
    }
    if m == 0 {
        if q == 0 {
            return 0;
        }
        return start;
    }
    if q == 0 {
        return compose(m, b);
    }
    if e > b + 60 {
        proof {
            let d = if negative {
                -(theirs as int)
            } else {
                theirs as int
            };
            lemma_days_vanish(q as nat, e as nat, m as nat, b as nat, d);
        }
        return start;
    }
    if b > e + 60 {
        proof {
            let d = if negative {
                -(mine as int)
            } else {
                mine as int
            };
            lemma_start_vanishes(m as nat, b as nat, q as nat, e as nat, d);
        }
        return compose(m, b);
    }
    near_sum(negative, q, e, m, b)
}

} // verus!
