//! Double-precision numbers, held as their IEEE 754 bit patterns.
//!
//! A number is a `u64`: one sign bit, eleven exponent bits and fifty-two
//! fraction bits. The value of a finite pattern is a whole number of units of
//! 2^-1074, so sums and differences of finite numbers are exact integers in
//! the model, and the result of an operation is that integer rounded to the
//! nearest pattern, ties going to the even one.

use vstd::arithmetic::div_mod::{lemma_fundamental_div_mod, lemma_fundamental_div_mod_converse};
use vstd::arithmetic::power2::{
    lemma2_to64,
    lemma2_to64_rest,
    lemma_pow2_adds,
    lemma_pow2_pos,
    lemma_pow2_strictly_increases,
    lemma_pow2_unfold,
    pow2,
};
use vstd::prelude::*;

verus! {

/// The sign bit.
pub const SIGN_BIT: u64 = 0x8000_0000_0000_0000;

/// Positive infinity; every larger magnitude is a NaN.
pub const INFINITY: u64 = 0x7ff0_0000_0000_0000;

/// The NaN that operations of this module return.
pub const NAN: u64 = 0x7ff8_0000_0000_0000;

/// The lowest exponent bit, 2^52: the hidden bit of a normal significand.
pub const HIDDEN_BIT: u64 = 0x0010_0000_0000_0000;

/// Positive zero.
pub const ZERO: u64 = 0;

/// The pattern without its sign bit.
pub open spec fn magnitude(x: u64) -> u64 {
    if x >= SIGN_BIT {
        (x - SIGN_BIT) as u64
    } else {
        x
    }
}

/// Whether the sign bit is set.
pub open spec fn is_negative(x: u64) -> bool {
    x >= SIGN_BIT
}

/// Whether the pattern is no number.
pub open spec fn is_nan(x: u64) -> bool {
    magnitude(x) > INFINITY
}

/// Whether the pattern is one of the two infinities.
pub open spec fn is_infinite(x: u64) -> bool {
    magnitude(x) == INFINITY
}

/// Whether the pattern is a zero, a subnormal or a normal number.
pub open spec fn is_finite(x: u64) -> bool {
    magnitude(x) < INFINITY
}

/// The eleven exponent bits.
pub open spec fn exponent_field(x: u64) -> nat {
    (magnitude(x) / HIDDEN_BIT) as nat
}

/// The fifty-two fraction bits.
pub open spec fn fraction(x: u64) -> nat {
    (magnitude(x) % HIDDEN_BIT) as nat
}

/// The significand as a whole number: the fraction, with the hidden bit
/// above it unless the number is subnormal.
pub open spec fn significand(x: u64) -> nat {
    if exponent_field(x) == 0 {
        fraction(x)
    } else {
        HIDDEN_BIT as nat + fraction(x)
    }
}

/// The power of two by which the significand is multiplied.
pub open spec fn scale(x: u64) -> nat {
    if exponent_field(x) == 0 {
        0
    } else {
        (exponent_field(x) - 1) as nat
    }
}

/// The absolute value of a finite number, in units of 2^-1074.
pub open spec fn units(x: u64) -> nat {
    significand(x) * pow2(scale(x))
}

/// The value of a finite number, in units of 2^-1074.
pub open spec fn signed_units(x: u64) -> int {
    if is_negative(x) {
        -(units(x) as int)
    } else {
        units(x) as int
    }
}

/// The number of low bits that a whole number of units has to give up to fit
/// a significand of fifty-three bits.
pub open spec fn excess(m: nat) -> nat
    decreases m,
{
    if m < 2 * HIDDEN_BIT {
        0
    } else {
        1 + excess(m / 2)
    }
}

/// `m` divided by 2^k and rounded to the nearest whole number, a tie going to
/// the even neighbour.
pub open spec fn nearest_even(m: nat, k: nat) -> nat {
    let p = pow2(k);
    let q = m / p;
    let r = m % p;
    if 2 * r > p || (2 * r == p && q % 2 == 1) {
        q + 1
    } else {
        q
    }
}

/// The pattern of the non-negative number nearest to `m` units: `m` rounded
/// to fifty-three significant bits, ties to even, and infinity where that no
/// longer fits. A carry out of the significand moves into the exponent bits
/// by the addition.
pub open spec fn rounded(m: nat) -> u64 {
    let k = excess(m);
    let bits = k * HIDDEN_BIT + nearest_even(m, k);
    if bits >= INFINITY {
        INFINITY
    } else {
        bits as u64
    }
}

/// The pattern with the other sign.
pub open spec fn negated(x: u64) -> u64 {
    if x >= SIGN_BIT {
        (x - SIGN_BIT) as u64
    } else {
        (x + SIGN_BIT) as u64
    }
}

/// The sum of two numbers. A NaN operand, or infinities of opposite sign,
/// give `NAN`; an infinity otherwise gives itself; finite numbers give their
/// exact sum, rounded. A sum that is exactly zero is negative zero only when
/// both operands are negative.
pub open spec fn sum_of(a: u64, b: u64) -> u64 {
    if is_nan(a) || is_nan(b) {
        NAN
    } else if is_infinite(a) {
        if is_infinite(b) && is_negative(a) != is_negative(b) {
            NAN
        } else {
            a
        }
    } else if is_infinite(b) {
        b
    } else {
        let total = signed_units(a) + signed_units(b);
        if total > 0 {
            rounded(total as nat)
        } else if total < 0 {
            (SIGN_BIT + rounded((-total) as nat)) as u64
        } else if is_negative(a) && is_negative(b) {
            SIGN_BIT
        } else {
            ZERO
        }
    }
}

/// The difference of two numbers: the sum of the first and the second negated.
pub open spec fn difference_of(a: u64, b: u64) -> u64 {
    sum_of(a, negated(b))
}

/// A whole number that orders the patterns other than NaN as their values
/// are ordered; both zeros have the key 0.
pub open spec fn order_key(x: u64) -> int {
    if is_negative(x) {
        -(magnitude(x) as int)
    } else {
        magnitude(x) as int
    }
}

/// Numeric equality: no NaN equals anything, and the two zeros are equal.
pub open spec fn equal(a: u64, b: u64) -> bool {
    !is_nan(a) && !is_nan(b) && order_key(a) == order_key(b)
}

/// Numeric order: a NaN is neither below nor above anything.
pub open spec fn less(a: u64, b: u64) -> bool {
    !is_nan(a) && !is_nan(b) && order_key(a) < order_key(b)
}

/// Numeric order or equality: false of a NaN on either side.
pub open spec fn at_most(a: u64, b: u64) -> bool {
    !is_nan(a) && !is_nan(b) && order_key(a) <= order_key(b)
}

proof fn lemma_pow2_values()
    ensures
        pow2(0) == 1,
        pow2(1) == 2,
        pow2(52) == HIDDEN_BIT,
        pow2(53) == 2 * HIDDEN_BIT,
        pow2(64) == 0x1_0000_0000_0000_0000,
        pow2(118) == 0x40_0000_0000_0000_0000_0000_0000_0000,
{
    lemma2_to64();
    lemma2_to64_rest();
    lemma_pow2_adds(64, 54);
}

proof fn lemma_pow2_monotonic(a: nat, b: nat)
    requires
        a <= b,
    ensures
        pow2(a) <= pow2(b),
        pow2(a) > 0,
{
    lemma_pow2_pos(a);
    if a < b {
        lemma_pow2_strictly_increases(a, b);
    }
}

/// A number of `n` bits has `n - 53` bits too many, or none.
proof fn lemma_excess_of_width(m: nat, n: nat)
    requires
        n >= 1,
        pow2((n - 1) as nat) <= m < pow2(n),
    ensures
        excess(m) == if n <= 53 {
            0
        } else {
            n - 53
        },
    decreases n,
{
    lemma_pow2_values();
    if n <= 53 {
        lemma_pow2_monotonic(n, 53);
    } else {
        lemma_pow2_monotonic(53, (n - 1) as nat);
        lemma_pow2_unfold(n);
        lemma_pow2_unfold((n - 1) as nat);
        lemma_excess_of_width(m / 2, (n - 1) as nat);
    }
}

/// Scaling by a power of two adds to the width.
proof fn lemma_width_scaled(m: nat, n: nat, x: nat)
    requires
        n >= 1,
        pow2((n - 1) as nat) <= m < pow2(n),
    ensures
        pow2((n - 1 + x) as nat) <= m * pow2(x) < pow2(n + x),
{
    lemma_pow2_adds((n - 1) as nat, x);
    lemma_pow2_adds(n, x);
    lemma_pow2_pos(x);
    let s = pow2(x) as int;
    let lo = pow2((n - 1) as nat) as int;
    let hi = pow2(n) as int;
    assert(lo * s <= m * s < hi * s) by (nonlinear_arith)
        requires
            lo <= m < hi,
            s > 0,
    ;
}

/// A multiple of 2^k needs no rounding.
proof fn lemma_nearest_even_exact(c: nat, k: nat)
    ensures
        nearest_even(c * pow2(k), k) == c,
{
    lemma_pow2_pos(k);
    lemma_fundamental_div_mod_converse((c * pow2(k)) as int, pow2(k) as int, c as int, 0);
}

/// Rounding does not depend on the unit in which the number is written.
proof fn lemma_nearest_even_scaled(m: nat, k: nat, x: nat)
    ensures
        nearest_even(m * pow2(x), k + x) == nearest_even(m, k),
{
    lemma_pow2_pos(k);
    lemma_pow2_pos(x);
    lemma_pow2_adds(k, x);
    let p = pow2(k) as int;
    let s = pow2(x) as int;
    let q = m as int / p;
    let r = m as int % p;
    lemma_fundamental_div_mod(m as int, p);
    assert(m * s == q * (p * s) + r * s && 0 <= r * s < p * s) by (nonlinear_arith)
        requires
            m == p * q + r,
            0 <= r < p,
            s > 0,
    ;
    lemma_fundamental_div_mod_converse(m * s, p * s, q, r * s);
    assert((2 * (r * s) > p * s) == (2 * r > p) && (2 * (r * s) == p * s) == (2 * r == p))
        by (nonlinear_arith)
        requires
            s > 0,
    ;
}

/// A number many binades below another does not move it: adding or taking
/// away less than a quarter of the last place of a normal number rounds
/// back to that number.
proof fn lemma_far_operand(sig: nat, e: nat, t: int)
    requires
        HIDDEN_BIT <= sig < 2 * HIDDEN_BIT,
        e >= 2,
        -pow2((e - 2) as nat) < t < pow2((e - 2) as nat),
    ensures
        sig * pow2(e) + t > 0,
        excess((sig * pow2(e) + t) as nat) * HIDDEN_BIT + nearest_even(
            (sig * pow2(e) + t) as nat,
            excess((sig * pow2(e) + t) as nat),
        ) == e * HIDDEN_BIT + sig,
{
    lemma_pow2_values();
    lemma_pow2_unfold(e);
    lemma_pow2_unfold((e - 1) as nat);
    lemma_pow2_pos((e - 2) as nat);
    lemma_pow2_adds(52, e);
    lemma_pow2_adds(53, e);
    lemma_pow2_adds(52, (e - 1) as nat);
    let q4 = pow2((e - 2) as nat) as int;
    let half = pow2((e - 1) as nat) as int;
    let p = pow2(e) as int;
    let h = HIDDEN_BIT as int;
    let m = sig * p + t;
    assert(half == 2 * q4 && p == 4 * q4);
    if t >= 0 {
        assert(h * p <= sig * p && sig * p + p <= 2 * h * p) by (nonlinear_arith)
            requires
                h <= sig < 2 * h,
                p > 0,
        ;
        lemma_excess_of_width(m as nat, 53 + e);
        lemma_fundamental_div_mod_converse(m, p, sig as int, t);
    } else if sig > HIDDEN_BIT {
        assert(h * p <= (sig - 1) * p && (sig - 1) * p + p == sig * p && sig * p <= 2 * h * p)
            by (nonlinear_arith)
            requires
                h < sig < 2 * h,
                p > 0,
        ;
        lemma_excess_of_width(m as nat, 53 + e);
        lemma_fundamental_div_mod_converse(m, p, sig - 1, p + t);
    } else {
        assert(h * p == 2 * h * half && (2 * h - 1) * half + half == 2 * h * half && h * half <= (2
            * h - 1) * half) by (nonlinear_arith)
            requires
                p == 2 * half,
                half > 0,
                h > 0,
        ;
        assert(pow2((52 + e - 1) as nat) == h * half);
        lemma_excess_of_width(m as nat, 52 + e);
        lemma_fundamental_div_mod_converse(m, half, 2 * h - 1, half + t);
        assert(excess(m as nat) == e - 1);
        assert(nearest_even(m as nat, (e - 1) as nat) == 2 * h);
        assert((e - 1) * h + 2 * h == e * h + h) by (nonlinear_arith);
    }
}

/// Among finite magnitudes, a larger pattern is a larger number.
proof fn lemma_units_monotonic(a: u64, b: u64)
    requires
        b < a < INFINITY,
    ensures
        units(b) < units(a),
        scale(b) <= scale(a),
        significand(a) < 2 * HIDDEN_BIT,
        significand(b) < 2 * HIDDEN_BIT,
        scale(a) > 0 ==> significand(a) >= HIDDEN_BIT,
        scale(a) <= 2045,
{
    lemma_pow2_values();
    let h = HIDDEN_BIT as int;
    let sa = significand(a) as int;
    let sb = significand(b) as int;
    let pa = pow2(scale(a)) as int;
    let pb = pow2(scale(b)) as int;
    lemma_pow2_pos(scale(a));
    lemma_pow2_pos(scale(b));
    assert(units(a) == sa * pa && units(b) == sb * pb);
    if exponent_field(a) == exponent_field(b) {
        assert(sb * pa < sa * pa) by (nonlinear_arith)
            requires
                sb < sa,
                pa > 0,
        ;
    } else if exponent_field(b) == 0 {
        assert(pb == 1);
        assert(sb * pb == sb) by (nonlinear_arith)
            requires
                pb == 1,
        ;
        assert(sa * pa >= h) by (nonlinear_arith)
            requires
                sa >= h,
                pa >= 1,
                h > 0,
        ;
    } else {
        lemma_pow2_unfold((scale(b) + 1) as nat);
        lemma_pow2_monotonic((scale(b) + 1) as nat, scale(a));
        assert(sb * pb < sa * pa) by (nonlinear_arith)
            requires
                sb < 2 * h,
                sa >= h,
                2 * pb <= pa,
                pb > 0,
                h > 0,
        ;
    }
}

fn power_of_two(k: u64) -> (p: u128)
    requires
        k <= 118,
    ensures
        p == pow2(k as nat),
{
    let mut p: u128 = 1;
    let mut i: u64 = 0;
    proof {
        lemma_pow2_values();
    }
    while i < k
        invariant
            i <= k <= 118,
            p == pow2(i as nat),
        decreases k - i,
    {
        proof {
            lemma_pow2_values();
            lemma_pow2_unfold((i + 1) as nat);
            lemma_pow2_monotonic((i + 1) as nat, 118);
        }
        p = p * 2;
        i = i + 1;
    }
    p
}

/// The number of bits of `m`.
fn bit_length(m: u128) -> (n: u64)
    requires
        0 < m < 0x40_0000_0000_0000_0000_0000_0000_0000,
    ensures
        1 <= n <= 118,
        pow2((n - 1) as nat) <= m < pow2(n as nat),
{
    let mut p: u128 = 1;
    let mut n: u64 = 0;
    proof {
        lemma_pow2_values();
    }
    while p <= m
        invariant
            m < 0x40_0000_0000_0000_0000_0000_0000_0000,
            p == pow2(n as nat),
            n <= 118,
            n == 0 || pow2((n - 1) as nat) <= m,
        decreases 119 - n,
    {
        proof {
            lemma_pow2_values();
            lemma_pow2_unfold((n + 1) as nat);
            if n >= 118 {
                lemma_pow2_monotonic(118, n as nat);
            }
        }
        p = p * 2;
        n = n + 1;
    }
    n
}

fn round_half_even(m: u128, k: u64) -> (q: u128)
    requires
        m < 0x40_0000_0000_0000_0000_0000_0000_0000,
        k <= 118,
    ensures
        q == nearest_even(m as nat, k as nat),
{
    let p = power_of_two(k);
    proof {
        lemma_pow2_pos(k as nat);
        lemma_pow2_values();
        lemma_pow2_monotonic(k as nat, 118);
    }
    let q = m / p;
    let r = m % p;
    if r > p - r || (r == p - r && q % 2 == 1) {
        q + 1
    } else {
        q
    }
}

/// Rounds `m` times 2^x units to a pattern.
fn round_scaled(m: u128, x: u64) -> (r: u64)
    requires
        m < 0x40_0000_0000_0000_0000_0000_0000_0000,
        x <= 2045,
    ensures
        r == rounded(m as nat * pow2(x as nat)),
{
    proof {
        lemma_pow2_values();
    }
    if m == 0 {
        proof {
            assert(m as nat * pow2(x as nat) == 0) by (nonlinear_arith)
                requires
                    m == 0,
            ;
            assert(nearest_even(0, 0) == 0);
        }
        return 0;
    }
    let len = bit_length(m);
    let ghost total = m as nat * pow2(x as nat);
    proof {
        lemma_width_scaled(m as nat, len as nat, x as nat);
        lemma_excess_of_width(total, (len + x) as nat);
    }
    if len + x <= 53 {
        let p = power_of_two(x);
        proof {
            lemma_pow2_monotonic((len + x) as nat, 53);
            assert(total / 1 == total && total % 1 == 0);
        }
        let v = m * p;
        v as u64
    } else {
        let k = len + x - 53;
        let sig: u128 = if len <= 53 {
            let p = power_of_two(53 - len);
            proof {
                lemma_width_scaled(m as nat, len as nat, (53 - len) as nat);
                lemma_pow2_adds((53 - len) as nat, k as nat);
                lemma_nearest_even_exact(m as nat * pow2((53 - len) as nat), k as nat);
                assert(m as nat * pow2((53 - len) as nat) * pow2(k as nat) == total)
                    by (nonlinear_arith)
                    requires
                        total == m as nat * pow2(x as nat),
                        pow2(x as nat) == pow2((53 - len) as nat) * pow2(k as nat),
                ;
            }
            m * p
        } else {
            proof {
                lemma_nearest_even_scaled(m as nat, (len - 53) as nat, x as nat);
                lemma_quotient_bound(m as nat, (len - 53) as nat);
            }
            round_half_even(m, len - 53)
        };
        let bits = k * HIDDEN_BIT + sig as u64;
        if bits >= INFINITY {
            INFINITY
        } else {
            bits
        }
    }
}

/// A number of `53 + k` bits, rounded to 53 bits, is at most 2^53.
proof fn lemma_quotient_bound(m: nat, k: nat)
    requires
        m < pow2(53 + k),
    ensures
        nearest_even(m, k) <= 2 * HIDDEN_BIT,
{
    lemma_pow2_values();
    lemma_pow2_pos(k);
    lemma_pow2_adds(53, k);
    let p = pow2(k) as int;
    let q = m as int / p;
    let r = m as int % p;
    let h2 = 2 * HIDDEN_BIT as int;
    lemma_fundamental_div_mod(m as int, p);
    assert(q < h2) by (nonlinear_arith)
        requires
            m == p * q + r,
            0 <= r,
            m < h2 * p,
            p > 0,
    ;
}

/// The significand and the scale of a finite magnitude.
fn parts(x: u64) -> (r: (u64, u64))
    requires
        x < INFINITY,
    ensures
        r.0 == significand(x),
        r.1 == scale(x),
        r.0 < 2 * HIDDEN_BIT,
        r.1 <= 2045,
        r.1 > 0 ==> r.0 >= HIDDEN_BIT,
        x == r.1 * HIDDEN_BIT + r.0,
{
    let e = x / HIDDEN_BIT;
    let f = x % HIDDEN_BIT;
    if e == 0 {
        (f, 0)
    } else {
        (HIDDEN_BIT + f, e - 1)
    }
}

/// The sum of two finite magnitudes.
fn magnitude_sum(a: u64, b: u64) -> (r: u64)
    requires
        b <= a < INFINITY,
    ensures
        r == rounded(units(a) + units(b)),
{
    let (sa, ea) = parts(a);
    let (sb, eb) = parts(b);
    proof {
        lemma_pow2_values();
        if b < a {
            lemma_units_monotonic(a, b);
        }
    }
    let d = ea - eb;
    if d > 64 {
        proof {
            lemma_small_units(b, (ea - 2) as nat);
            lemma_far_operand(sa as nat, ea as nat, units(b) as int);
        }
        a
    } else {
        let p = power_of_two(d);
        proof {
            lemma_pow2_monotonic(d as nat, 64);
            assert(sa * p < 0x20_0000_0000_0000_0000_0000_0000_0000) by (nonlinear_arith)
                requires
                    sa < 0x20_0000_0000_0000,
                    p <= 0x1_0000_0000_0000_0000,
            ;
        }
        let m = (sa as u128) * p + (sb as u128);
        proof {
            lemma_pow2_adds(d as nat, eb as nat);
            let pe = pow2(eb as nat) as int;
            let pa = pow2(ea as nat) as int;
            assert(m * pe == sa * pa + sb * pe) by (nonlinear_arith)
                requires
                    m == sa * p + sb,
                    pa == p * pe,
            ;
        }
        round_scaled(m, eb)
    }
}

/// The difference of two finite magnitudes, the larger first.
fn magnitude_difference(a: u64, b: u64) -> (r: u64)
    requires
        b < a < INFINITY,
    ensures
        r == rounded((units(a) - units(b)) as nat),
        units(a) > units(b),
{
    let (sa, ea) = parts(a);
    let (sb, eb) = parts(b);
    proof {
        lemma_pow2_values();
        lemma_units_monotonic(a, b);
    }
    let d = ea - eb;
    if d > 64 {
        proof {
            lemma_small_units(b, (ea - 2) as nat);
            lemma_far_operand(sa as nat, ea as nat, -(units(b) as int));
        }
        a
    } else {
        let p = power_of_two(d);
        proof {
            lemma_pow2_monotonic(d as nat, 64);
            lemma_pow2_adds(d as nat, eb as nat);
            lemma_pow2_pos(eb as nat);
            let pe = pow2(eb as nat) as int;
            let pa = pow2(ea as nat) as int;
            assert(sa * p < 0x20_0000_0000_0000_0000_0000_0000_0000) by (nonlinear_arith)
                requires
                    sa < 0x20_0000_0000_0000,
                    p <= 0x1_0000_0000_0000_0000,
            ;
            assert(sa * p > sb && (sa * p - sb) * pe == sa * pa - sb * pe) by (nonlinear_arith)
                requires
                    sa * pa > sb * pe,
                    pa == p * pe,
                    pe > 0,
            ;
        }
        let m = (sa as u128) * p - (sb as u128);
        round_scaled(m, eb)
    }
}

/// A finite magnitude whose scale lies at least 55 below `e + 2` is less
/// than 2^e units.
proof fn lemma_small_units(b: u64, e: nat)
    requires
        b < INFINITY,
        scale(b) + 53 <= e,
    ensures
        units(b) < pow2(e),
{
    lemma_pow2_values();
    lemma_pow2_adds(53, scale(b));
    lemma_pow2_monotonic(53 + scale(b), e);
    lemma_pow2_pos(scale(b));
    let sb = significand(b) as int;
    let pb = pow2(scale(b)) as int;
    let h2 = 2 * HIDDEN_BIT as int;
    assert(sb * pb < h2 * pb) by (nonlinear_arith)
        requires
            sb < h2,
            pb > 0,
    ;
}

fn with_sign(negative: bool, m: u64) -> (r: u64)
    requires
        m <= INFINITY,
    ensures
        r == if negative {
            (SIGN_BIT + m) as u64
        } else {
            m
        },
{
    if negative {
        SIGN_BIT + m
    } else {
        m
    }
}

/// The magnitude of a pattern.
pub fn absolute(x: u64) -> (r: u64)
    ensures
        r == magnitude(x),
{
    if x >= SIGN_BIT {
        x - SIGN_BIT
    } else {
        x
    }
}

/// The number with the other sign.
pub fn negate(x: u64) -> (r: u64)
    ensures
        r == negated(x),
{
    if x >= SIGN_BIT {
        x - SIGN_BIT
    } else {
        x + SIGN_BIT
    }
}

/// Adds two numbers.
pub fn sum(a: u64, b: u64) -> (r: u64)
    ensures
        r == sum_of(a, b),
{
    let ma = absolute(a);
    let mb = absolute(b);
    let na = a >= SIGN_BIT;
    let nb = b >= SIGN_BIT;
    if ma > INFINITY || mb > INFINITY {
        NAN
    } else if ma == INFINITY {
        if mb == INFINITY && na != nb {
            NAN
        } else {
            a
        }
    } else if mb == INFINITY {
        b
    } else if na == nb {
        let m = if ma >= mb {
            magnitude_sum(ma, mb)
        } else {
            magnitude_sum(mb, ma)
        };
        proof {
            lemma_rounded_zero(units(ma) + units(mb));
        }
        with_sign(na, m)
    } else if ma == mb {
        ZERO
    } else if ma > mb {
        let m = magnitude_difference(ma, mb);
        proof {
            lemma_rounded_zero((units(ma) - units(mb)) as nat);
        }
        with_sign(na, m)
    } else {
        let m = magnitude_difference(mb, ma);
        proof {
            lemma_rounded_zero((units(mb) - units(ma)) as nat);
        }
        with_sign(nb, m)
    }
}

/// Rounding gives a pattern up to infinity, and zero only for zero.
proof fn lemma_rounded_zero(m: nat)
    ensures
        rounded(m) <= INFINITY,
        m == 0 ==> rounded(m) == 0,
{
    lemma_pow2_values();
    if m == 0 {
        assert(nearest_even(0, 0) == 0);
    }
}

/// Subtracts the second number from the first.
pub fn difference(a: u64, b: u64) -> (r: u64)
    ensures
        r == difference_of(a, b),
{
    sum(a, negate(b))
}

/// Whether two numbers are equal.
pub fn is_equal(a: u64, b: u64) -> (r: bool)
    ensures
        r == equal(a, b),
{
    let ma = absolute(a);
    let mb = absolute(b);
    if ma > INFINITY || mb > INFINITY {
        false
    } else if (a >= SIGN_BIT) == (b >= SIGN_BIT) {
        ma == mb
    } else {
        ma == 0 && mb == 0
    }
}

/// Whether the first number is below the second.
pub fn is_less(a: u64, b: u64) -> (r: bool)
    ensures
        r == less(a, b),
{
    let ma = absolute(a);
    let mb = absolute(b);
    if ma > INFINITY || mb > INFINITY {
        false
    } else if a >= SIGN_BIT {
        if b >= SIGN_BIT {
            mb < ma
        } else {
            ma != 0 || mb != 0
        }
    } else if b >= SIGN_BIT {
        false
    } else {
        ma < mb
    }
}

/// Whether the first number is below the second or equal to it.
pub fn is_at_most(a: u64, b: u64) -> (r: bool)
    ensures
        r == at_most(a, b),
{
    is_less(a, b) || is_equal(a, b)
}

/// Finite numbers are ordered as their values are.
pub proof fn lemma_order_is_by_value(a: u64, b: u64)
    requires
        is_finite(a),
        is_finite(b),
    ensures
        less(a, b) <==> signed_units(a) < signed_units(b),
        equal(a, b) <==> signed_units(a) == signed_units(b),
        at_most(a, b) <==> signed_units(a) <= signed_units(b),
{
    let ma = magnitude(a);
    let mb = magnitude(b);
    assert(units(a) == units(ma) && units(b) == units(mb));
    if ma < mb {
        lemma_units_monotonic(mb, ma);
    } else if mb < ma {
        lemma_units_monotonic(ma, mb);
    }
    lemma_zero_units(ma);
    lemma_zero_units(mb);
}

/// Only the zero pattern has no units.
proof fn lemma_zero_units(x: u64)
    requires
        x < INFINITY,
    ensures
        units(x) == 0 <==> x == 0,
{
    lemma_pow2_values();
    if x > 0 {
        lemma_units_monotonic(x, 0);
    } else {
        assert(units(0) == 0) by (nonlinear_arith)
            requires
                units(0) == 0 * pow2(0),
        ;
    }
}

/// A finite number is its own value rounded: rounding changes nothing that
/// can be represented.
pub proof fn lemma_rounded_units(x: u64)
    requires
        x < INFINITY,
    ensures
        rounded(units(x)) == x,
{
    lemma_pow2_values();
    let sig = significand(x);
    let sc = scale(x);
    assert(x == sc * HIDDEN_BIT + sig);
    if sc == 0 {
        assert(units(x) == sig) by (nonlinear_arith)
            requires
                units(x) == sig * pow2(0),
                pow2(0) == 1,
        ;
        assert(nearest_even(sig, 0) == sig);
    } else {
        lemma_width_scaled(sig, 53, sc);
        lemma_excess_of_width(units(x), 53 + sc);
        lemma_nearest_even_exact(sig, sc);
    }
}

/// Taking zero away from a number leaves the number, and so does adding
/// zero to any number but negative zero.
pub proof fn lemma_zero_is_neutral(x: u64)
    requires
        !is_nan(x),
    ensures
        difference_of(x, ZERO) == x,
        x != SIGN_BIT ==> sum_of(ZERO, x) == x,
        sum_of(ZERO, SIGN_BIT) == ZERO,
{
    lemma_pow2_values();
    lemma_zero_units(0);
    assert(units(SIGN_BIT) == units(0));
    if is_finite(x) {
        let m = magnitude(x);
        assert(units(x) == units(m));
        lemma_rounded_units(m);
        lemma_zero_units(m);
    }
}

/// The order of the operands does not matter to a sum.
pub proof fn lemma_sum_commutes(a: u64, b: u64)
    ensures
        sum_of(a, b) == sum_of(b, a),
{
}

} // verus!
