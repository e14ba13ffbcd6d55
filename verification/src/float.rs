//! Arithmetic of doubles in integers: every result is the double nearest to the
//! exact one, and of two equally near doubles the even one.
//!
//! Finite doubles are whole multiples of the smallest positive one. Exact
//! results are quotients of such multiples, so that one definition of the
//! nearest double serves sums, products, quotients and texts.
use crate::decimal::{decimal, digit};
use crate::number::{
    hundredth_text, rounded, scaled, sign_text, tenth_text, whole_text, Double, EXACT, EXPONENT_UNIT,
    INFINITY, SIGN,
};
use vstd::arithmetic::div_mod::{
    lemma_div_multiples_vanish_quotient, lemma_fundamental_div_mod, lemma_fundamental_div_mod_converse,
};
use vstd::arithmetic::power2::{
    lemma2_to64, lemma2_to64_rest, lemma_pow2_adds, lemma_pow2_pos, lemma_pow2_strictly_increases,
    lemma_pow2_unfold, pow2,
};
use vstd::prelude::*;

verus! {

/// Two to the power of `k`.
pub open spec fn two(k: int) -> int {
    pow2(k as nat) as int
}

// ── Rounding ─────────────────────────────────────────────────────────────────

/// The magnitude bits of the double nearest to `n / d` times the smallest
/// positive double. Below `EXACT` these multiples are their own bits; above,
/// half of a number has the same significand and an exponent less by one.
pub open spec fn nearest_magnitude(n: int, d: int) -> int
    decreases
            (if n >= EXACT * d {
                n - EXACT * d + 1
            } else {
                0
            }),
{
    if d <= 0 || n < EXACT * d {
        rounded(n, d)
    } else {
        nearest_magnitude(n, 2 * d) + EXPONENT_UNIT
    }
}

/// The double with the given sign and magnitude bits, infinite where they are
/// too many.
pub open spec fn assembled(negative: bool, magnitude: int) -> Double {
    let m = if magnitude < INFINITY {
        magnitude
    } else {
        INFINITY as int
    };
    Double {
        bits: if negative {
            (m + SIGN) as u64
        } else {
            m as u64
        },
    }
}

/// The double nearest to `n / d` times the smallest positive double.
pub open spec fn nearest_double(negative: bool, n: int, d: int) -> Double {
    assembled(negative, nearest_magnitude(n, d))
}

/// How many times the smallest positive double a finite number with the
/// magnitude bits `magnitude` is.
pub open spec fn steps_of(magnitude: int) -> int
    decreases magnitude,
{
    if magnitude < EXACT {
        magnitude
    } else {
        2 * steps_of(magnitude - EXPONENT_UNIT)
    }
}

/// A rounded quotient does not change where both are multiplied.
proof fn lemma_rounded_scaled(n: int, d: int, k: int)
    requires
        n >= 0,
        d > 0,
        k > 0,
    ensures
        rounded(n * k, d * k) == rounded(n, d),
{
    let q = n / d;
    let r = n % d;
    lemma_fundamental_div_mod(n, d);
    assert(n * k == (d * k) * q + r * k) by (nonlinear_arith)
        requires
            n == d * q + r,
    ;
    assert(0 <= r * k < d * k) by (nonlinear_arith)
        requires
            0 <= r < d,
            k > 0,
    ;
    assert((d * k) * q == q * (d * k)) by (nonlinear_arith);
    lemma_fundamental_div_mod_converse(n * k, d * k, q, r * k);
    assert(2 * (r * k) < d * k <==> 2 * r < d) by (nonlinear_arith)
        requires
            k > 0,
    ;
    assert(2 * (r * k) > d * k <==> 2 * r > d) by (nonlinear_arith)
        requires
            k > 0,
    ;
}

/// The nearest double does not change where both are multiplied.
pub proof fn lemma_nearest_scaled(n: int, d: int, k: int)
    requires
        n >= 0,
        d > 0,
        k > 0,
    ensures
        nearest_magnitude(n * k, d * k) == nearest_magnitude(n, d),
    decreases
            (if n >= EXACT * d {
                n - EXACT * d + 1
            } else {
                0
            }),
{
    assert(d * k > 0) by (nonlinear_arith)
        requires
            d > 0,
            k > 0,
    ;
    assert(n < EXACT * d <==> n * k < EXACT * (d * k)) by (nonlinear_arith)
        requires
            k > 0,
    ;
    if n < EXACT * d {
        lemma_rounded_scaled(n, d, k);
    } else {
        lemma_nearest_scaled(n, 2 * d, k);
        assert((2 * d) * k == 2 * (d * k)) by (nonlinear_arith);
    }
}

/// Doubling a number that fills its significand raises its exponent.
pub proof fn lemma_nearest_raised(n: int, d: int, e: nat)
    requires
        d > 0,
        n >= EXPONENT_UNIT * d,
    ensures
        nearest_magnitude(n * two(e as int), d) == nearest_magnitude(n, d) + e * EXPONENT_UNIT,
    decreases e,
{
    if e == 0 {
        lemma2_to64();
        assert(n * 1 == n);
    } else {
        let f = (e - 1) as nat;
        lemma_nearest_raised(n, d, f);
        lemma_pow2_unfold(e);
        lemma_pow2_pos(f);
        let m = n * two(f as int);
        assert(n * two(e as int) == m * 2) by (nonlinear_arith)
            requires
                two(e as int) == 2 * two(f as int),
                m == n * two(f as int),
        ;
        assert(m >= n) by (nonlinear_arith)
            requires
                m == n * two(f as int),
                two(f as int) >= 1,
                n >= 0,
        ;
        assert(EXPONENT_UNIT * d >= 0) by (nonlinear_arith)
            requires
                d > 0,
        ;
        assert(m * 2 >= EXACT * d) by (nonlinear_arith)
            requires
                m >= EXPONENT_UNIT * d,
                EXACT == 2 * EXPONENT_UNIT,
        ;
        lemma_nearest_scaled(m, d, 2);
        assert(nearest_magnitude(m * 2, d) == nearest_magnitude(m * 2, 2 * d) + EXPONENT_UNIT);
        assert(e * EXPONENT_UNIT == f * EXPONENT_UNIT + EXPONENT_UNIT) by (nonlinear_arith)
            requires
                e == f + 1,
        ;
    }
}

/// `p` is the quotient of `n` and `d` without its fraction, and `rest` says
/// whether there is one.
pub open spec fn cut(p: int, rest: bool, n: int, d: int) -> bool {
    &&& d > 0
    &&& p * d <= n < (p + 1) * d
    &&& rest == (n != p * d)
}

/// Two to the power of `k`.
fn power(k: u32) -> (r: u128)
    requires
        k < 127,
    ensures
        r == two(k as int),
        r >= 1,
        r <= 0x4000_0000_0000_0000_0000_0000_0000_0000,
        k > 0 ==> r % 2 == 0,
        k > 0 ==> r >= 2,
{
    let mut r: u128 = 1;
    let mut i: u32 = 0;
    proof {
        lemma2_to64();
        lemma2_to64_rest();
        lemma_pow2_adds(63, 63);
    }
    while i < k
        invariant
            i <= k < 127,
            r == two(i as int),
            r >= 1,
            r <= two(126),
            i > 0 ==> r % 2 == 0,
            i > 0 ==> r >= 2,
            two(126) == 0x4000_0000_0000_0000_0000_0000_0000_0000,
        decreases k - i,
    {
        proof {
            lemma_pow2_unfold((i + 1) as nat);
            if i + 1 < 126 {
                lemma_pow2_strictly_increases((i + 1) as nat, 126);
            }
        }
        r = r * 2;
        i = i + 1;
    }
    r
}

/// The quotient that is cut to `p` is below `EXACT` times `x` where `p` is.
proof fn lemma_cut_below(p: int, rest: bool, n: int, d: int, x: int)
    requires
        cut(p, rest, n, d),
    ensures
        p < EXACT * x <==> n < EXACT * (d * x),
{
    assert(EXACT * (d * x) == (EXACT * x) * d) by (nonlinear_arith);
    if p < EXACT * x {
        assert((p + 1) * d <= (EXACT * x) * d) by (nonlinear_arith)
            requires
                p + 1 <= EXACT * x,
                d > 0,
        ;
    } else {
        assert(p * d >= (EXACT * x) * d) by (nonlinear_arith)
            requires
                p >= EXACT * x,
                d > 0,
        ;
    }
}

/// Rounding the quotient that is cut to `p`, a power of two lower.
proof fn lemma_cut_rounded(p: int, rest: bool, n: int, d: int, x: int)
    requires
        cut(p, rest, n, d),
        p >= 0,
        x > 0,
        rest ==> x % 2 == 0,
    ensures
        rounded(n, d * x) == (if 2 * (p % x) < x {
            p / x
        } else if 2 * (p % x) > x || rest {
            p / x + 1
        } else if p / x % 2 == 0 {
            p / x
        } else {
            p / x + 1
        }),
{
    let q = p / x;
    let r = p % x;
    let g = n - p * d;
    lemma_fundamental_div_mod(p, x);
    assert(0 <= g < d) by (nonlinear_arith)
        requires
            p * d <= n < (p + 1) * d,
            g == n - p * d,
    ;
    let s = r * d + g;
    assert(n == q * (d * x) + s) by (nonlinear_arith)
        requires
            n == p * d + g,
            p == x * q + r,
            s == r * d + g,
    ;
    assert(0 <= s < d * x) by (nonlinear_arith)
        requires
            s == r * d + g,
            0 <= r <= x - 1,
            0 <= g < d,
            d > 0,
    ;
    assert(d * x > 0) by (nonlinear_arith)
        requires
            d > 0,
            x > 0,
    ;
    lemma_fundamental_div_mod_converse(n, d * x, q, s);
    if 2 * r < x {
        if rest {
            assert((2 * r) * d <= (x - 2) * d) by (nonlinear_arith)
                requires
                    2 * r <= x - 2,
                    d > 0,
            ;
            assert((x - 2) * d == d * x - 2 * d) by (nonlinear_arith);
            assert((2 * r) * d == 2 * (r * d)) by (nonlinear_arith);
        } else {
            assert(2 * s < d * x) by (nonlinear_arith)
                requires
                    s == r * d,
                    2 * r < x,
                    d > 0,
            ;
        }
    } else if 2 * r > x {
        assert(2 * s > d * x) by (nonlinear_arith)
            requires
                s >= r * d,
                2 * r > x,
                d > 0,
        ;
    } else {
        assert(2 * s == d * x + 2 * g) by (nonlinear_arith)
            requires
                s == r * d + g,
                2 * r == x,
        ;
    }
}

/// The magnitude bits of the double nearest to a quotient that is cut to `p`,
/// divided by two to the power of `shift`.
pub(crate) fn pack_down(p: u128, rest: bool, shift: u32, Ghost(n): Ghost<int>, Ghost(d): Ghost<int>) -> (r: u64)
    requires
        cut(p as int, rest, n, d),
        p < 0x100_0000_0000_0000_0000_0000_0000_0000,
        rest ==> shift > 0 || p >= 0x80_0000_0000_0000,
    ensures
        r == nearest_magnitude(n, d * two(shift as int)),
        r <= 0x80 * EXPONENT_UNIT,
{
    let ghost goal = nearest_magnitude(n, d * two(shift as int));
    proof {
        lemma_pow2_pos(shift as nat);
    }
    if shift >= 124 {
        proof {
            lemma2_to64();
            lemma2_to64_rest();
            lemma_pow2_adds(62, 62);
            if shift > 124 {
                lemma_pow2_strictly_increases(124, shift as nat);
            }
            let x = two(shift as int);
            assert(x >= 0x1000_0000_0000_0000_0000_0000_0000_0000);
            assert(p < EXACT * x);
            lemma_cut_below(p as int, rest, n, d, x);
            assert(d * x > 0) by (nonlinear_arith)
                requires
                    d > 0,
                    x > 0,
            ;
            assert(0 <= n) by (nonlinear_arith)
                requires
                    p * d <= n,
                    p >= 0,
                    d > 0,
            ;
            assert(2 * n < d * x) by (nonlinear_arith)
                requires
                    n < (p + 1) * d,
                    2 * (p + 1) <= x,
                    d > 0,
            ;
            assert(0 * (d * x) == 0) by (nonlinear_arith);
            lemma_fundamental_div_mod_converse(n, d * x, 0, n);
        }
        return 0;
    }
    let mut x: u128 = power(shift);
    let mut up: u64 = 0;
    let mut k: u32 = 0;
    proof {
        lemma2_to64();
        lemma2_to64_rest();
        lemma_pow2_adds(62, 62);
        lemma_pow2_strictly_increases(shift as nat, 124);
    }
    while p / x >= EXACT as u128
        invariant
            cut(p as int, rest, n, d),
            p < 0x100_0000_0000_0000_0000_0000_0000_0000,
            x >= 1,
            x <= 0x1000_0000_0000_0000_0000_0000_0000_0000,
            x == 1 || x % 2 == 0,
            rest && x == 1 ==> p >= 0x80_0000_0000_0000,
            x >= two(k as int),
            up == k * EXPONENT_UNIT,
            k <= 124,
            goal == nearest_magnitude(n, d * x) + up,
        decreases 0x1000_0000_0000_0000_0000_0000_0000_0000 - x,
    {
        proof {
            lemma_fundamental_div_mod(p as int, x as int);
            assert(p >= EXACT * x) by (nonlinear_arith)
                requires
                    p as int == x * (p as int / x as int) + p as int % x as int,
                    p as int / x as int >= EXACT,
                    p as int % x as int >= 0,
                    x >= 1,
            ;
            lemma_cut_below(p as int, rest, n, d, x as int);
            assert(d * x > 0) by (nonlinear_arith)
                requires
                    d > 0,
                    x > 0,
            ;
            assert(2 * (d * x) == d * (2 * x)) by (nonlinear_arith);
            lemma_pow2_unfold((k + 1) as nat);
            assert(x < 0x8_0000_0000_0000_0000);
            lemma2_to64();
            lemma2_to64_rest();
            if k >= 123 {
                lemma_pow2_strictly_increases(64, k as nat);
                lemma_pow2_adds(64, 59);
                if k > 123 {
                    lemma_pow2_strictly_increases(123, k as nat);
                }
            }
        }
        x = 2 * x;
        up = up + EXPONENT_UNIT;
        k = k + 1;
    }
    let q: u128 = p / x;
    let r: u128 = p % x;
    proof {
        lemma_fundamental_div_mod(p as int, x as int);
        assert(p < EXACT * x) by (nonlinear_arith)
            requires
                p as int == x * (p as int / x as int) + p as int % x as int,
                p as int / x as int <= EXACT - 1,
                p as int % (x as int) < x,
                x >= 1,
        ;
        lemma_cut_below(p as int, rest, n, d, x as int);
        assert(d * x > 0) by (nonlinear_arith)
            requires
                d > 0,
                x > 0,
        ;
        lemma_cut_rounded(p as int, rest, n, d, x as int);
    }
    let near: u64 = if 2 * r < x {
        q as u64
    } else if 2 * r > x || rest {
        q as u64 + 1
    } else if q % 2 == 0 {
        q as u64
    } else {
        q as u64 + 1
    };
    near + up
}

/// The magnitude bits of the double nearest to a quotient that is cut to `p`,
/// times two to the power of `shift`.
pub(crate) fn pack_up(p: u128, rest: bool, shift: u32, Ghost(n): Ghost<int>, Ghost(d): Ghost<int>) -> (r: u64)
    requires
        cut(p as int, rest, n, d),
        p < 0x100_0000_0000_0000_0000_0000_0000_0000,
        rest ==> p >= 0x80_0000_0000_0000,
        shift <= 3800,
    ensures
        r == nearest_magnitude(n * two(shift as int), d),
{
    let mut q: u128 = p;
    let mut e: u32 = shift;
    let ghost mut m: int = n;
    while e > 0 && q < EXPONENT_UNIT as u128
        invariant
            cut(q as int, rest, m, d),
            q < 0x100_0000_0000_0000_0000_0000_0000_0000,
            rest ==> q >= 0x80_0000_0000_0000,
            e <= shift,
            m * two(e as int) == n * two(shift as int),
        decreases e,
    {
        proof {
            lemma_pow2_unfold(e as nat);
            let t = two(e - 1);
            assert((2 * m) * t == m * (2 * t)) by (nonlinear_arith);
            assert((2 * q) * d == 2 * (q * d)) by (nonlinear_arith);
            assert((2 * q + 1) * d == 2 * (q * d) + d) by (nonlinear_arith);
            m = 2 * m;
        }
        q = 2 * q;
        e = e - 1;
    }
    let low: u64 = pack_down(q, rest, 0, Ghost(m), Ghost(d));
    proof {
        lemma2_to64();
        assert(d * 1 == d);
        assert(m * 1 == m);
        if e > 0 {
            assert(m >= EXPONENT_UNIT * d) by (nonlinear_arith)
                requires
                    q * d <= m,
                    q >= EXPONENT_UNIT,
                    d > 0,
            ;
            lemma_nearest_raised(m, d, e as nat);
        }
        assert(e * EXPONENT_UNIT <= 3800 * EXPONENT_UNIT) by (nonlinear_arith)
            requires
                e <= 3800,
        ;
    }
    low + e as u64 * EXPONENT_UNIT
}

// ── Parts of a number ────────────────────────────────────────────────────────

/// The number of doublings between the smallest positive double and the last
/// place of a finite number.
pub open spec fn place_of(magnitude: int) -> int {
    if magnitude < EXACT {
        0
    } else {
        magnitude / (EXPONENT_UNIT as int) - 1
    }
}

/// The significand of a finite number.
pub open spec fn significand_of(magnitude: int) -> int {
    if magnitude < EXACT {
        magnitude
    } else {
        magnitude % (EXPONENT_UNIT as int) + EXPONENT_UNIT
    }
}

/// A number is its significand, doubled as often as its last place asks.
pub proof fn lemma_steps(magnitude: int)
    requires
        magnitude >= 0,
    ensures
        steps_of(magnitude) == significand_of(magnitude) * two(place_of(magnitude)),
        place_of(magnitude) >= 0,
        0 <= significand_of(magnitude) < EXACT,
        place_of(magnitude) > 0 ==> significand_of(magnitude) >= EXPONENT_UNIT,
        magnitude > 0 ==> significand_of(magnitude) > 0,
    decreases magnitude,
{
    if magnitude < EXACT {
        lemma2_to64();
        assert(magnitude * 1 == magnitude);
    } else {
        let m = magnitude - EXPONENT_UNIT;
        lemma_steps(m);
        assert(m / (EXPONENT_UNIT as int) == magnitude / (EXPONENT_UNIT as int) - 1);
        assert(m % (EXPONENT_UNIT as int) == magnitude % (EXPONENT_UNIT as int));
        assert(place_of(magnitude) == place_of(m) + 1);
        assert(significand_of(magnitude) == significand_of(m));
        lemma_pow2_unfold(place_of(magnitude) as nat);
        assert(2 * (significand_of(m) * two(place_of(m))) == significand_of(m) * (2 * two(
            place_of(m),
        ))) by (nonlinear_arith);
    }
}

/// The significand and the last place of a finite number.
fn parts(magnitude: u64) -> (r: (u64, u32))
    requires
        magnitude < INFINITY,
    ensures
        r.0 == significand_of(magnitude as int),
        r.1 == place_of(magnitude as int),
        r.0 < EXACT,
        r.1 <= 2045,
        r.1 > 0 ==> r.0 >= EXPONENT_UNIT,
        magnitude > 0 ==> r.0 > 0,
        steps_of(magnitude as int) == r.0 * two(r.1 as int),
{
    proof {
        lemma_steps(magnitude as int);
    }
    if magnitude < EXACT {
        (magnitude, 0)
    } else {
        (magnitude % EXPONENT_UNIT + EXPONENT_UNIT, (magnitude / EXPONENT_UNIT - 1) as u32)
    }
}

/// The double with the given sign and magnitude bits.
pub(crate) fn assemble(negative: bool, magnitude: u64) -> (r: Double)
    ensures
        r == assembled(negative, magnitude as int),
{
    let m: u64 = if magnitude < INFINITY { magnitude } else { INFINITY };
    if negative {
        Double { bits: m + SIGN }
    } else {
        Double { bits: m }
    }
}

/// A number of steps beyond the largest double is nearest to infinity.
pub proof fn lemma_nearest_infinite(n: int, d: int, k: nat)
    requires
        d > 0,
        n >= d * two(k as int),
        k >= 52,
    ensures
        nearest_magnitude(n, d) >= (k - 51) * EXPONENT_UNIT,
    decreases k,
{
    lemma_pow2_pos(k);
    if n < EXACT * d {
        let q = n / d;
        lemma_fundamental_div_mod(n, d);
        lemma2_to64();
        lemma2_to64_rest();
        if k > 52 {
            lemma_pow2_strictly_increases(52, k);
            lemma_pow2_unfold(53);
            if k > 53 {
                lemma_pow2_strictly_increases(53, k);
            }
            assert(d * two(k as int) >= EXACT * d) by (nonlinear_arith)
                requires
                    two(k as int) >= EXACT,
                    d > 0,
            ;
        } else {
            assert(q >= EXPONENT_UNIT) by (nonlinear_arith)
                requires
                    n >= d * EXPONENT_UNIT,
                    n == d * q + n % d,
                    n % d < d,
                    d > 0,
            ;
        }
    } else if k == 52 {
        assert(2 * d > 0);
        lemma_nearest_positive(n, 2 * d);
    } else {
        lemma_pow2_unfold(k);
        let t = two(k - 1);
        assert(d * two(k as int) == (2 * d) * t) by (nonlinear_arith)
            requires
                two(k as int) == 2 * t,
        ;
        lemma_nearest_infinite(n, 2 * d, (k - 1) as nat);
        assert((k - 51) * EXPONENT_UNIT == (k - 52) * EXPONENT_UNIT + EXPONENT_UNIT)
            by (nonlinear_arith);
    }
}

/// Magnitudes are not negative.
proof fn lemma_nearest_positive(n: int, d: int)
    requires
        d > 0,
        n >= 0,
    ensures
        nearest_magnitude(n, d) >= 0,
    decreases
            (if n >= EXACT * d {
                n - EXACT * d + 1
            } else {
                0
            }),
{
    if n < EXACT * d {
        lemma_fundamental_div_mod(n, d);
        assert(n / d >= 0) by (nonlinear_arith)
            requires
                n >= 0,
                n == d * (n / d) + n % d,
                n % d < d,
                d > 0,
        ;
    } else {
        lemma_nearest_positive(n, 2 * d);
    }
}

// ── Operations ───────────────────────────────────────────────────────────────

impl Double {
    /// How many times the smallest positive double the absolute value of a
    /// finite number is.
    pub open spec fn steps(self) -> int {
        steps_of(self.magnitude())
    }

    /// The same with the sign.
    pub open spec fn signed_steps(self) -> int {
        if self.negative() {
            -self.steps()
        } else {
            self.steps()
        }
    }
}

/// Not a number.
#[verifier::allow_in_spec]
pub fn not_a_number() -> (r: Double)
    returns
        (Double { bits: 0x7ff8_0000_0000_0000 }),
{
    Double { bits: 0x7ff8_0000_0000_0000 }
}

/// The product of two doubles.
pub open spec fn product(a: Double, b: Double) -> Double {
    let negative = a.negative() != b.negative();
    if a.nan() || b.nan() {
        not_a_number()
    } else if !a.finite() || !b.finite() {
        if a.zero() || b.zero() {
            not_a_number()
        } else {
            assembled(negative, INFINITY as int)
        }
    } else {
        nearest_double(negative, a.steps() * b.steps(), two(1074))
    }
}

/// The quotient of two doubles.
pub open spec fn quotient(a: Double, b: Double) -> Double {
    let negative = a.negative() != b.negative();
    if a.nan() || b.nan() || (!a.finite() && !b.finite()) || (a.zero() && b.zero()) {
        not_a_number()
    } else if !a.finite() || b.zero() {
        assembled(negative, INFINITY as int)
    } else if !b.finite() {
        assembled(negative, 0)
    } else {
        nearest_double(negative, a.steps() * two(1074), b.steps())
    }
}

/// The double nearest to a whole number of smallest positive doubles.
pub open spec fn nearest_sum(sum: int, negative_zero: bool) -> Double {
    if sum == 0 {
        assembled(negative_zero, 0)
    } else if sum < 0 {
        nearest_double(true, -sum, 1)
    } else {
        nearest_double(false, sum, 1)
    }
}

/// The sum of two doubles. Where it is zero, it is negative only where both
/// are.
pub open spec fn sum(a: Double, b: Double) -> Double {
    if a.nan() || b.nan() {
        not_a_number()
    } else if !a.finite() {
        if !b.finite() && a.negative() != b.negative() {
            not_a_number()
        } else {
            a
        }
    } else if !b.finite() {
        b
    } else {
        nearest_sum(a.signed_steps() + b.signed_steps(), a.negative() && b.negative())
    }
}

/// The double with the other sign.
pub open spec fn negated(d: Double) -> Double {
    Double {
        bits: if d.negative() {
            (d.bits - SIGN) as u64
        } else {
            (d.bits + SIGN) as u64
        },
    }
}

/// The double without its sign.
pub open spec fn absolute(d: Double) -> Double {
    Double { bits: d.magnitude() as u64 }
}

/// The double nearest to an integer.
pub open spec fn of_integer(n: int) -> Double {
    nearest_double(
        n < 0,
        (if n < 0 {
            -n
        } else {
            n
        }) * two(1074),
        1,
    )
}

/// The double nearest to a quotient of natural numbers below `EXACT`.
pub open spec fn ratio(a: int, b: int) -> Double {
    quotient(of_integer(a), of_integer(b))
}

/// The larger one of two doubles; a number where one of them is not.
pub open spec fn larger(a: Double, b: Double) -> Double {
    if a.nan() || a.less(b) {
        b
    } else {
        a
    }
}

/// The product of numbers, each a significand and a last place.
fn multiply(m: u64, x: u32, w: u64, y: u32) -> (r: u64)
    requires
        m < EXACT,
        w < EXACT,
        x <= 2045,
        y <= 2045,
    ensures
        r == nearest_magnitude((m * two(x as int)) * (w * two(y as int)), two(1074)),
{
    assert(0 <= m * w < 0x400_0000_0000_0000_0000_0000_0000) by (nonlinear_arith)
        requires
            m < 0x20_0000_0000_0000,
            w < 0x20_0000_0000_0000,
            0 <= m,
            0 <= w,
    ;
    let p: u128 = m as u128 * w as u128;
    let e: u32 = x + y;
    let ghost n = (m * two(x as int)) * (w * two(y as int));
    proof {
        lemma_pow2_adds(x as nat, y as nat);
        assert(n == p * two(e as int)) by (nonlinear_arith)
            requires
                n == (m * two(x as int)) * (w * two(y as int)),
                p == m * w,
                two(e as int) == two(x as int) * two(y as int),
        ;
        assert(p * 1 == p && (p + 1) * 1 == p + 1);
    }
    if e >= 1074 {
        let k: u32 = e - 1074;
        proof {
            lemma_pow2_adds(k as nat, 1074);
            lemma_pow2_pos(1074);
            lemma_pow2_pos(k as nat);
            assert(n == (p * two(k as int)) * two(1074)) by (nonlinear_arith)
                requires
                    n == p * two(e as int),
                    two(e as int) == two(k as int) * two(1074),
            ;
            assert(0 <= p * two(k as int)) by (nonlinear_arith)
                requires
                    0 <= p,
                    0 < two(k as int),
            ;
            lemma_nearest_scaled(p * two(k as int), 1, two(1074));
            assert(1 * two(1074) == two(1074));
        }
        pack_up(p, false, k, Ghost(p as int), Ghost(1))
    } else {
        let k: u32 = 1074 - e;
        proof {
            lemma_pow2_adds(k as nat, e as nat);
            lemma_pow2_pos(e as nat);
            lemma_pow2_pos(k as nat);
            lemma_nearest_scaled(p as int, two(k as int), two(e as int));
            assert(1 * two(k as int) == two(k as int));
        }
        pack_down(p, false, k, Ghost(p as int), Ghost(1))
    }
}

impl Double {
    /// The product of two doubles.
    pub fn times(self, other: Double) -> (r: Double)
        ensures
            r == product(self, other),
    {
        let a: u64 = self.magnitude_bits();
        let b: u64 = other.magnitude_bits();
        let negative = (self.bits >= SIGN) != (other.bits >= SIGN);
        if a > INFINITY || b > INFINITY {
            return not_a_number();
        }
        if a == INFINITY || b == INFINITY {
            if a == 0 || b == 0 {
                return not_a_number();
            }
            return assemble(negative, INFINITY);
        }
        let (m, x) = parts(a);
        let (w, y) = parts(b);
        assemble(negative, multiply(m, x, w, y))
    }
}

/// The double nearest to a quotient of natural numbers below `EXACT`.
pub fn ratio_of(a: u64, b: u64) -> (r: Double)
    ensures
        r == ratio(a as int, b as int),
{
    Double::from_u64(a).over(Double::from_u64(b))
}

/// A significand shifted up until it fills 64 bits.
fn filled(m: u64) -> (r: (u64, u32))
    requires
        m > 0,
    ensures
        r.0 == m * two(r.1 as int),
        r.0 >= 0x8000_0000_0000_0000,
        r.1 < 64,
{
    let mut v: u64 = m;
    let mut h: u32 = 0;
    proof {
        lemma2_to64();
        lemma2_to64_rest();
        assert(m * 1 == m);
    }
    while v < 0x8000_0000_0000_0000
        invariant
            m > 0,
            v > 0,
            h < 64,
            v == m * two(h as int),
            v >= two(h as int),
            two(63) == 0x8000_0000_0000_0000,
        decreases 64 - h,
    {
        proof {
            lemma_pow2_unfold((h + 1) as nat);
            assert(2 * (m * two(h as int)) == m * (2 * two(h as int))) by (nonlinear_arith);
            if h >= 63 {
                assert(h == 63);
            }
        }
        v = 2 * v;
        h = h + 1;
    }
    (v, h)
}

/// The quotient of numbers, each a significand and a last place.
fn divide(m: u64, x: u32, w: u64, y: u32) -> (r: u64)
    requires
        0 < m < EXACT,
        0 < w < EXACT,
        x <= 2045,
        y <= 2045,
    ensures
        r == nearest_magnitude((m * two(x as int)) * two(1074), w * two(y as int)),
{
    let (v, h) = filled(m);
    let top: u128 = v as u128 * 0x100_0000_0000_0000;
    let p: u128 = top / (w as u128);
    let rest = top % (w as u128) != 0;
    let t: u32 = x + 1074 - h - 56;
    let ghost n = top as int;
    let ghost d = w as int;
    let ghost big = (m * two(x as int)) * two(1074);
    proof {
        lemma_fundamental_div_mod(n, d);
        assert(d * p == p * d) by (nonlinear_arith);
        assert((p + 1) * d == p * d + d) by (nonlinear_arith);
        assert(p >= 0x80_0000_0000_0000) by (nonlinear_arith)
            requires
                n < (p + 1) * d,
                n >= 0x8000_0000_0000_0000 * 0x100_0000_0000_0000,
                d < 0x20_0000_0000_0000,
                d > 0,
        ;
        assert(p <= n) by (nonlinear_arith)
            requires
                p * d <= n,
                d >= 1,
                p >= 0,
        ;
        lemma2_to64();
        lemma2_to64_rest();
        lemma_pow2_adds(h as nat, 56);
        lemma_pow2_adds((h + 56) as nat, t as nat);
        lemma_pow2_adds(x as nat, 1074);
        lemma_pow2_pos(t as nat);
        lemma_pow2_pos(y as nat);
        assert(n * two(t as int) == big) by (nonlinear_arith)
            requires
                n == (m * two(h as int)) * two(56),
                two(h + 56) == two(h as int) * two(56),
                two(x + 1074) == two(h + 56) * two(t as int),
                two(x + 1074) == two(x as int) * two(1074),
                big == (m * two(x as int)) * two(1074),
        ;
    }
    if t >= y {
        let k: u32 = t - y;
        proof {
            lemma_pow2_adds(k as nat, y as nat);
            lemma_pow2_pos(k as nat);
            assert(big == (n * two(k as int)) * two(y as int)) by (nonlinear_arith)
                requires
                    n * two(t as int) == big,
                    two(t as int) == two(k as int) * two(y as int),
            ;
            assert(0 <= n * two(k as int)) by (nonlinear_arith)
                requires
                    0 <= n,
                    0 < two(k as int),
            ;
            lemma_nearest_scaled(n * two(k as int), d, two(y as int));
        }
        pack_up(p, rest, k, Ghost(n), Ghost(d))
    } else {
        let k: u32 = y - t;
        proof {
            lemma_pow2_adds(k as nat, t as nat);
            lemma_pow2_pos(k as nat);
            assert(w * two(y as int) == (d * two(k as int)) * two(t as int)) by (nonlinear_arith)
                requires
                    two(y as int) == two(k as int) * two(t as int),
                    d == w,
            ;
            assert(0 < d * two(k as int)) by (nonlinear_arith)
                requires
                    0 < d,
                    0 < two(k as int),
            ;
            lemma_nearest_scaled(n, d * two(k as int), two(t as int));
        }
        pack_down(p, rest, k, Ghost(n), Ghost(d))
    }
}

/// Nothing divided is nothing.
pub proof fn lemma_nearest_of_nothing(d: int)
    requires
        d > 0,
    ensures
        nearest_magnitude(0, d) == 0,
{
    assert(0 < EXACT * d) by (nonlinear_arith)
        requires
            d > 0,
    ;
    assert(0 * d == 0);
    lemma_fundamental_div_mod_converse(0, d, 0, 0);
}

impl Double {
    /// The quotient of two doubles.
    pub fn over(self, other: Double) -> (r: Double)
        ensures
            r == quotient(self, other),
    {
        let a: u64 = self.magnitude_bits();
        let b: u64 = other.magnitude_bits();
        let negative = (self.bits >= SIGN) != (other.bits >= SIGN);
        if a > INFINITY || b > INFINITY || (a == INFINITY && b == INFINITY) || (a == 0 && b == 0) {
            return not_a_number();
        }
        if a == INFINITY || b == 0 {
            return assemble(negative, INFINITY);
        }
        if b == INFINITY {
            return assemble(negative, 0);
        }
        let (m, x) = parts(a);
        let (w, y) = parts(b);
        if a == 0 {
            proof {
                lemma_pow2_pos(y as nat);
                assert(w * two(y as int) > 0) by (nonlinear_arith)
                    requires
                        w > 0,
                        two(y as int) > 0,
                ;
                assert(0 * two(1074) == 0);
                lemma_nearest_of_nothing(other.steps());
            }
            return assemble(negative, 0);
        }
        assemble(negative, divide(m, x, w, y))
    }
}

/// The sum or the difference of numbers, each a significand and a last place;
/// the first one is the larger.
fn combine(m: u64, x: u32, w: u64, y: u32, less: bool) -> (r: u64)
    requires
        0 < m < EXACT,
        0 < w < EXACT,
        y <= x <= 2045,
        x > 0 ==> m >= EXPONENT_UNIT,
        less ==> m * two(x as int) >= w * two(y as int),
    ensures
        r == nearest_magnitude(
            m * two(x as int) + (if less {
                -(w * two(y as int))
            } else {
                w * two(y as int)
            }),
            1,
        ),
{
    let gap: u32 = x - y;
    let ghost n = if less {
        m * two(gap as int) - w
    } else {
        m * two(gap as int) + w
    };
    let ghost total = m * two(x as int) + (if less {
        -(w * two(y as int))
    } else {
        w * two(y as int)
    });
    proof {
        lemma_pow2_adds(gap as nat, y as nat);
        lemma_pow2_pos(y as nat);
        lemma_pow2_pos(gap as nat);
        assert(total == n * two(y as int)) by (nonlinear_arith)
            requires
                two(x as int) == two(gap as int) * two(y as int),
                less ==> n == m * two(gap as int) - w && total == m * two(x as int) - w * two(
                    y as int,
                ),
                !less ==> n == m * two(gap as int) + w && total == m * two(x as int) + w * two(
                    y as int,
                ),
        ;
        assert(less ==> n >= 0) by (nonlinear_arith)
            requires
                total == n * two(y as int),
                less ==> total >= 0,
                two(y as int) > 0,
        ;
    }
    if gap <= 66 {
        let f: u128 = power(gap);
        proof {
            lemma2_to64();
            lemma_pow2_adds(64, 2);
            if gap < 66 {
                lemma_pow2_strictly_increases(gap as nat, 66);
            }
            assert(m * f < 0x80_0000_0000_0000_0000_0000_0000_0000) by (nonlinear_arith)
                requires
                    m < 0x20_0000_0000_0000,
                    0 < f <= 0x4_0000_0000_0000_0000,
            ;
        }
        let high: u128 = m as u128 * f;
        let p: u128 = if less { high - w as u128 } else { high + w as u128 };
        assert(cut(p as int, false, n, 1)) by (nonlinear_arith)
            requires
                p as int == n,
        ;
        pack_up(p, false, y, Ghost(n), Ghost(1))
    } else {
        let s: u32 = gap - 66;
        let high: u128 = m as u128 * 0x4_0000_0000_0000_0000;
        proof {
            lemma2_to64();
            if s < 64 {
                lemma_pow2_strictly_increases(s as nat, 64);
            }
        }
        let unit: u64 = if s < 64 { power(s) as u64 } else { 0 };
        let low: u64 = if s < 64 { w / unit } else { 0 };
        let rest = if s < 64 { w % unit != 0 } else { true };
        let p: u128 = if !less {
            high + low as u128
        } else if rest {
            high - low as u128 - 1
        } else {
            high - low as u128
        };
        let ghost d = two(s as int);
        proof {
            lemma2_to64();
            lemma2_to64_rest();
            lemma_pow2_adds(64, 2);
            lemma_pow2_adds(66, s as nat);
            lemma_pow2_pos(s as nat);
            assert(m * two(gap as int) == high * d) by (nonlinear_arith)
                requires
                    two(gap as int) == two(66) * d,
                    high == m * two(66),
            ;
            if s < 64 {
                lemma_fundamental_div_mod(w as int, d);
                assert(d * (w as int / d) == low * d) by (nonlinear_arith)
                    requires
                        low == w as int / d,
                ;
            } else {
                if s > 64 {
                    lemma_pow2_strictly_increases(64, s as nat);
                }
                assert(low * d == 0) by (nonlinear_arith)
                    requires
                        low == 0,
                ;
            }
            assert(low * d <= w < low * d + d);
            assert(rest == (w != low * d));
            assert(n == (if less {
                high * d - w
            } else {
                high * d + w
            }));
            assert((high + low) * d == high * d + low * d) by (nonlinear_arith);
            assert((high - low) * d == high * d - low * d) by (nonlinear_arith);
            assert((high - low - 1) * d == high * d - low * d - d) by (nonlinear_arith);
            assert((p + 1) * d == p * d + d) by (nonlinear_arith);
            assert(cut(p as int, rest, n, d));
            let k = two(y + s);
            lemma_pow2_adds(y as nat, s as nat);
            lemma_nearest_scaled(total, 1, d);
            assert(1 * d == d);
            assert(n * k == total * d) by (nonlinear_arith)
                requires
                    total == n * two(y as int),
                    k == two(y as int) * d,
            ;
            assert(total >= 0) by (nonlinear_arith)
                requires
                    total == n * two(y as int),
                    n >= 0,
                    two(y as int) > 0,
            ;
        }
        pack_up(p, rest, y + s, Ghost(n), Ghost(d))
    }
}

/// The larger one of two magnitudes has the larger last place.
pub proof fn lemma_place_order(a: int, b: int)
    requires
        0 <= b <= a,
    ensures
        place_of(b) <= place_of(a),
        steps_of(b) <= steps_of(a),
        b < a ==> steps_of(b) < steps_of(a),
    decreases a,
{
    if a >= EXACT {
        if b >= EXACT {
            lemma_place_order(a - EXPONENT_UNIT, b - EXPONENT_UNIT);
            assert((a - EXPONENT_UNIT) / (EXPONENT_UNIT as int) == a / (EXPONENT_UNIT as int) - 1);
            assert((b - EXPONENT_UNIT) / (EXPONENT_UNIT as int) == b / (EXPONENT_UNIT as int) - 1);
        } else {
            if b >= EXPONENT_UNIT {
                lemma_place_order(a - EXPONENT_UNIT, EXPONENT_UNIT as int);
            } else {
                lemma_place_order(a - EXPONENT_UNIT, b);
            }
        }
    }
}

/// The magnitude bits of the sum or the difference of two magnitudes; the first
/// one is the larger.
fn combine_magnitudes(a: u64, b: u64, less: bool) -> (r: u64)
    requires
        b <= a < INFINITY,
    ensures
        r == nearest_magnitude(
            steps_of(a as int) + (if less {
                -steps_of(b as int)
            } else {
                steps_of(b as int)
            }),
            1,
        ),
{
    let (m, x) = parts(a);
    let (w, y) = parts(b);
    proof {
        lemma_place_order(a as int, b as int);
    }
    if b == 0 {
        assert(m * 1 == m && (m + 1) * 1 == m + 1);
        assert(steps_of(0) == 0);
        return pack_up(m as u128, false, x, Ghost(m as int), Ghost(1));
    }
    combine(m, x, w, y, less)
}

impl Double {
    /// The sum of two doubles.
    pub fn plus(self, other: Double) -> (r: Double)
        ensures
            r == sum(self, other),
    {
        let a: u64 = self.magnitude_bits();
        let b: u64 = other.magnitude_bits();
        let a_neg = self.bits >= SIGN;
        let b_neg = other.bits >= SIGN;
        if a > INFINITY || b > INFINITY {
            return not_a_number();
        }
        if a == INFINITY {
            if b == INFINITY && a_neg != b_neg {
                return not_a_number();
            }
            return self;
        }
        if b == INFINITY {
            return other;
        }
        proof {
            lemma_steps(a as int);
            lemma_steps(b as int);
            if a >= b {
                lemma_place_order(a as int, b as int);
            } else {
                lemma_place_order(b as int, a as int);
            }
            lemma_nearest_of_nothing(1);
        }
        let less = a_neg != b_neg;
        if a == b && less {
            return assemble(false, 0);
        }
        if a >= b {
            assemble(a_neg, combine_magnitudes(a, b, less))
        } else {
            assemble(b_neg, combine_magnitudes(b, a, less))
        }
    }

    /// The number with the other sign.
    pub fn negate(self) -> (r: Double)
        ensures
            r == negated(self),
    {
        if self.bits >= SIGN {
            Double { bits: self.bits - SIGN }
        } else {
            Double { bits: self.bits + SIGN }
        }
    }

    /// The difference of two doubles.
    pub fn minus(self, other: Double) -> (r: Double)
        ensures
            r == sum(self, negated(other)),
    {
        self.plus(other.negate())
    }

    /// The absolute value.
    pub fn abs(self) -> (r: Double)
        ensures
            r == absolute(self),
    {
        Double { bits: self.magnitude_bits() }
    }

    /// The larger one of two doubles.
    pub fn max(self, other: Double) -> (r: Double)
        ensures
            r == larger(self, other),
    {
        if self.magnitude_bits() > INFINITY || self.is_less(other) {
            other
        } else {
            self
        }
    }

    /// The double nearest to an integer.
    pub fn from_i64(n: i64) -> (r: Double)
        ensures
            r == of_integer(n as int),
    {
        let m: u64 = if n < 0 {
            if n == i64::MIN {
                0x8000_0000_0000_0000
            } else {
                (-n) as u64
            }
        } else {
            n as u64
        };
        assert(m * 1 == m && (m + 1) * 1 == m + 1);
        assemble(n < 0, pack_up(m as u128, false, 1074, Ghost(m as int), Ghost(1)))
    }

    /// The double nearest to a natural number.
    pub fn from_u64(n: u64) -> (r: Double)
        ensures
            r == of_integer(n as int),
    {
        assert(n * 1 == n && (n + 1) * 1 == n + 1);
        assemble(false, pack_up(n as u128, false, 1074, Ghost(n as int), Ghost(1)))
    }
}

// ── Integers ─────────────────────────────────────────────────────────────────

/// A sign and an absolute value as a 64-bit integer, the nearest one where it
/// does not fit.
pub open spec fn clamped(negative: bool, magnitude: int) -> int {
    if negative {
        if magnitude > 0x8000_0000_0000_0000 {
            i64::MIN as int
        } else {
            -magnitude
        }
    } else if magnitude > i64::MAX {
        i64::MAX as int
    } else {
        magnitude
    }
}

/// A double as a 64-bit integer: without its fraction, or rounded half away from
/// zero. What is not a number is zero, an infinity the nearest integer.
pub open spec fn to_integer(d: Double, round: bool) -> int {
    if d.nan() {
        0
    } else if !d.finite() {
        clamped(d.negative(), 0x8000_0000_0000_0000)
    } else if round {
        clamped(d.negative(), (2 * d.steps() + two(1074)) / (2 * two(1074)))
    } else {
        clamped(d.negative(), d.steps() / two(1074))
    }
}

/// A sign and an absolute value as a 64-bit integer.
fn clamp(negative: bool, magnitude: u128) -> (r: i64)
    ensures
        r == clamped(negative, magnitude as int),
{
    if negative {
        if magnitude >= 0x8000_0000_0000_0000 {
            i64::MIN
        } else {
            -(magnitude as i64)
        }
    } else if magnitude > 0x7fff_ffff_ffff_ffff {
        i64::MAX
    } else {
        magnitude as i64
    }
}

impl Double {
    /// The number as a 64-bit integer.
    pub fn to_i64(self, round: bool) -> (r: i64)
        ensures
            r == to_integer(self, round),
    {
        let mag: u64 = self.magnitude_bits();
        let negative = self.bits >= SIGN;
        if mag > INFINITY {
            return 0;
        }
        if mag == INFINITY {
            return clamp(negative, 0x8000_0000_0000_0000);
        }
        let (m, x) = parts(mag);
        let ghost one = two(1074);
        proof {
            lemma_pow2_pos(1074);
            lemma2_to64();
        }
        if x >= 1074 {
            let k: u32 = x - 1074;
            let ghost v = m * two(k as int);
            proof {
                lemma_pow2_adds(k as nat, 1074);
                lemma_pow2_pos(k as nat);
                assert(self.steps() == v * one) by (nonlinear_arith)
                    requires
                        self.steps() == m * two(x as int),
                        two(x as int) == two(k as int) * one,
                        v == m * two(k as int),
                ;
                lemma_fundamental_div_mod_converse(v * one, one, v, 0);
                assert(2 * (v * one) + one == v * (2 * one) + one) by (nonlinear_arith);
                lemma_fundamental_div_mod_converse(2 * (v * one) + one, 2 * one, v, one);
            }
            if k >= 12 {
                proof {
                    if k > 12 {
                        lemma_pow2_strictly_increases(12, k as nat);
                    }
                    assert(v >= 0x1_0000_0000_0000_0000) by (nonlinear_arith)
                        requires
                            v == m * two(k as int),
                            m >= 0x10_0000_0000_0000,
                            two(k as int) >= 0x1000,
                    ;
                }
                return clamp(negative, 0x1_0000_0000_0000_0000);
            }
            let f: u128 = power(k);
            proof {
                if k < 12 {
                    lemma_pow2_strictly_increases(k as nat, 12);
                }
                assert(m * f < 0x2_0000_0000_0000_0000) by (nonlinear_arith)
                    requires
                        m < 0x20_0000_0000_0000,
                        0 < f <= 0x1000,
                ;
            }
            return clamp(negative, m as u128 * f);
        }
        let s: u32 = 1074 - x;
        let ghost f = two(s as int);
        let ghost g = two(x as int);
        proof {
            lemma_pow2_adds(s as nat, x as nat);
            lemma_pow2_pos(s as nat);
            lemma_pow2_pos(x as nat);
            assert(self.steps() == g * m) by (nonlinear_arith)
                requires
                    self.steps() == m * g,
            ;
            assert(one == g * f) by (nonlinear_arith)
                requires
                    one == f * g,
            ;
            lemma_div_multiples_vanish_quotient(g, m as int, f);
            assert(2 * (g * m) + g * f == g * (2 * m + f)) by (nonlinear_arith);
            assert(2 * (g * f) == g * (2 * f)) by (nonlinear_arith);
            lemma_div_multiples_vanish_quotient(g, 2 * m + f, 2 * f);
        }
        if s >= 64 {
            proof {
                if s > 64 {
                    lemma_pow2_strictly_increases(64, s as nat);
                }
                assert(0 * f == 0 && 0 * (2 * f) == 0);
                lemma_fundamental_div_mod_converse(m as int, f, 0, m as int);
                lemma_fundamental_div_mod_converse(2 * m + f, 2 * f, 0, 2 * m + f);
            }
            return clamp(negative, 0);
        }
        let unit: u128 = power(s);
        if round {
            clamp(negative, (2 * m as u128 + unit) / (2 * unit))
        } else {
            clamp(negative, m as u128 / unit)
        }
    }
}

// ── Laws ─────────────────────────────────────────────────────────────────────

/// A number of steps is not nearest to more than the next power of two.
pub proof fn lemma_nearest_bound(n: int, d: int, k: nat)
    requires
        d > 0,
        0 <= n < d * two(k as int),
        k >= 53,
    ensures
        0 <= nearest_magnitude(n, d) <= (k - 51) * EXPONENT_UNIT,
    decreases k,
{
    if n < EXACT * d {
        lemma_fundamental_div_mod(n, d);
        assert(0 <= n / d < EXACT) by (nonlinear_arith)
            requires
                0 <= n < EXACT * d,
                n == d * (n / d) + n % d,
                0 <= n % d < d,
                d > 0,
        ;
        assert((k - 51) * EXPONENT_UNIT >= EXACT) by (nonlinear_arith)
            requires
                k >= 53,
                EXACT == 2 * EXPONENT_UNIT,
        ;
    } else {
        lemma2_to64();
        lemma2_to64_rest();
        if k == 53 {
            assert(EXACT * d == d * two(53)) by (nonlinear_arith)
                requires
                    two(53) == EXACT,
            ;
        }
        lemma_pow2_unfold(k);
        let t = two(k - 1);
        assert(d * two(k as int) == (2 * d) * t) by (nonlinear_arith)
            requires
                two(k as int) == 2 * t,
        ;
        lemma_nearest_bound(n, 2 * d, (k - 1) as nat);
        assert((k - 51) * EXPONENT_UNIT == (k - 52) * EXPONENT_UNIT + EXPONENT_UNIT)
            by (nonlinear_arith);
    }
}

/// A significand in any place is its own nearest double.
pub proof fn lemma_nearest_exact(s: int, k: nat)
    requires
        0 <= s < EXACT,
    ensures
        steps_of(nearest_magnitude(s * two(k as int), 1)) == s * two(k as int),
    decreases k,
{
    let n = s * two(k as int);
    lemma_pow2_pos(k);
    assert(n >= 0) by (nonlinear_arith)
        requires
            n == s * two(k as int),
            s >= 0,
            two(k as int) > 0,
    ;
    if n < EXACT {
        assert(n / 1 == n && n % 1 == 0);
    } else {
        lemma2_to64();
        lemma2_to64_rest();
        assert(k > 0) by {
            assert(s * 1 == s);
        }
        lemma_pow2_unfold(k);
        let half = s * two(k - 1);
        assert(n == half * 2) by (nonlinear_arith)
            requires
                n == s * two(k as int),
                two(k as int) == 2 * two(k - 1),
                half == s * two(k - 1),
        ;
        lemma_nearest_exact(s, (k - 1) as nat);
        lemma_nearest_scaled(half, 1, 2);
        lemma_nearest_infinite(half, 1, 52);
    }
}

/// Integers of up to 53 bits are doubles.
pub proof fn lemma_integer_exact(n: int)
    requires
        -EXACT < n < EXACT,
    ensures
        of_integer(n).finite(),
        of_integer(n).negative() == (n < 0),
        of_integer(n).signed_steps() == n * two(1074),
{
    let m = if n < 0 {
        -n
    } else {
        n
    };
    lemma2_to64();
    lemma2_to64_rest();
    lemma_pow2_pos(1074);
    lemma_pow2_adds(53, 1074);
    let t = two(1074);
    assert(0 <= m * t < 1 * two(1127)) by (nonlinear_arith)
        requires
            0 <= m < EXACT,
            two(1127) == EXACT * t,
            t > 0,
    ;
    lemma_nearest_bound(m * t, 1, 1127);
    lemma_nearest_exact(m, 1074);
    assert((-n) * t == -(n * t)) by (nonlinear_arith);
}

/// An integer of up to 53 bits is what it is as a double, with rounding or
/// without.
pub proof fn lemma_integer_round_trip(n: int, round: bool)
    requires
        -EXACT < n < EXACT,
    ensures
        to_integer(of_integer(n), round) == n,
{
    lemma_integer_exact(n);
    let m = if n < 0 {
        -n
    } else {
        n
    };
    let t = two(1074);
    lemma_pow2_pos(1074);
    assert((-n) * t == -(n * t)) by (nonlinear_arith);
    assert(of_integer(n).steps() == m * t);
    lemma_fundamental_div_mod_converse(m * t, t, m, 0);
    assert(2 * (m * t) + t == m * (2 * t) + t) by (nonlinear_arith);
    lemma_fundamental_div_mod_converse(2 * (m * t) + t, 2 * t, m, t);
}

/// The product of two natural numbers, one of 53 bits each, is the double
/// nearest to it.
pub proof fn lemma_integer_product(a: int, b: int)
    requires
        0 <= a < EXACT,
        0 <= b < EXACT,
    ensures
        product(of_integer(a), of_integer(b)) == of_integer(a * b),
{
    lemma_integer_exact(a);
    lemma_integer_exact(b);
    lemma_pow2_pos(1074);
    let t = two(1074);
    assert((a * t) * (b * t) == ((a * b) * t) * t) by (nonlinear_arith);
    assert(0 <= a * b) by (nonlinear_arith)
        requires
            0 <= a,
            0 <= b,
    ;
    assert(0 <= (a * b) * t) by (nonlinear_arith)
        requires
            0 <= a * b,
            t > 0,
    ;
    lemma_nearest_scaled((a * b) * t, 1, t);
    assert(1 * t == t);
}

/// The sum of two integers of up to 53 bits is exact as long as it is one.
pub proof fn lemma_integer_sum(a: int, b: int)
    requires
        -EXACT < a < EXACT,
        -EXACT < b < EXACT,
        -EXACT < a + b < EXACT,
    ensures
        sum(of_integer(a), of_integer(b)) == of_integer(a + b),
{
    lemma_integer_exact(a);
    lemma_integer_exact(b);
    lemma_pow2_pos(1074);
    lemma_nearest_of_nothing(1);
    let t = two(1074);
    assert(a * t + b * t == (a + b) * t) by (nonlinear_arith);
    assert(-((a + b) * t) == (-(a + b)) * t) by (nonlinear_arith);
    lemma_sign_of(a + b, t);
}

/// The difference of two integers of up to 53 bits is exact as long as it is one.
pub proof fn lemma_integer_difference(a: int, b: int)
    requires
        -EXACT < a < EXACT,
        -EXACT < b < EXACT,
        -EXACT < a - b < EXACT,
    ensures
        sum(of_integer(a), negated(of_integer(b))) == of_integer(a - b),
{
    lemma_integer_exact(a);
    lemma_integer_exact(b);
    lemma_pow2_pos(1074);
    lemma_nearest_of_nothing(1);
    let t = two(1074);
    assert(a * t - b * t == (a - b) * t) by (nonlinear_arith);
    assert(-((a - b) * t) == (-(a - b)) * t) by (nonlinear_arith);
    lemma_sign_of(a - b, t);
}

/// The absolute value of an integer of up to 53 bits.
pub proof fn lemma_integer_absolute(n: int)
    requires
        -EXACT < n < EXACT,
    ensures
        absolute(of_integer(n)) == of_integer(if n < 0 {
            -n
        } else {
            n
        }),
{
    let m = if n < 0 {
        -n
    } else {
        n
    };
    let t = two(1074);
    lemma2_to64();
    lemma2_to64_rest();
    lemma_pow2_pos(1074);
    lemma_pow2_adds(53, 1074);
    assert(0 <= m * t < 1 * two(1127)) by (nonlinear_arith)
        requires
            0 <= m < EXACT,
            two(1127) == EXACT * t,
            t > 0,
    ;
    lemma_nearest_bound(m * t, 1, 1127);
}

/// A product with a positive number has the sign of the other.
proof fn lemma_sign_of(n: int, t: int)
    requires
        t > 0,
    ensures
        n > 0 ==> n * t > 0,
        n < 0 ==> n * t < 0,
        n == 0 ==> n * t == 0,
{
    assert(n > 0 ==> n * t > 0) by (nonlinear_arith)
        requires
            t > 0,
    ;
    assert(n < 0 ==> n * t < 0) by (nonlinear_arith)
        requires
            t > 0,
    ;
}

/// Rounding keeps the order.
proof fn lemma_rounded_monotone(a: int, b: int, d: int)
    requires
        0 <= a <= b,
        d > 0,
    ensures
        rounded(a, d) <= rounded(b, d),
{
    lemma_fundamental_div_mod(a, d);
    lemma_fundamental_div_mod(b, d);
    let p = a / d;
    let q = b / d;
    assert(p <= q) by (nonlinear_arith)
        requires
            a == d * p + a % d,
            b == d * q + b % d,
            0 <= a % d,
            b % d < d,
            a <= b,
            d > 0,
    ;
    if p == q {
        assert(a % d <= b % d);
    }
}

/// The larger of two quotients is not nearest to the smaller double.
pub proof fn lemma_nearest_monotone(a: int, b: int, d: int)
    requires
        0 <= a <= b,
        d > 0,
    ensures
        nearest_magnitude(a, d) <= nearest_magnitude(b, d),
    decreases
            (if b >= EXACT * d {
                b - EXACT * d + 1
            } else {
                0
            }),
{
    if b < EXACT * d {
        lemma_rounded_monotone(a, b, d);
    } else if a < EXACT * d {
        lemma2_to64();
        lemma2_to64_rest();
        assert(a < d * two(53)) by (nonlinear_arith)
            requires
                a < EXACT * d,
                two(53) == EXACT,
        ;
        lemma_nearest_bound(a, d, 53);
        assert(b >= (2 * d) * two(52)) by (nonlinear_arith)
            requires
                b >= EXACT * d,
                two(52) == EXPONENT_UNIT,
                EXACT == 2 * EXPONENT_UNIT,
        ;
        lemma_nearest_infinite(b, 2 * d, 52);
    } else {
        lemma_nearest_monotone(a, b, 2 * d);
    }
}

/// The nearest double is at most half of the distance between doubles away.
pub proof fn lemma_nearest_distance(n: int, d: int, k: nat)
    requires
        n >= 0,
        d > 0,
        n < (EXACT * d) * two(k as int),
    ensures
        2 * n - d * two(k as int) <= 2 * (d * steps_of(nearest_magnitude(n, d))) <= 2 * n + d * two(
            k as int,
        ),
    decreases k,
{
    lemma_pow2_pos(k);
    let y = nearest_magnitude(n, d);
    if n < EXACT * d {
        lemma_fundamental_div_mod(n, d);
        let q = n / d;
        assert(0 <= q < EXACT) by (nonlinear_arith)
            requires
                0 <= n < EXACT * d,
                n == d * q + n % d,
                0 <= n % d < d,
                d > 0,
        ;
        assert(steps_of(y) == y) by {
            if y == EXACT {
                assert(steps_of(y - EXPONENT_UNIT) == y - EXPONENT_UNIT);
            }
        }
        assert(d * (q + 1) == d * q + d) by (nonlinear_arith);
        assert(d <= d * two(k as int)) by (nonlinear_arith)
            requires
                d > 0,
                two(k as int) >= 1,
        ;
    } else {
        lemma2_to64();
        lemma2_to64_rest();
        if k == 0 {
            assert((EXACT * d) * 1 == EXACT * d);
        }
        lemma_pow2_unfold(k);
        let t = two(k - 1);
        assert((EXACT * d) * two(k as int) == (EXACT * (2 * d)) * t) by (nonlinear_arith)
            requires
                two(k as int) == 2 * t,
        ;
        assert(d * two(k as int) == (2 * d) * t) by (nonlinear_arith)
            requires
                two(k as int) == 2 * t,
        ;
        lemma_nearest_distance(n, 2 * d, (k - 1) as nat);
        assert(n >= (2 * d) * two(52)) by (nonlinear_arith)
            requires
                n >= EXACT * d,
                two(52) == EXPONENT_UNIT,
                EXACT == 2 * EXPONENT_UNIT,
        ;
        lemma_nearest_infinite(n, 2 * d, 52);
        let m = nearest_magnitude(n, 2 * d);
        assert(steps_of(y) == 2 * steps_of(m));
        assert((2 * d) * steps_of(m) == d * (2 * steps_of(m))) by (nonlinear_arith);
    }
}

/// What is less than half of the distance between doubles above one of them is
/// not nearest to a larger one.
pub proof fn lemma_nearest_below(n: int, s: int, k: nat)
    requires
        0 <= n,
        EXPONENT_UNIT <= s < EXACT,
        2 * n < 2 * (s * two(k as int)) + two(k as int),
    ensures
        steps_of(nearest_magnitude(n, 1)) <= s * two(k as int),
{
    let v = s * two(k as int);
    lemma_pow2_pos(k);
    assert(v >= 0) by (nonlinear_arith)
        requires
            v == s * two(k as int),
            s >= 0,
            two(k as int) > 0,
    ;
    lemma_nearest_exact(s, k);
    if n <= v {
        lemma_nearest_monotone(n, v, 1);
    } else {
        assert(v >= EXPONENT_UNIT * two(k as int)) by (nonlinear_arith)
            requires
                v == s * two(k as int),
                s >= EXPONENT_UNIT,
                two(k as int) > 0,
        ;
        lemma_nearest_lowered(n, k);
        lemma_nearest_lowered(v, k);
        let t = two(k as int);
        assert(s * t == v);
        lemma_fundamental_div_mod_converse(n, t, s, n - v);
        lemma_fundamental_div_mod_converse(v, t, s, 0);
        assert(n < EXACT * t && v < EXACT * t) by (nonlinear_arith)
            requires
                2 * n < 2 * (s * t) + t,
                v == s * t,
                s + 1 <= EXACT,
                t > 0,
        ;
    }
    lemma_nearest_positive(n, 1);
    lemma_nearest_positive(v, 1);
    if nearest_magnitude(n, 1) <= nearest_magnitude(v, 1) {
        lemma_place_order(nearest_magnitude(v, 1), nearest_magnitude(n, 1));
    }
}

/// Halving a number that fills its significand lowers its exponent.
proof fn lemma_nearest_lowered(n: int, k: nat)
    requires
        n >= EXPONENT_UNIT * two(k as int),
    ensures
        nearest_magnitude(n, 1) == nearest_magnitude(n, two(k as int)) + k * EXPONENT_UNIT,
    decreases k,
{
    lemma2_to64();
    lemma_pow2_pos(k);
    if k > 0 {
        lemma_pow2_unfold(k);
        let t = two(k - 1);
        lemma_pow2_pos((k - 1) as nat);
        assert(n >= EXPONENT_UNIT * t && n >= EXACT * t) by (nonlinear_arith)
            requires
                n >= EXPONENT_UNIT * two(k as int),
                two(k as int) == 2 * t,
                t > 0,
                EXACT == 2 * EXPONENT_UNIT,
        ;
        lemma_nearest_lowered(n, (k - 1) as nat);
        assert(k * EXPONENT_UNIT == (k - 1) * EXPONENT_UNIT + EXPONENT_UNIT) by (nonlinear_arith);
    }
}

/// Raising the exponent doubles the number.
pub proof fn lemma_steps_raised(magnitude: int, e: nat)
    requires
        magnitude >= EXPONENT_UNIT,
    ensures
        steps_of(magnitude + e * EXPONENT_UNIT) == steps_of(magnitude) * two(e as int),
    decreases e,
{
    lemma2_to64();
    if e == 0 {
        assert(steps_of(magnitude) * 1 == steps_of(magnitude));
    } else {
        let f = (e - 1) as nat;
        lemma_steps_raised(magnitude, f);
        lemma_pow2_unfold(e);
        let t = two(f as int);
        assert(e * EXPONENT_UNIT == f * EXPONENT_UNIT + EXPONENT_UNIT) by (nonlinear_arith)
            requires
                e == f + 1,
        ;
        assert(f * EXPONENT_UNIT >= 0) by (nonlinear_arith);
        assert(2 * (steps_of(magnitude) * t) == steps_of(magnitude) * (2 * t)) by (nonlinear_arith);
    }
}

/// A positive integer of up to 53 bits can be shifted up to fill a significand.
pub proof fn lemma_fill(n: int) -> (h: nat)
    requires
        0 < n < EXACT,
    ensures
        h <= 52,
        EXPONENT_UNIT <= n * two(h as int) < EXACT,
    decreases EXACT - n,
{
    lemma2_to64();
    lemma2_to64_rest();
    if n >= EXPONENT_UNIT {
        assert(n * 1 == n);
        0
    } else {
        let h = lemma_fill(2 * n);
        lemma_pow2_unfold(h + 1);
        let t = two(h as int);
        assert((2 * n) * t == n * (2 * t)) by (nonlinear_arith);
        if h >= 52 {
            if h > 52 {
                lemma_pow2_strictly_increases(52, h);
            }
            assert((2 * n) * t >= 2 * EXPONENT_UNIT) by (nonlinear_arith)
                requires
                    n >= 1,
                    t >= EXPONENT_UNIT,
            ;
        }
        h + 1
    }
}

/// Of two finite numbers that are not negative, the one with fewer steps is
/// less.
pub proof fn lemma_less_steps(a: Double, b: Double)
    requires
        a.finite() && !a.negative(),
        b.finite() && !b.negative(),
    ensures
        a.less(b) <==> a.steps() < b.steps(),
{
    if a.magnitude() < b.magnitude() {
        lemma_place_order(b.magnitude(), a.magnitude());
    } else {
        lemma_place_order(a.magnitude(), b.magnitude());
    }
}

/// The quotient of an integer by one of its divisors is exact.
pub proof fn lemma_integer_quotient(a: int, b: int)
    requires
        0 < b < EXACT,
        -EXACT < a * b < EXACT,
    ensures
        quotient(of_integer(a * b), of_integer(b)) == of_integer(a),
{
    let t = two(1074);
    let n = a * b;
    lemma_integer_exact(n);
    lemma_integer_exact(b);
    lemma_pow2_pos(1074);
    lemma_sign_of(a, b);
    lemma_sign_of(b, t);
    let m = if a < 0 {
        -a
    } else {
        a
    };
    let size = if n < 0 {
        -n
    } else {
        n
    };
    assert(size == m * b) by (nonlinear_arith)
        requires
            n == a * b,
            b > 0,
            m == a && a >= 0 && size == n || m == -a && a < 0 && size == -n,
    ;
    assert((-n) * t == -(n * t)) by (nonlinear_arith);
    assert((size * t) * t == (m * t) * (b * t)) by (nonlinear_arith)
        requires
            size == m * b,
    ;
    assert(m * t >= 0) by (nonlinear_arith)
        requires
            m >= 0,
            t > 0,
    ;
    lemma_nearest_scaled(m * t, 1, b * t);
    assert(1 * (b * t) == b * t);
}

/// A number that is less than half of `1 / scale` from a multiple of it is written
/// as that multiple.
pub proof fn lemma_scaled_close(d: Double, scale: int, n: int)
    requires
        d.finite(),
        scale > 0,
        n >= 0,
        -two(1074) < 2 * (scale * d.steps() - n * two(1074)) < two(1074),
    ensures
        scaled(d, scale) == n,
{
    let m = d.magnitude();
    lemma_steps(m);
    let s = d.significand();
    let e = d.exponent();
    let u = two(1074);
    let steps = d.steps();
    lemma_pow2_pos(1074);
    assert(significand_of(m) == s);
    assert(place_of(m) == e + 1074);
    if e >= 0 {
        lemma_pow2_adds(e as nat, 1074);
        let p = pow2(e as nat) as int;
        let x = (s * scale) * p;
        assert(scale * steps == x * u) by (nonlinear_arith)
            requires
                steps == s * (p * u),
                x == (s * scale) * p,
        ;
        assert(x == n) by (nonlinear_arith)
            requires
                -u < 2 * (x * u - n * u) < u,
                u > 0,
        ;
    } else {
        let den = pow2((-e) as nat) as int;
        lemma_pow2_pos((-e) as nat);
        lemma_pow2_adds((e + 1074) as nat, (-e) as nat);
        let q = two(e + 1074);
        let x = s * scale;
        assert(x * u == (scale * steps) * den) by (nonlinear_arith)
            requires
                steps == s * q,
                u == q * den,
                x == s * scale,
        ;
        assert(-den < 2 * (x - n * den) < den) by (nonlinear_arith)
            requires
                x * u == (scale * steps) * den,
                -u < 2 * (scale * steps - n * u) < u,
                u > 0,
                den > 0,
        ;
        let rest = x - n * den;
        if rest >= 0 {
            lemma_fundamental_div_mod_converse(x, den, n, rest);
        } else {
            assert((n - 1) * den == n * den - den) by (nonlinear_arith);
            lemma_fundamental_div_mod_converse(x, den, n - 1, rest + den);
        }
    }
}

/// Natural numbers of up to 53 bits are written as they are: whole, with a place
/// behind the point, or with two.
pub proof fn lemma_integer_text(n: int)
    requires
        0 <= n < EXACT,
    ensures
        whole_text(of_integer(n)) == decimal(n),
        tenth_text(of_integer(n)) == decimal(n) + seq!['.', '0'],
        hundredth_text(of_integer(n)) == decimal(n) + seq!['.', '0', '0'],
{
    let d = of_integer(n);
    let u = two(1074);
    lemma_integer_exact(n);
    lemma_pow2_pos(1074);
    assert(1 * d.steps() == n * u);
    lemma_scaled_close(d, 1, n);
    assert(10 * (n * u) == (10 * n) * u) by (nonlinear_arith);
    lemma_scaled_close(d, 10, 10 * n);
    assert(100 * (n * u) == (100 * n) * u) by (nonlinear_arith);
    lemma_scaled_close(d, 100, 100 * n);
    assert(!d.nan());
    assert(sign_text(d) =~= Seq::empty());
    assert(digit(0) == '0');
    assert(whole_text(d) =~= decimal(n));
    assert((10 * n) / 10 == n && (10 * n) % 10 == 0);
    assert((100 * n) / 100 == n && (100 * n) / 10 % 10 == 0 && (100 * n) % 10 == 0);
    assert(tenth_text(d) =~= decimal(n) + seq!['.', '0']);
    assert(hundredth_text(d) =~= decimal(n) + seq!['.', '0', '0']);
}

/// A quotient of natural numbers is less than an integer exactly where the
/// numbers say so.
pub proof fn lemma_quotient_less(a: int, b: int, c: int)
    requires
        0 <= a < 0x100_0000_0000,
        0 < b < 0x2000,
        0 <= c < 0x1_0000_0000,
    ensures
        quotient(of_integer(a), of_integer(b)).less(of_integer(c)) <==> a < b * c,
{
    let u = two(1074);
    let w = two(1062);
    lemma_integer_exact(a);
    lemma_integer_exact(b);
    lemma_integer_exact(c);
    lemma2_to64();
    lemma2_to64_rest();
    lemma_pow2_pos(1074);
    lemma_pow2_pos(1062);
    lemma_pow2_adds(12, 1062);
    lemma_pow2_adds(53, 1074);
    lemma_sign_of(a, u);
    lemma_sign_of(b, u);
    lemma_sign_of(c, u);
    assert((a * u) * u >= 0) by (nonlinear_arith)
        requires
            a * u >= 0,
            u > 0,
    ;
    lemma_nearest_scaled(a * u, b, u);
    let q = quotient(of_integer(a), of_integer(b));
    let m = nearest_magnitude(a * u, b);
    assert(q == assembled(false, m));
    assert(0 <= a * u < b * two(1127)) by (nonlinear_arith)
        requires
            0 <= a < 0x100_0000_0000,
            b >= 1,
            two(1127) == EXACT * u,
            u > 0,
    ;
    lemma_nearest_bound(a * u, b, 1127);
    assert(q.finite() && !q.negative() && q.magnitude() == m);
    assert(a * u < (EXACT * b) * w) by (nonlinear_arith)
        requires
            0 <= a < 0x100_0000_0000,
            b >= 1,
            u == 0x1000 * w,
            w > 0,
    ;
    lemma_nearest_distance(a * u, b, 1062);
    let st = q.steps();
    lemma_less_steps(q, of_integer(c));
    if a < b * c {
        assert(st < c * u) by (nonlinear_arith)
            requires
                2 * (b * st) <= 2 * (a * u) + b * w,
                a + 1 <= b * c,
                u == 0x1000 * w,
                0 < b < 0x2000,
                w > 0,
        ;
    } else {
        assert((c * u) * b >= 0) by (nonlinear_arith)
            requires
                c * u >= 0,
                b > 0,
        ;
        assert((c * u) * b <= a * u) by (nonlinear_arith)
            requires
                b * c <= a,
                u > 0,
        ;
        lemma_nearest_monotone((c * u) * b, a * u, b);
        lemma_nearest_scaled(c * u, 1, b);
        assert(1 * b == b);
        assert(0 <= c * u < 1 * two(1127)) by (nonlinear_arith)
            requires
                0 <= c < 0x1_0000_0000,
                two(1127) == EXACT * u,
                u > 0,
        ;
        lemma_nearest_bound(c * u, 1, 1127);
        lemma_place_order(m, of_integer(c).magnitude());
    }
}

/// An integer other than zero with the other sign.
pub proof fn lemma_integer_negated(n: int)
    requires
        -EXACT < n < EXACT,
        n != 0,
    ensures
        negated(of_integer(n)) == of_integer(-n),
{
    let m = if n < 0 {
        -n
    } else {
        n
    };
    let t = two(1074);
    lemma_integer_exact(n);
    lemma2_to64();
    lemma2_to64_rest();
    lemma_pow2_pos(1074);
    lemma_pow2_adds(53, 1074);
    assert(0 <= m * t < 1 * two(1127)) by (nonlinear_arith)
        requires
            0 <= m < EXACT,
            two(1127) == EXACT * t,
            t > 0,
    ;
    lemma_nearest_bound(m * t, 1, 1127);
}

/// Integers of up to 53 bits have the order of the doubles that they are.
pub proof fn lemma_integer_order(a: int, b: int)
    requires
        -EXACT < a < EXACT,
        -EXACT < b < EXACT,
    ensures
        of_integer(a).less(of_integer(b)) <==> a < b,
        of_integer(a).equals(of_integer(b)) <==> a == b,
        of_integer(a).zero() <==> a == 0,
{
    let t = two(1074);
    let (x, y) = (of_integer(a), of_integer(b));
    lemma_integer_exact(a);
    lemma_integer_exact(b);
    lemma_pow2_pos(1074);
    lemma_sign_of(a, t);
    lemma_sign_of(b, t);
    assert(a < b ==> a * t < b * t) by (nonlinear_arith)
        requires
            t > 0,
    ;
    assert(a > b ==> a * t > b * t) by (nonlinear_arith)
        requires
            t > 0,
    ;
    if x.magnitude() <= y.magnitude() {
        lemma_place_order(y.magnitude(), x.magnitude());
    } else {
        lemma_place_order(x.magnitude(), y.magnitude());
    }
    lemma_place_order(x.magnitude(), 0);
    lemma_place_order(y.magnitude(), 0);
}

} // verus!
