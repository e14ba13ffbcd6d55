//! Drain trend: two readings of a backlog, a window apart, tell whether it
//! shrinks or grows and when it will be cleared.
use crate::decimal::decimal;
use crate::float::{
    absolute, larger, lemma_fill, lemma_integer_exact, lemma_integer_negated, lemma_integer_quotient,
    lemma_integer_text, lemma_less_steps, lemma_nearest_below, lemma_nearest_bound,
    lemma_nearest_distance, lemma_nearest_infinite, lemma_nearest_monotone, lemma_nearest_of_nothing,
    lemma_nearest_raised, lemma_nearest_scaled, lemma_quotient_less, lemma_steps, lemma_steps_raised,
    nearest_magnitude, negated, of_integer, product, quotient, ratio, steps_of, two,
};
use crate::number::{rounded, tenth_text, whole_text, Double, EXACT, EXPONENT_UNIT};
use crate::text::copy_of;
use vstd::arithmetic::power2::{lemma2_to64, lemma2_to64_rest, lemma_pow2_adds, lemma_pow2_pos};
use vstd::prelude::*;

verus! {

/// Which way a backlog is moving.
#[derive(Debug, Clone, Copy, PartialEq, Eq, Structural)]
pub enum Trend {
    /// No backlog at either reading.
    Empty,
    /// The backlog is shrinking.
    Draining,
    /// The backlog is growing.
    Growing,
    /// The change is negligible.
    Stable,
}

/// How a trend is called.
pub open spec fn trend_label(t: Trend) -> Seq<char> {
    match t {
        Trend::Empty => "empty"@,
        Trend::Draining => "draining"@,
        Trend::Growing => "growing"@,
        Trend::Stable => "stable"@,
    }
}

impl Trend {
    /// How the trend is called.
    pub fn label(self) -> (r: &'static str)
        ensures
            r@ == trend_label(self),
    {
        match self {
            Trend::Empty => "empty",
            Trend::Draining => "draining",
            Trend::Growing => "growing",
            Trend::Stable => "stable",
        }
    }
}

/// What two readings of a backlog tell.
#[derive(Debug, Clone, Copy, PartialEq, Eq, Structural)]
pub struct DrainStats {
    pub trend: Trend,
    /// Second reading less the first: negative where the backlog shrinks.
    pub delta: i64,
    /// Net messages per second: negative where the backlog shrinks.
    pub net_per_sec: Double,
    /// Seconds until the backlog is cleared at this rate; only where it drains and
    /// something is left.
    pub eta_secs: Option<Double>,
}

/// The change that counts as one: a fraction of the first reading, and at least
/// one message.
pub open spec fn noise_floor(first: int, noise: Double) -> Double {
    larger(product(of_integer(first), noise), of_integer(1))
}

/// The trend from `first` to `second`. A change of less than the fraction
/// `noise` of the first reading, or of less than one message, counts as none.
pub open spec fn trend_between(first: int, second: int, noise: Double) -> Trend {
    let delta = second - first;
    if first == 0 && second == 0 {
        Trend::Empty
    } else if absolute(of_integer(delta)).less(noise_floor(first, noise)) {
        Trend::Stable
    } else if delta < 0 {
        Trend::Draining
    } else {
        Trend::Growing
    }
}

/// The net rate: the change over the window, and none over no window.
pub open spec fn net_rate(delta: int, window: Double) -> Double {
    if of_integer(0).less(window) {
        quotient(of_integer(delta), window)
    } else {
        of_integer(0)
    }
}

/// What the readings `first` and `second`, `window` seconds apart, tell. A
/// draining backlog is cleared after what is left over the rate, where anything is
/// left.
pub open spec fn drained(first: int, second: int, window: Double, noise: Double) -> DrainStats {
    let trend = trend_between(first, second, noise);
    let net = net_rate(second - first, window);
    DrainStats {
        trend,
        delta: (second - first) as i64,
        net_per_sec: net,
        eta_secs: if trend == Trend::Draining && second > 0 && net.less(of_integer(0)) {
            Some(quotient(of_integer(second), negated(net)))
        } else {
            None
        },
    }
}

/// Compare two readings of a backlog taken `window` seconds apart. `noise` is
/// the fraction of the first reading that a change must reach to count.
pub fn evaluate_drain(first: i64, second: i64, window: Double, noise: Double) -> (r: DrainStats)
    requires
        i64::MIN <= second - first <= i64::MAX,
    ensures
        r == drained(first as int, second as int, window, noise),
        r.delta == second - first,
{
    let delta: i64 = second - first;
    let zero = Double::from_i64(0);
    let change = Double::from_i64(delta);
    let net = if zero.is_less(window) {
        change.over(window)
    } else {
        zero
    };
    let floor = Double::from_i64(first).times(noise).max(Double::from_i64(1));
    let trend = if first == 0 && second == 0 {
        Trend::Empty
    } else if change.abs().is_less(floor) {
        Trend::Stable
    } else if delta < 0 {
        Trend::Draining
    } else {
        Trend::Growing
    };
    let eta = if trend == Trend::Draining && second > 0 && net.is_less(zero) {
        Some(Double::from_i64(second).over(net.negate()))
    } else {
        None
    };
    DrainStats { trend, delta, net_per_sec: net, eta_secs: eta }
}

// ── Writing durations ────────────────────────────────────────────────────────

/// How a time in seconds is shown: minutes up to an hour and a half, hours up to
/// two days, then days up to a year.
pub open spec fn eta_text(secs: Double) -> Seq<char> {
    let minutes = quotient(secs, of_integer(60));
    let hours = quotient(minutes, of_integer(60));
    let days = quotient(hours, of_integer(24));
    if !secs.finite() || secs.less(of_integer(0)) {
        "—"@
    } else if minutes.less(of_integer(1)) {
        "<1m"@
    } else if minutes.less(of_integer(90)) {
        whole_text(minutes) + seq!['m']
    } else if hours.less(of_integer(48)) {
        whole_text(hours) + seq!['h']
    } else if days.less(of_integer(365)) {
        tenth_text(days) + seq!['d']
    } else {
        ">1y"@
    }
}

/// How long it takes to clear a backlog, for a human reader: `<1m`, `3m`,
/// `42h`, `5.2d`, or `>1y`.
pub fn format_eta(secs: Double) -> (r: String)
    ensures
        r@ == eta_text(secs),
{
    if !secs.is_finite() || secs.is_less(Double::from_u64(0)) {
        return copy_of("—");
    }
    let minutes = secs.over(Double::from_u64(60));
    if minutes.is_less(Double::from_u64(1)) {
        return copy_of("<1m");
    }
    if minutes.is_less(Double::from_u64(90)) {
        let mut r = minutes.whole();
        r.push('m');
        assert(r@ =~= eta_text(secs));
        return r;
    }
    let hours = minutes.over(Double::from_u64(60));
    if hours.is_less(Double::from_u64(48)) {
        let mut r = hours.whole();
        r.push('h');
        assert(r@ =~= eta_text(secs));
        return r;
    }
    let days = hours.over(Double::from_u64(24));
    if days.is_less(Double::from_u64(365)) {
        let mut r = days.tenth();
        r.push('d');
        assert(r@ =~= eta_text(secs));
        return r;
    }
    copy_of(">1y")
}

// ── Laws ─────────────────────────────────────────────────────────────────────

/// At least one message has to move.
proof fn lemma_floor(first: int, noise: Double)
    ensures
        of_integer(0).less(noise_floor(first, noise)),
        !noise_floor(first, noise).less(of_integer(1)),
{
    lemma_integer_exact(0);
    lemma_integer_exact(1);
    lemma_pow2_pos(1074);
    lemma2_to64();
    assert(0 * two(1074) == 0 && 1 * two(1074) == two(1074));
    lemma_steps(of_integer(0).magnitude());
    assert(of_integer(1).magnitude() > 0) by {
        assert(steps_of(0) == 0);
    }
    lemma_nearest_of_nothing(1);
    assert(of_integer(0).place() == 0);
}

/// A backlog that drains leaves less behind than it started with, one that
/// grows leaves more.
pub proof fn lemma_trend_direction(first: int, second: int, noise: Double)
    ensures
        trend_between(first, second, noise) == Trend::Draining ==> second < first,
        trend_between(first, second, noise) == Trend::Growing ==> second > first,
{
    lemma_floor(first, noise);
    if second == first {
        lemma_nearest_of_nothing(1);
        assert(0 * two(1074) == 0);
        assert(absolute(of_integer(0)) == of_integer(0));
    }
}

/// The significand of the double nearest to one hundredth.
spec fn centi() -> int {
    5_764_607_523_034_235
}

/// One hundredth as a double.
proof fn lemma_hundredth()
    ensures
        ratio(1, 100).finite(),
        !ratio(1, 100).negative(),
        ratio(1, 100).steps() == centi() * two(1015),
{
    let t = two(1074);
    lemma_pow2_pos(1074);
    lemma2_to64();
    lemma2_to64_rest();
    lemma_integer_exact(1);
    lemma_integer_exact(100);
    assert(1 * t == t);
    assert(of_integer(100).steps() == 100 * t);
    assert(of_integer(1).steps() == t);
    assert(!of_integer(100).zero()) by {
        assert(steps_of(0) == 0);
    }
    assert(!of_integer(1).zero()) by {
        assert(steps_of(0) == 0);
    }
    lemma_nearest_scaled(t, 100, t);
    lemma_pow2_adds(59, 1015);
    assert(two(59) == 0x800_0000_0000_0000);
    lemma_nearest_raised(two(59), 100, 1015);
    let m = nearest_magnitude(two(59), 100);
    assert(m == rounded(0x800_0000_0000_0000, 100));
    assert(m == centi());
    lemma_steps_raised(m, 1015);
}

/// The product of a natural number and one hundredth, in steps.
proof fn lemma_percent(first: int) -> (y: int)
    requires
        0 < first < EXACT,
    ensures
        product(of_integer(first), ratio(1, 100)).finite(),
        !product(of_integer(first), ratio(1, 100)).negative(),
        product(of_integer(first), ratio(1, 100)).steps() == y * two(1015),
        y == steps_of(nearest_magnitude(first * centi(), 1)),
{
    let t = two(1074);
    let u = two(1015);
    let x = first * centi();
    lemma_hundredth();
    lemma_integer_exact(first);
    lemma_pow2_pos(1074);
    lemma_pow2_pos(1015);
    lemma2_to64();
    lemma2_to64_rest();
    assert((first * t) * (centi() * u) == (x * u) * t) by (nonlinear_arith)
        requires
            x == first * centi(),
    ;
    assert(x >= EXPONENT_UNIT * 1) by (nonlinear_arith)
        requires
            x == first * centi(),
            first >= 1,
            centi() >= EXPONENT_UNIT,
    ;
    assert(x * u >= 0) by (nonlinear_arith)
        requires
            x >= 0,
            u > 0,
    ;
    lemma_nearest_scaled(x * u, 1, t);
    assert(1 * t == t);
    lemma_nearest_raised(x, 1, 1015);
    let z = nearest_magnitude(x, 1);
    lemma_nearest_infinite(x, 1, 52);
    lemma_steps_raised(z, 1015);
    lemma_pow2_adds(53, 53);
    assert(x < 1 * two(106)) by (nonlinear_arith)
        requires
            x == first * centi(),
            0 < first < EXACT,
            0 < centi() < EXACT,
            two(106) == EXACT * EXACT,
    ;
    lemma_nearest_bound(x, 1, 106);
    steps_of(z)
}

/// With a noise level of one hundredth, a change is stable exactly when it is
/// less than one percent of the starting backlog or there is none. Readings of
/// up to 53 bits are meant, which doubles hold exactly.
pub proof fn lemma_one_percent(first: int, second: int)
    requires
        0 < first < EXACT,
        -EXACT < second - first < EXACT,
    ensures
        trend_between(first, second, ratio(1, 100)) == Trend::Stable <==> second == first || 100 * (
        if second < first {
            first - second
        } else {
            second - first
        }) < first,
{
    let noise = ratio(1, 100);
    let delta = second - first;
    let size = if delta < 0 {
        -delta
    } else {
        delta
    };
    lemma_floor(first, noise);
    if delta == 0 {
        lemma_nearest_of_nothing(1);
        assert(0 * two(1074) == 0);
        assert(absolute(of_integer(0)) == of_integer(0));
    } else {
        let t = two(1074);
        let u = two(1015);
        let p = product(of_integer(first), noise);
        let a = absolute(of_integer(delta));
        let y = lemma_percent(first);
        lemma_integer_exact(delta);
        lemma_integer_exact(1);
        lemma_pow2_pos(1015);
        lemma_pow2_pos(1074);
        lemma2_to64();
        lemma2_to64_rest();
        lemma_pow2_adds(59, 1015);
        assert((-delta) * t == -(delta * t)) by (nonlinear_arith);
        assert(a.steps() == size * t);
        lemma_less_steps(a, p);
        lemma_less_steps(a, of_integer(1));
        lemma_less_steps(p, of_integer(1));
        assert(size * t >= 1 * t) by (nonlinear_arith)
            requires
                size >= 1,
                t > 0,
        ;
        // The change counts as none exactly where it is less than `p`.
        assert(a.less(noise_floor(first, noise)) <==> a.less(p));
        let w = size * two(59);
        assert(size * t == w * u) by (nonlinear_arith)
            requires
                w == size * two(59),
                t == two(59) * u,
        ;
        assert(w * u < y * u <==> w < y) by (nonlinear_arith)
            requires
                u > 0,
        ;
        let x = first * centi();
        if 100 * size < first {
            assert(x >= w + 12 * size + centi()) by (nonlinear_arith)
                requires
                    x == first * centi(),
                    first >= 100 * size + 1,
                    100 * centi() == two(59) + 12,
                    w == size * two(59),
                    centi() > 0,
            ;
            assert(x < (EXACT * 1) * two(53)) by (nonlinear_arith)
                requires
                    x == first * centi(),
                    0 < first < EXACT,
                    0 < centi() < EXACT,
                    two(53) == EXACT,
            ;
            assert(x >= 0);
            lemma_nearest_distance(x, 1, 53);
            assert(1 * y == y && 1 * two(53) == two(53));
        } else {
            assert(x <= w + 12 * size) by (nonlinear_arith)
                requires
                    x == first * centi(),
                    first <= 100 * size,
                    100 * centi() == two(59) + 12,
                    w == size * two(59),
                    centi() > 0,
            ;
            assert(x >= 0) by (nonlinear_arith)
                requires
                    x == first * centi(),
                    first > 0,
                    centi() > 0,
            ;
            let h = lemma_fill(size);
            let s = size * two(h as int);
            let k = (59 - h) as nat;
            lemma_pow2_adds(h, k);
            lemma_pow2_adds(h, (53 - h) as nat);
            lemma_pow2_adds((53 - h) as nat, 6);
            lemma_pow2_pos(h);
            assert(s * two(k as int) == w) by (nonlinear_arith)
                requires
                    s == size * two(h as int),
                    two(59) == two(h as int) * two(k as int),
                    w == size * two(59),
            ;
            assert(size < two(53 - h)) by (nonlinear_arith)
                requires
                    size * two(h as int) < EXACT,
                    EXACT == two(h as int) * two(53 - h),
                    two(h as int) > 0,
            ;
            lemma_nearest_below(x, s, k);
        }
    }
}

/// There is nothing to drain exactly where both readings are zero.
pub proof fn lemma_empty_means_nothing(first: int, second: int, noise: Double)
    ensures
        trend_between(first, second, noise) == Trend::Empty <==> first == 0 && second == 0,
{
}

/// From nothing to something is growth, whatever the noise level.
pub proof fn lemma_growth_from_nothing(second: int, noise: Double)
    requires
        second > 0,
        noise.finite(),
    ensures
        trend_between(0, second, noise) == Trend::Growing,
{
    let t = two(1074);
    lemma_integer_exact(0);
    lemma_integer_exact(1);
    lemma_nearest_of_nothing(1);
    lemma_pow2_pos(1074);
    assert(0 * t == 0);
    assert(of_integer(0).steps() == 0);
    assert(0 * noise.steps() == 0);
    lemma_nearest_of_nothing(t);
    let p = product(of_integer(0), noise);
    assert(p.magnitude() == 0);
    assert(1 * t <= second * t) by (nonlinear_arith)
        requires
            second >= 1,
            t > 0,
    ;
    lemma_nearest_monotone(1 * t, second * t, 1);
    let d = of_integer(second);
    lemma2_to64();
    lemma2_to64_rest();
    lemma_pow2_adds(53, 1074);
    assert(0 <= 1 * t < 1 * two(1127)) by (nonlinear_arith)
        requires
            two(1127) == EXACT * t,
            t > 0,
    ;
    lemma_nearest_bound(1 * t, 1, 1127);
    assert(d.magnitude() >= of_integer(1).magnitude());
    assert(absolute(d).place() >= of_integer(1).place());
    assert(noise_floor(0, noise) == of_integer(1));
}

/// With a noise level of one hundredth the readings alone tell the trend: a change
/// of one percent of the first reading or more counts, and its sign says which way.
/// Readings of up to 53 bits are meant.
pub proof fn lemma_trend_by_percent(first: int, second: int)
    requires
        0 <= first < EXACT,
        0 <= second < EXACT,
    ensures
        ({
            let trend = trend_between(first, second, ratio(1, 100));
            &&& trend == Trend::Empty <==> first == 0 && second == 0
            &&& trend == Trend::Draining <==> second < first && 100 * (first - second) >= first
            &&& trend == Trend::Growing <==> second > first && 100 * (second - first) >= first
            &&& trend == Trend::Stable <==> first > 0 && (second == first || 100 * (
            second - first) < first && 100 * (first - second) < first)
        }),
{
    lemma_trend_direction(first, second, ratio(1, 100));
    lemma_hundredth();
    if first == 0 {
        if second > 0 {
            lemma_growth_from_nothing(second, ratio(1, 100));
        }
    } else {
        lemma_one_percent(first, second);
    }
}

/// The net rate is the change over the window: a change of `rate` messages in each
/// of `secs` seconds is that rate. Over no time there is no rate.
pub proof fn lemma_rate_exact(first: int, rate: int, secs: int, noise: Double)
    requires
        0 < secs < EXACT,
        -EXACT < rate * secs < EXACT,
    ensures
        drained(first, first + rate * secs, of_integer(secs), noise).net_per_sec == of_integer(rate),
        drained(first, first + rate * secs, of_integer(0), noise).net_per_sec == of_integer(0),
        i64::MIN <= rate * secs <= i64::MAX ==> drained(
            first,
            first + rate * secs,
            of_integer(secs),
            noise,
        ).delta == rate * secs,
{
    lemma_integer_exact(0);
    lemma_integer_exact(secs);
    lemma_integer_quotient(rate, secs);
    lemma_pow2_pos(1074);
    assert(secs * two(1074) > 0) by (nonlinear_arith)
        requires
            secs > 0,
            two(1074) > 0,
    ;
    assert(0 * two(1074) == 0);
    lemma_less_steps(of_integer(0), of_integer(secs));
}

/// What is left over what goes each second is the time to clear it: at `rate`
/// messages a second less, `rate * left` messages are gone after `left` seconds.
pub proof fn lemma_eta_exact(rate: int, secs: int, left: int)
    requires
        rate > 0,
        secs > 0,
        left > 0,
        rate * secs < EXACT,
        rate * left < EXACT,
        rate < EXACT && secs < EXACT && left < EXACT,
        rate * secs + rate * left < EXACT,
        100 * (rate * secs) >= rate * secs + rate * left,
    ensures
        ({
            let second = rate * left;
            let r = drained(second + rate * secs, second, of_integer(secs), ratio(1, 100));
            r.trend == Trend::Draining && r.eta_secs == Some(of_integer(left))
        }),
{
    let second = rate * left;
    let first = second + rate * secs;
    let t = two(1074);
    assert(second > 0 && rate * secs > 0) by (nonlinear_arith)
        requires
            rate > 0,
            left > 0,
            secs > 0,
            second == rate * left,
    ;
    lemma_trend_by_percent(first, second);
    assert((-rate) * secs == -(rate * secs)) by (nonlinear_arith);
    lemma_rate_exact(first, -rate, secs, ratio(1, 100));
    let net = of_integer(-rate);
    lemma_integer_exact(-rate);
    lemma_integer_exact(rate);
    lemma_integer_exact(0);
    lemma_pow2_pos(1074);
    assert((-rate) * t == -(rate * t)) by (nonlinear_arith);
    assert(rate * t > 0) by (nonlinear_arith)
        requires
            rate > 0,
            t > 0,
    ;
    assert(0 * t == 0);
    lemma_integer_negated(rate);
    assert(net.magnitude() > 0) by {
        assert(net.steps() == rate * t);
    }
    assert(net.less(of_integer(0)));
    assert(second == left * rate) by (nonlinear_arith)
        requires
            second == rate * left,
    ;
    lemma_integer_quotient(left, rate);
}

/// The time to clear a backlog is told exactly where the backlog drains, something
/// is left, and the rate is below zero.
pub proof fn lemma_eta_only_when_draining(first: int, second: int, window: Double, noise: Double)
    ensures
        ({
            let r = drained(first, second, window, noise);
            r.eta_secs is Some <==> r.trend == Trend::Draining && second > 0 && r.net_per_sec.less(
                of_integer(0),
            )
        }),
{
}

/// Times in whole minutes, hours and days are shown as such: minutes below an hour
/// and a half, hours below two days, days below a year.
pub proof fn lemma_eta_units(n: int)
    ensures
        0 <= n < 60 ==> eta_text(of_integer(n)) == "<1m"@,
        1 <= n < 90 ==> eta_text(of_integer(60 * n)) == decimal(n) + seq!['m'],
        2 <= n < 48 ==> eta_text(of_integer(3600 * n)) == decimal(n) + seq!['h'],
        2 <= n < 365 ==> eta_text(of_integer(86_400 * n)) == decimal(n) + seq!['.', '0', 'd'],
        365 <= n < 10_000 ==> eta_text(of_integer(86_400 * n)) == ">1y"@,
{
    if 0 <= n < 10_000 {
        lemma_eta_steps(n);
        if n < 60 {
            lemma_eta_steps(1);
            lemma_quotient_less(n, 60, 1);
        }
        if 1 <= n < 90 {
            lemma_integer_quotient(n, 60);
            lemma_quotient_less(60 * n, 60, 1);
            lemma_quotient_less(60 * n, 60, 90);
            lemma_eta_steps(60 * n);
            lemma_integer_text(n);
        }
        if 2 <= n < 48 {
            lemma_integer_quotient(60 * n, 60);
            lemma_integer_quotient(n, 60);
            lemma_quotient_less(3600 * n, 60, 1);
            lemma_quotient_less(3600 * n, 60, 90);
            lemma_quotient_less(60 * n, 60, 48);
            lemma_eta_steps(3600 * n);
            lemma_integer_text(n);
        }
        if 2 <= n {
            lemma_integer_quotient(1440 * n, 60);
            lemma_integer_quotient(24 * n, 60);
            lemma_integer_quotient(n, 24);
            lemma_quotient_less(86_400 * n, 60, 1);
            lemma_quotient_less(86_400 * n, 60, 90);
            lemma_quotient_less(1440 * n, 60, 48);
            lemma_quotient_less(24 * n, 24, 365);
            lemma_eta_steps(86_400 * n);
            lemma_integer_text(n);
            assert(eta_text(of_integer(86_400 * n)) =~= if n < 365 {
                decimal(n) + seq!['.', '0', 'd']
            } else {
                ">1y"@
            });
        }
    }
}

/// A natural number is finite and not below zero.
proof fn lemma_eta_steps(n: int)
    requires
        0 <= n < EXACT,
    ensures
        of_integer(n).finite(),
        !of_integer(n).less(of_integer(0)),
{
    lemma_integer_exact(n);
    lemma_integer_exact(0);
    lemma_pow2_pos(1074);
    assert(0 * two(1074) == 0);
    assert(n * two(1074) >= 0) by (nonlinear_arith)
        requires
            n >= 0,
            two(1074) > 0,
    ;
    lemma_less_steps(of_integer(n), of_integer(0));
}

/// From an hour and a half on, and below two days, a time is shown in hours.
pub proof fn lemma_eta_hours(minutes: int)
    requires
        90 <= minutes < 2880,
    ensures
        eta_text(of_integer(60 * minutes)) == whole_text(
            quotient(of_integer(minutes), of_integer(60)),
        ) + seq!['h'],
{
    lemma_integer_quotient(minutes, 60);
    lemma_quotient_less(60 * minutes, 60, 1);
    lemma_quotient_less(60 * minutes, 60, 90);
    lemma_quotient_less(minutes, 60, 48);
    lemma_eta_steps(60 * minutes);
}

} // verus!
