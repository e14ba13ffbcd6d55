//! Kubernetes resource quantities: CPU in millicores, memory in bytes.

use crate::decimal::{
    all_digits, decimal, decimal_text, digit, digits, digits_value, is_digit, lemma_digits,
    lemma_integer_of_decimal, read_i64, signed,
};
use crate::float::{
    lemma_integer_exact, lemma_integer_product, lemma_integer_round_trip, lemma_nearest_bound,
    lemma_nearest_distance, lemma_nearest_scaled, lemma_steps, nearest_double, nearest_magnitude,
    of_integer, place_of, product, quotient, significand_of, steps_of, to_integer, two,
};
use crate::literal::{mantissa, minus, parse_double, point_digits, written_double};
use crate::number::{
    exponent_mark, number_shape, point_number, rounded, same_word, scaled, tenth_text,
    unsigned_part, Double, EXACT,
};
use crate::text::{
    chars_of, ends_with, finishes_with, first, lemma_find_from, lemma_first_char, slice_of, space, trim,
    trimmed,
};
use vstd::arithmetic::div_mod::lemma_fundamental_div_mod_converse;
use vstd::arithmetic::power::pow;
use vstd::arithmetic::power2::{
    lemma2_to64, lemma2_to64_rest, lemma_pow2_adds, lemma_pow2_pos, pow2,
};
use vstd::prelude::*;

verus! {

// ── Quantities ───────────────────────────────────────────────────────────────

/// The number that `s` writes times `mult`, where it writes one, as an integer:
/// rounded half away from zero, or without its fraction.
pub open spec fn scaled_text(s: Seq<char>, mult: int, round: bool) -> Option<int> {
    match written_double(s) {
        Some(d) => Some(to_integer(product(d, of_integer(mult)), round)),
        None => None,
    }
}

/// The number that `v` writes times `mult`, as an integer.
fn scaled_number(v: &[char], mult: u64, round: bool) -> (r: Option<i64>)
    ensures
        as_integer(r) == scaled_text(v@, mult as int, round),
{
    match parse_double(v) {
        Some(d) => Some(d.times(Double::from_u64(mult)).to_i64(round)),
        None => None,
    }
}

/// Millicores: an integer in front of an `m`, else a number of cores.
pub open spec fn cpu_quantity(q: Seq<char>) -> Option<int> {
    let t = trimmed(q);
    if finishes_with(t, "m"@) {
        signed(trimmed(t.take(t.len() - 1)))
    } else {
        scaled_text(t, 1000, true)
    }
}

/// The units of memory, in the order in which they are tried.
pub open spec fn memory_units() -> Seq<(Seq<char>, int)> {
    seq![
        ("Ki"@, 0x400int),
        ("Mi"@, 0x10_0000),
        ("Gi"@, 0x4000_0000),
        ("Ti"@, 0x100_0000_0000),
        ("Pi"@, 0x4_0000_0000_0000),
        ("k"@, 1_000),
        ("M"@, 1_000_000),
        ("G"@, 1_000_000_000),
        ("T"@, 1_000_000_000_000),
        ("P"@, 1_000_000_000_000_000),
    ]
}

/// Bytes: a number in front of the first of the units that `t` ends with, else
/// an integer.
pub open spec fn bytes_by_units(t: Seq<char>, units: Seq<(Seq<char>, int)>) -> Option<int>
    decreases units.len(),
{
    if units.len() == 0 {
        signed(t)
    } else if finishes_with(t, units[0].0) {
        scaled_text(trimmed(t.take(t.len() - units[0].0.len())), units[0].1, false)
    } else {
        bytes_by_units(t, units.drop_first())
    }
}

/// Bytes: a number with a unit, or an integer.
pub open spec fn memory_quantity(q: Seq<char>) -> Option<int> {
    bytes_by_units(trimmed(q), memory_units())
}

/// What an optional integer stands for.
pub open spec fn as_integer(n: Option<i64>) -> Option<int> {
    match n {
        Some(x) => Some(x as int),
        None => None,
    }
}

/// Parse a Kubernetes CPU quantity into millicores: `250m`, whole cores (`2`)
/// or a fraction of one (`0.5`).
pub fn parse_cpu_milli(q: &str) -> (r: Option<i64>)
    ensures
        as_integer(r) == cpu_quantity(q@),
{
    let t = trim(chars_of(q).as_slice());
    let n: usize = t.len();
    proof {
        reveal_strlit("m");
        assert("m"@.len() == 1);
    }
    if ends_with(t.as_slice(), "m") {
        let head = slice_of(t.as_slice(), 0, n - 1);
        assert(head@ =~= t@.take(t@.len() - 1));
        return read_i64(trim(head.as_slice()).as_slice());
    }
    scaled_number(t.as_slice(), 1000, true)
}

/// The units of memory as values.
fn units() -> (r: &'static [(&'static str, u64)])
    ensures
        r@.len() == memory_units().len(),
        forall|i: int|
            0 <= i < r@.len() ==> (#[trigger] r@[i]).0@ == memory_units()[i].0 && r@[i].1
                == memory_units()[i].1,
{
    &[
        ("Ki", 0x400),
        ("Mi", 0x10_0000),
        ("Gi", 0x4000_0000),
        ("Ti", 0x100_0000_0000),
        ("Pi", 0x4_0000_0000_0000),
        ("k", 1_000),
        ("M", 1_000_000),
        ("G", 1_000_000_000),
        ("T", 1_000_000_000_000),
        ("P", 1_000_000_000_000_000),
    ]
}

/// Parse a Kubernetes memory quantity into bytes, with a binary unit (`Ki`),
/// a decimal one (`k`) or none.
pub fn parse_mem_bytes(q: &str) -> (r: Option<i64>)
    ensures
        as_integer(r) == memory_quantity(q@),
{
    let t = trim(chars_of(q).as_slice());
    let list = units();
    let ghost all = memory_units();
    assert(all.skip(0) =~= all);
    for i in 0..list.len()
        invariant
            all == memory_units(),
            list@.len() == all.len(),
            forall|j: int|
                0 <= j < list@.len() ==> (#[trigger] list@[j]).0@ == all[j].0 && list@[j].1
                    == all[j].1,
            t@ == trimmed(q@),
            memory_quantity(q@) == bytes_by_units(t@, all.skip(i as int)),
    {
        let (unit, mult) = list[i];
        assert(all.skip(i as int)[0] == all[i as int]);
        assert(all.skip(i as int).drop_first() =~= all.skip(i + 1));
        if ends_with(t.as_slice(), unit) {
            let m: usize = chars_of(unit).len();
            let head = slice_of(t.as_slice(), 0, t.len() - m);
            assert(head@ =~= t@.take(t@.len() - m));
            let number = trim(head.as_slice());
            return scaled_number(number.as_slice(), mult, false);
        }
    }
    assert(all.skip(all.len() as int) =~= Seq::empty());
    read_i64(t.as_slice())
}

// ── Writing and summing ──────────────────────────────────────────────────────

/// Millicores for a reader: whole cores, cores with one decimal place, or
/// millicores below one core.
pub open spec fn cpu_text(milli: int) -> Seq<char> {
    if milli >= 1000 && milli % 1000 == 0 {
        decimal(milli / 1000)
    } else if milli >= 1000 {
        tenth_text(quotient(of_integer(milli), of_integer(1000)))
    } else {
        decimal(milli) + seq!['m']
    }
}

/// Format millicores compactly: `250m`, or cores (`1.5`) from one core on.
pub fn format_cpu(milli: i64) -> (r: String)
    ensures
        r@ == cpu_text(milli as int),
{
    if milli >= 1000 && milli % 1000 == 0 {
        decimal_text(milli / 1000)
    } else if milli >= 1000 {
        Double::from_i64(milli).over(Double::from_u64(1000)).tenth()
    } else {
        let mut r = decimal_text(milli);
        r.push('m');
        assert(r@ =~= cpu_text(milli as int));
        r
    }
}

/// What `parse` reads in the quantities that are declared: `values` holds its
/// answers, and nothing for what is not declared.
pub open spec fn readings<F: Fn(&str) -> Option<i64>>(
    parse: F,
    quantities: Seq<Option<&str>>,
    values: Seq<Option<i64>>,
) -> bool {
    values.len() == quantities.len() && forall|i: int|
        0 <= i < values.len() ==> match quantities[i] {
            Some(q) => call_ensures(parse, (q,), #[trigger] values[i]),
            None => values[i] is None,
        }
}

/// The sum of what was read.
pub open spec fn sum_of(values: Seq<Option<i64>>) -> int
    decreases values.len(),
{
    if values.len() == 0 {
        0
    } else {
        sum_of(values.drop_last()) + (match values.last() {
            Some(v) => v as int,
            None => 0,
        })
    }
}

/// The sum of what was read, where anything was.
pub open spec fn total_of(values: Seq<Option<i64>>) -> Option<int> {
    if exists|i: int| 0 <= i < values.len() && (#[trigger] values[i]) is Some {
        Some(sum_of(values))
    } else {
        None
    }
}

/// Sum a resource over the containers of a pod; none where no container
/// declares a readable quantity.
pub fn sum_quantity<F: Fn(&str) -> Option<i64>>(containers: &[Option<&str>], parse: F) -> (r:
    Option<i64>)
    requires
        forall|q: &str| call_requires(parse, (q,)),
        forall|k: int, values: Seq<Option<i64>>|
            0 <= k <= containers@.len() && readings(parse, #[trigger] containers@.take(k), values)
                ==> i64::MIN <= #[trigger] sum_of(values) <= i64::MAX,
    ensures
        exists|values: Seq<Option<i64>>|
            readings(parse, containers@, values) && as_integer(r) == total_of(values),
{
    let mut total: i64 = 0;
    let mut any: bool = false;
    let ghost mut values: Seq<Option<i64>> = Seq::empty();
    for i in 0..containers.len()
        invariant
            forall|q: &str| call_requires(parse, (q,)),
            forall|k: int, values: Seq<Option<i64>>|
                0 <= k <= containers@.len() && readings(parse, #[trigger] containers@.take(k), values)
                    ==> i64::MIN <= #[trigger] sum_of(values) <= i64::MAX,
            readings(parse, containers@.take(i as int), values),
            total == sum_of(values),
            any == exists|j: int| 0 <= j < values.len() && (#[trigger] values[j]) is Some,
    {
        let value: Option<i64> = match containers[i] {
            Some(q) => parse(q),
            None => None,
        };
        let ghost before = values;
        proof {
            values = values.push(value);
            assert(values.drop_last() =~= before);
            assert forall|j: int| 0 <= j < values.len() implies match containers@.take(i + 1)[j] {
                Some(q) => call_ensures(parse, (q,), #[trigger] values[j]),
                None => values[j] is None,
            } by {
                if j < i {
                    assert(values[j] == before[j]);
                    assert(containers@.take(i + 1)[j] == containers@.take(i as int)[j]);
                }
            }
            assert(readings(parse, containers@.take(i + 1), values));
            assert(i64::MIN <= sum_of(values) <= i64::MAX);
        }
        if let Some(v) = value {
            total = total + v;
            any = true;
            assert(values[values.len() - 1] is Some);
        } else {
            assert forall|j: int| 0 <= j < before.len() implies #[trigger] before[j] == values[j] by {}
        }
    }
    assert(containers@.take(containers@.len() as int) =~= containers@);
    let r = if any {
        Some(total)
    } else {
        None
    };
    assert(readings(parse, containers@, values) && as_integer(r) == total_of(values));
    r
}

// ── Laws ─────────────────────────────────────────────────────────────────────

/// No digit starts an exponent.
proof fn lemma_no_exponent(s: Seq<char>)
    requires
        all_digits(s),
    ensures
        exponent_mark(s) == s.len(),
    decreases s.len(),
{
    if s.len() > 0 {
        let rest = s.drop_first();
        assert(is_digit(s[0]));
        assert forall|i: int| 0 <= i < rest.len() implies is_digit(#[trigger] rest[i]) by {
            assert(is_digit(s[i + 1]));
        }
        lemma_no_exponent(rest);
    }
}

/// No digit is a point.
proof fn lemma_no_point(s: Seq<char>)
    requires
        all_digits(s),
    ensures
        first(s, seq!['.']) is None,
{
    lemma_find_from(s, seq!['.'], 0);
    if first(s, seq!['.']) is Some {
        let i = first(s, seq!['.'])->0;
        assert(s.subrange(i, i + 1)[0] == s[i]);
        assert(is_digit(s[i]));
    }
}

/// A text that neither starts nor ends with whitespace has none to trim.
proof fn lemma_nothing_to_trim(s: Seq<char>)
    requires
        s.len() > 0,
        !space(s[0]),
        !space(s.last()),
    ensures
        trimmed(s) == s,
{
}

/// What is less than half a unit from a whole number is rounded to it.
proof fn lemma_rounded_near(m: int, d: int, t: int)
    requires
        d > 0,
        -d < 2 * (m - t * d) < d,
    ensures
        rounded(m, d) == t,
{
    let rest = m - t * d;
    if rest >= 0 {
        lemma_fundamental_div_mod_converse(m, d, t, rest);
    } else {
        assert((t - 1) * d == t * d - d) by (nonlinear_arith);
        lemma_fundamental_div_mod_converse(m, d, t - 1, rest + d);
    }
}

/// A number that is less than half a tenth from `t` tenths is written as those.
proof fn lemma_scaled_near(d: Double, t: int)
    requires
        d.finite(),
        t >= 0,
        -two(1074) < 2 * (10 * d.steps() - t * two(1074)) < two(1074),
    ensures
        scaled(d, 10) == t,
{
    let m = d.magnitude();
    lemma_steps(m);
    let s = d.significand();
    let e = d.exponent();
    let u = two(1074);
    let steps = d.steps();
    lemma_pow2_pos(1074);
    assert(significand_of(m) == s);
    assert(place_of(m) == e + 1074);
    if e >= 0 {
        lemma_pow2_adds(e as nat, 1074);
        let p = pow2(e as nat) as int;
        let x = (s * 10) * p;
        assert(10 * steps == x * u) by (nonlinear_arith)
            requires
                steps == s * (p * u),
                x == (s * 10) * p,
        ;
        assert(x == t) by (nonlinear_arith)
            requires
                -u < 2 * (x * u - t * u) < u,
                u > 0,
        ;
    } else {
        let den = pow2((-e) as nat) as int;
        lemma_pow2_pos((-e) as nat);
        lemma_pow2_adds((e + 1074) as nat, (-e) as nat);
        let q = two(e + 1074);
        let x = s * 10;
        assert(x * u == (10 * steps) * den) by (nonlinear_arith)
            requires
                steps == s * q,
                u == q * den,
                x == s * 10,
        ;
        assert(-den < 2 * (x - t * den) < den) by (nonlinear_arith)
            requires
                x * u == (10 * steps) * den,
                -u < 2 * (10 * steps - t * u) < u,
                u > 0,
                den > 0,
        ;
        lemma_rounded_near(x, den, t);
    }
}

/// How far the double nearest to a number of tenths is from it.
proof fn lemma_tenths_near(t: int)
    requires
        0 <= t <= 10_000_000,
    ensures
        ({
            let d = nearest_double(false, t * two(1074), 10);
            let u = two(1074);
            &&& d.finite() && !d.negative()
            &&& d.magnitude() == nearest_magnitude(t * u, 10)
            &&& -(5 * u) <= two(32) * (10 * d.steps() - t * u) <= 5 * u
        }),
{
    let u = two(1074);
    lemma2_to64();
    lemma2_to64_rest();
    lemma_pow2_pos(1074);
    lemma_pow2_pos(1042);
    lemma_pow2_adds(32, 1042);
    lemma_pow2_adds(53, 1074);
    let w = two(1042);
    let h = two(32);
    assert(0 <= t * u < 10 * two(1127)) by (nonlinear_arith)
        requires
            0 <= t <= 10_000_000,
            two(1127) == EXACT * u,
            u > 0,
    ;
    lemma_nearest_bound(t * u, 10, 1127);
    assert(t * u < (EXACT * 10) * w) by (nonlinear_arith)
        requires
            0 <= t <= 10_000_000,
            u == h * w,
            h == 0x1_0000_0000,
            w > 0,
    ;
    lemma_nearest_distance(t * u, 10, 1042);
    let d = nearest_double(false, t * u, 10);
    let st = d.steps();
    assert(-(5 * u) <= h * (10 * st - t * u) <= 5 * u) by (nonlinear_arith)
        requires
            2 * (t * u) - 10 * w <= 2 * (10 * st) <= 2 * (t * u) + 10 * w,
            u == h * w,
            h > 0,
    ;
}

/// The text of a number of tenths reads as the double nearest to it.
proof fn lemma_tenths_read(t: int)
    requires
        t >= 0,
    ensures
        written_double(decimal(t / 10) + seq!['.', digit(t % 10)]) == Some(
            nearest_double(false, t * two(1074), 10),
        ),
        ({
            let s = decimal(t / 10) + seq!['.', digit(t % 10)];
            trimmed(s) == s && !finishes_with(s, "m"@)
        }),
{
    let k = t / 10;
    let a = decimal(k);
    let c = digit(t % 10);
    let b = seq![c];
    let s = a + seq!['.', c];
    lemma_digits(k as nat);
    assert(a == digits(k as nat));
    lemma_decimal_edges(k);
    assert(is_digit(c));
    assert(is_digit(a[0]));
    assert(s[0] == a[0]);
    assert(s.last() == c);
    lemma_digit_code(c);
    lemma_digit_code(s[0]);
    lemma_nothing_to_trim(s);
    reveal_strlit("m");
    assert("m"@.len() == 1 && "m"@[0] == 'm');
    assert(!finishes_with(s, "m"@)) by {
        assert(s.subrange(s.len() - 1, s.len() as int)[0] == c);
    }
    lemma_no_exponent_with_point(a, b);
    assert(s =~= a + seq!['.'] + b);
    lemma_point_between(a, b);
    assert(s.subrange(0, a.len() as int) =~= a);
    assert(s.subrange(a.len() as int + 1, s.len() as int) =~= b);
    assert(unsigned_part(s) == s);
    reveal_strlit("nan");
    reveal_strlit("inf");
    reveal_strlit("infinity");
    assert("nan"@[0] == 'n' && "inf"@[0] == 'i' && "infinity"@[0] == 'i');
    assert(!same_word(s, "nan"@));
    assert(!same_word(s, "inf"@));
    assert(!same_word(s, "infinity"@));
    assert(point_number(s));
    assert(number_shape(s));
    assert(mantissa(s) =~= s);
    assert(point_digits(s) =~= a + b);
    assert((a + b).drop_last() =~= a);
    assert(digits_value(a + b) == t);
    assert(pow(10, 1) == 10) by {
        reveal(pow);
        assert(pow(10, 0) == 1);
    }
}

/// No digit and no point starts an exponent.
proof fn lemma_no_exponent_with_point(a: Seq<char>, b: Seq<char>)
    requires
        all_digits(a),
        all_digits(b),
    ensures
        exponent_mark(a + seq!['.'] + b) == a.len() + 1 + b.len(),
    decreases a.len(),
{
    let s = a + seq!['.'] + b;
    if a.len() == 0 {
        assert(s.drop_first() =~= b);
        lemma_no_exponent(b);
    } else {
        let rest = a.drop_first();
        assert(is_digit(a[0]));
        assert forall|i: int| 0 <= i < rest.len() implies is_digit(#[trigger] rest[i]) by {
            assert(is_digit(a[i + 1]));
        }
        lemma_no_exponent_with_point(rest, b);
        assert(s.drop_first() =~= rest + seq!['.'] + b);
        assert(s[0] == a[0]);
    }
}

/// The point between digits is the first.
proof fn lemma_point_between(a: Seq<char>, b: Seq<char>)
    requires
        all_digits(a),
    ensures
        first(a + seq!['.'] + b, seq!['.']) == Some(a.len() as int),
{
    let s = a + seq!['.'] + b;
    assert forall|j: int| 0 <= j < a.len() implies #[trigger] s[j] != '.' by {
        assert(is_digit(a[j]));
    }
    lemma_first_char(s, '.', a.len() as int);
}

/// The double nearest to a number of tenths, times a thousand, rounds to a
/// hundred times that number.
proof fn lemma_tenths_product(t: int)
    requires
        0 <= t <= 10_000_000,
    ensures
        to_integer(
            product(nearest_double(false, t * two(1074), 10), of_integer(1000)),
            true,
        ) == 100 * t,
{
    let u = two(1074);
    let d = nearest_double(false, t * u, 10);
    let s = d.steps();
    lemma_tenths_near(t);
    lemma_integer_exact(1000);
    lemma2_to64();
    lemma2_to64_rest();
    lemma_pow2_pos(1074);
    lemma_pow2_pos(1052);
    lemma_pow2_adds(22, 1052);
    lemma_pow2_adds(53, 1074);
    let h = two(32);
    let w = two(1052);
    assert(h == 0x1_0000_0000);
    assert(u == 0x40_0000 * w);
    lemma_steps(d.magnitude());
    lemma_pow2_pos(place_of(d.magnitude()) as nat);
    assert(s >= 0) by (nonlinear_arith)
        requires
            s == significand_of(d.magnitude()) * two(place_of(d.magnitude())),
            significand_of(d.magnitude()) >= 0,
            two(place_of(d.magnitude())) > 0,
    ;
    let n = 1000 * s;
    // n is near 100 * t * u.
    assert(-(500 * u) <= h * (n - (100 * t) * u) <= 500 * u) by (nonlinear_arith)
        requires
            -(5 * u) <= h * (10 * s - t * u) <= 5 * u,
            n == 1000 * s,
    ;
    assert(-u <= 0x80_0000 * (n - (100 * t) * u) <= u) by (nonlinear_arith)
        requires
            -(500 * u) <= h * (n - (100 * t) * u) <= 500 * u,
            h == 0x1_0000_0000,
            u > 0,
    ;
    assert(n <= 1_000_000_001 * u) by (nonlinear_arith)
        requires
            0x80_0000 * (n - (100 * t) * u) <= u,
            t <= 10_000_000,
            u > 0,
    ;
    assert(s * (1000 * u) == n * u) by (nonlinear_arith)
        requires
            n == 1000 * s,
    ;
    lemma_nearest_scaled(n, 1, u);
    assert(1 * u == u);
    let y = nearest_magnitude(n, 1);
    assert(0 <= n < 1 * two(1127)) by (nonlinear_arith)
        requires
            0 <= n <= 1_000_000_001 * u,
            two(1127) == EXACT * u,
            u > 0,
    ;
    lemma_nearest_bound(n, 1, 1127);
    assert(n < (EXACT * 1) * w) by (nonlinear_arith)
        requires
            n <= 1_000_000_001 * u,
            u == 0x40_0000 * w,
            w > 0,
    ;
    lemma_nearest_distance(n, 1, 1052);
    let p = product(d, of_integer(1000));
    let q = steps_of(y);
    assert(p.steps() == q && p.finite() && !p.negative());
    let m = 100 * t;
    assert(0 <= 2 * q + u - m * (2 * u) < 2 * u) by (nonlinear_arith)
        requires
            2 * n - w <= 2 * q <= 2 * n + w,
            u == 0x40_0000 * w,
            w > 0,
            -u <= 0x80_0000 * (n - m * u) <= u,
    ;
    lemma_fundamental_div_mod_converse(2 * q + u, 2 * u, m, 2 * q + u - m * (2 * u));
}

/// Below one core, for whole cores up to 53 bits, and for tenths of cores up to a
/// million of cores, what is written is read back. Only what is below one core is
/// written in millicores.
pub proof fn lemma_cpu_round_trip(milli: int)
    requires
        i64::MIN <= milli < EXACT,
        milli < 1000 || milli % 1000 == 0 || (milli % 100 == 0 && milli <= 1_000_000_000),
    ensures
        cpu_quantity(cpu_text(milli)) == Some(milli),
        finishes_with(cpu_text(milli), "m"@) == (milli < 1000),
{
    reveal_strlit("m");
    assert("m"@.len() == 1 && "m"@[0] == 'm');
    if milli < 1000 {
        let d = decimal(milli);
        let s = d + seq!['m'];
        lemma_integer_of_decimal(milli);
        lemma_decimal_edges(milli);
        lemma_nothing_to_trim(s);
        assert(s.subrange(s.len() - 1, s.len() as int) =~= "m"@);
        assert(s.take(s.len() - 1) =~= d);
        lemma_nothing_to_trim(d);
    } else if milli % 1000 != 0 {
        let t = milli / 100;
        let u = two(1074);
        lemma_integer_exact(milli);
        lemma_integer_exact(1000);
        lemma_pow2_pos(1074);
        let n = milli * u;
        assert(t * u >= 0) by (nonlinear_arith)
            requires
                t >= 0,
                u > 0,
        ;
        assert(n == (t * u) * 100) by (nonlinear_arith)
            requires
                milli == 100 * t,
                n == milli * u,
        ;
        lemma_nearest_scaled(n, 1000, u);
        lemma_nearest_scaled(t * u, 10, 100);
        let d = nearest_double(false, t * u, 10);
        assert(quotient(of_integer(milli), of_integer(1000)) == d);
        lemma_tenths_near(t);
        let st = d.steps();
        let h = two(32);
        lemma2_to64();
        assert(-u < 2 * (10 * st - t * u) < u) by (nonlinear_arith)
            requires
                -(5 * u) <= h * (10 * st - t * u) <= 5 * u,
                h == 0x1_0000_0000,
                u > 0,
        ;
        lemma_scaled_near(d, t);
        lemma_tenths_read(t);
        assert(cpu_text(milli) =~= decimal(t / 10) + seq!['.', digit(t % 10)]);
        lemma_tenths_product(t);
    } else {
        let k = milli / 1000;
        let s = decimal(k);
        lemma_integer_written(k);
        assert(!finishes_with(s, "m"@)) by {
            assert(s.subrange(s.len() - 1, s.len() as int)[0] == s[s.len() - 1]);
        }
        lemma_integer_product(k, 1000);
        lemma_integer_round_trip(milli, true);
    }
}

/// The code points of digits.
proof fn lemma_digit_code(c: char)
    requires
        is_digit(c),
    ensures
        0x30 <= c as int <= 0x39,
{
}

/// A decimal number starts and ends with a digit, or starts with a minus.
proof fn lemma_decimal_edges(n: int)
    ensures
        decimal(n).len() > 0,
        !space(decimal(n)[0]),
        !space(decimal(n).last()),
{
    let m = (if n < 0 { -n } else { n }) as nat;
    lemma_digits(m);
    let d = digits(m);
    assert(is_digit(d[0]) && is_digit(d[d.len() - 1]));
    if n < 0 {
        assert(decimal(n).last() == d[d.len() - 1]);
    }
}

/// The digits of a number are read as that number.
proof fn lemma_integer_written(k: int)
    requires
        k >= 0,
    ensures
        written_double(decimal(k)) == Some(of_integer(k)),
        trimmed(decimal(k)) == decimal(k),
        decimal(k).len() > 0,
        forall|i: int| 0 <= i < decimal(k).len() ==> is_digit(#[trigger] decimal(k)[i]),
{
    let s = decimal(k);
    lemma_digits(k as nat);
    assert(s == digits(k as nat));
    lemma_decimal_edges(k);
    lemma_nothing_to_trim(s);
    assert(is_digit(s[0]) && is_digit(s[s.len() - 1]));
    lemma_no_exponent(s);
    lemma_no_point(s);
    assert(point_number(s));
    assert(unsigned_part(s) == s);
    reveal_strlit("nan");
    reveal_strlit("inf");
    reveal_strlit("infinity");
    assert("nan"@[0] == 'n' && "inf"@[0] == 'i' && "infinity"@[0] == 'i');
    lemma_digit_code(s[0]);
    assert(!same_word(s, "nan"@));
    assert(!same_word(s, "inf"@));
    assert(!same_word(s, "infinity"@));
    assert(number_shape(s));
    assert(mantissa(s) =~= s);
    reveal(pow);
    assert(pow(10, 0) == 1);
    assert(!minus(s));
    assert(k * 1 == k);
}

/// What stands in front of the first unit that fits is scaled by that unit.
proof fn lemma_by_unit(t: Seq<char>, units: Seq<(Seq<char>, int)>, k: int)
    requires
        0 <= k < units.len(),
        finishes_with(t, units[k].0),
        forall|j: int| 0 <= j < k ==> !finishes_with(t, #[trigger] units[j].0),
    ensures
        bytes_by_units(t, units) == scaled_text(
            trimmed(t.take(t.len() - units[k].0.len())),
            units[k].1,
            false,
        ),
    decreases k,
{
    if k > 0 {
        let rest = units.drop_first();
        assert(!finishes_with(t, units[0].0));
        assert forall|j: int| 0 <= j < k - 1 implies !finishes_with(t, #[trigger] rest[j].0) by {
            assert(rest[j] == units[j + 1]);
        }
        assert(rest[k - 1] == units[k]);
        lemma_by_unit(t, rest, k - 1);
    }
}

/// A text with one of the units behind it, by the place of the unit.
proof fn lemma_unit_read(n: int, k: int)
    requires
        0 <= n,
        0 <= k < 10,
        n * memory_units()[k].1 < EXACT,
    ensures
        memory_quantity(decimal(n) + memory_units()[k].0) == Some(n * memory_units()[k].1),
{
    let units = memory_units();
    let d = decimal(n);
    let u = units[k].0;
    let t = d + u;
    reveal_strlit("Ki");
    reveal_strlit("Mi");
    reveal_strlit("Gi");
    reveal_strlit("Ti");
    reveal_strlit("Pi");
    reveal_strlit("k");
    reveal_strlit("M");
    reveal_strlit("G");
    reveal_strlit("T");
    reveal_strlit("P");
    assert("Ki"@ =~= seq!['K', 'i'] && "Mi"@ =~= seq!['M', 'i'] && "Gi"@ =~= seq!['G', 'i']);
    assert("Ti"@ =~= seq!['T', 'i'] && "Pi"@ =~= seq!['P', 'i'] && "k"@ =~= seq!['k']);
    assert("M"@ =~= seq!['M'] && "G"@ =~= seq!['G'] && "T"@ =~= seq!['T'] && "P"@ =~= seq!['P']);
    lemma_integer_written(n);
    lemma_digit_code(d[d.len() - 1]);
    assert(t.last() == u.last());
    assert(t[0] == d[0]);
    lemma_digit_code(d[0]);
    lemma_nothing_to_trim(t);
    assert(t.subrange(t.len() - u.len(), t.len() as int) =~= u);
    assert(finishes_with(t, u));
    assert forall|j: int| 0 <= j < k implies !finishes_with(t, #[trigger] units[j].0) by {
        let w = units[j].0;
        if finishes_with(t, w) {
            assert(t.subrange(t.len() - w.len(), t.len() as int)[w.len() - 1] == t.last());
            assert(w.len() == 2 ==> t.subrange(t.len() - w.len(), t.len() as int)[0] == t[t.len()
                - 2]);
            assert(u.len() == 2 ==> t[t.len() - 2] == u[0]);
        }
    }
    lemma_by_unit(t, units, k);
    assert(t.take(t.len() - u.len()) =~= d);
    let m = units[k].1;
    assert(n <= n * m) by (nonlinear_arith)
        requires
            n >= 0,
            m >= 1,
    ;
    lemma_integer_product(n, m);
    assert(0 <= n * m) by (nonlinear_arith)
        requires
            n >= 0,
            m >= 1,
    ;
    lemma_integer_round_trip(n * m, false);
}

/// What the units of memory mean: powers of 1024 with an `i`, powers of 1000
/// without one. A number alone is one of bytes.
pub proof fn lemma_memory_read(n: int)
    requires
        0 <= n <= i64::MAX,
    ensures
        memory_quantity(decimal(n)) == Some(n),
        n * 1024 < EXACT ==> memory_quantity(decimal(n) + "Ki"@) == Some(n * 1024),
        n * 1_048_576 < EXACT ==> memory_quantity(decimal(n) + "Mi"@) == Some(n * 1_048_576),
        n * 1_073_741_824 < EXACT ==> memory_quantity(decimal(n) + "Gi"@) == Some(
            n * 1_073_741_824,
        ),
        n * 1_099_511_627_776 < EXACT ==> memory_quantity(decimal(n) + "Ti"@) == Some(
            n * 1_099_511_627_776,
        ),
        n * 1_125_899_906_842_624 < EXACT ==> memory_quantity(decimal(n) + "Pi"@) == Some(
            n * 1_125_899_906_842_624,
        ),
        n * 1000 < EXACT ==> memory_quantity(decimal(n) + "k"@) == Some(n * 1000),
        n * 1_000_000 < EXACT ==> memory_quantity(decimal(n) + "M"@) == Some(n * 1_000_000),
        n * 1_000_000_000 < EXACT ==> memory_quantity(decimal(n) + "G"@) == Some(
            n * 1_000_000_000,
        ),
        n * 1_000_000_000_000 < EXACT ==> memory_quantity(decimal(n) + "T"@) == Some(
            n * 1_000_000_000_000,
        ),
        n * 1_000_000_000_000_000 < EXACT ==> memory_quantity(decimal(n) + "P"@) == Some(
            n * 1_000_000_000_000_000,
        ),
{
    let units = memory_units();
    assert forall|k: int| 0 <= k < 10 && n * units[k].1 < EXACT implies memory_quantity(
        decimal(n) + #[trigger] units[k].0,
    ) == Some(n * units[k].1) by {
        lemma_unit_read(n, k);
    }
    assert(units[0].0 == "Ki"@ && units[1].0 == "Mi"@ && units[2].0 == "Gi"@);
    assert(units[3].0 == "Ti"@ && units[4].0 == "Pi"@ && units[5].0 == "k"@);
    assert(units[6].0 == "M"@ && units[7].0 == "G"@ && units[8].0 == "T"@ && units[9].0 == "P"@);
    let d = decimal(n);
    lemma_integer_written(n);
    lemma_integer_of_decimal(n);
    assert forall|j: int| 0 <= j < 10 implies !finishes_with(d, #[trigger] units[j].0) by {
        let w = units[j].0;
        reveal_strlit("Ki");
        reveal_strlit("Mi");
        reveal_strlit("Gi");
        reveal_strlit("Ti");
        reveal_strlit("Pi");
        reveal_strlit("k");
        reveal_strlit("M");
        reveal_strlit("G");
        reveal_strlit("T");
        reveal_strlit("P");
        assert("Ki"@ =~= seq!['K', 'i'] && "Mi"@ =~= seq!['M', 'i'] && "Gi"@ =~= seq!['G', 'i']);
        assert("Ti"@ =~= seq!['T', 'i'] && "Pi"@ =~= seq!['P', 'i'] && "k"@ =~= seq!['k']);
        assert("M"@ =~= seq!['M'] && "G"@ =~= seq!['G'] && "T"@ =~= seq!['T'] && "P"@
            =~= seq!['P']);
        lemma_digit_code(d[d.len() - 1]);
        if finishes_with(d, w) {
            assert(d.subrange(d.len() - w.len(), d.len() as int)[w.len() - 1] == d[d.len() - 1]);
        }
    }
    lemma_no_unit(d, units);
}

/// Without a unit the text is an integer.
proof fn lemma_no_unit(t: Seq<char>, units: Seq<(Seq<char>, int)>)
    requires
        forall|j: int| 0 <= j < units.len() ==> !finishes_with(t, #[trigger] units[j].0),
    ensures
        bytes_by_units(t, units) == signed(t),
    decreases units.len(),
{
    if units.len() > 0 {
        let rest = units.drop_first();
        assert(!finishes_with(t, units[0].0));
        assert forall|j: int| 0 <= j < rest.len() implies !finishes_with(t, #[trigger] rest[j].0) by {
            assert(rest[j] == units[j + 1]);
        }
        lemma_no_unit(t, rest);
    }
}

/// What is written with an `m` is in millicores, and what is written without one
/// in cores.
pub proof fn lemma_cpu_read(n: int)
    requires
        0 <= n <= i64::MAX,
    ensures
        cpu_quantity(decimal(n) + "m"@) == Some(n),
        1000 * n < EXACT ==> cpu_quantity(decimal(n)) == Some(1000 * n),
{
    reveal_strlit("m");
    assert("m"@ =~= seq!['m']);
    let d = decimal(n);
    let s = d + "m"@;
    lemma_integer_of_decimal(n);
    lemma_integer_written(n);
    lemma_decimal_edges(n);
    lemma_nothing_to_trim(s);
    assert(s.subrange(s.len() - 1, s.len() as int) =~= "m"@);
    assert(s.take(s.len() - 1) =~= d);
    lemma_digit_code(d[d.len() - 1]);
    assert(!finishes_with(d, "m"@)) by {
        assert(d.subrange(d.len() - 1, d.len() as int)[0] == d[d.len() - 1]);
    }
    if 1000 * n < EXACT {
        lemma_integer_product(n, 1000);
        lemma_integer_round_trip(1000 * n, true);
    }
}

/// One more reading adds itself to the total, and one more gap nothing.
pub proof fn lemma_total_grows(values: Seq<Option<i64>>, n: i64)
    ensures
        total_of(values.push(None)) == total_of(values),
        total_of(values.push(Some(n))) == Some(
            n + (match total_of(values) {
                Some(t) => t,
                None => 0,
            }),
        ),
        total_of(Seq::empty()) is None,
{
    let a = values.push(None);
    let b = values.push(Some(n));
    assert(a.drop_last() =~= values);
    assert(b.drop_last() =~= values);
    assert(b[values.len() as int] is Some);
    if total_of(values) is Some {
        let i = choose|i: int| 0 <= i < values.len() && (#[trigger] values[i]) is Some;
        assert(a[i] is Some);
    } else {
        lemma_nothing_read(values);
    }
    if exists|i: int| 0 <= i < a.len() && (#[trigger] a[i]) is Some {
        let i = choose|i: int| 0 <= i < a.len() && (#[trigger] a[i]) is Some;
        assert(values[i] is Some);
    }
}

/// Where nothing was read the sum is zero.
proof fn lemma_nothing_read(values: Seq<Option<i64>>)
    requires
        forall|i: int| 0 <= i < values.len() ==> (#[trigger] values[i]) is None,
    ensures
        sum_of(values) == 0,
    decreases values.len(),
{
    if values.len() > 0 {
        assert(values[values.len() - 1] is None);
        assert forall|i: int| 0 <= i < values.len() - 1 implies (
        #[trigger] values.drop_last()[i]) is None by {
            assert(values[i] is None);
        }
        lemma_nothing_read(values.drop_last());
    }
}

} // verus!
