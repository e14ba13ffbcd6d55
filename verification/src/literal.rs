//! Doubles as texts write them: decimal digits with an optional point and an
//! optional decimal exponent, of any length, and the nearest double to them.
use crate::decimal::{all_digits, digits_value, is_digit};
use crate::float::{
    assemble, assembled, cut, lemma_nearest_infinite, lemma_nearest_of_nothing,
    lemma_nearest_scaled, nearest_magnitude, not_a_number, pack_down, pack_up, two,
};
use crate::number::{
    exponent_at, exponent_mark, is_number, is_word, number_shape, point_number,
    same_word, unsigned_part, without_sign, Double, EXACT, INFINITY,
};
use crate::text::{code_point, find_at_or_after, first, slice_of};
use vstd::arithmetic::div_mod::lemma_fundamental_div_mod_converse;
use vstd::arithmetic::power::{
    lemma_pow_adds, lemma_pow_distributes, lemma_pow_increases, lemma_pow_positive, pow,
};
use vstd::arithmetic::power2::{
    lemma2_to64, lemma_pow2, lemma_pow2_adds, lemma_pow2_pos, lemma_pow2_strictly_increases,
    lemma_pow2_unfold,
};
use vstd::prelude::*;

verus! {

// ── What a text writes ───────────────────────────────────────────────────────

/// The digits of a number, without its point.
pub open spec fn point_digits(s: Seq<char>) -> Seq<char> {
    match first(s, seq!['.']) {
        None => s,
        Some(i) => s.subrange(0, i) + s.subrange(i + 1, s.len() as int),
    }
}

/// How many digits stand behind the point.
pub open spec fn point_places(s: Seq<char>) -> int {
    match first(s, seq!['.']) {
        None => 0,
        Some(i) => s.len() - i - 1,
    }
}

/// The part of a number in front of its exponent.
pub open spec fn mantissa(s: Seq<char>) -> Seq<char> {
    s.subrange(0, exponent_mark(s))
}

/// The decimal exponent that a number writes; zero where it writes none.
pub open spec fn written_exponent(s: Seq<char>) -> int {
    let k = exponent_mark(s);
    if k == s.len() {
        0
    } else {
        let e = s.subrange(k + 1, s.len() as int);
        if e[0] == '-' {
            -digits_value(unsigned_part(e))
        } else {
            digits_value(unsigned_part(e))
        }
    }
}

/// The magnitude bits of the double nearest to `n` times ten to the power of
/// `e`.
pub open spec fn decimal_magnitude(n: int, e: int) -> int {
    if e >= 0 {
        nearest_magnitude((n * pow(10, e as nat)) * two(1074), 1)
    } else {
        nearest_magnitude(n * two(1074), pow(10, (-e) as nat))
    }
}

/// The text starts with a minus.
pub open spec fn minus(s: Seq<char>) -> bool {
    s.len() > 0 && s[0] == '-'
}

/// The double that a text writes, where it writes one: the nearest to its
/// number, an infinity or not a number.
pub open spec fn written_double(s: Seq<char>) -> Option<Double> {
    let u = unsigned_part(s);
    if same_word(u, "nan"@) {
        Some(not_a_number())
    } else if same_word(u, "inf"@) || same_word(u, "infinity"@) {
        Some(assembled(minus(s), INFINITY as int))
    } else if number_shape(u) {
        Some(
            assembled(
                minus(s),
                decimal_magnitude(
                    digits_value(point_digits(mantissa(u))),
                    written_exponent(u) - point_places(mantissa(u)),
                ),
            ),
        )
    } else {
        None
    }
}

// ── Long numbers ─────────────────────────────────────────────────────────────

/// The number of digits, the last one first.
spec fn worth(d: Seq<u8>) -> int
    decreases d.len(),
{
    if d.len() == 0 {
        0
    } else {
        d[0] + 10 * worth(d.drop_first())
    }
}

/// Every item is a digit.
spec fn decimal_digits(d: Seq<u8>) -> bool {
    forall|i: int| 0 <= i < d.len() ==> #[trigger] d[i] < 10
}

/// Digits read as those below place `i` and those from there on.
proof fn lemma_worth_split(d: Seq<u8>, i: int)
    requires
        0 <= i <= d.len(),
    ensures
        worth(d) == worth(d.take(i)) + pow(10, i as nat) * worth(d.skip(i)),
    decreases i,
{
    reveal(pow);
    if i == 0 {
        assert(d.take(0) =~= Seq::empty());
        assert(d.skip(0) =~= d);
        assert(pow(10, 0) == 1);
        assert(1 * worth(d) == worth(d));
    } else {
        let t = d.drop_first();
        lemma_worth_split(t, i - 1);
        assert(d.take(i).drop_first() =~= t.take(i - 1));
        assert(d.skip(i) =~= t.skip(i - 1));
        assert(d.take(i)[0] == d[0]);
        let p = pow(10, (i - 1) as nat);
        let w = worth(d.skip(i));
        assert(pow(10, i as nat) == 10 * p);
        assert(10 * (p * w) == (10 * p) * w) by (nonlinear_arith);
    }
}

/// Digits are worth less than ten to the power of how many they are, and
/// nothing only where all of them are zero.
proof fn lemma_worth_bound(d: Seq<u8>)
    requires
        decimal_digits(d),
    ensures
        0 <= worth(d) < pow(10, d.len()),
        worth(d) == 0 <==> (forall|i: int| 0 <= i < d.len() ==> #[trigger] d[i] == 0),
    decreases d.len(),
{
    reveal(pow);
    if d.len() > 0 {
        let t = d.drop_first();
        assert forall|i: int| 0 <= i < t.len() implies #[trigger] t[i] < 10 by {
            assert(d[i + 1] < 10);
        }
        lemma_worth_bound(t);
        assert(d[0] < 10);
        assert(pow(10, d.len()) == 10 * pow(10, t.len()));
        if worth(d) == 0 {
            assert forall|i: int| 0 <= i < d.len() implies #[trigger] d[i] == 0 by {
                if i > 0 {
                    assert(t[i - 1] == 0);
                }
            }
        } else if forall|i: int| 0 <= i < d.len() ==> #[trigger] d[i] == 0 {
            assert forall|i: int| 0 <= i < t.len() implies #[trigger] t[i] == 0 by {
                assert(d[i + 1] == 0);
            }
        }
    }
}

/// One more digit in front.
proof fn lemma_worth_push(d: Seq<u8>, c: u8)
    ensures
        worth(d.push(c)) == worth(d) + pow(10, d.len()) * c,
{
    let e = d.push(c);
    lemma_worth_split(e, d.len() as int);
    assert(e.take(d.len() as int) =~= d);
    assert(e.skip(d.len() as int) =~= seq![c]);
    assert(seq![c].drop_first() =~= Seq::<u8>::empty());
    reveal_with_fuel(worth, 2);
}

/// Multiply the number of digits.
fn scale_digits(d: &mut Vec<u8>, k: u8)
    requires
        decimal_digits(old(d)@),
        k < 10,
    ensures
        decimal_digits(final(d)@),
        worth(final(d)@) == worth(old(d)@) * k,
{
    let ghost before = d@;
    let n: usize = d.len();
    let mut carry: u8 = 0;
    proof {
        reveal(pow);
        assert(before.take(0) =~= Seq::empty());
        assert(d@.take(0) =~= Seq::empty());
    }
    for i in 0..n
        invariant
            k < 10,
            n == d@.len() == before.len(),
            decimal_digits(before),
            decimal_digits(d@),
            carry < 10,
            d@.skip(i as int) == before.skip(i as int),
            worth(d@.take(i as int)) + pow(10, i as nat) * carry == worth(before.take(i as int)) * k,
    {
        let ghost mid = d@;
        let ghost old_carry = carry;
        assert(d@[i as int] == d@.skip(i as int)[0]);
        assert(before[i as int] == before.skip(i as int)[0]);
        assert(before[i as int] < 10);
        let v: u8 = d[i];
        assert(v * k <= 81) by (nonlinear_arith)
            requires
                v <= 9,
                k <= 9,
                v >= 0,
                k >= 0,
        ;
        let t: u8 = v * k + carry;
        carry = t / 10;
        d.set(i, t % 10);
        proof {
            let p = pow(10, i as nat);
            lemma_worth_push(mid.take(i as int), (t % 10) as u8);
            lemma_worth_push(before.take(i as int), v);
            assert(d@.take(i + 1) =~= mid.take(i as int).push((t % 10) as u8));
            assert(before.take(i + 1) =~= before.take(i as int).push(v));
            assert(d@.skip(i + 1) =~= before.skip(i + 1)) by {
                assert forall|j: int| 0 <= j < n - i - 1 implies #[trigger] d@.skip(i + 1)[j]
                    == before.skip(i + 1)[j] by {
                    assert(mid.skip(i as int)[j + 1] == before.skip(i as int)[j + 1]);
                }
            }
            reveal(pow);
            assert(pow(10, (i + 1) as nat) == 10 * p);
            let a = worth(mid.take(i as int));
            let b = worth(before.take(i as int));
            assert((a + p * (t % 10)) + (10 * p) * (t / 10) == a + p * t) by (nonlinear_arith)
                requires
                    t as int == 10 * (t as int / 10) + t as int % 10,
            ;
            assert((b + p * v) * k == b * k + p * (v * k)) by (nonlinear_arith);
            assert(p * t == p * (v * k) + p * old_carry) by (nonlinear_arith)
                requires
                    t as int == v * k + old_carry,
            ;
        }
    }
    let ghost mid = d@;
    d.push(carry);
    proof {
        assert(mid.take(n as int) =~= mid);
        assert(before.take(n as int) =~= before);
        lemma_worth_push(mid, carry);
    }
}

/// A bound above every number of 64 bits.
const CEILING: u128 = 0x1_0000_0000_0000_0000;

/// The digits from place `from` on, capped.
fn upper_part(d: &Vec<u8>, from: usize) -> (r: u128)
    requires
        decimal_digits(d@),
        from <= d@.len(),
    ensures
        r == (if worth(d@.skip(from as int)) > CEILING {
            CEILING as int
        } else {
            worth(d@.skip(from as int))
        }),
{
    let mut i: usize = d.len();
    let mut r: u128 = 0;
    assert(d@.skip(d@.len() as int) =~= Seq::empty());
    while i > from
        invariant
            decimal_digits(d@),
            from <= i <= d@.len(),
            r <= CEILING,
            worth(d@.skip(i as int)) >= 0,
            r == (if worth(d@.skip(i as int)) > CEILING {
                CEILING as int
            } else {
                worth(d@.skip(i as int))
            }),
        decreases i,
    {
        i = i - 1;
        assert(d@.skip(i as int)[0] == d@[i as int]);
        assert(d@.skip(i as int).drop_first() =~= d@.skip(i + 1));
        let next: u128 = r * 10 + d[i] as u128;
        r = if next > CEILING { CEILING } else { next };
    }
    r
}

/// Whether any of the digits below place `upto` is not zero.
fn any_below(d: &Vec<u8>, upto: usize) -> (r: bool)
    requires
        decimal_digits(d@),
        upto <= d@.len(),
    ensures
        r == (worth(d@.take(upto as int)) != 0),
{
    let ghost t = d@.take(upto as int);
    proof {
        assert forall|i: int| 0 <= i < t.len() implies #[trigger] t[i] < 10 by {
            assert(d@[i] < 10);
        }
        lemma_worth_bound(t);
    }
    for i in 0..upto
        invariant
            upto <= d@.len(),
            t == d@.take(upto as int),
            worth(t) == 0 <==> (forall|j: int| 0 <= j < t.len() ==> #[trigger] t[j] == 0),
            forall|j: int| 0 <= j < i ==> #[trigger] t[j] == 0,
    {
        if d[i] != 0 {
            assert(t[i as int] != 0);
            return true;
        }
    }
    false
}

/// The number of digits over ten to the power of `places`: its whole part, capped,
/// and whether anything is left.
fn whole_and_rest(d: &Vec<u8>, places: u128) -> (r: (u128, bool))
    requires
        decimal_digits(d@),
    ensures
        r.0 <= CEILING,
        r.0 < CEILING ==> cut(r.0 as int, r.1, worth(d@), pow(10, places as nat)),
        r.0 == CEILING ==> worth(d@) >= CEILING * pow(10, places as nat),
{
    let n: usize = d.len();
    let at: usize = if places > n as u128 { n } else { places as usize };
    let whole: u128 = upper_part(d, at);
    let rest = any_below(d, at);
    proof {
        lemma_pow_positive(10, places as nat);
        let low = d@.take(at as int);
        let high = d@.skip(at as int);
        assert forall|i: int| 0 <= i < low.len() implies #[trigger] low[i] < 10 by {
            assert(d@[i] < 10);
        }
        assert forall|i: int| 0 <= i < high.len() implies #[trigger] high[i] < 10 by {
            assert(d@[i + at] < 10);
        }
        lemma_worth_bound(low);
        lemma_worth_bound(high);
        lemma_worth_split(d@, at as int);
        let p = pow(10, places as nat);
        let w = worth(high);
        if at < places {
            assert(high =~= Seq::empty());
            assert(low =~= d@);
            lemma_pow_adds(10, at as nat, (places - at) as nat);
            lemma_pow_positive(10, (places - at) as nat);
            lemma_pow_positive(10, at as nat);
            assert(pow(10, at as nat) <= p) by (nonlinear_arith)
                requires
                    p == pow(10, at as nat) * pow(10, (places - at) as nat),
                    pow(10, (places - at) as nat) >= 1,
                    pow(10, at as nat) >= 1,
            ;
            assert(0 * p == 0 && (0 + 1) * p == p);
        } else {
            assert(p * w == w * p) by (nonlinear_arith);
            assert((w + 1) * p == w * p + p) by (nonlinear_arith);
            if whole == CEILING {
                assert(w * p >= CEILING * p) by (nonlinear_arith)
                    requires
                        w >= CEILING,
                        p > 0,
                ;
            }
        }
    }
    (whole, rest)
}

/// The magnitude bits of the double nearest to the number of digits over ten to
/// the power of `places`.
fn nearest_to_digits(digits: Vec<u8>, places: u128) -> (r: u64)
    requires
        decimal_digits(digits@),
        places <= 0x1000_0000_0000_0000_0000_0000_0000,
    ensures
        r < INFINITY ==> r == nearest_magnitude(
            worth(digits@) * two(1074),
            pow(10, places as nat),
        ),
        r >= INFINITY ==> nearest_magnitude(
            worth(digits@) * two(1074),
            pow(10, places as nat),
        ) >= INFINITY,
{
    let ghost start = worth(digits@);
    let ghost base = pow(10, places as nat);
    let mut d: Vec<u8> = digits;
    proof {
        lemma_worth_bound(d@);
        lemma_pow_positive(10, places as nat);
        lemma2_to64();
        assert(start * 1 == start);
    }
    let (whole, more) = whole_and_rest(&d, places);
    if whole < CEILING {
        let mut p: u128 = whole;
        let mut rest: bool = more;
        let mut k: u32 = 0;
        while p < 0x1000_0000_0000_0000 && k < 1600
            invariant
                decimal_digits(d@),
                base == pow(10, places as nat),
                base > 0,
                k <= 1600,
                p < 0x2_0000_0000_0000_0000,
                worth(d@) == start * two(k as int),
                cut(p as int, rest, worth(d@), base),
            decreases 1600 - k,
        {
            let ghost before = worth(d@);
            scale_digits(&mut d, 2);
            proof {
                lemma_pow2_unfold((k + 1) as nat);
                let t = two(k as int);
                assert((start * t) * 2 == start * (2 * t)) by (nonlinear_arith);
            }
            k = k + 1;
            let (next, left) = whole_and_rest(&d, places);
            proof {
                if next == CEILING {
                    assert(before * 2 >= CEILING * base);
                    assert((p + 1) * base <= 0x1000_0000_0000_0000 * base) by (nonlinear_arith)
                        requires
                            p + 1 <= 0x1000_0000_0000_0000,
                            base > 0,
                    ;
                    assert(false) by (nonlinear_arith)
                        requires
                            before < 0x1000_0000_0000_0000 * base,
                            before * 2 >= CEILING * base,
                            CEILING == 0x1_0000_0000_0000_0000,
                            base > 0,
                    ;
                }
            }
            p = next;
            rest = left;
        }
        let ghost n = worth(d@);
        if k <= 1074 {
            proof {
                lemma_pow2_adds(k as nat, (1074 - k) as nat);
                assert(n * two(1074 - k) == start * two(1074)) by (nonlinear_arith)
                    requires
                        n == start * two(k as int),
                        two(1074) == two(k as int) * two(1074 - k),
                ;
            }
            pack_up(p, rest, 1074 - k, Ghost(n), Ghost(base))
        } else {
            proof {
                let s = k - 1074;
                lemma_pow2_adds(1074, s as nat);
                lemma_pow2_pos(s as nat);
                lemma_pow2_pos(1074);
                assert(n == (start * two(1074)) * two(s)) by (nonlinear_arith)
                    requires
                        n == start * two(k as int),
                        two(k as int) == two(1074) * two(s),
                ;
                assert(0 <= start * two(1074)) by (nonlinear_arith)
                    requires
                        0 <= start,
                        0 < two(1074),
                ;
                lemma_nearest_scaled(start * two(1074), base, two(s));
            }
            pack_down(p, rest, k - 1074, Ghost(n), Ghost(base))
        }
    } else {
        let mut p: u128 = whole;
        let mut rest: bool = more;
        let mut k: u32 = 0;
        proof {
            reveal(pow);
            assert(pow(5, 0) == 1);
        }
        while p >= CEILING && k < 2000
            invariant
                decimal_digits(d@),
                places <= 0x1000_0000_0000_0000_0000_0000_0000,
                k <= 2000,
                p <= CEILING,
                p >= 0x4000_0000_0000_0000,
                worth(d@) == start * pow(5, k as nat),
                p < CEILING ==> cut(p as int, rest, worth(d@), pow(10, (places + k) as nat)),
                p == CEILING ==> worth(d@) >= CEILING * pow(10, (places + k) as nat),
            decreases 2000 - k,
        {
            let ghost before = worth(d@);
            let ghost b = pow(10, (places + k) as nat);
            scale_digits(&mut d, 5);
            proof {
                reveal(pow);
                let t = pow(5, k as nat);
                assert(pow(5, (k + 1) as nat) == 5 * t);
                assert((start * t) * 5 == start * (5 * t)) by (nonlinear_arith);
                assert(pow(10, (places + k + 1) as nat) == 10 * b);
                lemma_pow_positive(10, (places + k) as nat);
            }
            k = k + 1;
            let (next, left) = whole_and_rest(&d, places + k as u128);
            proof {
                if next < 0x4000_0000_0000_0000 {
                    assert(false) by (nonlinear_arith)
                        requires
                            before >= CEILING * b,
                            before * 5 < (next + 1) * (10 * b),
                            next < 0x4000_0000_0000_0000,
                            CEILING == 0x1_0000_0000_0000_0000,
                            b > 0,
                    ;
                }
            }
            p = next;
            rest = left;
        }
        let ghost five = pow(5, k as nat);
        let ghost ten = pow(10, k as nat);
        let ghost n = worth(d@);
        let ghost b = pow(10, (places + k) as nat);
        proof {
            lemma_pow_adds(10, places as nat, k as nat);
            lemma_pow_positive(10, k as nat);
            lemma_pow_distributes(5, 2, k as nat);
            lemma_pow2(k as nat);
            lemma_pow2_adds(k as nat, 1074);
            lemma_pow2_pos(1074);
            assert(ten == five * two(k as int));
            assert(n * two(k + 1074) == (start * two(1074)) * ten) by (nonlinear_arith)
                requires
                    n == start * five,
                    ten == five * two(k as int),
                    two(k + 1074) == two(k as int) * two(1074),
            ;
            assert(0 <= start * two(1074)) by (nonlinear_arith)
                requires
                    0 <= start,
                    0 < two(1074),
            ;
            lemma_nearest_scaled(start * two(1074), base, ten);
        }
        if p >= CEILING {
            proof {
                lemma_pow2_pos((k + 1074) as nat);
                lemma2_to64();
                lemma_pow2_adds(64, (k + 1074) as nat);
                let u = two(k + 1074);
                assert(n * u >= b * two(64 + k + 1074)) by (nonlinear_arith)
                    requires
                        n >= CEILING * b,
                        two(64 + k + 1074) == CEILING * u,
                        u > 0,
                ;
                lemma_pow_positive(10, (places + k) as nat);
                lemma_nearest_infinite(n * u, b, (64 + k + 1074) as nat);
                assert((64 + k + 1074 - 51) * 0x10_0000_0000_0000 >= INFINITY);
            }
            return INFINITY;
        }
        pack_up(p, rest, k + 1074, Ghost(n), Ghost(b))
    }
}

// ── Digits ───────────────────────────────────────────────────────────────────

/// Digits read as those in front of place `i` and those from there on.
proof fn lemma_digits_split(s: Seq<char>, i: int)
    requires
        0 <= i <= s.len(),
    ensures
        digits_value(s) == digits_value(s.take(i)) * pow(10, (s.len() - i) as nat) + digits_value(
            s.skip(i),
        ),
    decreases s.len(),
{
    reveal(pow);
    if i == s.len() {
        assert(s.take(i) =~= s);
        assert(s.skip(i) =~= Seq::empty());
        assert(pow(10, 0) == 1);
    } else {
        let t = s.drop_last();
        lemma_digits_split(t, i);
        assert(t.take(i) =~= s.take(i));
        assert(s.skip(i).drop_last() =~= t.skip(i));
        assert(s.skip(i).last() == s.last());
        let p = pow(10, (t.len() - i) as nat);
        assert(pow(10, (s.len() - i) as nat) == 10 * p);
        let a = digits_value(s.take(i));
        assert(10 * (a * p) == a * (10 * p)) by (nonlinear_arith);
    }
}

/// Digits are worth less than ten to the power of how many they are.
proof fn lemma_digits_bound(s: Seq<char>)
    requires
        all_digits(s),
    ensures
        0 <= digits_value(s) < pow(10, s.len()),
    decreases s.len(),
{
    reveal(pow);
    if s.len() > 0 {
        let t = s.drop_last();
        assert forall|i: int| 0 <= i < t.len() implies is_digit(#[trigger] t[i]) by {
            assert(is_digit(s[i]));
        }
        lemma_digits_bound(t);
        assert(is_digit(s.last()));
        assert(pow(10, s.len()) == 10 * pow(10, t.len()));
    }
}

/// The digits of a text, the last one first.
fn digit_list(v: &Vec<char>) -> (r: Vec<u8>)
    requires
        all_digits(v@),
    ensures
        decimal_digits(r@),
        r@.len() == v@.len(),
        worth(r@) == digits_value(v@),
{
    let n: usize = v.len();
    let mut r: Vec<u8> = Vec::new();
    let mut i: usize = n;
    assert(v@.skip(n as int) =~= Seq::empty());
    while i > 0
        invariant
            all_digits(v@),
            n == v@.len(),
            i <= n,
            r@.len() == n - i,
            decimal_digits(r@),
            worth(r@) == digits_value(v@.skip(i as int)),
        decreases i,
    {
        i = i - 1;
        let c = v[i];
        assert(is_digit(v@[i as int]));
        let d: u8 = (code_point(c) - 0x30) as u8;
        let ghost before = r@;
        r.push(d);
        proof {
            let tail = v@.skip(i as int);
            lemma_worth_push(before, d);
            lemma_digits_split(tail, 1);
            assert(tail.skip(1) =~= v@.skip(i + 1));
            assert(tail.take(1) =~= seq![c]);
            reveal_with_fuel(digits_value, 2);
            assert(seq![c].drop_last() =~= Seq::empty());
            let p = pow(10, before.len());
            assert(p * d == d * p) by (nonlinear_arith);
        }
    }
    assert(v@.skip(0) =~= v@);
    r
}

/// Zeros are worth nothing.
proof fn lemma_zeros_worth(z: Seq<u8>)
    requires
        forall|i: int| 0 <= i < z.len() ==> #[trigger] z[i] == 0,
    ensures
        worth(z) == 0,
{
    lemma_worth_bound(z);
}

/// The digits with `k` zeros behind them.
fn with_zeros(d: Vec<u8>, k: usize) -> (r: Vec<u8>)
    requires
        decimal_digits(d@),
    ensures
        decimal_digits(r@),
        worth(r@) == worth(d@) * pow(10, k as nat),
{
    let mut r: Vec<u8> = Vec::new();
    for i in 0..k
        invariant
            r@.len() == i,
            forall|j: int| 0 <= j < i ==> #[trigger] r@[j] == 0,
    {
        r.push(0);
    }
    let ghost z = r@;
    let mut tail: Vec<u8> = d;
    r.append(&mut tail);
    proof {
        lemma_zeros_worth(z);
        lemma_worth_split(r@, k as int);
        assert(r@.take(k as int) =~= z);
        assert(r@.skip(k as int) =~= d@);
        let p = pow(10, k as nat);
        assert(p * worth(d@) == worth(d@) * p) by (nonlinear_arith);
    }
    r
}

/// Ten is more than two to the power of three.
proof fn lemma_tens(k: nat)
    ensures
        pow(10, k) >= two((3 * k) as int),
    decreases k,
{
    reveal(pow);
    lemma2_to64();
    if k > 0 {
        lemma_tens((k - 1) as nat);
        lemma_pow2_adds((3 * (k - 1)) as nat, 3);
        assert(pow(10, k) == 10 * pow(10, (k - 1) as nat));
    }
}

/// A number with a large exponent is beyond the largest double.
proof fn lemma_large(n: int, e: int)
    requires
        n >= 1,
        e >= 400,
    ensures
        decimal_magnitude(n, e) >= INFINITY,
{
    lemma_tens(400);
    lemma_pow_increases(10, 400, e as nat);
    lemma_pow2_pos(1074);
    lemma_pow2_adds(1200, 1074);
    let p = pow(10, e as nat);
    assert(n * p >= two(1200)) by (nonlinear_arith)
        requires
            n >= 1,
            p >= two(1200),
            two(1200) >= 0,
    ;
    assert((n * p) * two(1074) >= 1 * two(2274)) by (nonlinear_arith)
        requires
            n * p >= two(1200),
            two(2274) == two(1200) * two(1074),
            two(1074) > 0,
    ;
    lemma_nearest_infinite((n * p) * two(1074), 1, 2274);
}

/// A number with a very negative exponent is nearest to zero.
proof fn lemma_small(s: Seq<char>, e: int)
    requires
        all_digits(s),
        e <= -400 - s.len(),
    ensures
        decimal_magnitude(digits_value(s), e) == 0,
{
    let n = digits_value(s);
    lemma_digits_bound(s);
    lemma_tens(400);
    lemma_pow_adds(10, s.len(), 400);
    lemma_pow_increases(10, s.len() + 400, (-e) as nat);
    lemma_pow_positive(10, s.len());
    lemma_pow2_pos(1074);
    lemma_pow2_unfold(1075);
    lemma_pow2_strictly_increases(1075, 1200);
    let d = pow(10, (-e) as nat);
    let m = n * two(1074);
    assert(0 <= m) by (nonlinear_arith)
        requires
            m == n * two(1074),
            0 <= n,
            two(1074) > 0,
    ;
    assert(2 * m <= n * two(1200)) by (nonlinear_arith)
        requires
            m == n * two(1074),
            0 <= n,
            2 * two(1074) <= two(1200),
    ;
    assert(n * two(1200) < pow(10, s.len()) * pow(10, 400)) by (nonlinear_arith)
        requires
            0 <= n < pow(10, s.len()),
            0 < two(1200) <= pow(10, 400),
    ;
    assert(m < EXACT * d) by (nonlinear_arith)
        requires
            2 * m < d,
            m >= 0,
            EXACT >= 1,
    ;
    assert(0 * d == 0);
    lemma_fundamental_div_mod_converse(m, d, 0, m);
}

/// A bound on exponents, far beyond what the length of a text can make up for.
const FAR: u128 = 0x1_0000_0000_0000_0000_0000;

/// The number that the digits write, or `FAR` where it is more.
fn near_value(v: &Vec<char>) -> (r: u128)
    requires
        all_digits(v@),
    ensures
        r == (if digits_value(v@) > FAR {
            FAR as int
        } else {
            digits_value(v@)
        }),
{
    let mut r: u128 = 0;
    assert(v@.take(0) =~= Seq::empty());
    for i in 0..v.len()
        invariant
            all_digits(v@),
            r <= FAR,
            0 <= digits_value(v@.take(i as int)),
            r == (if digits_value(v@.take(i as int)) > FAR {
                FAR as int
            } else {
                digits_value(v@.take(i as int))
            }),
    {
        let c = v[i];
        assert(is_digit(v@[i as int]));
        assert(v@.take(i + 1).drop_last() =~= v@.take(i as int));
        let next: u128 = r * 10 + (code_point(c) - 0x30) as u128;
        r = if next > FAR { FAR } else { next };
    }
    assert(v@.take(v@.len() as int) =~= v@);
    r
}

/// The digits of a number without its point, and how many of them stood behind
/// it.
fn without_point(v: &[char]) -> (r: (Vec<char>, usize))
    requires
        point_number(v@),
    ensures
        r.0@ == point_digits(v@),
        r.1 == point_places(v@),
        all_digits(r.0@),
        r.1 <= r.0@.len(),
{
    let n: usize = v.len();
    let point: [char; 1] = ['.'];
    assert(point@ =~= seq!['.']);
    match find_at_or_after(v, &point, 0) {
        None => {
            let r = slice_of(v, 0, n);
            assert(r@ =~= v@);
            (r, 0)
        },
        Some(i) => {
            let mut r = slice_of(v, 0, i);
            let mut tail = slice_of(v, i + 1, n);
            let ghost (a, b) = (r@, tail@);
            r.append(&mut tail);
            assert forall|j: int| 0 <= j < r@.len() implies is_digit(#[trigger] r@[j]) by {
                if j < a.len() {
                    assert(is_digit(a[j]));
                } else {
                    assert(is_digit(b[j - a.len()]));
                }
            }
            (r, n - i - 1)
        },
    }
}

// ── Reading ──────────────────────────────────────────────────────────────────

/// `r` are the magnitude bits `m`, as far as infinity tells them apart.
spec fn agrees(r: int, m: int) -> bool {
    r == m || (r >= INFINITY && m >= INFINITY)
}

/// The magnitude bits of the double nearest to the number of the digits times
/// ten to the power of `e`.
fn decimal_bits(v: &Vec<char>, e: i128) -> (r: u64)
    requires
        all_digits(v@),
        -0x1000_0000_0000_0000_0000_0000_0000 <= e,
    ensures
        agrees(r as int, decimal_magnitude(digits_value(v@), e as int)),
{
    let list = digit_list(v);
    let n: usize = list.len();
    let ghost value = digits_value(v@);
    let some = any_below(&list, n);
    proof {
        assert(list@.take(n as int) =~= list@);
        lemma_digits_bound(v@);
        lemma_pow2_pos(1074);
    }
    if !some {
        proof {
            assert(0 * two(1074) == 0);
            if e >= 0 {
                assert(0 * pow(10, e as nat) == 0);
                lemma_nearest_of_nothing(1);
            } else {
                lemma_pow_positive(10, (-e) as nat);
                lemma_nearest_of_nothing(pow(10, (-e) as nat));
            }
        }
        return 0;
    }
    if e >= 400 {
        proof {
            lemma_large(value, e as int);
        }
        return INFINITY;
    }
    if e >= 0 {
        proof {
            reveal(pow);
            assert(pow(10, 0) == 1);
        }
        nearest_to_digits(with_zeros(list, e as usize), 0)
    } else {
        nearest_to_digits(list, (-e) as u128)
    }
}

/// The magnitude bits of the double nearest to the number that the unsigned text
/// `v` writes.
fn number_bits(v: &[char]) -> (r: u64)
    requires
        number_shape(v@),
    ensures
        agrees(
            r as int,
            decimal_magnitude(
                digits_value(point_digits(mantissa(v@))),
                written_exponent(v@) - point_places(mantissa(v@)),
            ),
        ),
{
    let n: usize = v.len();
    let k: usize = exponent_at(v);
    let head = slice_of(v, 0, k);
    assert(head@ =~= mantissa(v@));
    assert(k == n ==> head@ =~= v@);
    let (digits, places) = without_point(head.as_slice());
    let count: usize = digits.len();
    assert(digits@.len() == count);
    if k == n {
        return decimal_bits(&digits, -(places as i128));
    }
    let exp = slice_of(v, k + 1, n);
    let near: u128 = near_value(&without_sign(exp.as_slice()));
    let ghost e = written_exponent(v@);
    proof {
        lemma_digits_bound(unsigned_part(exp@));
        lemma_digits_bound(digits@);
    }
    if exp[0] == '-' {
        if near >= FAR {
            proof {
                lemma_small(digits@, e - places);
            }
            return 0;
        }
        return decimal_bits(&digits, -(near as i128) - places as i128);
    }
    if near >= FAR {
        let bits: u64 = decimal_bits(&digits, 400);
        proof {
            if digits_value(digits@) >= 1 {
                lemma_large(digits_value(digits@), e - places);
                lemma_large(digits_value(digits@), 400);
            } else {
                assert(0 * pow(10, (e - places) as nat) == 0);
                assert(0 * pow(10, 400) == 0);
            }
        }
        return bits;
    }
    decimal_bits(&digits, near as i128 - places as i128)
}

/// The double that a text writes, where it writes one.
pub fn parse_double(v: &[char]) -> (r: Option<Double>)
    ensures
        r == written_double(v@),
{
    let negative: bool = v.len() > 0 && v[0] == '-';
    let u = without_sign(v);
    if is_word(u.as_slice(), "nan") {
        return Some(not_a_number());
    }
    if is_word(u.as_slice(), "inf") || is_word(u.as_slice(), "infinity") {
        return Some(assemble(negative, INFINITY));
    }
    if is_number(u.as_slice()) {
        Some(assemble(negative, number_bits(u.as_slice())))
    } else {
        None
    }
}

} // verus!
