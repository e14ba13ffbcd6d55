//! Double-precision numbers as their bits: ordering and fixed-point notation.
//!
//! Measurements come and go as IEEE 754 doubles. Nothing is calculated with
//! them here. They are compared, told apart from the infinities and from not a
//! number, and written with a fixed number of decimal places, all of it exactly
//! and in integers.
use vstd::prelude::*;
use vstd::string::*;
use vstd::arithmetic::power2::{
    lemma2_to64, lemma2_to64_rest, lemma_pow2_strictly_increases, lemma_pow2_unfold, pow2,
};
use vstd::arithmetic::div_mod::{lemma_fundamental_div_mod, lemma_fundamental_div_mod_converse};
use crate::decimal::{
    all_digits, decimal, digit, digit_char, digit_value, digits, digits_of, digits_value,
    is_ascii_digit, is_digit, lemma_digits,
};
use crate::text::{chars_of, code_point, copy_of, find_at_or_after, first, slice_of, text_of};

verus! {

/// An IEEE 754 double, by its bits.
#[derive(Debug, Clone, Copy, PartialEq, Eq, Structural)]
pub struct Double {
    pub bits: u64,
}

/// The bit that holds the sign.
pub const SIGN: u64 = 0x8000_0000_0000_0000;

/// The magnitude bits of infinity: all exponent bits and nothing else.
pub const INFINITY: u64 = 0x7ff0_0000_0000_0000;

/// Two to the power of 53: integers below it are doubles.
pub const EXACT: u64 = 0x0020_0000_0000_0000;

/// One in the place of the exponent.
pub const EXPONENT_UNIT: u64 = 0x0010_0000_0000_0000;

impl Double {
    /// The sign bit is set.
    pub open spec fn negative(self) -> bool {
        self.bits >= SIGN
    }

    /// The bits without the sign.
    pub open spec fn magnitude(self) -> int {
        if self.negative() {
            self.bits - SIGN
        } else {
            self.bits as int
        }
    }

    /// Not a number.
    pub open spec fn nan(self) -> bool {
        self.magnitude() > INFINITY
    }

    /// Neither infinite nor not a number.
    pub open spec fn finite(self) -> bool {
        self.magnitude() < INFINITY
    }

    /// Where the number stands in the order of the numbers. Both zeros stand at
    /// zero.
    pub open spec fn place(self) -> int {
        if self.negative() {
            -self.magnitude()
        } else {
            self.magnitude()
        }
    }

    /// `self` is a number less than the number `other`.
    pub open spec fn less(self, other: Double) -> bool {
        !self.nan() && !other.nan() && self.place() < other.place()
    }

    /// `self` is one of the two zeros.
    pub open spec fn zero(self) -> bool {
        self.magnitude() == 0
    }

    /// `self` and `other` are the same number; the two zeros are.
    pub open spec fn equals(self, other: Double) -> bool {
        !self.nan() && !other.nan() && self.place() == other.place()
    }

    /// The bits without the sign.
    pub fn magnitude_bits(self) -> (r: u64)
        ensures
            r == self.magnitude(),
    {
        if self.bits >= SIGN {
            self.bits - SIGN
        } else {
            self.bits
        }
    }

    /// Whether this is neither infinite nor not a number.
    pub fn is_finite(self) -> (r: bool)
        ensures
            r == self.finite(),
    {
        self.magnitude_bits() < INFINITY
    }

    /// Whether this is one of the two zeros.
    pub fn is_zero(self) -> (r: bool)
        ensures
            r == self.zero(),
    {
        self.magnitude_bits() == 0
    }

    /// Whether this is a number less than the number `other`.
    pub fn is_less(self, other: Double) -> (r: bool)
        ensures
            r == self.less(other),
    {
        let a: u64 = self.magnitude_bits();
        let b: u64 = other.magnitude_bits();
        if a > INFINITY || b > INFINITY {
            return false;
        }
        let a_neg = self.bits >= SIGN;
        let b_neg = other.bits >= SIGN;
        if a_neg && b_neg {
            a > b
        } else if a_neg {
            a > 0 || b > 0
        } else if b_neg {
            false
        } else {
            a < b
        }
    }

    /// Whether this and `other` are the same number.
    pub fn is_equal(self, other: Double) -> (r: bool)
        ensures
            r == self.equals(other),
    {
        let a: u64 = self.magnitude_bits();
        let b: u64 = other.magnitude_bits();
        if a > INFINITY || b > INFINITY {
            return false;
        }
        (a == 0 && b == 0) || self.bits == other.bits
    }

    /// The significand of a finite number: its absolute value is the
    /// significand times two to the power of `exponent`.
    pub open spec fn significand(self) -> int {
        if self.magnitude() < EXPONENT_UNIT {
            self.magnitude()
        } else {
            self.magnitude() % (EXPONENT_UNIT as int) + EXPONENT_UNIT
        }
    }

    /// The exponent of a finite number.
    pub open spec fn exponent(self) -> int {
        if self.magnitude() < EXPONENT_UNIT {
            -1074
        } else {
            self.magnitude() / (EXPONENT_UNIT as int) - 1075
        }
    }
}

// ── Fixed-point notation ─────────────────────────────────────────────────────

/// The integer nearest to `n / d`; of two equally near ones the even one.
pub open spec fn rounded(n: int, d: int) -> int {
    let q = n / d;
    let r = n % d;
    if 2 * r < d {
        q
    } else if 2 * r > d {
        q + 1
    } else if q % 2 == 0 {
        q
    } else {
        q + 1
    }
}

/// The absolute value of a finite number in units of `1 / scale`, rounded to
/// the nearest integer and to the even one of two equally near ones.
pub open spec fn scaled(d: Double, scale: int) -> int {
    let m = d.significand() * scale;
    if d.exponent() >= 0 {
        m * pow2(d.exponent() as nat)
    } else {
        rounded(m, pow2((-d.exponent()) as nat) as int)
    }
}

/// The sign of `d`, also in front of a negative zero.
pub open spec fn sign_text(d: Double) -> Seq<char> {
    if d.negative() {
        seq!['-']
    } else {
        Seq::empty()
    }
}

/// `d` without decimal places.
pub open spec fn whole_text(d: Double) -> Seq<char> {
    if d.nan() {
        "NaN"@
    } else if !d.finite() {
        sign_text(d) + "inf"@
    } else {
        sign_text(d) + decimal(scaled(d, 1))
    }
}

/// `d` with one decimal place.
pub open spec fn tenth_text(d: Double) -> Seq<char> {
    if d.nan() {
        "NaN"@
    } else if !d.finite() {
        sign_text(d) + "inf"@
    } else {
        let n = scaled(d, 10);
        sign_text(d) + decimal(n / 10) + seq!['.', digit(n % 10)]
    }
}

/// `d` with two decimal places.
pub open spec fn hundredth_text(d: Double) -> Seq<char> {
    if d.nan() {
        "NaN"@
    } else if !d.finite() {
        sign_text(d) + "inf"@
    } else {
        let n = scaled(d, 100);
        sign_text(d) + decimal(n / 100) + seq!['.', digit(n / 10 % 10), digit(n % 10)]
    }
}

/// `d` with one decimal place and a sign in any case.
pub open spec fn signed_tenth_text(d: Double) -> Seq<char> {
    if d.nan() || d.negative() {
        tenth_text(d)
    } else {
        seq!['+'] + tenth_text(d)
    }
}

/// Twice the number that the digits write.
fn doubled(v: &Vec<char>) -> (r: Vec<char>)
    requires
        all_digits(v@),
        v@.len() > 0,
        digit_value(v@[0]) > 0,
    ensures
        all_digits(r@),
        r@.len() > 0,
        digit_value(r@[0]) > 0,
        digits_value(r@) == 2 * digits_value(v@),
{
    let mut out: Vec<char> = Vec::new();
    let mut i: usize = 0;
    // From the front: a digit is settled once it is known whether the next one
    // carries.
    assert(is_digit(v@[0]));
    if v[0] as u32 - 0x30 >= 5 {
        out.push('1');
    }
    let ghost head = out@;
    proof {
        reveal_with_fuel(digits_value, 3);
        assert(v@.take(0) =~= Seq::empty());
        if head.len() > 0 {
            assert(head.drop_last() =~= Seq::empty());
        }
    }
    while i < v.len()
        invariant
            all_digits(v@),
            i <= v@.len(),
            all_digits(out@),
            v@.len() > 0,
            digit_value(v@[0]) > 0,
            out@.len() > 0 ==> digit_value(out@[0]) > 0,
            i > 0 ==> out@.len() > 0,
            i == 0 && out@.len() == 0 ==> digit_value(v@[0]) < 5,
            digits_value(out@) == 2 * digits_value(v@.take(i as int)) + (if i < v@.len()
                && digit_value(v@[i as int]) >= 5 {
                1int
            } else {
                0
            }),
        decreases v@.len() - i,
    {
        assert(is_digit(v@[i as int]));
        let d: u32 = v[i] as u32 - 0x30;
        let carry: u32 = if i + 1 < v.len() {
            assert(is_digit(v@[i + 1]));
            if v[i + 1] as u32 - 0x30 >= 5 {
                1
            } else {
                0
            }
        } else {
            0
        };
        let unit: u32 = (2 * d) % 10 + carry;
        let c = digit_char(unit as u64);
        let ghost before = out@;
        out.push(c);
        proof {
            assert(out@.drop_last() =~= before);
            assert(digit_value(c) == unit);
            assert(v@.take(i + 1).drop_last() =~= v@.take(i as int));
            assert(v@.take(i + 1).last() == v@[i as int]);
            assert(all_digits(out@)) by {
                assert forall|j: int| 0 <= j < out@.len() implies is_digit(#[trigger] out@[j]) by {
                    if j < before.len() {
                        assert(out@[j] == before[j]);
                    }
                }
            }
        }
        i = i + 1;
    }
    assert(v@.take(v@.len() as int) =~= v@);
    out
}

/// A digit character is the one for its value.
proof fn lemma_digit_char(c: char)
    requires
        is_digit(c),
    ensures
        c == digit(digit_value(c)),
{
}

/// Digits without a leading zero are the digits of the number they write.
proof fn lemma_digits_unique(s: Seq<char>)
    requires
        all_digits(s),
        s.len() > 0,
        digit_value(s[0]) > 0,
    ensures
        digits_value(s) > 0,
        s == digits(digits_value(s) as nat),
    decreases s.len(),
{
    let t = s.drop_last();
    assert(is_digit(s[s.len() - 1]));
    lemma_digit_char(s.last());
    if s.len() == 1 {
        assert(t =~= Seq::empty());
        assert(digits_value(t) == 0);
        assert(s =~= seq![s.last()]);
    } else {
        assert(t[0] == s[0]);
        assert(all_digits(t)) by {
            assert forall|j: int| 0 <= j < t.len() implies is_digit(#[trigger] t[j]) by {
                assert(t[j] == s[j]);
            }
        }
        lemma_digits_unique(t);
        let n = digits_value(s);
        assert(n / 10 == digits_value(t));
        assert(s =~= t.push(s.last()));
    }
}

/// The digits of a positive number begin with none of zero.
proof fn lemma_leading_digit(n: nat)
    requires
        n > 0,
    ensures
        digit_value(digits(n)[0]) > 0,
    decreases n,
{
    if n >= 10 {
        lemma_leading_digit(n / 10);
        lemma_digits(n / 10);
        assert(digits(n)[0] == digits(n / 10)[0]);
    }
}

/// The digits of `m` times two to the power of `e`.
fn shifted_digits(m: u64, e: u32) -> (r: Vec<char>)
    ensures
        r@ == digits((m * pow2(e as nat)) as nat),
{
    if m == 0 {
        assert(m * pow2(e as nat) == 0);
        return digits_of(0);
    }
    let mut v = digits_of(m);
    let mut i: u32 = 0;
    proof {
        lemma_digits(m as nat);
        lemma_leading_digit(m as nat);
        assert(pow2(0) == 1) by {
            reveal(pow2);
            vstd::arithmetic::power::lemma_pow0(2);
        }
    }
    while i < e
        invariant
            i <= e,
            m > 0,
            all_digits(v@),
            v@.len() > 0,
            digit_value(v@[0]) > 0,
            digits_value(v@) == m * pow2(i as nat),
        decreases e - i,
    {
        v = doubled(&v);
        proof {
            lemma_pow2_unfold((i + 1) as nat);
            assert(2 * (m * pow2(i as nat)) == m * (2 * pow2(i as nat))) by (nonlinear_arith);
        }
        i = i + 1;
    }
    proof {
        lemma_digits_unique(v@);
    }
    v
}

/// Two to the power of `k`.
fn power_of_two(k: u32) -> (r: u128)
    requires
        k < 64,
    ensures
        r == pow2(k as nat),
        r >= 1,
        r <= 0x8000_0000_0000_0000,
{
    let mut r: u128 = 1;
    let mut i: u32 = 0;
    proof {
        lemma2_to64();
        lemma2_to64_rest();
    }
    while i < k
        invariant
            i <= k < 64,
            r == pow2(i as nat),
            r >= 1,
            pow2(63) == 0x8000_0000_0000_0000,
        decreases k - i,
    {
        proof {
            lemma_pow2_unfold((i + 1) as nat);
            if i + 1 < 63 {
                lemma_pow2_strictly_increases((i + 1) as nat, 63);
            }
        }
        r = r * 2;
        i = i + 1;
    }
    proof {
        if i < 63 {
            lemma_pow2_strictly_increases(i as nat, 63);
        }
    }
    r
}

/// Rounding to a multiple far above the number gives zero.
proof fn lemma_rounds_to_zero(n: int, k: nat)
    requires
        0 <= n < 0x1000_0000_0000_0000,
        k >= 64,
    ensures
        rounded(n, pow2(k) as int) == 0,
{
    lemma2_to64();
    if k > 64 {
        lemma_pow2_strictly_increases(64, k);
    }
    let d = pow2(k) as int;
    assert(0 * d == 0) by (nonlinear_arith);
    lemma_fundamental_div_mod_converse(n, d, 0, n);
}

/// The digits of a finite number's absolute value in units of `1 / scale`.
fn scaled_digits(d: Double, scale: u64) -> (r: Vec<char>)
    requires
        d.finite(),
        scale == 1 || scale == 10 || scale == 100,
    ensures
        scaled(d, scale as int) >= 0,
        r@ == digits(scaled(d, scale as int) as nat),
{
    let mag: u64 = d.magnitude_bits();
    let (m, biased): (u64, u64) = if mag < EXPONENT_UNIT {
        (mag, 1)
    } else {
        (mag % EXPONENT_UNIT + EXPONENT_UNIT, mag / EXPONENT_UNIT)
    };
    assert(m == d.significand());
    assert(biased - 1075 == d.exponent());
    assert(m < 0x20_0000_0000_0000);
    let n: u64 = m * scale;
    if biased >= 1075 {
        proof {
            assert(n * pow2((biased - 1075) as nat) >= 0) by (nonlinear_arith)
                requires
                    n >= 0,
                    pow2((biased - 1075) as nat) >= 0,
            ;
        }
        return shifted_digits(n, (biased - 1075) as u32);
    }
    let k: u64 = 1075 - biased;
    if k >= 64 {
        proof {
            lemma_rounds_to_zero(n as int, k as nat);
        }
        return digits_of(0);
    }
    let unit: u128 = power_of_two(k as u32);
    let q: u128 = n as u128 / unit;
    let rest: u128 = n as u128 % unit;
    proof {
        lemma_fundamental_div_mod(n as int, unit as int);
        assert(0 <= q <= n) by (nonlinear_arith)
            requires
                n as int == unit * q + rest,
                unit >= 1,
                rest >= 0,
                q >= 0,
        ;
    }
    let near: u128 = if 2 * rest < unit {
        q
    } else if 2 * rest > unit {
        q + 1
    } else if q % 2 == 0 {
        q
    } else {
        q + 1
    };
    digits_of(near as u64)
}

/// The sign of `d` and, for an infinity or not a number, the rest of its text.
fn special_text(d: Double) -> (r: (String, bool))
    ensures
        r.1 == d.finite(),
        r.0@ == (if d.nan() {
            "NaN"@
        } else if !d.finite() {
            sign_text(d) + "inf"@
        } else {
            sign_text(d)
        }),
{
    let mag: u64 = d.magnitude_bits();
    if mag > INFINITY {
        return (copy_of("NaN"), false);
    }
    let mut r = String::new();
    if d.bits >= SIGN {
        r.push('-');
    }
    assert(r@ =~= sign_text(d));
    if mag == INFINITY {
        r.append("inf");
        return (r, false);
    }
    (r, true)
}

impl Double {
    /// The number without decimal places.
    pub fn whole(self) -> (r: String)
        ensures
            r@ == whole_text(self),
    {
        let (mut r, finite) = special_text(self);
        if finite {
            let v = scaled_digits(self, 1);
            r.append(text_of(v.as_slice()).as_str());
        }
        r
    }

    /// The number with one decimal place.
    pub fn tenth(self) -> (r: String)
        ensures
            r@ == tenth_text(self),
    {
        let (mut r, finite) = special_text(self);
        if finite {
            let v = scaled_digits(self, 10);
            let ghost n = scaled(self, 10);
            proof {
                lemma_digits(n as nat);
                lemma_digits((n / 10) as nat);
            }
            let k: usize = v.len() - 1;
            if k == 0 {
                r.push('0');
                proof {
                    if n >= 10 {
                        assert(v@.len() == digits((n / 10) as nat).len() + 1);
                    }
                    assert(digits(0) =~= seq!['0']);
                }
            } else {
                let head = slice_of(v.as_slice(), 0, k);
                proof {
                    if n < 10 {
                        assert(v@.len() == 1);
                    }
                    assert(head@ =~= digits((n / 10) as nat));
                }
                r.append(text_of(head.as_slice()).as_str());
            }
            r.push('.');
            r.push(v[k]);
            assert(v@[k as int] == digit(n % 10));
            assert(r@ =~= tenth_text(self));
        }
        r
    }
}

/// The digits of `n` without the last `k`, and `0` where none are left.
fn leading_digits(v: &Vec<char>, k: usize, Ghost(n): Ghost<nat>) -> (r: Vec<char>)
    requires
        v@ == digits(n),
        1 <= k <= 2,
    ensures
        k == 1 ==> r@ == digits(n / 10),
        k == 2 ==> r@ == digits(n / 100),
{
    let len: usize = v.len();
    proof {
        lemma_digits(n);
        lemma_digits(n / 10);
        lemma_digits(n / 100);
        assert(n / 10 / 10 == n / 100);
        assert(digits(0) =~= seq!['0']);
    }
    if len <= k {
        proof {
            lemma_few_digits(n, k as nat);
        }
        return digits_of(0);
    }
    let r = slice_of(v.as_slice(), 0, len - k);
    proof {
        if n < 10 {
            assert(v@.len() == 1);
        } else {
            assert(v@.drop_last() =~= digits(n / 10));
            if k == 2 {
                if n / 10 < 10 {
                    assert(v@.len() == 2);
                } else {
                    assert(digits(n / 10).drop_last() =~= digits(n / 100));
                }
            }
        }
        if k == 1 {
            assert(r@ =~= digits(n / 10));
        } else {
            assert(r@ =~= digits(n / 100));
        }
    }
    r
}

/// Numbers of one or two digits are small.
proof fn lemma_few_digits(n: nat, k: nat)
    requires
        digits(n).len() <= k,
        1 <= k <= 2,
    ensures
        k == 1 ==> n / 10 == 0,
        k == 2 ==> n / 100 == 0,
{
    lemma_digits(n);
    lemma_digits(n / 10);
    lemma_digits(n / 10 / 10);
    if n >= 10 {
        assert(digits(n).len() == digits(n / 10).len() + 1);
        if n >= 100 {
            assert(digits(n / 10).len() == digits(n / 10 / 10).len() + 1);
        }
    }
}

impl Double {
    /// The number with two decimal places.
    pub fn hundredth(self) -> (r: String)
        ensures
            r@ == hundredth_text(self),
    {
        let (mut r, finite) = special_text(self);
        if finite {
            let v = scaled_digits(self, 100);
            let ghost n = scaled(self, 100) as nat;
            let head = leading_digits(&v, 2, Ghost(n));
            let middle = leading_digits(&v, 1, Ghost(n));
            proof {
                lemma_digits(n);
                lemma_digits(n / 10);
                assert(n / 10 / 10 == n / 100);
            }
            r.append(text_of(head.as_slice()).as_str());
            r.push('.');
            r.push(middle[middle.len() - 1]);
            r.push(v[v.len() - 1]);
            assert(middle@[middle@.len() - 1] == digit((n / 10 % 10) as int));
            assert(v@[v@.len() - 1] == digit((n % 10) as int));
            assert(r@ =~= hundredth_text(self));
        }
        r
    }

    /// The number with one decimal place and a sign in any case.
    pub fn signed_tenth(self) -> (r: String)
        ensures
            r@ == signed_tenth_text(self),
    {
        if self.magnitude_bits() > INFINITY || self.bits >= SIGN {
            self.tenth()
        } else {
            let mut r = String::new();
            r.push('+');
            r.append(self.tenth().as_str());
            assert(r@ =~= signed_tenth_text(self));
            r
        }
    }
}

// ── Reading ──────────────────────────────────────────────────────────────────

/// `s` holds digits with at most one point among them, and at least one digit.
pub open spec fn point_number(s: Seq<char>) -> bool {
    match first(s, seq!['.']) {
        None => s.len() > 0 && all_digits(s),
        Some(i) => s.len() > 1 && all_digits(s.subrange(0, i)) && all_digits(
            s.subrange(i + 1, s.len() as int),
        ),
    }
}

/// `s` without a sign in front.
pub open spec fn unsigned_part(s: Seq<char>) -> Seq<char> {
    if s.len() > 0 && (s[0] == '+' || s[0] == '-') {
        s.drop_first()
    } else {
        s
    }
}

/// Where the first `e` or `E` stands in `s`, or its length.
pub open spec fn exponent_mark(s: Seq<char>) -> int
    decreases s.len(),
{
    if s.len() == 0 || s[0] == 'e' || s[0] == 'E' {
        0
    } else {
        1 + exponent_mark(s.drop_first())
    }
}

/// `s` writes a number: digits with an optional point and an optional decimal
/// exponent.
pub open spec fn number_shape(s: Seq<char>) -> bool {
    let k = exponent_mark(s);
    if k == s.len() {
        point_number(s)
    } else {
        let exp = unsigned_part(s.subrange(k + 1, s.len() as int));
        point_number(s.subrange(0, k)) && exp.len() > 0 && all_digits(exp)
    }
}

/// `s` is the lower-case word `word` in any case.
pub open spec fn same_word(s: Seq<char>, word: Seq<char>) -> bool {
    s.len() == word.len() && forall|i: int|
        0 <= i < s.len() ==> #[trigger] s[i] == word[i] || s[i] as int == word[i] as int - 0x20
}

/// Whether every character of `v` is a digit.
fn digits_only(v: &[char]) -> (r: bool)
    ensures
        r == all_digits(v@),
{
    for i in 0..v.len()
        invariant
            forall|j: int| 0 <= j < i ==> is_digit(#[trigger] v@[j]),
    {
        if !is_ascii_digit(v[i]) {
            assert(!is_digit(v@[i as int]));
            return false;
        }
    }
    true
}

/// Whether `v` holds digits with at most one point and at least one digit.
fn is_point_number(v: &[char]) -> (r: bool)
    ensures
        r == point_number(v@),
{
    let n: usize = v.len();
    let point: [char; 1] = ['.'];
    assert(point@ =~= seq!['.']);
    match find_at_or_after(v, &point, 0) {
        None => n > 0 && digits_only(v),
        Some(i) => n > 1 && digits_only(slice_of(v, 0, i).as_slice()) && digits_only(
            slice_of(v, i + 1, n).as_slice(),
        ),
    }
}

/// `v` without a sign in front.
pub fn without_sign(v: &[char]) -> (r: Vec<char>)
    ensures
        r@ == unsigned_part(v@),
{
    let n: usize = v.len();
    let from: usize = if n > 0 && (v[0] == '+' || v[0] == '-') { 1 } else { 0 };
    let r = slice_of(v, from, n);
    assert(r@ =~= unsigned_part(v@));
    r
}

/// Where the first `e` or `E` stands in `v`, or its length.
pub fn exponent_at(v: &[char]) -> (r: usize)
    ensures
        r == exponent_mark(v@),
        r <= v@.len(),
{
    let n: usize = v.len();
    let mut k: usize = 0;
    assert(v@.skip(0) =~= v@);
    while k < n && v[k] != 'e' && v[k] != 'E'
        invariant
            k <= n == v@.len(),
            exponent_mark(v@) == k + exponent_mark(v@.skip(k as int)),
        decreases n - k,
    {
        assert(v@.skip(k as int).drop_first() =~= v@.skip(k + 1));
        k = k + 1;
    }
    k
}

/// Whether `v` writes a number.
pub fn is_number(v: &[char]) -> (r: bool)
    ensures
        r == number_shape(v@),
{
    let n: usize = v.len();
    let k: usize = exponent_at(v);
    if k == n {
        return is_point_number(v);
    }
    let exp = without_sign(slice_of(v, k + 1, n).as_slice());
    is_point_number(slice_of(v, 0, k).as_slice()) && exp.len() > 0 && digits_only(exp.as_slice())
}

/// Whether `v` is the lower-case word `word` in any case.
pub fn is_word(v: &[char], word: &str) -> (r: bool)
    ensures
        r == same_word(v@, word@),
{
    let w = chars_of(word);
    if v.len() != w.len() {
        return false;
    }
    for i in 0..v.len()
        invariant
            w@ == word@,
            v@.len() == w@.len(),
            forall|j: int|
                0 <= j < i ==> #[trigger] v@[j] == w@[j] || v@[j] as int == w@[j] as int - 0x20,
    {
        let a = v[i];
        let b = w[i];
        if a != b && code_point(a) + 0x20 != code_point(b) {
            assert(!(v@[i as int] == w@[i as int] || v@[i as int] as int == w@[i as int] as int
                - 0x20));
            return false;
        }
    }
    true
}

// ── Laws ─────────────────────────────────────────────────────────────────────

/// Of two numbers exactly one of these holds: the first is less, they are the
/// same, the second is less.
pub proof fn lemma_order_total(a: Double, b: Double)
    requires
        !a.nan(),
        !b.nan(),
    ensures
        a.less(b) || a.equals(b) || b.less(a),
        !(a.less(b) && b.less(a)),
        !(a.equals(b) && (a.less(b) || b.less(a))),
{
}

/// Not a number compares with nothing, not even with itself.
pub proof fn lemma_nan_unordered(a: Double, b: Double)
    requires
        a.nan(),
    ensures
        !a.less(b) && !b.less(a) && !a.equals(b) && !b.equals(a),
{
}

} // verus!
