//! Decimal notation of integers: writing, zero padding and reading back.
use vstd::prelude::*;
use vstd::string::*;
use vstd::arithmetic::power::{lemma_pow0, lemma_pow1, pow};
use crate::order::{lemma_precedes_after_prefix, precedes};

verus! {

/// The digit character for `d`.
pub open spec fn digit(d: int) -> char {
    (d + 0x30) as char
}

/// `c` is one of `0` to `9`.
pub open spec fn is_digit(c: char) -> bool {
    0x30 <= c as u32 <= 0x39
}

/// What the digit character `c` stands for.
pub open spec fn digit_value(c: char) -> int {
    c as u32 - 0x30
}

/// Decimal digits of `n`, without leading zeros.
pub open spec fn digits(n: nat) -> Seq<char>
    decreases n,
{
    if n < 10 {
        seq![digit(n as int)]
    } else {
        digits(n / 10).push(digit((n % 10) as int))
    }
}

/// Decimal notation of `n`, with a minus sign in front of a negative number.
pub open spec fn decimal(n: int) -> Seq<char> {
    if n < 0 {
        seq!['-'] + digits((-n) as nat)
    } else {
        digits(n as nat)
    }
}

/// `n` zeros.
pub open spec fn zeros(n: int) -> Seq<char> {
    Seq::new(if n > 0 { n as nat } else { 0 }, |i: int| '0')
}

/// Decimal notation of `n`, filled with zeros behind the sign to at least
/// `width` characters.
pub open spec fn padded(n: int, width: int) -> Seq<char> {
    if n < 0 {
        let d = digits((-n) as nat);
        seq!['-'] + zeros(width - 1 - d.len()) + d
    } else {
        let d = digits(n as nat);
        zeros(width - d.len()) + d
    }
}

/// Every character of `s` is a digit.
pub open spec fn all_digits(s: Seq<char>) -> bool {
    forall|i: int| 0 <= i < s.len() ==> is_digit(#[trigger] s[i])
}

/// The number that the digits `s` write.
pub open spec fn digits_value(s: Seq<char>) -> int
    decreases s.len(),
{
    if s.len() == 0 {
        0
    } else {
        digits_value(s.drop_last()) * 10 + digit_value(s.last())
    }
}

/// The integer that `s` writes: an optional sign and at least one digit.
pub open spec fn integer(s: Seq<char>) -> Option<int> {
    if s.len() == 0 {
        None
    } else if s[0] == '-' || s[0] == '+' {
        let rest = s.drop_first();
        if rest.len() > 0 && all_digits(rest) {
            Some(if s[0] == '-' { -digits_value(rest) } else { digits_value(rest) })
        } else {
            None
        }
    } else if all_digits(s) {
        Some(digits_value(s))
    } else {
        None
    }
}

/// The number that `s` writes, where it lies between `min` and `max`.
pub open spec fn bounded_integer(s: Seq<char>, min: int, max: int) -> Option<int> {
    match integer(s) {
        Some(n) if min <= n <= max => Some(n),
        _ => None,
    }
}

/// What `s` writes as a signed 64-bit number.
pub open spec fn signed(s: Seq<char>) -> Option<int> {
    bounded_integer(s, i64::MIN as int, i64::MAX as int)
}

/// What `s` writes as an unsigned 32-bit number: as above, but a minus sign is
/// never accepted, not even on zero.
pub open spec fn unsigned32(s: Seq<char>) -> Option<int> {
    if s.len() > 0 && s[0] == '-' {
        None
    } else {
        bounded_integer(s, 0, u32::MAX as int)
    }
}

/// The value of digits is never negative.
pub proof fn lemma_digits_value_nonneg(s: Seq<char>)
    requires
        all_digits(s),
    ensures
        0 <= digits_value(s),
    decreases s.len(),
{
    if s.len() > 0 {
        assert(is_digit(s[s.len() - 1]));
        lemma_digits_value_nonneg(s.drop_last());
    }
}

/// Digits never begin with a sign, and they write the number they came from.
pub proof fn lemma_digits(n: nat)
    ensures
        digits(n).len() > 0,
        all_digits(digits(n)),
        digits_value(digits(n)) == n,
    decreases n,
{
    if n < 10 {
        let s = seq![digit(n as int)];
        assert(s.drop_last() =~= Seq::<char>::empty());
        assert(digits_value(s.drop_last()) == 0);
    } else {
        lemma_digits(n / 10);
        let s = digits(n);
        assert(s.drop_last() =~= digits(n / 10));
    }
}

/// Zeros in front of digits change nothing about the number they write.
pub proof fn lemma_zeros_value(k: int, d: Seq<char>)
    requires
        all_digits(d),
    ensures
        all_digits(zeros(k) + d),
        digits_value(zeros(k) + d) == digits_value(d),
    decreases d.len(), k,
{
    let s = zeros(k) + d;
    assert forall|i: int| 0 <= i < s.len() implies is_digit(#[trigger] s[i]) by {
        if i >= zeros(k).len() {
            assert(s[i] == d[i - zeros(k).len()]);
        }
    }
    if d.len() > 0 {
        assert(s.drop_last() =~= zeros(k) + d.drop_last());
        assert(s.last() == d.last());
        lemma_zeros_value(k, d.drop_last());
    } else if k > 0 {
        assert(s.drop_last() =~= zeros(k - 1) + d);
        lemma_zeros_value(k - 1, d);
        assert(s.last() == '0');
    } else {
        assert(s =~= d);
    }
}

/// Reading the decimal notation of a number gives that number back.
pub proof fn lemma_integer_of_decimal(n: int)
    ensures
        integer(decimal(n)) == Some(n),
{
    lemma_digits(if n < 0 { (-n) as nat } else { n as nat });
    let s = decimal(n);
    if n < 0 {
        assert(s.drop_first() =~= digits((-n) as nat));
    } else {
        assert(is_digit(s[0]));
    }
}

/// Reading the zero-padded notation of a number gives that number back.
pub proof fn lemma_integer_of_padded(n: int, width: int)
    ensures
        integer(padded(n, width)) == Some(n),
        n >= 0 ==> all_digits(padded(n, width)),
{
    let m = if n < 0 { (-n) as nat } else { n as nat };
    lemma_digits(m);
    let d = digits(m);
    let s = padded(n, width);
    if n < 0 {
        lemma_zeros_value(width - 1 - d.len(), d);
        assert(s.drop_first() =~= zeros(width - 1 - d.len()) + d);
    } else {
        lemma_zeros_value(width - d.len(), d);
        assert(is_digit(s[0]));
    }
}

/// A number below a power of ten has at most that many digits.
pub proof fn lemma_digits_len(n: nat, k: nat)
    requires
        k > 0,
        n < pow(10, k),
    ensures
        digits(n).len() <= k,
    decreases n,
{
    if n >= 10 {
        if k == 1 {
            lemma_pow1(10);
        } else {
            reveal(pow);
            assert(pow(10, k) == 10 * pow(10, (k - 1) as nat));
            assert(n / 10 < pow(10, (k - 1) as nat));
            lemma_digits_len(n / 10, (k - 1) as nat);
        }
    }
}

/// A number below a power of ten, padded to that many characters, takes up
/// exactly that many.
pub proof fn lemma_padded_len(n: int, width: int)
    requires
        0 <= n,
        width >= 1,
        n < pow(10, width as nat),
    ensures
        padded(n, width).len() == width,
{
    lemma_digits_len(n as nat, width as nat);
}

/// The last `width` decimal digits of `n`.
pub open spec fn fixed(n: nat, width: nat) -> Seq<char>
    decreases width,
{
    if width == 0 {
        Seq::empty()
    } else {
        fixed(n / 10, (width - 1) as nat).push(digit((n % 10) as int))
    }
}

proof fn lemma_fixed_len(n: nat, width: nat)
    ensures
        fixed(n, width).len() == width,
    decreases width,
{
    if width > 0 {
        lemma_fixed_len(n / 10, (width - 1) as nat);
    }
}

/// Padding a number that fits writes its last digits.
proof fn lemma_padded_fixed(n: nat, width: nat)
    requires
        width >= 1,
        n < pow(10, width),
    ensures
        padded(n as int, width as int) == fixed(n, width),
    decreases width,
{
    lemma_digits_len(n, width);
    lemma_pow0(10);
    reveal(pow);
    let w = (width - 1) as nat;
    assert(pow(10, width) == 10 * pow(10, w));
    let d = digits(n);
    if n < 10 {
        if w >= 1 {
            lemma_padded_fixed(0, w);
            assert(pow(10, w) > 0);
            assert(n / 10 == 0);
            assert(padded(0, w as int) =~= zeros(w as int)) by {
                assert(digits(0) =~= seq!['0']);
            }
        } else {
            assert(zeros(0) =~= Seq::empty());
        }
        assert(padded(n as int, width as int) =~= zeros(w as int).push(digit(n as int)));
        if w == 0 {
            assert(fixed(n / 10, w) =~= zeros(0));
        }
    } else {
        if w == 0 {
            lemma_pow1(10);
        }
        lemma_padded_fixed(n / 10, w);
        assert(padded(n as int, width as int) =~= padded((n / 10) as int, w as int).push(
            digit((n % 10) as int),
        ));
    }
}

proof fn lemma_fixed_order(a: nat, b: nat, width: nat, x: Seq<char>, y: Seq<char>)
    requires
        width >= 1,
        a < b < pow(10, width),
    ensures
        precedes(fixed(a, width) + x, fixed(b, width) + y),
    decreases width,
{
    let w = (width - 1) as nat;
    let da = seq![digit((a % 10) as int)];
    let db = seq![digit((b % 10) as int)];
    lemma_pow0(10);
    reveal(pow);
    assert(pow(10, width) == 10 * pow(10, w));
    assert(fixed(a, width) + x =~= fixed(a / 10, w) + (da + x));
    assert(fixed(b, width) + y =~= fixed(b / 10, w) + (db + y));
    if a / 10 == b / 10 {
        lemma_precedes_after_prefix(fixed(a / 10, w), da + x, db + y);
        assert((da + x)[0] == da[0]);
        assert((db + y)[0] == db[0]);
    } else {
        if w == 0 {
            lemma_pow1(10);
        }
        lemma_fixed_order(a / 10, b / 10, w, da + x, db + y);
    }
}

/// Of two numbers that fit a field of `width` digits, the smaller one also
/// stands first as text, whatever follows the fields.
pub proof fn lemma_padded_order(a: int, b: int, width: int, x: Seq<char>, y: Seq<char>)
    requires
        width >= 1,
        0 <= a < b < pow(10, width as nat),
    ensures
        precedes(padded(a, width) + x, padded(b, width) + y),
{
    lemma_padded_fixed(a as nat, width as nat);
    lemma_padded_fixed(b as nat, width as nat);
    lemma_fixed_order(a as nat, b as nat, width as nat, x, y);
}

/// The digit character for `d`.
pub fn digit_char(d: u64) -> (r: char)
    requires
        d < 10,
    ensures
        r == digit(d as int),
{
    (d as u8 + 0x30) as char
}

/// Decimal digits of `n`.
pub fn digits_of(n: u64) -> (r: Vec<char>)
    ensures
        r@ == digits(n as nat),
    decreases n,
{
    if n < 10 {
        let mut r: Vec<char> = Vec::new();
        r.push(digit_char(n));
        assert(r@ =~= digits(n as nat));
        r
    } else {
        let mut r = digits_of(n / 10);
        r.push(digit_char(n % 10));
        r
    }
}

/// The magnitude of `n`.
fn magnitude(n: i64) -> (r: u64)
    ensures
        r == (if n < 0 { -n } else { n as int }),
{
    if n < 0 {
        (-(n + 1)) as u64 + 1
    } else {
        n as u64
    }
}

/// Decimal notation of `n`.
pub fn decimal_chars(n: i64) -> (r: Vec<char>)
    ensures
        r@ == decimal(n as int),
{
    let mut r: Vec<char> = Vec::new();
    if n < 0 {
        r.push('-');
    }
    let mut d = digits_of(magnitude(n));
    r.append(&mut d);
    assert(r@ =~= decimal(n as int));
    r
}

/// Decimal notation of `n`.
pub fn decimal_text(n: i64) -> (r: String)
    ensures
        r@ == decimal(n as int),
{
    let d = decimal_chars(n);
    crate::text::text_of(d.as_slice())
}

/// Decimal notation of `n`.
pub fn unsigned_text(n: u64) -> (r: String)
    ensures
        r@ == decimal(n as int),
{
    let d = digits_of(n);
    crate::text::text_of(d.as_slice())
}

/// Decimal notation of `n`.
pub fn count_text(n: usize) -> (r: String)
    ensures
        r@ == decimal(n as int),
{
    unsigned_text(n as u64)
}

/// Decimal notation of `n`, filled with zeros behind the sign to at least
/// `width` characters.
pub fn padded_text(n: i64, width: usize) -> (r: String)
    requires
        width <= 64,
    ensures
        r@ == padded(n as int, width as int),
{
    let mut r = String::new();
    let mut used: usize = 0;
    if n < 0 {
        r.push('-');
        used = 1;
    }
    let d = digits_of(magnitude(n));
    let ghost sign = r@;
    let ghost total = width - used - d@.len();
    let ghost mut k: int = 0;
    while used < width && d.len() < width - used
        invariant
            used <= 1 || used <= width,
            width <= 64,
            used - sign.len() == k,
            k >= 0,
            total == width - sign.len() - d@.len(),
            k <= total || k == 0,
            r@ =~= sign + zeros(k),
            sign.len() <= 1,
        decreases width - used,
    {
        r.push('0');
        used = used + 1;
        proof {
            k = k + 1;
        }
    }
    r.append(crate::text::text_of(d.as_slice()).as_str());
    assert(zeros(k) =~= zeros(total));
    assert(r@ =~= padded(n as int, width as int));
    r
}

/// Whether `c` is one of `0` to `9`.
pub fn is_ascii_digit(c: char) -> (r: bool)
    ensures
        r == is_digit(c),
{
    let n: u32 = c as u32;
    0x30 <= n && n <= 0x39
}

/// The number that `v[from..]` writes in decimal digits, as long as it is at
/// most `max`; `None` where a character is no digit or the number is greater.
fn read_digits(v: &[char], from: usize, max: u64) -> (r: Option<u64>)
    requires
        from <= v@.len(),
        max <= 0x8000_0000_0000_0000,
    ensures
        ({
            let rest = v@.subrange(from as int, v@.len() as int);
            match r {
                Some(n) => all_digits(rest) && n == digits_value(rest) && n <= max,
                None => !all_digits(rest) || digits_value(rest) > max,
            }
        }),
{
    let mut value: u64 = 0;
    let ghost rest = v@.subrange(from as int, v@.len() as int);
    let mut i: usize = from;
    while i < v.len()
        invariant
            from <= i <= v@.len(),
            max <= 0x8000_0000_0000_0000,
            value <= max,
            rest == v@.subrange(from as int, v@.len() as int),
            value == digits_value(rest.take(i - from)),
            all_digits(rest.take(i - from)),
        decreases v@.len() - i,
    {
        let c = v[i];
        let ghost done = rest.take(i - from);
        let ghost next = rest.take(i - from + 1);
        proof {
            assert(next.drop_last() =~= done);
            assert(next.last() == c);
            assert(rest[i - from] == c);
        }
        if !is_ascii_digit(c) {
            return None;
        }
        assert(all_digits(next)) by {
            assert forall|j: int| 0 <= j < next.len() implies is_digit(#[trigger] next[j]) by {
                if j < done.len() {
                    assert(next[j] == done[j]);
                }
            }
        }
        let d: u64 = (c as u32 - 0x30) as u64;
        if d > max || value > (max - d) / 10 {
            proof {
                lemma_digits_value_nonneg(done);
                if all_digits(rest) {
                    lemma_prefix_value(rest, i - from + 1);
                }
            }
            return None;
        }
        value = value * 10 + d;
        i = i + 1;
    }
    assert(rest.take(rest.len() as int) =~= rest);
    Some(value)
}

/// Further digits never make the number smaller.
proof fn lemma_prefix_value(s: Seq<char>, k: int)
    requires
        all_digits(s),
        0 <= k <= s.len(),
    ensures
        digits_value(s.take(k)) <= digits_value(s),
    decreases s.len(),
{
    if k == s.len() {
        assert(s.take(k) =~= s);
    } else {
        let t = s.drop_last();
        assert(all_digits(t)) by {
            assert forall|j: int| 0 <= j < t.len() implies is_digit(#[trigger] t[j]) by {
                assert(t[j] == s[j]);
            }
        }
        lemma_prefix_value(t, k);
        assert(t.take(k) =~= s.take(k));
        lemma_digits_value_nonneg(t);
        assert(is_digit(s[s.len() - 1]));
    }
}

/// Read a signed 64-bit number.
pub fn read_i64(v: &[char]) -> (r: Option<i64>)
    ensures
        match r {
            Some(n) => signed(v@) == Some(n as int),
            None => signed(v@) == None::<int>,
        },
{
    if v.len() == 0 {
        return None;
    }
    let minus = v[0] == '-';
    let signed_text = minus || v[0] == '+';
    let from: usize = if signed_text { 1 } else { 0 };
    let ghost rest = v@.subrange(from as int, v@.len() as int);
    proof {
        if signed_text {
            assert(rest =~= v@.drop_first());
        } else {
            assert(rest =~= v@);
        }
        if all_digits(rest) {
            lemma_digits_value_nonneg(rest);
        }
    }
    if from == v.len() {
        return None;
    }
    if minus {
        match read_digits(v, from, 0x8000_0000_0000_0000) {
            None => None,
            Some(n) => if n == 0x8000_0000_0000_0000 {
                Some(i64::MIN)
            } else {
                Some(-(n as i64))
            },
        }
    } else {
        match read_digits(v, from, 0x7fff_ffff_ffff_ffff) {
            None => None,
            Some(n) => Some(n as i64),
        }
    }
}

/// Read an unsigned 32-bit number.
pub fn read_u32(v: &[char]) -> (r: Option<u32>)
    ensures
        match r {
            Some(n) => unsigned32(v@) == Some(n as int),
            None => unsigned32(v@) == None::<int>,
        },
{
    if v.len() == 0 {
        return None;
    }
    if v[0] == '-' {
        return None;
    }
    let from: usize = if v[0] == '+' { 1 } else { 0 };
    let ghost rest = v@.subrange(from as int, v@.len() as int);
    proof {
        if from == 1 {
            assert(rest =~= v@.drop_first());
        } else {
            assert(rest =~= v@);
        }
        if all_digits(rest) {
            lemma_digits_value_nonneg(rest);
        }
    }
    if from == v.len() {
        return None;
    }
    match read_digits(v, from, 0xffff_ffff) {
        None => None,
        Some(n) => Some(n as u32),
    }
}

/// Which integers are read: all that fit, and without a minus sign where none is
/// allowed.
pub proof fn lemma_integers_read(n: int)
    ensures
        signed(decimal(n)) == (if i64::MIN <= n <= i64::MAX {
            Some(n)
        } else {
            None
        }),
        unsigned32(decimal(n)) == (if 0 <= n <= u32::MAX {
            Some(n)
        } else {
            None
        }),
        signed(Seq::empty()) is None,
{
    lemma_integer_of_decimal(n);
    if n >= 0 {
        lemma_digits(n as nat);
    }
}

} // verus!
