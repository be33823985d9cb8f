//! Decimal numbers with six fractional digits.
//!
//! A [`Number`] holds its value as a count of millionths, so that sums,
//! differences and products of decimal literals are exact. A result that
//! does not fit is reported as `None`, never wrapped.
use crate::text::chars_of;
use crate::text::string_of;
use vstd::prelude::*;

verus! {

/// How many units make one whole.
pub const SCALE: i64 = 1_000_000;

/// How many digits may follow the decimal point.
pub const FRACTION_DIGITS: usize = 6;

/// A decimal number: `units` millionths.
#[derive(Debug, Clone, Copy, PartialEq, Eq, Structural)]
pub struct Number {
    pub units: i64,
}

/// The absolute value of `v`.
pub open spec fn abs(v: int) -> int {
    if v < 0 {
        -v
    } else {
        v
    }
}

/// The quotient of `n` by `d`, rounded toward zero.
pub open spec fn trunc_quot(n: int, d: int) -> int {
    if (n < 0) == (d < 0) {
        abs(n) / abs(d)
    } else {
        -(abs(n) / abs(d))
    }
}

/// The number of `units` millionths, if it can be stored.
pub open spec fn checked(units: int) -> Option<Number> {
    if i64::MIN <= units <= i64::MAX {
        Some(Number { units: units as i64 })
    } else {
        None
    }
}

/// Ten to the power `k`.
pub open spec fn pow10(k: nat) -> nat
    decreases k,
{
    if k == 0 {
        1
    } else {
        10 * pow10((k - 1) as nat)
    }
}

/// Whether `c` is one of `0` to `9`.
pub open spec fn is_digit(c: char) -> bool {
    '0' <= c <= '9'
}

/// The value of the digit `c`.
pub open spec fn digit_value(c: char) -> int {
    c as int - '0' as int
}

/// The character that shows the digit `d`.
pub open spec fn digit_char(d: int) -> char {
    (d + '0' as int) as char
}

/// Whether every character of `s` is a digit.
pub open spec fn all_digits(s: Seq<char>) -> bool {
    forall|i: int| 0 <= i < s.len() ==> is_digit(#[trigger] s[i])
}

/// The number that the digits `s` write in base ten; the empty text writes 0.
pub open spec fn digits_value(s: Seq<char>) -> nat
    decreases s.len(),
{
    if s.len() == 0 {
        0
    } else {
        (digits_value(s.drop_last()) * 10 + digit_value(s.last())) as nat
    }
}

/// The index of the first `.` in `s`, or the length of `s` if it has none.
pub open spec fn first_dot(s: Seq<char>) -> int
    decreases s.len(),
{
    if s.len() == 0 || s[0] == '.' {
        0
    } else {
        1 + first_dot(s.skip(1))
    }
}

/// The units written by an unsigned decimal `body`: digits, optionally a
/// point and at most six more digits, with a digit on at least one side.
pub open spec fn unsigned_units(body: Seq<char>) -> Option<nat> {
    let dot = first_dot(body);
    let whole = body.take(dot);
    let fraction = if dot < body.len() {
        body.skip(dot + 1)
    } else {
        Seq::<char>::empty()
    };
    if all_digits(whole) && all_digits(fraction) && whole.len() + fraction.len() > 0
        && fraction.len() <= FRACTION_DIGITS {
        Some(
            digits_value(whole) * (SCALE as nat) + digits_value(fraction) * pow10(
                (FRACTION_DIGITS - fraction.len()) as nat,
            ),
        )
    } else {
        None
    }
}

/// The number that `text` writes, if it is a decimal literal: an optional
/// sign, then an unsigned decimal whose value is below 2^63 millionths.
pub open spec fn parse_spec(text: Seq<char>) -> Option<Number> {
    let negative = text.len() > 0 && text[0] == '-';
    let signed = text.len() > 0 && (text[0] == '-' || text[0] == '+');
    let body = if signed {
        text.skip(1)
    } else {
        text
    };
    match unsigned_units(body) {
        Some(units) => if units <= i64::MAX {
            Some(Number { units: (if negative { -units } else { units as int }) as i64 })
        } else {
            None
        },
        None => None,
    }
}

/// The digits of `n` in base ten, without leading zeros; 0 is written `0`.
pub open spec fn digits_of(n: nat) -> Seq<char>
    decreases n,
{
    if n < 10 {
        seq![digit_char(n as int)]
    } else {
        digits_of(n / 10).push(digit_char((n % 10) as int))
    }
}

/// The last `width` digits of `f`, with leading zeros.
pub open spec fn padded_digits(f: nat, width: nat) -> Seq<char>
    decreases width,
{
    if width == 0 {
        Seq::<char>::empty()
    } else {
        padded_digits(f / 10, (width - 1) as nat).push(digit_char((f % 10) as int))
    }
}

/// The `width` digits of `f` with the zeros at the end left out.
pub open spec fn trimmed_fraction(f: nat, width: nat) -> Seq<char>
    decreases width,
{
    if width == 0 {
        Seq::<char>::empty()
    } else if f % 10 == 0 {
        trimmed_fraction(f / 10, (width - 1) as nat)
    } else {
        padded_digits(f, width)
    }
}

/// The text of `units` millionths: a `-` for a negative value, the whole
/// part, and the fraction after a point where it is not zero.
pub open spec fn render_spec(units: int) -> Seq<char> {
    let magnitude = abs(units) as nat;
    let sign = if units < 0 {
        seq!['-']
    } else {
        Seq::<char>::empty()
    };
    let whole = digits_of(magnitude / (SCALE as nat));
    let fraction = magnitude % (SCALE as nat);
    if fraction == 0 {
        sign + whole
    } else {
        sign + whole + seq!['.'] + trimmed_fraction(fraction, FRACTION_DIGITS as nat)
    }
}

fn magnitude_of(v: i64) -> (m: u128)
    ensures
        m == abs(v as int),
{
    if v < 0 {
        (-(v as i128)) as u128
    } else {
        v as u128
    }
}

fn from_sign_magnitude(negative: bool, m: u128) -> (r: Option<Number>)
    ensures
        r == checked(
            if negative {
                -(m as int)
            } else {
                m as int
            },
        ),
{
    if negative {
        if m <= 0x8000_0000_0000_0000u128 {
            Some(Number { units: (-(m as i128)) as i64 })
        } else {
            None
        }
    } else if m <= 0x7fff_ffff_ffff_ffffu128 {
        Some(Number { units: m as i64 })
    } else {
        None
    }
}

fn digit_to_char(d: u8) -> (c: char)
    requires
        d < 10,
    ensures
        c == digit_char(d as int),
        is_digit(c),
        digit_value(c) == d,
{
    (48u8 + d) as char
}

fn push_digits(n: u64, out: &mut Vec<char>)
    ensures
        final(out)@ == old(out)@ + digits_of(n as nat),
    decreases n,
{
    if n >= 10 {
        push_digits(n / 10, out);
    }
    out.push(digit_to_char((n % 10) as u8));
    assert(final(out)@ =~= old(out)@ + digits_of(n as nat));
}

fn push_padded(f: u64, width: usize, out: &mut Vec<char>)
    ensures
        final(out)@ == old(out)@ + padded_digits(f as nat, width as nat),
    decreases width,
{
    if width > 0 {
        push_padded(f / 10, width - 1, out);
        out.push(digit_to_char((f % 10) as u8));
    }
    assert(final(out)@ =~= old(out)@ + padded_digits(f as nat, width as nat));
}

fn push_trimmed(f: u64, width: usize, out: &mut Vec<char>)
    ensures
        final(out)@ == old(out)@ + trimmed_fraction(f as nat, width as nat),
    decreases width,
{
    if width == 0 {
        assert(final(out)@ =~= old(out)@ + trimmed_fraction(f as nat, width as nat));
    } else if f % 10 == 0 {
        push_trimmed(f / 10, width - 1, out);
    } else {
        push_padded(f, width, out);
    }
}

/// `digits_value` of a text of digits only grows when digits are added.
proof fn lemma_digits_value_prefix(s: Seq<char>, k: int)
    requires
        all_digits(s),
        0 <= k <= s.len(),
    ensures
        digits_value(s.take(k)) <= digits_value(s),
    decreases s.len() - k,
{
    if k == s.len() {
        assert(s.take(k) =~= s);
    } else {
        lemma_digits_value_prefix(s, k + 1);
        assert(s.take(k + 1).drop_last() =~= s.take(k));
        assert(is_digit(s[k]));
        assert(s.take(k + 1).last() == s[k]);
    }
}

/// `first_dot` is the first index that holds a point.
pub proof fn lemma_first_dot(s: Seq<char>, k: int)
    requires
        0 <= k <= s.len(),
        forall|j: int| 0 <= j < k ==> s[j] != '.',
        k == s.len() || s[k] == '.',
    ensures
        first_dot(s) == k,
    decreases s.len(),
{
    if k > 0 {
        lemma_first_dot(s.skip(1), k - 1);
    }
}

/// Reads the digits `chars[from..to]`. Gives their value, or `None` where one
/// of them is no digit or the value is above `cap`.
pub(crate) fn read_digits(chars: &Vec<char>, from: usize, to: usize, cap: u64) -> (r: Option<u64>)
    requires
        from <= to <= chars.len(),
        cap <= 0x0fff_ffff_ffff_ffff,
    ensures
        r matches Some(v) ==> all_digits(chars@.subrange(from as int, to as int)) && v
            == digits_value(chars@.subrange(from as int, to as int)) && v <= cap,
        r is None ==> !all_digits(chars@.subrange(from as int, to as int)) || digits_value(
            chars@.subrange(from as int, to as int),
        ) > cap,
{
    let ghost s = chars@.subrange(from as int, to as int);
    let mut acc: u64 = 0;
    let mut i: usize = from;
    while i < to
        invariant
            from <= i <= to <= chars.len(),
            s == chars@.subrange(from as int, to as int),
            all_digits(s.take(i - from)),
            acc == digits_value(s.take(i - from)),
            acc <= cap <= 0x0fff_ffff_ffff_ffff,
        decreases to - i,
    {
        let c: char = chars[i];
        assert(s[i - from] == c);
        if !(c >= '0' && c <= '9') {
            return None;
        }
        let d: u64 = (c as u32 - 48) as u64;
        let next: u64 = acc * 10 + d;
        proof {
            assert(s.take(i - from + 1).drop_last() =~= s.take(i - from));
            assert(s.take(i - from + 1).last() == c);
            assert(next == digits_value(s.take(i - from + 1)));
            assert forall|j: int| 0 <= j < i - from + 1 implies is_digit(
                #[trigger] s.take(i - from + 1)[j],
            ) by {
                if j < i - from {
                    assert(s.take(i - from)[j] == s[j]);
                }
            }
        }
        if next > cap {
            proof {
                if all_digits(s) {
                    lemma_digits_value_prefix(s, i - from + 1);
                }
            }
            return None;
        }
        acc = next;
        i = i + 1;
    }
    assert(s.take(to - from) =~= s);
    Some(acc)
}

fn pow10_exec(k: usize) -> (p: u64)
    requires
        k <= FRACTION_DIGITS,
    ensures
        p == pow10(k as nat),
        1 <= p <= 1_000_000,
{
    let mut p: u64 = 1;
    let mut i: usize = 0;
    while i < k
        invariant
            i <= k <= FRACTION_DIGITS,
            p == pow10(i as nat),
            1 <= p,
            i == 0 ==> p == 1,
            i == 1 ==> p == 10,
            i == 2 ==> p == 100,
            i == 3 ==> p == 1_000,
            i == 4 ==> p == 10_000,
            i == 5 ==> p == 100_000,
            i == 6 ==> p == 1_000_000,
        decreases k - i,
    {
        p = p * 10;
        i = i + 1;
    }
    p
}

/// The units of the unsigned decimal `chars[from..]`.
fn read_unsigned(chars: &Vec<char>, from: usize) -> (r: Option<u64>)
    requires
        from <= chars.len(),
    ensures
        match unsigned_units(chars@.skip(from as int)) {
            Some(units) => if units <= i64::MAX {
                r == Some(units as u64)
            } else {
                r is None
            },
            None => r is None,
        },
{
    let ghost body = chars@.skip(from as int);
    let n: usize = chars.len();
    let mut dot: usize = from;
    while dot < n && chars[dot] != '.'
        invariant
            from <= dot <= n == chars.len(),
            forall|j: int| from <= j < dot ==> chars@[j] != '.',
        decreases n - dot,
    {
        dot = dot + 1;
    }
    let frac_from: usize = if dot < n {
        dot + 1
    } else {
        n
    };
    proof {
        lemma_first_dot(body, dot - from);
        assert(body.take(dot - from) =~= chars@.subrange(from as int, dot as int));
        if dot < n {
            assert(body.skip(dot - from + 1) =~= chars@.subrange(frac_from as int, n as int));
        } else {
            assert(Seq::<char>::empty() =~= chars@.subrange(frac_from as int, n as int));
        }
    }
    let ghost whole = chars@.subrange(from as int, dot as int);
    let ghost fraction = chars@.subrange(frac_from as int, n as int);
    if (dot - from) + (n - frac_from) == 0 || n - frac_from > FRACTION_DIGITS {
        return None;
    }
    let whole_value: u64 = match read_digits(chars, from, dot, 9_223_372_036_854) {
        Some(v) => v,
        None => {
            proof {
                if all_digits(whole) {
                    assert(digits_value(whole) * 1_000_000 >= 9_223_372_036_855 * 1_000_000)
                        by (nonlinear_arith)
                        requires
                            digits_value(whole) >= 9_223_372_036_855,
                    ;
                }
            }
            return None;
        },
    };
    let frac_value: u64 = match read_digits(chars, frac_from, n, 999_999) {
        Some(v) => v,
        None => {
            proof {
                if all_digits(fraction) {
                    lemma_digits_below_pow10(fraction);
                    lemma_pow10_values();
                }
            }
            return None;
        },
    };
    let shift: u64 = pow10_exec(FRACTION_DIGITS - (n - frac_from));
    assert(whole_value * 1_000_000 + frac_value * shift <= 9_223_372_036_854 * 1_000_000 + 999_999
        * 1_000_000) by (nonlinear_arith)
        requires
            whole_value <= 9_223_372_036_854,
            frac_value <= 999_999,
            shift <= 1_000_000,
    ;
    let units: u64 = whole_value * 1_000_000 + frac_value * shift;
    if units <= 0x7fff_ffff_ffff_ffff {
        Some(units)
    } else {
        None
    }
}

/// A text of `k` digits writes a number below ten to the `k`.
proof fn lemma_digits_below_pow10(s: Seq<char>)
    requires
        all_digits(s),
    ensures
        digits_value(s) < pow10(s.len()),
    decreases s.len(),
{
    if s.len() > 0 {
        lemma_digits_below_pow10(s.drop_last());
        assert(is_digit(s.last()));
    }
}

/// The powers of ten up to the sixth.
pub proof fn lemma_pow10_values()
    ensures
        pow10(0) == 1,
        pow10(1) == 10,
        pow10(2) == 100,
        pow10(3) == 1_000,
        pow10(4) == 10_000,
        pow10(5) == 100_000,
        pow10(6) == 1_000_000,
{
    reveal_with_fuel(pow10, 7);
}

impl Number {
    /// The sum, or `None` where it cannot be stored.
    pub open spec fn spec_plus(self, other: Number) -> Option<Number> {
        checked(self.units + other.units)
    }

    /// The difference, or `None` where it cannot be stored.
    pub open spec fn spec_minus(self, other: Number) -> Option<Number> {
        checked(self.units - other.units)
    }

    /// The product rounded toward zero to a millionth, or `None` where it
    /// cannot be stored.
    pub open spec fn spec_times(self, other: Number) -> Option<Number> {
        checked(trunc_quot(self.units * other.units, SCALE as int))
    }

    /// The quotient rounded toward zero to a millionth; `None` for a zero
    /// divisor or where the quotient cannot be stored.
    pub open spec fn spec_divided_by(self, other: Number) -> Option<Number> {
        if other.units == 0 {
            None
        } else {
            checked(trunc_quot(self.units * SCALE, other.units as int))
        }
    }

    /// Whether the number has no fraction.
    pub open spec fn spec_is_integral(self) -> bool {
        abs(self.units as int) % (SCALE as int) == 0
    }

    /// Whether the whole part is even.
    pub open spec fn spec_is_even(self) -> bool {
        (abs(self.units as int) / (SCALE as int)) % 2 == 0
    }

    /// The whole number `n`.
    pub open spec fn spec_from_int(n: int) -> Option<Number> {
        checked(n * SCALE)
    }

    /// Zero.
    pub fn zero() -> (r: Number)
        ensures
            r.units == 0,
    {
        Number { units: 0 }
    }

    /// The whole number `n`, or `None` where it cannot be stored.
    pub fn from_int(n: i64) -> (r: Option<Number>)
        ensures
            r == Number::spec_from_int(n as int),
    {
        match n.checked_mul(SCALE) {
            Some(units) => Some(Number { units }),
            None => None,
        }
    }

    /// The whole number `n`, or `None` where it cannot be stored.
    pub fn from_count(n: usize) -> (r: Option<Number>)
        ensures
            r == Number::spec_from_int(n as int),
    {
        let m: u64 = n as u64;
        if m <= 9_223_372_036_854 {
            assert(m * 1_000_000 <= 9_223_372_036_854 * 1_000_000) by (nonlinear_arith)
                requires
                    m <= 9_223_372_036_854,
            ;
            Some(Number { units: (m as i64) * SCALE })
        } else {
            assert(m * 1_000_000 >= 9_223_372_036_855 * 1_000_000) by (nonlinear_arith)
                requires
                    m >= 9_223_372_036_855,
            ;
            None
        }
    }

    /// Adds `other`.
    pub fn plus(self, other: Number) -> (r: Option<Number>)
        ensures
            r == self.spec_plus(other),
    {
        match self.units.checked_add(other.units) {
            Some(units) => Some(Number { units }),
            None => None,
        }
    }

    /// Subtracts `other`.
    pub fn minus(self, other: Number) -> (r: Option<Number>)
        ensures
            r == self.spec_minus(other),
    {
        match self.units.checked_sub(other.units) {
            Some(units) => Some(Number { units }),
            None => None,
        }
    }

    /// Multiplies by `other`.
    pub fn times(self, other: Number) -> (r: Option<Number>)
        ensures
            r == self.spec_times(other),
    {
        let negative: bool = (self.units < 0) != (other.units < 0);
        let a: u128 = magnitude_of(self.units);
        let b: u128 = magnitude_of(other.units);
        assert(a * b <= 0x8000_0000_0000_0000 * 0x8000_0000_0000_0000) by (nonlinear_arith)
            requires
                a <= 0x8000_0000_0000_0000,
                b <= 0x8000_0000_0000_0000,
        ;
        let q: u128 = (a * b) / 1_000_000u128;
        proof {
            let x = self.units as int;
            let y = other.units as int;
            assert(abs(x * y) == abs(x) * abs(y)) by (nonlinear_arith);
            assert((x * y < 0) ==> negative) by (nonlinear_arith)
                requires
                    negative == ((x < 0) != (y < 0)),
            ;
            assert(negative && x != 0 && y != 0 ==> x * y < 0) by (nonlinear_arith)
                requires
                    negative == ((x < 0) != (y < 0)),
            ;
            assert(x == 0 || y == 0 ==> x * y == 0) by (nonlinear_arith);
        }
        from_sign_magnitude(negative, q)
    }

    /// Divides by `other`.
    pub fn divided_by(self, other: Number) -> (r: Option<Number>)
        ensures
            r == self.spec_divided_by(other),
    {
        if other.units == 0 {
            return None;
        }
        let negative: bool = (self.units < 0) != (other.units < 0);
        let a: u128 = magnitude_of(self.units);
        let b: u128 = magnitude_of(other.units);
        assert(a * 1_000_000 <= 0x8000_0000_0000_0000 * 1_000_000) by (nonlinear_arith)
            requires
                a <= 0x8000_0000_0000_0000,
        ;
        let q: u128 = (a * 1_000_000u128) / b;
        proof {
            let x = self.units as int;
            assert(abs(x * 1_000_000) == abs(x) * 1_000_000) by (nonlinear_arith);
            assert((x * 1_000_000 < 0) == (x < 0)) by (nonlinear_arith);
            assert(x == 0 ==> x * 1_000_000 == 0);
        }
        from_sign_magnitude(negative, q)
    }

    /// Whether the number has no fraction.
    pub fn is_integral(self) -> (b: bool)
        ensures
            b == self.spec_is_integral(),
    {
        magnitude_of(self.units) % 1_000_000u128 == 0
    }

    /// Whether the whole part is even.
    pub fn is_even(self) -> (b: bool)
        ensures
            b == self.spec_is_even(),
    {
        (magnitude_of(self.units) / 1_000_000u128) % 2 == 0
    }

    /// Reads a decimal literal. `None` where `text` is none, or writes a
    /// value that cannot be stored.
    pub fn parse(text: &str) -> (r: Option<Number>)
        ensures
            r == parse_spec(text@),
    {
        let chars = chars_of(text);
        Number::parse_chars(&chars)
    }

    /// Reads a decimal literal from its characters.
    pub fn parse_chars(chars: &Vec<char>) -> (r: Option<Number>)
        ensures
            r == parse_spec(chars@),
    {
        let negative: bool = chars.len() > 0 && chars[0] == '-';
        let signed: bool = chars.len() > 0 && (chars[0] == '-' || chars[0] == '+');
        let from: usize = if signed {
            1
        } else {
            0
        };
        assert(chars@.skip(0) =~= chars@);
        match read_unsigned(chars, from) {
            Some(units) => {
                if negative {
                    Some(Number { units: -(units as i64) })
                } else {
                    Some(Number { units: units as i64 })
                }
            },
            None => None,
        }
    }

    /// The text of the number: see [`render_spec`].
    pub fn render(self) -> (s: String)
        ensures
            s@ == render_spec(self.units as int),
    {
        let m: u128 = magnitude_of(self.units);
        let whole: u64 = (m / 1_000_000u128) as u64;
        let fraction: u64 = (m % 1_000_000u128) as u64;
        let mut out: Vec<char> = Vec::new();
        if self.units < 0 {
            out.push('-');
        }
        let ghost sign = out@;
        push_digits(whole, &mut out);
        if fraction != 0 {
            out.push('.');
            push_trimmed(fraction, FRACTION_DIGITS, &mut out);
        }
        assert(out@ =~= render_spec(self.units as int));
        string_of(&out)
    }
}

/// The digits of a number write that number.
pub proof fn lemma_digits_of(n: nat)
    ensures
        all_digits(digits_of(n)),
        digits_of(n).len() >= 1,
        digits_value(digits_of(n)) == n,
    decreases n,
{
    if n < 10 {
        let s = digits_of(n);
        assert(s.drop_last() =~= Seq::<char>::empty());
        assert(digits_value(s.drop_last()) == 0);
    } else {
        lemma_digits_of(n / 10);
        let s = digits_of(n);
        let front = digits_of(n / 10);
        assert(s.drop_last() =~= front);
        assert(s.last() == digit_char((n % 10) as int));
        assert forall|i: int| 0 <= i < s.len() implies is_digit(#[trigger] s[i]) by {
            if i < front.len() {
                assert(s[i] == front[i]);
            }
        }
    }
}

/// Digits with leading zeros write the number below the power of ten.
pub proof fn lemma_padded_digits(f: nat, width: nat)
    ensures
        all_digits(padded_digits(f, width)),
        padded_digits(f, width).len() == width,
        digits_value(padded_digits(f, width)) == f % pow10(width),
    decreases width,
{
    if width > 0 {
        let w = (width - 1) as nat;
        lemma_padded_digits(f / 10, w);
        let s = padded_digits(f, width);
        let front = padded_digits(f / 10, w);
        assert(s.drop_last() =~= front);
        assert(s.last() == digit_char((f % 10) as int));
        assert forall|i: int| 0 <= i < s.len() implies is_digit(#[trigger] s[i]) by {
            if i < front.len() {
                assert(s[i] == front[i]);
            }
        }
        lemma_pow10_positive(w);
        lemma_mod_step(f, pow10(w));
    } else {
        assert(f % 1 == 0);
    }
}

/// A power of ten is positive.
pub proof fn lemma_pow10_positive(k: nat)
    ensures
        pow10(k) > 0,
    decreases k,
{
    if k > 0 {
        lemma_pow10_positive((k - 1) as nat);
    }
}

/// The last digit and the digits before it make up the number below ten
/// times `p`.
proof fn lemma_mod_step(f: nat, p: nat)
    requires
        p > 0,
    ensures
        ((f / 10) % p) * 10 + f % 10 == f % (10 * p),
{
    let q = f / 10;
    let d = f % 10;
    assert(f == q * 10 + d);
    let a = q / p;
    let b = q % p;
    assert(q == a * p + b) by (nonlinear_arith)
        requires
            a == q / p,
            b == q % p,
            p > 0,
    ;
    assert(f == a * (10 * p) + (b * 10 + d)) by (nonlinear_arith)
        requires
            f == q * 10 + d,
            q == a * p + b,
    ;
    assert(0 <= b * 10 + d < 10 * p) by (nonlinear_arith)
        requires
            0 <= b < p,
            0 <= d < 10,
    ;
    vstd::arithmetic::div_mod::lemma_fundamental_div_mod_converse(
        f as int,
        (10 * p) as int,
        a as int,
        (b * 10 + d) as int,
    );
}

/// The digits of a fraction without the zeros at their end still write the
/// fraction, once the zeros are counted in.
pub proof fn lemma_trimmed_fraction(f: nat, width: nat)
    ensures
        all_digits(trimmed_fraction(f, width)),
        trimmed_fraction(f, width).len() <= width,
        digits_value(trimmed_fraction(f, width)) * pow10(
            (width - trimmed_fraction(f, width).len()) as nat,
        ) == f % pow10(width),
        f % pow10(width) != 0 ==> trimmed_fraction(f, width).len() > 0,
    decreases width,
{
    if width == 0 {
        assert(f % 1 == 0);
    } else if f % 10 == 0 {
        let w = (width - 1) as nat;
        lemma_trimmed_fraction(f / 10, w);
        lemma_pow10_positive(w);
        lemma_mod_step(f, pow10(w));
        let t = trimmed_fraction(f / 10, w);
        let v = digits_value(t);
        let gap = (w - t.len()) as nat;
        assert(trimmed_fraction(f, width) == t);
        assert(pow10(width) == 10 * pow10(w));
        assert((width - t.len()) as nat == gap + 1);
        assert(pow10(gap + 1) == 10 * pow10(gap));
        assert(v * (10 * pow10(gap)) == (v * pow10(gap)) * 10) by (nonlinear_arith);
        assert(v * pow10(gap) == (f / 10) % pow10(w));
        assert(((f / 10) % pow10(w)) * 10 + f % 10 == f % (10 * pow10(w)));
    } else {
        lemma_padded_digits(f, width);
        lemma_pow10_positive(width);
        assert(pow10(0) == 1);
        let t = padded_digits(f, width);
        assert(trimmed_fraction(f, width) == t);
        assert((width - t.len()) as nat == 0);
        assert(digits_value(t) * 1 == digits_value(t));
    }
}

/// Reading the text of a number gives the number back: whatever
/// [`Number::render`] writes, [`Number::parse`] reads as the same value.
/// The one value that cannot be read back is the least, whose magnitude
/// cannot be stored: its text is no literal.
pub proof fn lemma_parse_render(units: int)
    requires
        i64::MIN <= units <= i64::MAX,
    ensures
        parse_spec(render_spec(units)) == if units == i64::MIN {
            None
        } else {
            Some(Number { units: units as i64 })
        },
        render_spec(units).len() > 0,
        render_spec(units)[0] != '=',
{
    let m = abs(units) as nat;
    let scale = SCALE as nat;
    let whole = digits_of(m / scale);
    let f = m % scale;
    let sign = if units < 0 {
        seq!['-']
    } else {
        Seq::<char>::empty()
    };
    let tail = if f == 0 {
        Seq::<char>::empty()
    } else {
        seq!['.'] + trimmed_fraction(f, FRACTION_DIGITS as nat)
    };
    let text = render_spec(units);
    let body = whole + tail;
    lemma_digits_of(m / scale);
    lemma_trimmed_fraction(f, FRACTION_DIGITS as nat);
    lemma_pow10_values();
    assert(text =~= sign + body);
    assert(is_digit(whole[0]));
    if units < 0 {
        assert(text[0] == '-');
        assert(text.skip(1) =~= body);
    } else {
        assert(text[0] == whole[0]);
    }
    let fraction = if f == 0 {
        Seq::<char>::empty()
    } else {
        trimmed_fraction(f, FRACTION_DIGITS as nat)
    };
    assert forall|j: int| 0 <= j < whole.len() implies body[j] != '.' by {
        assert(body[j] == whole[j]);
        assert(is_digit(whole[j]));
    }
    if f != 0 {
        assert(body[whole.len() as int] == '.');
        assert(body.skip(whole.len() as int + 1) =~= fraction);
    } else {
        assert(body =~= whole);
    }
    lemma_first_dot(body, whole.len() as int);
    assert(body.take(whole.len() as int) =~= whole);
    assert(f < scale) by (nonlinear_arith)
        requires
            f == m % scale,
            scale > 0,
    ;
    assert(f % 1_000_000 == f) by (nonlinear_arith)
        requires
            0 <= f < 1_000_000,
    ;
    assert(f % pow10(FRACTION_DIGITS as nat) == f);
    assert(m == (m / scale) * scale + f) by (nonlinear_arith)
        requires
            f == m % scale,
            scale > 0,
    ;
    let dot = first_dot(body);
    assert(dot == whole.len());
    let read_fraction = if dot < body.len() {
        body.skip(dot + 1)
    } else {
        Seq::<char>::empty()
    };
    assert(read_fraction =~= fraction);
    assert(digits_value(Seq::<char>::empty()) == 0);
    assert(digits_value(fraction) * pow10((FRACTION_DIGITS - fraction.len()) as nat) == f);
    assert(unsigned_units(body) == Some(m));
    assert(whole[0] != '-' && whole[0] != '+');
    let signed = text.len() > 0 && (text[0] == '-' || text[0] == '+');
    assert(signed == (units < 0));
    let read_body = if signed {
        text.skip(1)
    } else {
        text
    };
    assert(read_body =~= body);
}

} // verus!
