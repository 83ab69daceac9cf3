//! Exact decimal amounts.
//!
//! Money and tax rates are read from rendered documents as decimal numerals.
//! A [`Decimal`] keeps such a numeral exactly: an unsigned mantissa and the
//! number of digits after the decimal point. Its view is the value counted in
//! units of `10^-38`, so that sums and comparisons in contracts are plain
//! integer arithmetic. A number is rounded only where it is written out with
//! a given number of places.

use vstd::prelude::*;
use crate::date::digit_char;
use crate::ident::decimal_digits;
use crate::ident::digit_char_exec;
use crate::text::from_chars;
use crate::text::last_index_of;
use crate::text::lemma_last_index_of;
use crate::text::to_chars;

verus! {

/// The largest number of fractional digits a [`Decimal`] can carry.
pub const MAX_SCALE: u8 = 38;

/// Ten to the power `e`.
pub open spec fn pow10(e: nat) -> nat
    decreases e,
{
    if e == 0 {
        1
    } else {
        10 * pow10((e - 1) as nat)
    }
}

/// Powers of ten multiply as their exponents add.
pub proof fn lemma_pow10_adds(a: nat, b: nat)
    ensures
        pow10(a + b) == pow10(a) * pow10(b),
    decreases a,
{
    if a == 0 {
        assert(pow10(0) * pow10(b) == pow10(b)) by (nonlinear_arith)
            requires
                pow10(0) == 1,
        ;
    } else {
        lemma_pow10_adds((a - 1) as nat, b);
        assert(pow10(a + b) == 10 * pow10((a - 1 + b) as nat));
        assert(10 * (pow10((a - 1) as nat) * pow10(b)) == (10 * pow10((a - 1) as nat)) * pow10(b))
            by (nonlinear_arith);
    }
}

/// A power of ten is at least one.
pub proof fn lemma_pow10_positive(e: nat)
    ensures
        pow10(e) >= 1,
    decreases e,
{
    if e > 0 {
        lemma_pow10_positive((e - 1) as nat);
    }
}

/// A larger exponent gives no smaller a power of ten.
pub proof fn lemma_pow10_monotonic(a: nat, b: nat)
    requires
        a <= b,
    ensures
        pow10(a) <= pow10(b),
    decreases b,
{
    if a < b {
        lemma_pow10_monotonic(a, (b - 1) as nat);
        lemma_pow10_positive((b - 1) as nat);
    }
}

/// Ten to the power of [`MAX_SCALE`] is a number of 39 digits, within `u128`.
pub proof fn lemma_pow10_max()
    ensures
        pow10(38) == 100000000000000000000000000000000000000,
        pow10(38) <= u128::MAX,
{
    reveal_with_fuel(pow10, 40);
}

/// Ten to the power `e`, for an exponent within [`MAX_SCALE`].
pub(crate) fn pow10_exec(e: u8) -> (r: u128)
    requires
        e <= MAX_SCALE,
    ensures
        r == pow10(e as nat),
{
    let mut r: u128 = 1;
    let mut k: u8 = 0;
    while k < e
        invariant
            k <= e <= MAX_SCALE,
            r == pow10(k as nat),
        decreases e - k,
    {
        proof {
            lemma_pow10_monotonic((k + 1) as nat, 38);
            lemma_pow10_max();
        }
        r = r * 10;
        k += 1;
    }
    r
}

/// The value of an ASCII digit.
pub open spec fn digit_of(c: char) -> nat {
    (c as int - '0' as int) as nat
}

/// `c` is one of `0` to `9`.
pub open spec fn is_ascii_digit(c: char) -> bool {
    '0' <= c && c <= '9'
}

/// The number spelt by the digits of `s`, decimal points skipped.
pub open spec fn digits_value(s: Seq<char>) -> nat
    decreases s.len(),
{
    if s.len() == 0 {
        0
    } else if s.last() == '.' {
        digits_value(s.drop_last())
    } else {
        digits_value(s.drop_last()) * 10 + digit_of(s.last())
    }
}

/// How often `c` occurs in `s`.
pub open spec fn count_of(s: Seq<char>, c: char) -> nat
    decreases s.len(),
{
    if s.len() == 0 {
        0
    } else {
        count_of(s.drop_last(), c) + if s.last() == c {
            1nat
        } else {
            0nat
        }
    }
}

/// The number of characters after the last decimal point of `s`, zero if it
/// has none.
pub open spec fn fraction_len(s: Seq<char>) -> nat {
    if last_index_of(s, '.') < 0 {
        0
    } else {
        (s.len() - 1 - last_index_of(s, '.')) as nat
    }
}

/// `s` is a decimal numeral: ASCII digits with at most one decimal point and
/// at least one digit.
pub open spec fn is_decimal_numeral(s: Seq<char>) -> bool {
    &&& forall|i: int| 0 <= i < s.len() ==> is_ascii_digit(#[trigger] s[i]) || s[i] == '.'
    &&& count_of(s, '.') <= 1
    &&& count_of(s, '.') < s.len()
}

/// Why a numeral could not be taken as a [`Decimal`].
#[derive(Clone, Copy, Debug, PartialEq, Eq, Structural)]
pub enum NumberError {
    /// The text is not a decimal numeral.
    Malformed,
    /// The numeral has more than [`MAX_SCALE`] fractional digits, or its
    /// digits spell a number above `u128::MAX`.
    OutOfRange,
}

/// An exact, non-negative decimal number.
#[derive(Clone, Copy, Debug)]
pub struct Decimal {
    mantissa: u128,
    scale: u8,
}

impl View for Decimal {
    type V = int;

    /// The value in units of `10^-38`.
    open spec fn view(&self) -> int {
        (self.spec_mantissa() * pow10((MAX_SCALE - self.spec_scale()) as nat)) as int
    }
}

/// What text spells as a decimal.
pub open spec fn numeral_of(s: Seq<char>) -> Result<(nat, nat), NumberError> {
    if !is_decimal_numeral(s) {
        Err(NumberError::Malformed)
    } else if digits_value(s) > u128::MAX || fraction_len(s) > MAX_SCALE {
        Err(NumberError::OutOfRange)
    } else {
        Ok((digits_value(s), fraction_len(s)))
    }
}

/// `v`, counted in units of `10^-38`, can be held with `scale` fractional
/// digits.
pub open spec fn fits(v: int, scale: nat) -> bool {
    v <= u128::MAX * pow10((MAX_SCALE - scale) as nat)
}

/// `v * (1 + rate)`, for `v` held with `scale` and `rate` with `rate_scale`
/// fractional digits, can be held with `scale + rate_scale` fractional digits.
pub open spec fn rated_fits(v: int, scale: nat, rate: int, rate_scale: nat) -> bool {
    &&& scale + rate_scale <= MAX_SCALE
    &&& v * (pow10(38) + rate) <= u128::MAX * pow10((76 - (scale + rate_scale)) as nat)
}

/// The larger of two numbers.
pub open spec fn max_nat(a: nat, b: nat) -> nat {
    if a >= b {
        a
    } else {
        b
    }
}

/// `m` counted in units of `unit` and rounded to the nearest whole number;
/// where `m` lies half-way between two, the even one is taken.
pub open spec fn round_half_even(m: nat, unit: nat) -> nat {
    if 2 * (m % unit) > unit || (2 * (m % unit) == unit && (m / unit) % 2 == 1) {
        m / unit + 1
    } else {
        m / unit
    }
}

/// The digits and the scale of the number `m / 10^scale` rounded to `places`
/// fractional digits. A number that has no more fractional digits than that
/// is left as it is.
pub open spec fn rounded_digits(m: nat, scale: nat, places: nat) -> (nat, nat) {
    if places >= scale {
        (m, scale)
    } else {
        (round_half_even(m, pow10((scale - places) as nat)), places)
    }
}

/// The lowest `width` decimal digits of `n`, zeros included.
pub open spec fn padded_digits(n: nat, width: nat) -> Seq<char>
    decreases width,
{
    if width == 0 {
        Seq::empty()
    } else {
        padded_digits(n / 10, (width - 1) as nat).push(digit_char((n % 10) as int))
    }
}

/// The number `m / 10^scale` written with `places` fractional digits, of
/// which it has no more than that: the whole part, and, unless `places` is
/// zero, a point, the fractional digits and zeros up to `places` digits.
pub open spec fn plain_text(m: nat, scale: nat, places: nat) -> Seq<char> {
    decimal_digits(m / pow10(scale)) + if places == 0 {
        Seq::empty()
    } else {
        seq!['.'] + padded_digits(m % pow10(scale), scale) + Seq::new(
            (places - scale) as nat,
            |i: int| '0',
        )
    }
}

/// The number `m / 10^scale` as it is shown with `places` fractional digits:
/// rounded to that many, then written out.
pub open spec fn fixed_text_of(m: nat, scale: nat, places: nat) -> Seq<char> {
    plain_text(rounded_digits(m, scale, places).0, rounded_digits(m, scale, places).1, places)
}

/// A number rounded to whole units lies no more than half a unit from the
/// number.
pub proof fn lemma_round_half_even(m: nat, unit: nat)
    requires
        unit > 0,
    ensures
        2 * (round_half_even(m, unit) * unit - m) <= unit,
        2 * (m - round_half_even(m, unit) * unit) <= unit,
{
    let q = m / unit;
    let r = m % unit;
    vstd::arithmetic::div_mod::lemma_fundamental_div_mod(m as int, unit as int);
    assert(0 <= r < unit);
    assert((q + 1) * unit == q * unit + unit) by (nonlinear_arith);
    assert(unit * q == q * unit) by (nonlinear_arith);
}

impl Decimal {
    /// The scale is within [`MAX_SCALE`].
    #[verifier::type_invariant]
    spec fn well_formed(self) -> bool {
        self.scale <= MAX_SCALE
    }

    /// The digits of the number, read as an integer.
    pub closed spec fn spec_mantissa(self) -> nat {
        self.mantissa as nat
    }

    /// The number of those digits that stand after the decimal point.
    pub closed spec fn spec_scale(self) -> nat {
        self.scale as nat
    }

    /// Every decimal has at most [`MAX_SCALE`] fractional digits.
    pub open spec fn valid(self) -> bool {
        self.spec_scale() <= MAX_SCALE
    }

    /// A decimal fits at its own scale, and is not negative.
    pub proof fn lemma_fits(self)
        ensures
            fits(self@, self.spec_scale()),
            self@ >= 0,
            self.spec_mantissa() <= u128::MAX,
    {
        let m = self.mantissa as int;
        let p = pow10((MAX_SCALE - self.spec_scale()) as nat);
        assert(m * p <= u128::MAX * p) by (nonlinear_arith)
            requires
                m <= u128::MAX,
                p >= 0,
        ;
    }

    /// The number `mantissa / 10^scale`, if `scale` is within [`MAX_SCALE`].
    pub fn new(mantissa: u128, scale: u8) -> (r: Option<Decimal>)
        ensures
            r is Some <==> scale <= MAX_SCALE,
            r matches Some(d) ==> d.spec_mantissa() == mantissa && d.spec_scale() == scale
                && d.valid(),
    {
        if scale <= MAX_SCALE {
            Some(Decimal { mantissa, scale })
        } else {
            None
        }
    }

    /// Zero.
    pub fn zero() -> (r: Decimal)
        ensures
            r.spec_mantissa() == 0,
            r.spec_scale() == 0,
            r@ == 0,
            r.valid(),
    {
        assert(0 * pow10(38) == 0) by (nonlinear_arith);
        Decimal { mantissa: 0, scale: 0 }
    }

    /// The digits of the number, read as an integer.
    pub fn mantissa(&self) -> (r: u128)
        ensures
            r == self.spec_mantissa(),
    {
        self.mantissa
    }

    /// The number of digits that stand after the decimal point.
    pub fn scale(&self) -> (r: u8)
        ensures
            r == self.spec_scale(),
            r <= MAX_SCALE,
            self.valid(),
    {
        proof {
            use_type_invariant(self);
        }
        self.scale
    }

    /// Whether the number is above zero.
    pub fn is_positive(&self) -> (r: bool)
        ensures
            r == (self@ > 0),
    {
        proof {
            use_type_invariant(self);
            lemma_pow10_positive((MAX_SCALE - self.scale) as nat);
            let p = pow10((MAX_SCALE - self.scale) as nat);
            let m = self.mantissa as int;
            assert((m > 0) == (m * p > 0)) by (nonlinear_arith)
                requires
                    p >= 1,
                    m >= 0,
            ;
        }
        self.mantissa > 0
    }

    /// The sum of two decimals, carried at the finer of their two scales;
    /// `None` if the sum cannot be held at that scale.
    pub fn add(&self, other: &Decimal) -> (r: Option<Decimal>)
        ensures
            r is Some <==> fits(self@ + other@, max_nat(self.spec_scale(), other.spec_scale())),
            r matches Some(d) ==> d@ == self@ + other@ && d.spec_scale() == max_nat(
                self.spec_scale(),
                other.spec_scale(),
            ) && d.valid(),
    {
        proof {
            use_type_invariant(self);
            use_type_invariant(other);
        }
        let s: u8 = if self.scale >= other.scale {
            self.scale
        } else {
            other.scale
        };
        let pa = pow10_exec(s - self.scale);
        let pb = pow10_exec(s - other.scale);
        let ghost unit = pow10((MAX_SCALE - s) as nat);
        let ghost ma = self.mantissa as int;
        let ghost mb = other.mantissa as int;
        proof {
            lemma_pow10_adds((s - self.scale) as nat, (MAX_SCALE - s) as nat);
            lemma_pow10_adds((s - other.scale) as nat, (MAX_SCALE - s) as nat);
            lemma_pow10_positive((MAX_SCALE - s) as nat);
            assert(self@ == (ma * pa) * unit) by (nonlinear_arith)
                requires
                    self@ == ma * (pa * unit),
            ;
            assert(other@ == (mb * pb) * unit) by (nonlinear_arith)
                requires
                    other@ == mb * (pb * unit),
            ;
            assert(self@ + other@ == (ma * pa + mb * pb) * unit) by (nonlinear_arith)
                requires
                    self@ == (ma * pa) * unit,
                    other@ == (mb * pb) * unit,
            ;
            assert(ma * pa >= 0 && mb * pb >= 0) by (nonlinear_arith)
                requires
                    ma >= 0,
                    mb >= 0,
                    pa >= 0,
                    pb >= 0,
            ;
            let total = ma * pa + mb * pb;
            assert((total <= u128::MAX) == (total * unit <= u128::MAX * unit)) by (nonlinear_arith)
                requires
                    unit >= 1,
            ;
        }
        let a = match self.mantissa.checked_mul(pa) {
            Some(v) => v,
            None => {
                return None;
            },
        };
        let b = match other.mantissa.checked_mul(pb) {
            Some(v) => v,
            None => {
                return None;
            },
        };
        match a.checked_add(b) {
            Some(m) => Some(Decimal { mantissa: m, scale: s }),
            None => None,
        }
    }

    /// Whether `self` is at most `other`.
    pub fn le(&self, other: &Decimal) -> (r: bool)
        ensures
            r == (self@ <= other@),
    {
        proof {
            use_type_invariant(self);
            use_type_invariant(other);
        }
        let s: u8 = if self.scale >= other.scale {
            self.scale
        } else {
            other.scale
        };
        let pa = pow10_exec(s - self.scale);
        let pb = pow10_exec(s - other.scale);
        let ghost unit = pow10((MAX_SCALE - s) as nat);
        let ghost ma = self.mantissa as int;
        let ghost mb = other.mantissa as int;
        proof {
            lemma_pow10_adds((s - self.scale) as nat, (MAX_SCALE - s) as nat);
            lemma_pow10_adds((s - other.scale) as nat, (MAX_SCALE - s) as nat);
            lemma_pow10_positive((MAX_SCALE - s) as nat);
            assert(self@ == (ma * pa) * unit) by (nonlinear_arith)
                requires
                    self@ == ma * (pa * unit),
            ;
            assert(other@ == (mb * pb) * unit) by (nonlinear_arith)
                requires
                    other@ == mb * (pb * unit),
            ;
            let x = ma * pa;
            let y = mb * pb;
            assert((x <= y) == (x * unit <= y * unit)) by (nonlinear_arith)
                requires
                    unit >= 1,
            ;
            assert(pow10(0) == 1);
            if self.scale >= other.scale {
                assert(pa == 1);
                assert(x == ma);
            } else {
                assert(pb == 1);
                assert(y == mb);
            }
        }
        match self.mantissa.checked_mul(pa) {
            None => false,
            Some(a) => match other.mantissa.checked_mul(pb) {
                None => true,
                Some(b) => a <= b,
            },
        }
    }

    /// `self` increased by the fraction `rate` of itself, that is
    /// `self * (1 + rate)`, carried at the sum of the two scales; `None` if
    /// the product cannot be held.
    pub fn with_rate(&self, rate: &Decimal) -> (r: Option<Decimal>)
        ensures
            r is Some <==> rated_fits(self@, self.spec_scale(), rate@, rate.spec_scale()),
            r matches Some(d) ==> d@ * pow10(38) == self@ * (pow10(38) + rate@) && d.spec_scale()
                == self.spec_scale() + rate.spec_scale() && d.spec_mantissa()
                == self.spec_mantissa() * (pow10(rate.spec_scale()) + rate.spec_mantissa())
                && d.valid(),
    {
        proof {
            use_type_invariant(self);
            use_type_invariant(rate);
        }
        if rate.scale > MAX_SCALE - self.scale {
            return None;
        }
        let one = pow10_exec(rate.scale);
        let ghost ma = self.mantissa as nat;
        let ghost mr = rate.mantissa as nat;
        let ghost sa = self.scale as nat;
        let ghost sr = rate.scale as nat;
        let ghost factor = one as nat + mr;
        proof {
            lemma_pow10_positive(sr);
            lemma_with_rate_value(ma, sa, mr, sr);
            lemma_pow10_adds((38 - (sa + sr)) as nat, 38);
            lemma_pow10_positive((76 - (sa + sr)) as nat);
            let unit = pow10((76 - (sa + sr)) as nat);
            let product = ma * factor;
            assert(self@ * (pow10(38) + rate@) == product * unit) by (nonlinear_arith)
                requires
                    (ma * factor) * pow10((38 - (sa + sr)) as nat) * pow10(38) == self@ * (pow10(
                        38,
                    ) + rate@),
                    unit == pow10((38 - (sa + sr)) as nat) * pow10(38),
                    product == ma * factor,
            ;
            assert((product <= u128::MAX) == (product * unit <= u128::MAX * unit))
                by (nonlinear_arith)
                requires
                    unit >= 1,
            ;
            if ma > 0 && factor > u128::MAX {
                assert(ma * factor > u128::MAX) by (nonlinear_arith)
                    requires
                        ma >= 1,
                        factor > u128::MAX,
                ;
            }
            if ma == 0 {
                assert(ma * factor == 0) by (nonlinear_arith)
                    requires
                        ma == 0,
                ;
            }
        }
        if self.mantissa == 0 {
            return Some(Decimal { mantissa: 0, scale: self.scale + rate.scale });
        }
        let f = match one.checked_add(rate.mantissa) {
            Some(v) => v,
            None => {
                return None;
            },
        };
        match self.mantissa.checked_mul(f) {
            Some(m) => Some(Decimal { mantissa: m, scale: self.scale + rate.scale }),
            None => None,
        }
    }

    /// The number rounded to `places` fractional digits, a tie going to the
    /// even neighbour. A number with no more fractional digits than that is
    /// returned as it is.
    pub fn rounded(&self, places: u8) -> (r: Decimal)
        ensures
            (r.spec_mantissa(), r.spec_scale()) == rounded_digits(
                self.spec_mantissa(),
                self.spec_scale(),
                places as nat,
            ),
            r.spec_scale() <= places,
            r.valid(),
    {
        proof {
            use_type_invariant(self);
        }
        if places >= self.scale {
            return *self;
        }
        let unit = pow10_exec(self.scale - places);
        proof {
            lemma_pow10_positive((self.scale - places - 1) as nat);
        }
        let q = self.mantissa / unit;
        let rest = self.mantissa % unit;
        let up = rest > unit - rest || (rest == unit - rest && q % 2 == 1);
        proof {
            let m = self.mantissa as int;
            let u = unit as int;
            assert(u >= 10);
            vstd::arithmetic::div_mod::lemma_fundamental_div_mod(m, u);
            assert(q * 10 <= m) by (nonlinear_arith)
                requires
                    m == u * (m / u) + (m % u),
                    q == m / u,
                    m % u >= 0,
                    u >= 10,
                    q >= 0,
            ;
        }
        let m = if up {
            q + 1
        } else {
            q
        };
        Decimal { mantissa: m, scale: places }
    }

    /// The number as it is shown with `places` fractional digits: rounded
    /// to that many, a tie going to the even neighbour, and written with a
    /// point and exactly that many digits behind it; without a point where
    /// `places` is zero.
    pub fn fixed_text(&self, places: u8) -> (r: String)
        ensures
            r@ == fixed_text_of(self.spec_mantissa(), self.spec_scale(), places as nat),
    {
        let d = self.rounded(places);
        proof {
            use_type_invariant(&d);
        }
        let unit = pow10_exec(d.scale);
        proof {
            lemma_pow10_positive(d.scale as nat);
        }
        let mut out = digits_of(d.mantissa / unit);
        if places > 0 {
            let ghost whole = out@;
            out.push('.');
            let fraction = padded_digits_exec(d.mantissa % unit, d.scale);
            let mut i: usize = 0;
            while i < fraction.len()
                invariant
                    i <= fraction.len(),
                    out@ == whole + seq!['.'] + fraction@.take(i as int),
                decreases fraction.len() - i,
            {
                out.push(fraction[i]);
                i += 1;
            }
            assert(fraction@.take(fraction.len() as int) == fraction@);
            let mut k: u8 = d.scale;
            while k < places
                invariant
                    d.scale <= k <= places,
                    out@ == whole + seq!['.'] + fraction@ + Seq::new(
                        (k - d.scale) as nat,
                        |i: int| '0',
                    ),
                decreases places - k,
            {
                out.push('0');
                k += 1;
            }
        }
        from_chars(&out)
    }

    /// Reads a decimal numeral: ASCII digits with at most one decimal point.
    pub fn parse(text: &str) -> (r: Result<Decimal, NumberError>)
        ensures
            match r {
                Ok(d) => numeral_of(text@) == Ok::<(nat, nat), NumberError>(
                    (d.spec_mantissa(), d.spec_scale()),
                ) && d.valid(),
                Err(e) => numeral_of(text@) == Err::<(nat, nat), NumberError>(e),
            },
    {
        let chars = to_chars(text);
        Decimal::parse_chars(&chars)
    }

    /// Reads a decimal numeral.
    pub(crate) fn parse_chars(text: &Vec<char>) -> (r: Result<Decimal, NumberError>)
        ensures
            match r {
                Ok(d) => numeral_of(text@) == Ok::<(nat, nat), NumberError>(
                    (d.spec_mantissa(), d.spec_scale()),
                ) && d.valid(),
                Err(e) => numeral_of(text@) == Err::<(nat, nat), NumberError>(e),
            },
    {
        let n = text.len();
        let mut dots: usize = 0;
        let mut i: usize = 0;
        while i < n
            invariant
                n == text.len(),
                i <= n,
                dots == count_of(text@.take(i as int), '.'),
                dots <= i,
                forall|j: int| 0 <= j < i ==> is_ascii_digit(#[trigger] text@[j]) || text@[j] == '.',
            decreases n - i,
        {
            let c = text[i];
            proof {
                let t = text@.take(i + 1);
                assert(t.drop_last() == text@.take(i as int));
                assert(t.last() == c);
            }
            if c == '.' {
                dots += 1;
            } else if !(c >= '0' && c <= '9') {
                return Err(NumberError::Malformed);
            }
            i += 1;
        }
        assert(text@.take(n as int) == text@);
        if dots > 1 || dots >= n {
            return Err(NumberError::Malformed);
        }
        let mut m: u128 = 0;
        let mut frac: usize = 0;
        let mut seen_dot = false;
        let mut k: usize = 0;
        while k < n
            invariant
                n == text.len(),
                k <= n,
                is_decimal_numeral(text@),
                m == digits_value(text@.take(k as int)),
                seen_dot == (last_index_of(text@.take(k as int), '.') >= 0),
                frac == fraction_len(text@.take(k as int)),
                frac <= k,
            decreases n - k,
        {
            let c = text[k];
            proof {
                let t = text@.take(k + 1);
                assert(t.drop_last() == text@.take(k as int));
                assert(t.last() == c);
                lemma_last_index_of(text@.take(k as int), '.');
                lemma_digits_value_monotonic(text@, k + 1);
            }
            if c == '.' {
                seen_dot = true;
                frac = 0;
            } else {
                assert(is_ascii_digit(text@[k as int]));
                let d: u128 = (c as u32 - '0' as u32) as u128;
                m = match m.checked_mul(10) {
                    Some(v) => match v.checked_add(d) {
                        Some(w) => w,
                        None => {
                            return Err(NumberError::OutOfRange);
                        },
                    },
                    None => {
                        return Err(NumberError::OutOfRange);
                    },
                };
                if seen_dot {
                    frac += 1;
                }
            }
            k += 1;
        }
        assert(text@.take(n as int) == text@);
        if frac > MAX_SCALE as usize {
            return Err(NumberError::OutOfRange);
        }
        Ok(Decimal { mantissa: m, scale: frac as u8 })
    }
}

/// The sum of the values of `terms`, each a value in units of `10^-38` with
/// the number of fractional digits it is held with.
pub open spec fn sum_values(terms: Seq<(int, nat)>) -> int
    decreases terms.len(),
{
    if terms.len() == 0 {
        0
    } else {
        sum_values(terms.drop_last()) + terms.last().0
    }
}

/// The largest number of fractional digits among `terms`, zero if there are
/// none.
pub open spec fn finest_scale(terms: Seq<(int, nat)>) -> nat
    decreases terms.len(),
{
    if terms.len() == 0 {
        0
    } else {
        max_nat(finest_scale(terms.drop_last()), terms.last().1)
    }
}

/// The sum of `terms` can be held at their finest scale.
pub open spec fn sum_fits(terms: Seq<(int, nat)>) -> bool {
    fits(sum_values(terms), finest_scale(terms))
}

/// A smaller value at a coarser scale fits where a larger one at a finer scale
/// does.
pub proof fn lemma_fits_monotonic(v1: int, s1: nat, v2: int, s2: nat)
    requires
        v1 <= v2,
        s1 <= s2 <= 38,
        fits(v2, s2),
    ensures
        fits(v1, s1),
{
    lemma_pow10_monotonic((38 - s2) as nat, (38 - s1) as nat);
    let a = pow10((38 - s2) as nat);
    let b = pow10((38 - s1) as nat);
    assert(u128::MAX * a <= u128::MAX * b) by (nonlinear_arith)
        requires
            a <= b,
    ;
}

/// A prefix of non-negative terms sums to no more, at no finer a scale, than
/// the whole.
pub proof fn lemma_prefix_sum(terms: Seq<(int, nat)>, k: int)
    requires
        0 <= k <= terms.len(),
        forall|i: int| 0 <= i < terms.len() ==> (#[trigger] terms[i]).0 >= 0,
    ensures
        0 <= sum_values(terms.take(k)) <= sum_values(terms),
        finest_scale(terms.take(k)) <= finest_scale(terms),
    decreases terms.len(),
{
    if terms.len() == 0 {
        assert(terms.take(k) == terms);
    } else if k == terms.len() {
        assert(terms.take(k) == terms);
        lemma_prefix_sum(terms.drop_last(), k - 1);
        assert(terms.drop_last().take(k - 1) == terms.drop_last());
    } else {
        lemma_prefix_sum(terms.drop_last(), k);
        assert(terms.drop_last().take(k) == terms.take(k));
    }
}

/// Terms that are pointwise no larger sum to no more, at no finer a scale.
pub proof fn lemma_sum_pointwise(a: Seq<(int, nat)>, b: Seq<(int, nat)>)
    requires
        a.len() == b.len(),
        forall|i: int| 0 <= i < a.len() ==> (#[trigger] a[i]).0 <= b[i].0 && a[i].1 <= b[i].1,
    ensures
        sum_values(a) <= sum_values(b),
        finest_scale(a) <= finest_scale(b),
    decreases a.len(),
{
    if a.len() > 0 {
        let a0 = a.drop_last();
        let b0 = b.drop_last();
        assert forall|i: int| 0 <= i < a0.len() implies (#[trigger] a0[i]).0 <= b0[i].0 && a0[i].1
            <= b0[i].1 by {
            assert(a0[i] == a[i]);
            assert(b0[i] == b[i]);
        }
        lemma_sum_pointwise(a0, b0);
        assert(a.last() == a[a.len() - 1]);
    }
}

/// Terms that are pointwise the sums of two others sum to the sum of the two
/// sums.
pub proof fn lemma_sum_split(whole: Seq<(int, nat)>, a: Seq<(int, nat)>, b: Seq<(int, nat)>)
    requires
        whole.len() == a.len(),
        whole.len() == b.len(),
        forall|i: int| 0 <= i < whole.len() ==> (#[trigger] whole[i]).0 == a[i].0 + b[i].0,
    ensures
        sum_values(whole) == sum_values(a) + sum_values(b),
    decreases whole.len(),
{
    if whole.len() > 0 {
        let w0 = whole.drop_last();
        let a0 = a.drop_last();
        let b0 = b.drop_last();
        assert forall|i: int| 0 <= i < w0.len() implies (#[trigger] w0[i]).0 == a0[i].0 + b0[i].0 by {
            assert(w0[i] == whole[i]);
            assert(a0[i] == a[i]);
            assert(b0[i] == b[i]);
        }
        lemma_sum_split(w0, a0, b0);
        assert(whole.last() == whole[whole.len() - 1]);
    }
}

/// Terms whose scales are pointwise the larger of two others have the larger
/// of the two finest scales as their finest.
pub proof fn lemma_scale_split(whole: Seq<(int, nat)>, a: Seq<(int, nat)>, b: Seq<(int, nat)>)
    requires
        whole.len() == a.len(),
        whole.len() == b.len(),
        forall|i: int| 0 <= i < whole.len() ==> (#[trigger] whole[i]).1 == max_nat(a[i].1, b[i].1),
    ensures
        finest_scale(whole) == max_nat(finest_scale(a), finest_scale(b)),
    decreases whole.len(),
{
    if whole.len() > 0 {
        let w0 = whole.drop_last();
        let a0 = a.drop_last();
        let b0 = b.drop_last();
        assert forall|i: int| 0 <= i < w0.len() implies (#[trigger] w0[i]).1 == max_nat(
            a0[i].1,
            b0[i].1,
        ) by {
            assert(w0[i] == whole[i]);
            assert(a0[i] == a[i]);
            assert(b0[i] == b[i]);
        }
        lemma_scale_split(w0, a0, b0);
        assert(whole.last() == whole[whole.len() - 1]);
    }
}

/// Where every term's scale is within [`MAX_SCALE`], so is the finest.
pub proof fn lemma_finest_scale_bound(terms: Seq<(int, nat)>)
    requires
        forall|i: int| 0 <= i < terms.len() ==> (#[trigger] terms[i]).1 <= 38,
    ensures
        finest_scale(terms) <= 38,
    decreases terms.len(),
{
    if terms.len() > 0 {
        lemma_finest_scale_bound(terms.drop_last());
    }
}

/// The value of `m / 10^s` increased by the fraction `r / 10^t` of itself.
proof fn lemma_with_rate_value(m: nat, s: nat, r: nat, t: nat)
    requires
        s + t <= 38,
    ensures
        (m * (pow10(t) + r)) * pow10((38 - (s + t)) as nat) * pow10(38) == (m * pow10(
            (38 - s) as nat,
        )) * (pow10(38) + r * pow10((38 - t) as nat)),
{
    let u = pow10((38 - (s + t)) as nat);
    lemma_pow10_adds(t, (38 - (s + t)) as nat);
    lemma_pow10_adds(t, (38 - t) as nat);
    let ps = pow10((38 - s) as nat);
    let pt = pow10((38 - t) as nat);
    let p = pow10(38);
    let q = pow10(t);
    assert(ps == q * u);
    assert(p == q * pt);
    assert((m * (q + r)) * u * p == (m * ps) * (p + r * pt)) by (nonlinear_arith)
        requires
            ps == q * u,
            p == q * pt,
    ;
}

/// The digits of a prefix spell no more than the digits of the whole.
pub proof fn lemma_digits_value_monotonic(s: Seq<char>, k: int)
    requires
        0 <= k <= s.len(),
    ensures
        digits_value(s.take(k)) <= digits_value(s),
    decreases s.len() - k,
{
    if k < s.len() {
        lemma_digits_value_monotonic(s, k + 1);
        let t = s.take(k + 1);
        assert(t.drop_last() == s.take(k));
    } else {
        assert(s.take(k) == s);
    }
}

/// The decimal digits of `n`, without leading zeros.
pub(crate) fn digits_of(n: u128) -> (r: Vec<char>)
    ensures
        r@ == decimal_digits(n as nat),
    decreases n,
{
    if n < 10 {
        let mut v: Vec<char> = Vec::new();
        v.push(digit_char_exec(n as u32));
        assert(v@ == seq![digit_char(n as int)]);
        v
    } else {
        let mut v = digits_of(n / 10);
        v.push(digit_char_exec((n % 10) as u32));
        v
    }
}

/// The lowest `width` decimal digits of `n`, zeros included.
pub(crate) fn padded_digits_exec(n: u128, width: u8) -> (r: Vec<char>)
    ensures
        r@ == padded_digits(n as nat, width as nat),
    decreases width,
{
    if width == 0 {
        Vec::new()
    } else {
        let mut v = padded_digits_exec(n / 10, width - 1);
        v.push(digit_char_exec((n % 10) as u32));
        v
    }
}

} // verus!
