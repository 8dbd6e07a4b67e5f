//! Arbitrary-precision exact rational numbers.
//!
//! A [`Number`] holds a sign and the base-2^32 digits (least significant
//! first) of a reduced fraction. Its mathematical model is a [`Rat`]: a pair of
//! integers `num / den` with `den > 0`. Arithmetic is delegated to
//! `num-rational`; each delegated operation states the reduced fraction it
//! returns.
use vstd::prelude::*;
use vstd::arithmetic::power::pow;
use num_bigint::{BigInt, BigUint, Sign};
use num_rational::BigRational;

verus! {

/// The mathematical model of an exact number: the fraction `num / den`.
pub struct Rat {
    pub num: int,
    pub den: int,
}

/// The digit base.
pub open spec fn base() -> nat {
    0x1_0000_0000
}

/// Value of base-2^32 digits, least significant first.
pub open spec fn digits_value(d: Seq<u32>) -> nat
    decreases d.len(),
{
    if d.len() == 0 {
        0
    } else {
        d[0] as nat + base() * digits_value(d.subrange(1, d.len() as int))
    }
}

/// Digits without a most significant zero (zero is the empty sequence).
pub open spec fn canonical(d: Seq<u32>) -> bool {
    d.len() == 0 || d.last() != 0
}

pub open spec fn abs(x: int) -> nat {
    if x < 0 {
        (-x) as nat
    } else {
        x as nat
    }
}

/// Greatest common divisor (Euclid).
pub open spec fn gcd(a: nat, b: nat) -> nat
    decreases b,
{
    if b == 0 {
        a
    } else {
        gcd(b, a % b)
    }
}

/// The reduced fraction `n / d` with a positive denominator (`d != 0`).
pub open spec fn normalize(n: int, d: int) -> Rat {
    if n == 0 {
        Rat { num: 0, den: 1 }
    } else {
        let g = gcd(abs(n), abs(d)) as int;
        if d < 0 {
            Rat { num: -(n / g), den: -(d / g) }
        } else {
            Rat { num: n / g, den: d / g }
        }
    }
}

pub open spec fn rat_int(v: int) -> Rat {
    Rat { num: v, den: 1 }
}

pub open spec fn rat_add(a: Rat, b: Rat) -> Rat {
    normalize(a.num * b.den + b.num * a.den, a.den * b.den)
}

pub open spec fn rat_sub(a: Rat, b: Rat) -> Rat {
    normalize(a.num * b.den - b.num * a.den, a.den * b.den)
}

pub open spec fn rat_mul(a: Rat, b: Rat) -> Rat {
    normalize(a.num * b.num, a.den * b.den)
}

/// Division; meaningful when `b.num != 0`.
pub open spec fn rat_div(a: Rat, b: Rat) -> Rat {
    normalize(a.num * b.den, a.den * b.num)
}

pub open spec fn rat_neg(a: Rat) -> Rat {
    Rat { num: -a.num, den: a.den }
}

pub open spec fn rat_abs(a: Rat) -> Rat {
    Rat { num: abs(a.num) as int, den: a.den }
}

/// Integer division rounding towards zero.
pub open spec fn trunc_div(x: int, y: int) -> int {
    let q = (abs(x) / abs(y)) as int;
    if (x < 0) == (y < 0) {
        q
    } else {
        -q
    }
}

/// Remainder of the division rounding towards zero (sign of the dividend).
pub open spec fn trunc_rem(x: int, y: int) -> int {
    x - y * trunc_div(x, y)
}

/// `a - b * trunc(a / b)`; meaningful when `b.num != 0`.
pub open spec fn rat_rem(a: Rat, b: Rat) -> Rat {
    normalize(trunc_rem(a.num * b.den, b.num * a.den), a.den * b.den)
}

/// Integer power; meaningful when `e >= 0` or `a.num != 0`.
pub open spec fn rat_pow(a: Rat, e: int) -> Rat {
    if e >= 0 {
        normalize(pow(a.num, e as nat), pow(a.den, e as nat))
    } else {
        normalize(pow(a.den, (-e) as nat), pow(a.num, (-e) as nat))
    }
}

/// Value order of two fractions with positive denominators.
pub open spec fn rat_lt(a: Rat, b: Rat) -> bool {
    a.num * b.den < b.num * a.den
}

pub open spec fn rat_le(a: Rat, b: Rat) -> bool {
    a.num * b.den <= b.num * a.den
}

/// Largest integer not above the fraction (for `den > 0`).
pub open spec fn rat_floor(a: Rat) -> int {
    a.num / a.den
}

pub open spec fn digit_char(d: nat) -> char {
    (48 + d) as char
}

/// Decimal digits of a natural number.
pub open spec fn decimal(n: nat) -> Seq<char>
    decreases n,
{
    if n < 10 {
        seq![digit_char(n)]
    } else {
        decimal(n / 10).push(digit_char(n % 10))
    }
}

/// Printed form: an optional `-`, the numerator, and `/denominator` when the
/// denominator is not one.
pub open spec fn rat_text(a: Rat) -> Seq<char> {
    let sign = if a.num < 0 {
        seq!['-']
    } else {
        Seq::<char>::empty()
    };
    let body = sign + decimal(abs(a.num));
    if a.den == 1 {
        body
    } else {
        body + seq!['/'] + decimal(abs(a.den))
    }
}

/// An exact rational number in reduced form.
pub struct Number {
    negative: bool,
    numer: Vec<u32>,
    denom: Vec<u32>,
}

impl View for Number {
    type V = Rat;

    closed spec fn view(&self) -> Rat {
        Rat {
            num: if self.negative {
                -digits_value(self.numer@)
            } else {
                digits_value(self.numer@) as int
            },
            den: digits_value(self.denom@) as int,
        }
    }
}

proof fn lemma_canonical_value_zero(d: Seq<u32>)
    requires
        canonical(d),
    ensures
        (digits_value(d) == 0) == (d.len() == 0),
    decreases d.len(),
{
    if d.len() > 1 {
        let rest = d.subrange(1, d.len() as int);
        assert(rest.last() == d.last());
        lemma_canonical_value_zero(rest);
    }
}

proof fn lemma_digits_injective(d: Seq<u32>, e: Seq<u32>)
    requires
        canonical(d),
        canonical(e),
        digits_value(d) == digits_value(e),
    ensures
        d == e,
    decreases d.len(),
{
    lemma_canonical_value_zero(d);
    lemma_canonical_value_zero(e);
    if d.len() > 0 {
        let dr = d.subrange(1, d.len() as int);
        let er = e.subrange(1, e.len() as int);
        let vd = digits_value(dr);
        let ve = digits_value(er);
        assert(d[0] as int + base() * vd == e[0] as int + base() * ve);
        assert(d[0] == e[0] && vd == ve) by (nonlinear_arith)
            requires
                d[0] as int + 0x1_0000_0000 * vd == e[0] as int + 0x1_0000_0000 * ve,
                0 <= d[0] < 0x1_0000_0000,
                0 <= e[0] < 0x1_0000_0000,
                vd >= 0,
                ve >= 0,
        ;
        if dr.len() > 0 {
            assert(dr.last() == d.last());
        }
        if er.len() > 0 {
            assert(er.last() == e.last());
        }
        lemma_digits_injective(dr, er);
        assert(d =~= seq![d[0]] + dr);
        assert(e =~= seq![e[0]] + er);
    }
}

proof fn lemma_value_small(d: Seq<u32>)
    requires
        canonical(d),
    ensures
        d.len() == 0 ==> digits_value(d) == 0,
        d.len() == 1 ==> digits_value(d) == d[0],
        d.len() >= 2 ==> digits_value(d) >= base(),
{
    lemma_canonical_value_zero(d);
    if d.len() == 1 {
        assert(d.subrange(1, 1) =~= Seq::<u32>::empty());
        assert(digits_value(d.subrange(1, 1)) == 0);
    } else if d.len() >= 2 {
        let rest = d.subrange(1, d.len() as int);
        assert(rest.last() == d.last());
        lemma_canonical_value_zero(rest);
        let vr = digits_value(rest);
        assert(vr >= 1);
        assert(base() * vr >= base()) by (nonlinear_arith)
            requires
                vr >= 1,
        ;
    }
}

/// Digits of a machine integer.
fn u64_digits(v: u64) -> (r: Vec<u32>)
    ensures
        canonical(r@),
        digits_value(r@) == v,
{
    let lo = (v % 0x1_0000_0000) as u32;
    let hi = (v / 0x1_0000_0000) as u32;
    let mut r: Vec<u32> = Vec::new();
    if v == 0 {
        assert(digits_value(r@) == 0);
        return r;
    }
    r.push(lo);
    if hi != 0 {
        r.push(hi);
        let ghost tail = r@.subrange(1, 2);
        assert(tail =~= seq![hi]);
        proof {
            lemma_value_small(tail);
        }
        assert(digits_value(r@) == lo + base() * hi);
        assert(v == lo + 0x1_0000_0000 * hi);
    } else {
        proof {
            lemma_value_small(r@);
        }
    }
    r
}

impl Number {
    #[verifier::type_invariant]
    closed spec fn well_formed(self) -> bool {
        &&& canonical(self.numer@)
        &&& canonical(self.denom@)
        &&& self.denom@.len() > 0
        &&& (self.numer@.len() == 0 ==> !self.negative)
        &&& gcd(digits_value(self.numer@), digits_value(self.denom@)) == 1
    }

    /// Every number is a fraction in lowest terms with a positive
    /// denominator (a no-op at run time).
    pub fn in_lowest_terms(&self)
        ensures
            self@.den > 0,
            reduced(self@),
    {
        proof {
            use_type_invariant(self);
            lemma_canonical_value_zero(self.denom@);
            assert(abs(self@.num) == digits_value(self.numer@));
        }
    }

    /// The integer `v`.
    pub fn from_u64(v: u64) -> (r: Number)
        ensures
            r@ == rat_int(v as int),
    {
        let numer = u64_digits(v);
        let denom = u64_digits(1);
        proof {
            lemma_canonical_value_zero(numer@);
            lemma_canonical_value_zero(denom@);
            lemma_gcd_one(digits_value(numer@));
        }
        Number { negative: false, numer, denom }
    }

    /// The integer `v`.
    pub fn from_i64(v: i64) -> (r: Number)
        ensures
            r@ == rat_int(v as int),
    {
        let magnitude: u64 = if v < 0 {
            if v == i64::MIN {
                0x8000_0000_0000_0000u64
            } else {
                (-v) as u64
            }
        } else {
            v as u64
        };
        let numer = u64_digits(magnitude);
        let denom = u64_digits(1);
        proof {
            lemma_canonical_value_zero(numer@);
            lemma_canonical_value_zero(denom@);
            lemma_gcd_one(digits_value(numer@));
        }
        Number { negative: v < 0, numer, denom }
    }

    pub fn zero() -> (r: Number)
        ensures
            r@ == rat_int(0),
    {
        Number::from_u64(0)
    }

    pub fn one() -> (r: Number)
        ensures
            r@ == rat_int(1),
    {
        Number::from_u64(1)
    }

    pub fn is_zero(&self) -> (r: bool)
        ensures
            r == (self@.num == 0),
    {
        proof {
            use_type_invariant(self);
            lemma_canonical_value_zero(self.numer@);
        }
        self.numer.len() == 0
    }

    pub fn is_negative(&self) -> (r: bool)
        ensures
            r == (self@.num < 0),
    {
        proof {
            use_type_invariant(self);
            lemma_canonical_value_zero(self.numer@);
        }
        self.negative
    }

    /// Whether the denominator is one.
    pub fn is_integer(&self) -> (r: bool)
        ensures
            r == (self@.den == 1),
    {
        proof {
            use_type_invariant(self);
            lemma_value_small(self.denom@);
        }
        self.denom.len() == 1 && self.denom[0] == 1
    }

    /// Whether the value equals the integer `v` (`v >= 0`).
    pub fn is_nat(&self, v: u32) -> (r: bool)
        ensures
            r == (self@ == rat_int(v as int)),
    {
        proof {
            use_type_invariant(self);
            lemma_canonical_value_zero(self.numer@);
        }
        if !self.is_integer() || self.negative {
            return false;
        }
        if v == 0 {
            return self.numer.len() == 0;
        }
        let n = self.numer.len();
        proof {
            lemma_value_small(self.numer@);
            lemma_value_small(self.denom@);
        }
        n == 1 && self.numer[0] == v
    }

    pub fn is_one(&self) -> (r: bool)
        ensures
            r == (self@ == rat_int(1)),
    {
        self.is_nat(1)
    }

    /// Exact copy.
    pub fn copy(&self) -> (r: Number)
        ensures
            r@ == self@,
    {
        proof {
            use_type_invariant(self);
        }
        let numer = self.numer.clone();
        let denom = self.denom.clone();
        assert(numer@ == self.numer@);
        assert(denom@ == self.denom@);
        Number { negative: self.negative, numer, denom }
    }

    pub fn neg(&self) -> (r: Number)
        ensures
            r@ == rat_neg(self@),
    {
        proof {
            use_type_invariant(self);
            lemma_canonical_value_zero(self.numer@);
        }
        let numer = self.numer.clone();
        let denom = self.denom.clone();
        assert(numer@ == self.numer@);
        assert(denom@ == self.denom@);
        let negative = if numer.len() == 0 {
            false
        } else {
            !self.negative
        };
        Number { negative, numer, denom }
    }

    pub fn abs(&self) -> (r: Number)
        ensures
            r@ == rat_abs(self@),
    {
        proof {
            use_type_invariant(self);
        }
        let numer = self.numer.clone();
        let denom = self.denom.clone();
        assert(numer@ == self.numer@);
        assert(denom@ == self.denom@);
        Number { negative: false, numer, denom }
    }

    /// Exact equality of values.
    pub fn equals(&self, other: &Number) -> (r: bool)
        ensures
            r == (self@ == other@),
    {
        proof {
            use_type_invariant(self);
            use_type_invariant(other);
            lemma_canonical_value_zero(self.numer@);
            lemma_canonical_value_zero(other.numer@);
        }
        let same = self.negative == other.negative && vec_eq(&self.numer, &other.numer)
            && vec_eq(&self.denom, &other.denom);
        proof {
            if self@ == other@ {
                lemma_digits_injective(self.denom@, other.denom@);
                let vs = digits_value(self.numer@);
                let vo = digits_value(other.numer@);
                if self.numer@.len() == 0 {
                    assert(vo == 0);
                    assert(other.numer@.len() == 0);
                    assert(self.numer@ =~= other.numer@);
                } else {
                    assert(vs > 0);
                    assert(other.numer@.len() != 0);
                    assert(vo > 0);
                    assert(self.negative == other.negative);
                    assert(vs == vo);
                    lemma_digits_injective(self.numer@, other.numer@);
                }
                assert(same);
            }
        }
        same
    }

    /// The numerator and denominator as separate integers.
    pub fn numerator(&self) -> (r: Number)
        ensures
            r@ == rat_int(self@.num),
    {
        proof {
            use_type_invariant(self);
        }
        let numer = self.numer.clone();
        let denom = u64_digits(1);
        assert(numer@ == self.numer@);
        proof {
            lemma_canonical_value_zero(denom@);
            lemma_gcd_one(digits_value(numer@));
        }
        Number { negative: self.negative, numer, denom }
    }

    pub fn denominator(&self) -> (r: Number)
        ensures
            r@ == rat_int(self@.den),
    {
        proof {
            use_type_invariant(self);
        }
        let numer = self.denom.clone();
        let denom = u64_digits(1);
        assert(numer@ == self.denom@);
        proof {
            lemma_canonical_value_zero(denom@);
            lemma_gcd_one(digits_value(numer@));
        }
        Number { negative: false, numer, denom }
    }
}

fn vec_eq(a: &Vec<u32>, b: &Vec<u32>) -> (r: bool)
    ensures
        r == (a@ == b@),
{
    if a.len() != b.len() {
        return false;
    }
    let mut i: usize = 0;
    while i < a.len()
        invariant
            a.len() == b.len(),
            i <= a.len(),
            forall|j: int| 0 <= j < i ==> a@[j] == b@[j],
        decreases a.len() - i,
    {
        if a[i] != b[i] {
            return false;
        }
        i = i + 1;
    }
    assert(a@ =~= b@);
    true
}

// ---------------------------------------------------------------------------
// Arithmetic delegated to num-rational / num-bigint
// ---------------------------------------------------------------------------

/// `Ratio::<BigInt>::new` (num-rational): the fraction `±numer / denom`
/// reduced by the gcd with a positive denominator. The crate panics on a zero
/// denominator, which `requires` rules out.
#[verifier::external_body]
pub(crate) fn big_reduce(negative: bool, numer: &Vec<u32>, denom: &Vec<u32>) -> (r: Number)
    requires
        digits_value(denom@) > 0,
    ensures
        r@ == normalize(
            if negative {
                -digits_value(numer@)
            } else {
                digits_value(numer@) as int
            },
            digits_value(denom@) as int,
        ),
{
    let sign = if negative { Sign::Minus } else { Sign::Plus };
    let z = BigRational::new(BigInt::from_slice(sign, numer), BigInt::from_slice(Sign::Plus, denom));
    let (s, n) = z.numer().to_u32_digits();
    Number { negative: s == Sign::Minus, numer: n, denom: z.denom().to_u32_digits().1 }
}

/// `Ratio::<BigInt>` addition (num-rational), which reduces its result: the
/// reduced fraction of `a + b`.
#[verifier::external_body]
pub(crate) fn big_add(a: &Number, b: &Number) -> (r: Number)
    ensures
        r@ == rat_add(a@, b@),
{
    let sa = if a.negative { Sign::Minus } else { Sign::Plus };
    let sb = if b.negative { Sign::Minus } else { Sign::Plus };
    let x = BigRational::new_raw(BigInt::from_slice(sa, &a.numer), BigInt::from_slice(Sign::Plus, &a.denom));
    let y = BigRational::new_raw(BigInt::from_slice(sb, &b.numer), BigInt::from_slice(Sign::Plus, &b.denom));
    let z = x + y;
    let (s, n) = z.numer().to_u32_digits();
    Number { negative: s == Sign::Minus, numer: n, denom: z.denom().to_u32_digits().1 }
}

/// `Ratio::<BigInt>` subtraction (num-rational): the reduced fraction of
/// `a - b`.
#[verifier::external_body]
pub(crate) fn big_sub(a: &Number, b: &Number) -> (r: Number)
    ensures
        r@ == rat_sub(a@, b@),
{
    let sa = if a.negative { Sign::Minus } else { Sign::Plus };
    let sb = if b.negative { Sign::Minus } else { Sign::Plus };
    let x = BigRational::new_raw(BigInt::from_slice(sa, &a.numer), BigInt::from_slice(Sign::Plus, &a.denom));
    let y = BigRational::new_raw(BigInt::from_slice(sb, &b.numer), BigInt::from_slice(Sign::Plus, &b.denom));
    let z = x - y;
    let (s, n) = z.numer().to_u32_digits();
    Number { negative: s == Sign::Minus, numer: n, denom: z.denom().to_u32_digits().1 }
}

/// `Ratio::<BigInt>` multiplication (num-rational): the reduced fraction of
/// `a * b`.
#[verifier::external_body]
pub(crate) fn big_mul(a: &Number, b: &Number) -> (r: Number)
    ensures
        r@ == rat_mul(a@, b@),
{
    let sa = if a.negative { Sign::Minus } else { Sign::Plus };
    let sb = if b.negative { Sign::Minus } else { Sign::Plus };
    let x = BigRational::new_raw(BigInt::from_slice(sa, &a.numer), BigInt::from_slice(Sign::Plus, &a.denom));
    let y = BigRational::new_raw(BigInt::from_slice(sb, &b.numer), BigInt::from_slice(Sign::Plus, &b.denom));
    let z = x * y;
    let (s, n) = z.numer().to_u32_digits();
    Number { negative: s == Sign::Minus, numer: n, denom: z.denom().to_u32_digits().1 }
}

/// `Ratio::<BigInt>` division (num-rational): the reduced fraction of
/// `a / b`. The crate panics when `b` is zero, which `requires` rules out.
#[verifier::external_body]
pub(crate) fn big_div(a: &Number, b: &Number) -> (r: Number)
    requires
        b@.num != 0,
    ensures
        r@ == rat_div(a@, b@),
{
    let sa = if a.negative { Sign::Minus } else { Sign::Plus };
    let sb = if b.negative { Sign::Minus } else { Sign::Plus };
    let x = BigRational::new_raw(BigInt::from_slice(sa, &a.numer), BigInt::from_slice(Sign::Plus, &a.denom));
    let y = BigRational::new_raw(BigInt::from_slice(sb, &b.numer), BigInt::from_slice(Sign::Plus, &b.denom));
    let z = x / y;
    let (s, n) = z.numer().to_u32_digits();
    Number { negative: s == Sign::Minus, numer: n, denom: z.denom().to_u32_digits().1 }
}

/// `Ratio::<BigInt>` remainder (num-rational): `a - b * trunc(a / b)` over a
/// common denominator, reduced. The crate panics when `b` is zero, which
/// `requires` rules out.
#[verifier::external_body]
pub(crate) fn big_rem(a: &Number, b: &Number) -> (r: Number)
    requires
        b@.num != 0,
    ensures
        r@ == rat_rem(a@, b@),
{
    let sa = if a.negative { Sign::Minus } else { Sign::Plus };
    let sb = if b.negative { Sign::Minus } else { Sign::Plus };
    let x = BigRational::new_raw(BigInt::from_slice(sa, &a.numer), BigInt::from_slice(Sign::Plus, &a.denom));
    let y = BigRational::new_raw(BigInt::from_slice(sb, &b.numer), BigInt::from_slice(Sign::Plus, &b.denom));
    let z = x % y;
    let (s, n) = z.numer().to_u32_digits();
    Number { negative: s == Sign::Minus, numer: n, denom: z.denom().to_u32_digits().1 }
}

/// `Ratio::<BigInt>::pow` (num-rational): numerator and denominator raised to
/// the power, reciprocal for a negative exponent. The base is built reduced
/// (`Ratio::new`), so the powers are coprime and the result is the reduced
/// fraction. The reciprocal of zero panics, which `requires` rules out.
#[verifier::external_body]
pub(crate) fn big_pow(a: &Number, e: i32) -> (r: Number)
    requires
        e >= 0 || a@.num != 0,
    ensures
        r@ == rat_pow(a@, e as int),
{
    let sa = if a.negative { Sign::Minus } else { Sign::Plus };
    let x = BigRational::new(BigInt::from_slice(sa, &a.numer), BigInt::from_slice(Sign::Plus, &a.denom));
    let z = x.pow(e);
    let (s, n) = z.numer().to_u32_digits();
    Number { negative: s == Sign::Minus, numer: n, denom: z.denom().to_u32_digits().1 }
}

/// `Ratio::<BigInt>::floor` (num-rational): the largest integer not above
/// the value.
#[verifier::external_body]
pub(crate) fn big_floor(a: &Number) -> (r: Number)
    ensures
        r@ == rat_int(rat_floor(a@)),
{
    let sa = if a.negative { Sign::Minus } else { Sign::Plus };
    let x = BigRational::new_raw(BigInt::from_slice(sa, &a.numer), BigInt::from_slice(Sign::Plus, &a.denom));
    let z = x.floor();
    let (s, n) = z.numer().to_u32_digits();
    Number { negative: s == Sign::Minus, numer: n, denom: z.denom().to_u32_digits().1 }
}

/// `<` on `Ratio::<BigInt>` (num-rational), which compares values.
#[verifier::external_body]
pub(crate) fn big_lt(a: &Number, b: &Number) -> (r: bool)
    ensures
        r == rat_lt(a@, b@),
{
    let sa = if a.negative { Sign::Minus } else { Sign::Plus };
    let sb = if b.negative { Sign::Minus } else { Sign::Plus };
    let x = BigRational::new_raw(BigInt::from_slice(sa, &a.numer), BigInt::from_slice(Sign::Plus, &a.denom));
    let y = BigRational::new_raw(BigInt::from_slice(sb, &b.numer), BigInt::from_slice(Sign::Plus, &b.denom));
    x < y
}

/// `BigUint::sqrt` (num-bigint): the truncated square root of the digits'
/// value, as canonical digits.
#[verifier::external_body]
fn big_isqrt(d: &Vec<u32>) -> (r: Vec<u32>)
    ensures
        canonical(r@),
        digits_value(r@) * digits_value(r@) <= digits_value(d@),
        digits_value(d@) < (digits_value(r@) + 1) * (digits_value(r@) + 1),
{
    BigUint::from_slice(d).sqrt().to_u32_digits()
}

/// `Display` of `BigUint` (num-bigint): the decimal digits of the value.
#[verifier::external_body]
fn big_decimal(d: &Vec<u32>) -> (r: String)
    ensures
        r@ == decimal(digits_value(d@)),
{
    BigUint::from_slice(d).to_string()
}

// ---------------------------------------------------------------------------
// Derived operations
// ---------------------------------------------------------------------------

/// `n` is the square of a natural number.
pub open spec fn square(r: nat) -> int {
    (r * r) as int
}

pub open spec fn is_square(n: int) -> bool {
    exists|r: nat| #[trigger] square(r) == n
}

/// The natural square root of a perfect square.
pub open spec fn square_root(n: int) -> nat {
    choose|r: nat| #[trigger] square(r) == n
}

proof fn lemma_root_unique(a: nat, b: nat)
    requires
        a * a == b * b,
    ensures
        a == b,
{
    if a < b {
        assert(a * a < b * b) by (nonlinear_arith)
            requires
                a < b,
        ;
    } else if b < a {
        assert(b * b < a * a) by (nonlinear_arith)
            requires
                b < a,
        ;
    }
}

/// With `r` the truncated square root of `n`: `n` is a perfect square exactly
/// when `r * r == n`, and then `r` is its root.
proof fn lemma_truncated_root(n: nat, r: nat)
    requires
        r * r <= n,
        n < (r + 1) * (r + 1),
    ensures
        is_square(n as int) == (r * r == n),
        r * r == n ==> square_root(n as int) == r,
{
    if is_square(n as int) {
        let a = choose|a: nat| #[trigger] square(a) == n;
        if a < r {
            assert(a * a < r * r || a * a == r * r || a * a < n) by (nonlinear_arith)
                requires
                    a < r,
            ;
            assert(a + 1 <= r);
            assert((a + 1) * (a + 1) <= r * r) by (nonlinear_arith)
                requires
                    a + 1 <= r,
            ;
            assert(a * a < (a + 1) * (a + 1)) by (nonlinear_arith);
        } else if a > r {
            assert(r + 1 <= a);
            assert((r + 1) * (r + 1) <= a * a) by (nonlinear_arith)
                requires
                    r + 1 <= a,
            ;
        }
        assert(a == r);
    }
    if r * r == n {
        assert(square(r) == n);
        assert(is_square(n as int));
        let a = square_root(n as int);
        lemma_root_unique(a, r);
    }
}

proof fn lemma_normalize_integer(k: int)
    ensures
        normalize(k, 1) == rat_int(k),
{
    assert(gcd(1, 0) == 1);
    assert(gcd(abs(k), 1) == gcd(1, abs(k) % 1));
    assert(abs(k) % 1 == 0);
    assert(gcd(abs(k), 1) == 1);
    assert(k / 1 == k);
    assert(1int / 1 == 1);
}

/// The gcd divides both arguments: the cofactors are returned.
pub proof fn lemma_gcd_factors(a: nat, b: nat) -> (k: (int, int))
    ensures
        a == k.0 * gcd(a, b),
        b == k.1 * gcd(a, b),
    decreases b,
{
    if b == 0 {
        assert(a == 1 * a) by (nonlinear_arith);
        assert(0 == 0 * a) by (nonlinear_arith);
        (1, 0)
    } else {
        let r = (a % b) as nat;
        let (p, q) = lemma_gcd_factors(b, r);
        let g = gcd(b, r);
        assert(gcd(a, b) == g);
        vstd::arithmetic::div_mod::lemma_fundamental_div_mod(a as int, b as int);
        let t = (a / b) as int;
        assert(a == b * t + r);
        assert(a == (t * p + q) * g) by (nonlinear_arith)
            requires
                a == b * t + r,
                b == p * g,
                r == q * g,
        ;
        (t * p + q, p)
    }
}

/// A normalized fraction has the value of the fraction it was made from.
pub proof fn lemma_normalize_value(n: int, d: int)
    requires
        d > 0,
    ensures
        normalize(n, d).den > 0,
        normalize(n, d).num * d == n * normalize(n, d).den,
{
    if n != 0 {
        let (kn, kd) = lemma_gcd_factors(abs(n), abs(d));
        let g = gcd(abs(n), abs(d)) as int;
        assert(g > 0) by (nonlinear_arith)
            requires
                d == kd * g,
                d > 0,
                g >= 0,
        ;
        let sn: int = if n < 0 {
            -kn
        } else {
            kn
        };
        assert(abs(n) == kn * g);
        assert(n == sn * g) by (nonlinear_arith)
            requires
                abs(n) == kn * g,
                sn == (if n < 0 {
                    -kn
                } else {
                    kn
                }),
                n < 0 ==> abs(n) == -n,
                n >= 0 ==> abs(n) == n,
        ;
        assert(n / g == sn) by {
            vstd::arithmetic::div_mod::lemma_div_multiples_vanish(sn, g);
            assert(g * sn == sn * g) by (nonlinear_arith);
        }
        assert(d / g == kd) by {
            vstd::arithmetic::div_mod::lemma_div_multiples_vanish(kd, g);
            assert(g * kd == kd * g) by (nonlinear_arith);
        }
        assert(kd > 0) by (nonlinear_arith)
            requires
                d == kd * g,
                d > 0,
                g > 0,
        ;
        assert(sn * d == n * kd) by (nonlinear_arith)
            requires
                n == sn * g,
                d == kd * g,
        ;
    }
}

/// Every integer is in lowest terms over one.
pub proof fn lemma_gcd_one(n: nat)
    ensures
        gcd(n, 1) == 1,
{
    assert(n % 1 == 0);
    assert(gcd(1, 0) == 1);
}

/// Scaling both arguments scales the gcd.
pub proof fn lemma_gcd_scale(k: nat, a: nat, b: nat)
    requires
        k > 0,
    ensures
        gcd(k * a, k * b) == k * gcd(a, b),
    decreases b,
{
    if b == 0 {
        assert(k * b == 0) by (nonlinear_arith)
            requires
                b == 0,
        ;
    } else {
        let r = (a % b) as nat;
        vstd::arithmetic::div_mod::lemma_fundamental_div_mod(a as int, b as int);
        let q = (a / b) as int;
        assert(k * b > 0) by (nonlinear_arith)
            requires
                k > 0,
                b > 0,
        ;
        assert(k * a == q * (k * b) + k * r && 0 <= k * r < k * b) by (nonlinear_arith)
            requires
                a == b * q + r,
                0 <= r < b,
                k > 0,
        ;
        vstd::arithmetic::div_mod::lemma_fundamental_div_mod_converse(
            (k * a) as int,
            (k * b) as int,
            q,
            (k * r) as int,
        );
        assert(((k * a) as nat) % ((k * b) as nat) == k * r);
        lemma_gcd_scale(k, b, r);
    }
}

/// The reduced form of a fraction.
pub open spec fn reduced(q: Rat) -> bool {
    q.den > 0 && gcd(abs(q.num), q.den as nat) == 1
}

/// Two reduced fractions of the same value are the same fraction.
pub proof fn lemma_reduced_unique(a: Rat, b: Rat)
    requires
        reduced(a),
        reduced(b),
        a.num * b.den == b.num * a.den,
    ensures
        a == b,
{
    let p = abs(a.num);
    let q = a.den as nat;
    let r = abs(b.num);
    let t = b.den as nat;
    assert(p * t == r * q) by (nonlinear_arith)
        requires
            a.num * b.den == b.num * a.den,
            p == abs(a.num),
            r == abs(b.num),
            q == a.den,
            t == b.den,
            q > 0,
            t > 0,
    ;
    lemma_gcd_scale(t, p, q);
    lemma_gcd_scale(q, r, t);
    assert(t * p == q * r && t * q == q * t) by (nonlinear_arith)
        requires
            p * t == r * q,
    ;
    assert(t * gcd(p, q) == q * gcd(r, t));
    assert(t == q);
    assert(a.num == b.num) by (nonlinear_arith)
        requires
            a.num * b.den == b.num * a.den,
            a.den == b.den,
            a.den > 0,
    ;
}

/// The product of two integers is the integer of their product.
pub proof fn lemma_rat_mul_int(a: int, b: int)
    ensures
        rat_mul(rat_int(a), rat_int(b)) == rat_int(a * b),
{
    assert(1int * 1int == 1) by (nonlinear_arith);
    lemma_normalize_integer(a * b);
}

impl Number {
    /// The natural number with the given canonical digits.
    fn from_digits(numer: Vec<u32>) -> (r: Number)
        requires
            canonical(numer@),
        ensures
            r@ == rat_int(digits_value(numer@) as int),
    {
        let denom = u64_digits(1);
        proof {
            lemma_canonical_value_zero(numer@);
            lemma_canonical_value_zero(denom@);
            lemma_gcd_one(digits_value(numer@));
        }
        Number { negative: false, numer, denom }
    }

    /// The reduced fraction `n / d`; `None` when `d` is zero.
    pub fn ratio(n: i64, d: u64) -> (r: Option<Number>)
        ensures
            d == 0 <==> r is None,
            r matches Some(x) ==> x@ == normalize(n as int, d as int),
    {
        if d == 0 {
            return None;
        }
        let magnitude: u64 = if n < 0 {
            if n == i64::MIN {
                0x8000_0000_0000_0000u64
            } else {
                (-n) as u64
            }
        } else {
            n as u64
        };
        let numer = u64_digits(magnitude);
        let denom = u64_digits(d);
        Some(big_reduce(n < 0, &numer, &denom))
    }

    /// Exact square root: the reduced fraction of the roots of numerator and
    /// denominator when both are perfect squares and the value is not
    /// negative.
    pub fn sqrt_exact(&self) -> (r: Option<Number>)
        ensures
            r is Some <==> (self@.num >= 0 && is_square(self@.num) && is_square(self@.den)),
            r matches Some(x) ==> x@ == normalize(
                square_root(self@.num) as int,
                square_root(self@.den) as int,
            ),
    {
        proof {
            use_type_invariant(self);
            lemma_canonical_value_zero(self.numer@);
            lemma_canonical_value_zero(self.denom@);
        }
        if self.negative {
            return None;
        }
        let numer_root = big_isqrt(&self.numer);
        let denom_root = big_isqrt(&self.denom);
        proof {
            lemma_truncated_root(digits_value(self.numer@), digits_value(numer_root@));
            lemma_truncated_root(digits_value(self.denom@), digits_value(denom_root@));
        }
        let numer_int = Number::from_digits(numer_root.clone());
        let denom_int = Number::from_digits(denom_root.clone());
        let numer_back = big_mul(&numer_int, &numer_int);
        let denom_back = big_mul(&denom_int, &denom_int);
        let numer_self = self.numerator();
        let denom_self = self.denominator();
        proof {
            let vn = digits_value(numer_root@) as int;
            let vd = digits_value(denom_root@) as int;
            lemma_normalize_integer(vn * vn);
            lemma_normalize_integer(vd * vd);
            assert(numer_int@ == rat_int(vn));
            assert(rat_int(vn).num * rat_int(vn).num == vn * vn);
            assert(rat_int(vn).den == 1);
            assert(rat_int(vn).den * rat_int(vn).den == 1) by (nonlinear_arith)
                requires
                    rat_int(vn).den == 1,
            ;
            assert(rat_int(vd).den * rat_int(vd).den == 1) by (nonlinear_arith)
                requires
                    rat_int(vd).den == 1,
            ;
            assert(numer_back@ == rat_int(vn * vn));
            assert(denom_back@ == rat_int(vd * vd));
            assert(numer_self@ == rat_int(digits_value(self.numer@) as int));
            assert(denom_self@ == rat_int(digits_value(self.denom@) as int));
            assert(is_square(self@.num) == (vn * vn == self@.num));
            assert(is_square(self@.den) == (vd * vd == self@.den));
        }
        if !numer_back.equals(&numer_self) || !denom_back.equals(&denom_self) {
            return None;
        }
        proof {
            let vd = digits_value(denom_root@);
            if vd == 0 {
                assert(vd * vd == 0);
            }
        }
        Some(big_reduce(false, &numer_root, &denom_root))
    }

    /// The value as a machine integer, when it is a non-negative integer that
    /// fits in 64 bits.
    pub fn to_u64(&self) -> (r: Option<u64>)
        ensures
            r matches Some(v) ==> self@ == rat_int(v as int),
            (self@.den == 1 && 0 <= self@.num <= u64::MAX) ==> r is Some,
    {
        proof {
            use_type_invariant(self);
            lemma_value_small(self.numer@);
            lemma_value_small(self.denom@);
        }
        if !self.is_integer() || self.negative || self.numer.len() > 2 {
            proof {
                if self.numer@.len() > 2 {
                    let d = self.numer@;
                    let rest = d.subrange(1, d.len() as int);
                    assert(rest.last() == d.last());
                    lemma_value_small(rest);
                    let vr = digits_value(rest);
                    assert(vr >= base());
                    assert(digits_value(d) >= base() * base()) by (nonlinear_arith)
                        requires
                            digits_value(d) == d[0] as nat + base() * vr,
                            vr >= base(),
                    ;
                }
            }
            return None;
        }
        if self.numer.len() == 0 {
            return Some(0);
        }
        if self.numer.len() == 1 {
            return Some(self.numer[0] as u64);
        }
        let lo = self.numer[0] as u64;
        let hi = self.numer[1] as u64;
        proof {
            let d = self.numer@;
            let rest = d.subrange(1, 2);
            assert(rest =~= seq![d[1]]);
            lemma_value_small(rest);
            assert(digits_value(d) == lo + base() * hi);
        }
        Some(lo + hi * 0x1_0000_0000)
    }

    /// The printed form: `-`, numerator, and `/denominator` unless the
    /// denominator is one.
    pub fn to_text(&self) -> (r: String)
        ensures
            r@ == rat_text(self@),
    {
        proof {
            use_type_invariant(self);
            lemma_canonical_value_zero(self.numer@);
            lemma_canonical_value_zero(self.denom@);
            reveal_strlit("-");
            reveal_strlit("/");
        }
        let ghost sign = if self@.num < 0 {
            seq!['-']
        } else {
            Seq::<char>::empty()
        };
        let mut out = String::new();
        if self.negative {
            out.append("-");
        }
        assert(out@ =~= sign);
        let numer_text = big_decimal(&self.numer);
        out.append(numer_text.as_str());
        assert(abs(self@.num) == digits_value(self.numer@));
        assert(out@ =~= sign + decimal(abs(self@.num)));
        if self.is_integer() {
            return out;
        }
        out.append("/");
        let denom_text = big_decimal(&self.denom);
        out.append(denom_text.as_str());
        assert(abs(self@.den) == digits_value(self.denom@));
        assert(out@ =~= sign + decimal(abs(self@.num)) + seq!['/'] + decimal(abs(self@.den)));
        out
    }
}

} // verus!
