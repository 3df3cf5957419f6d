//! Arbitrary-precision signed integers whose arithmetic is carried out by dashu.
use vstd::arithmetic::power::pow;
use vstd::prelude::*;
use dashu::base::SquareRoot;
use dashu::base::Sign;
use dashu::integer::{IBig, UBig};

verus! {

/// The natural number whose base-256 digits are `s`, least significant first.
pub open spec fn le_value(s: Seq<u8>) -> nat
    decreases s.len(),
{
    if s.len() == 0 {
        0
    } else {
        le_value(s.drop_last()) + pow(256, (s.len() - 1) as nat) as nat * s.last() as nat
    }
}

/// The decimal digits of `n`, most significant first, with no leading zero.
pub open spec fn decimal(n: nat) -> Seq<char>
    decreases n,
{
    if n < 10 {
        seq![(('0' as u8) + n as u8) as char]
    } else {
        decimal(n / 10) + seq![(('0' as u8) + (n % 10) as u8) as char]
    }
}

/// The decimal form of `v`, with a leading `-` when it is negative.
pub open spec fn signed_decimal(v: int) -> Seq<char> {
    if v < 0 {
        seq!['-'] + decimal((-v) as nat)
    } else {
        decimal(v as nat)
    }
}

/// Division that rounds toward zero.
pub open spec fn trunc_div(x: int, y: int) -> int {
    let q = (if x < 0 { -x } else { x }) / (if y < 0 { -y } else { y });
    if (x < 0) == (y < 0) {
        q
    } else {
        -q
    }
}

/// Relies on `UBig::from_le_bytes`, `UBig * UBig` and `UBig::to_le_bytes`: the exact product.
#[verifier::external_body]
fn mag_mul(a: &Vec<u8>, b: &Vec<u8>) -> (r: Vec<u8>)
    ensures
        le_value(r@) == le_value(a@) * le_value(b@),
{
    (UBig::from_le_bytes(a) * UBig::from_le_bytes(b)).to_le_bytes().into_vec()
}

/// Relies on `UBig + UBig` (with the byte conversions of `UBig`): the exact sum.
#[verifier::external_body]
fn mag_add(a: &Vec<u8>, b: &Vec<u8>) -> (r: Vec<u8>)
    ensures
        le_value(r@) == le_value(a@) + le_value(b@),
{
    (UBig::from_le_bytes(a) + UBig::from_le_bytes(b)).to_le_bytes().into_vec()
}

/// Relies on `UBig - UBig` (with the byte conversions of `UBig`): the exact difference,
/// which panics when it would be negative, so the minuend must be the larger.
#[verifier::external_body]
fn mag_sub(a: &Vec<u8>, b: &Vec<u8>) -> (r: Vec<u8>)
    requires
        le_value(a@) >= le_value(b@),
    ensures
        le_value(r@) == le_value(a@) - le_value(b@),
{
    (UBig::from_le_bytes(a) - UBig::from_le_bytes(b)).to_le_bytes().into_vec()
}

/// Relies on `UBig`'s `<`: the numeric order of two magnitudes.
#[verifier::external_body]
fn mag_lt(a: &Vec<u8>, b: &Vec<u8>) -> (r: bool)
    ensures
        r == (le_value(a@) < le_value(b@)),
{
    UBig::from_le_bytes(a) < UBig::from_le_bytes(b)
}

/// Relies on `UBig / UBig`: the quotient rounded down; it panics on a zero divisor.
#[verifier::external_body]
fn mag_div(a: &Vec<u8>, b: &Vec<u8>) -> (r: Vec<u8>)
    requires
        le_value(b@) != 0,
    ensures
        le_value(r@) == le_value(a@) / le_value(b@),
{
    (UBig::from_le_bytes(a) / UBig::from_le_bytes(b)).to_le_bytes().into_vec()
}

/// Relies on `UBig::pow`: the exact power.
#[verifier::external_body]
fn mag_pow(a: &Vec<u8>, e: usize) -> (r: Vec<u8>)
    ensures
        le_value(r@) == pow(le_value(a@) as int, e as nat),
{
    UBig::from_le_bytes(a).pow(e).to_le_bytes().into_vec()
}

/// Relies on `SquareRoot::sqrt` of `UBig`, which rounds toward zero: the result `r`
/// has `r * r <= a < (r + 1) * (r + 1)`.
#[verifier::external_body]
fn mag_sqrt(a: &Vec<u8>) -> (r: Vec<u8>)
    ensures
        le_value(r@) * le_value(r@) <= le_value(a@),
        le_value(a@) < (le_value(r@) + 1) * (le_value(r@) + 1),
{
    UBig::from_le_bytes(a).sqrt().to_le_bytes().into_vec()
}

/// Relies on the `Display` of `IBig`: decimal digits, after a `-` for a negative value.
#[verifier::external_body]
fn signed_to_decimal(neg: bool, a: &Vec<u8>) -> (r: String)
    ensures
        r@ == signed_decimal(if neg { -le_value(a@) } else { le_value(a@) as int }),
{
    let sign = if neg { Sign::Negative } else { Sign::Positive };
    IBig::from_parts(sign, UBig::from_le_bytes(a)).to_string()
}

proof fn lemma_le_value_push(s: Seq<u8>, d: u8)
    ensures
        le_value(s.push(d)) == le_value(s) + pow(256, s.len()) * d,
{
    assert(s.push(d).drop_last() =~= s);
    vstd::arithmetic::power::lemma_pow_positive(256, s.len());
    assert(le_value(s.push(d)) == le_value(s) + pow(256, s.len()) as nat * d as nat);
}

/// An arbitrary-precision signed integer: a sign and a magnitude held as
/// little-endian base-256 digits.
pub struct BigInt {
    neg: bool,
    mag: Vec<u8>,
}

impl View for BigInt {
    type V = int;

    closed spec fn view(&self) -> int {
        if self.neg {
            -le_value(self.mag@)
        } else {
            le_value(self.mag@) as int
        }
    }
}

impl BigInt {
    /// The integer `v`.
    pub fn from_u128(v: u128) -> (r: BigInt)
        ensures
            r@ == v as int,
    {
        let mut mag: Vec<u8> = Vec::new();
        let mut x: u128 = v;
        proof {
            vstd::arithmetic::power::lemma_pow0(256);
            assert(le_value(mag@) == 0);
        }
        while x > 0
            invariant
                v as int == le_value(mag@) + pow(256, mag@.len()) * x,
            decreases x,
        {
            let d: u8 = (x % 256) as u8;
            proof {
                lemma_le_value_push(mag@, d);
                let p = pow(256, mag@.len());
                vstd::arithmetic::power::lemma_pow1(256);
                vstd::arithmetic::power::lemma_pow_adds(256, mag@.len(), 1);
                assert(p * x == p * (x % 256) + (p * 256) * (x / 256)) by (nonlinear_arith);
            }
            mag.push(d);
            x = x / 256;
        }
        BigInt { neg: false, mag }
    }

    /// The integer `v`.
    pub fn from_u64(v: u64) -> (r: BigInt)
        ensures
            r@ == v as int,
    {
        BigInt::from_u128(v as u128)
    }

    /// A copy of this integer.
    pub fn copy(&self) -> (r: BigInt)
        ensures
            r@ == self@,
    {
        BigInt { neg: self.neg, mag: self.mag.clone() }
    }

    /// The integer `-self`.
    pub fn neg(&self) -> (r: BigInt)
        ensures
            r@ == -self@,
    {
        BigInt { neg: !self.neg, mag: self.mag.clone() }
    }

    /// Whether this integer is below zero.
    pub fn is_negative(&self) -> (r: bool)
        ensures
            r == (self@ < 0),
    {
        let zero: Vec<u8> = Vec::new();
        proof {
            assert(le_value(zero@) == 0);
        }
        self.neg && mag_lt(&zero, &self.mag)
    }

    /// The exact product `self * o`.
    pub fn mul(&self, o: &BigInt) -> (r: BigInt)
        ensures
            r@ == self@ * o@,
    {
        let mag = mag_mul(&self.mag, &o.mag);
        let r = BigInt { neg: self.neg != o.neg, mag };
        proof {
            let x = le_value(self.mag@) as int;
            let y = le_value(o.mag@) as int;
            assert((-x) * y == -(x * y)) by (nonlinear_arith);
            assert(x * (-y) == -(x * y)) by (nonlinear_arith);
            assert((-x) * (-y) == x * y) by (nonlinear_arith);
        }
        r
    }

    /// The exact sum `self + o`.
    pub fn add(&self, o: &BigInt) -> (r: BigInt)
        ensures
            r@ == self@ + o@,
    {
        if self.neg == o.neg {
            BigInt { neg: self.neg, mag: mag_add(&self.mag, &o.mag) }
        } else if mag_lt(&self.mag, &o.mag) {
            BigInt { neg: o.neg, mag: mag_sub(&o.mag, &self.mag) }
        } else {
            BigInt { neg: self.neg, mag: mag_sub(&self.mag, &o.mag) }
        }
    }

    /// The quotient `self / o`, rounded toward zero.
    pub fn div(&self, o: &BigInt) -> (r: BigInt)
        requires
            o@ != 0,
        ensures
            r@ == trunc_div(self@, o@),
    {
        let mag = mag_div(&self.mag, &o.mag);
        let r = BigInt { neg: self.neg != o.neg, mag };
        proof {
            let x = le_value(self.mag@) as int;
            let y = le_value(o.mag@) as int;
            if x == 0 {
                assert(0int / y == 0) by (nonlinear_arith)
                    requires y > 0;
            }
        }
        r
    }

    /// The power `self` to the `e`.
    pub fn pow(&self, e: usize) -> (r: BigInt)
        ensures
            r@ == pow(self@, e as nat),
    {
        let mag = mag_pow(&self.mag, e);
        let r = BigInt { neg: self.neg && e % 2 == 1, mag };
        proof {
            let x = le_value(self.mag@) as int;
            lemma_pow_neg(x, e as nat);
        }
        r
    }

    /// The square root of `self`, rounded down.
    pub fn isqrt(&self) -> (r: BigInt)
        requires
            self@ >= 0,
        ensures
            r@ >= 0,
            r@ * r@ <= self@,
            self@ < (r@ + 1) * (r@ + 1),
    {
        let mag = mag_sqrt(&self.mag);
        proof {
            if self.neg {
                assert(le_value(self.mag@) == 0);
                let s = le_value(mag@);
                assert(s * s < 1);
                assert(s == 0) by (nonlinear_arith)
                    requires s * s < 1, s >= 0;
            }
        }
        BigInt { neg: false, mag }
    }

    /// The decimal form of this integer, with a leading `-` when it is negative.
    pub fn to_decimal(&self) -> (r: String)
        ensures
            r@ == signed_decimal(self@),
    {
        let neg = self.is_negative();
        signed_to_decimal(neg, &self.mag)
    }
}

proof fn lemma_pow_neg(x: int, e: nat)
    ensures
        pow(-x, e) == if e % 2 == 1 { -pow(x, e) } else { pow(x, e) },
    decreases e,
{
    vstd::arithmetic::power::lemma_pow0(x);
    vstd::arithmetic::power::lemma_pow0(-x);
    if e > 0 {
        lemma_pow_neg(x, (e - 1) as nat);
        vstd::arithmetic::power::lemma_pow_adds(x, (e - 1) as nat, 1);
        vstd::arithmetic::power::lemma_pow_adds(-x, (e - 1) as nat, 1);
        vstd::arithmetic::power::lemma_pow1(x);
        vstd::arithmetic::power::lemma_pow1(-x);
        let a = pow(x, (e - 1) as nat);
        assert((-a) * (-x) == a * x) by (nonlinear_arith);
        assert(a * (-x) == -(a * x)) by (nonlinear_arith);
    }
}

} // verus!
