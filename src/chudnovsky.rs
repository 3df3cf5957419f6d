//! The binary-splitting recursion of the Chudnovsky series and the
//! reconstruction of pi from its result.
use vstd::arithmetic::power::pow;
use vstd::prelude::*;
use crate::bigint::BigInt;

verus! {

/// Constant term of the series' linear factor.
pub const SERIES_A: u64 = 13591409;

/// Slope of the series' linear factor.
pub const SERIES_B: u64 = 545140134;

/// The base of the series' denominator, 640320.
pub const SERIES_C: u64 = 640320;

/// The factor in front of the series' square root, 426880.
pub const SERIES_D: u64 = 426880;

/// The radicand of the series' square root, 10005.
pub const SERIES_E: u64 = 10005;

/// 640320 cubed, over 24.
pub const C3_24: u64 = 10939058860032000;

/// Decimal digits gained per term, log10(C3_24 / 12) = 14.1816474627254776555...,
/// as the fraction `DIGITS_PER_TERM_NUM / DIGITS_PER_TERM_DEN`.
pub const DIGITS_PER_TERM_NUM: u128 = 141816474627254776555;

/// See `DIGITS_PER_TERM_NUM`.
pub const DIGITS_PER_TERM_DEN: u128 = 10000000000000000000;

/// Why a computation of pi was refused.
#[derive(Debug, Clone, Copy, PartialEq, Eq, Structural)]
pub enum PiError {
    /// The requested number of digits is not positive.
    InvalidInput,
}

/// The numerator growth `p(k)` of term `k`.
pub open spec fn term_p(k: int) -> int {
    (6 * k - 5) * (2 * k - 1) * (6 * k - 1)
}

/// The denominator growth `q(k)` of term `k`.
pub open spec fn term_q(k: int, c3_24: int) -> int {
    k * k * k * c3_24
}

/// The signed numerator of term `k`: `(A + B k) p(k)`, negated for odd `k`.
pub open spec fn term_t(k: int) -> int {
    if k % 2 == 1 {
        -((SERIES_A as int + SERIES_B as int * k) * term_p(k))
    } else {
        (SERIES_A as int + SERIES_B as int * k) * term_p(k)
    }
}

/// The triplet `(P, Q, T)` of the one-term range `[k, k + 1)`.
pub open spec fn leaf(k: int, c3_24: int) -> (int, int, int) {
    if k == 0 {
        (1, 1, 1)
    } else {
        (term_p(k), term_q(k, c3_24), term_t(k))
    }
}

/// The triplet of `[a, b)` from those of `[a, m)` and `[m, b)`.
pub open spec fn merge(l: (int, int, int), r: (int, int, int)) -> (int, int, int) {
    (l.0 * r.0, l.1 * r.1, r.1 * l.2 + l.0 * r.2)
}

/// The triplet `(P, Q, T)` of `[a, b)`, split at the midpoint.
pub open spec fn split(a: int, b: int, c3_24: int) -> (int, int, int)
    decreases b - a,
{
    if b - a <= 1 {
        leaf(a, c3_24)
    } else {
        let m = (a + b) / 2;
        merge(split(a, m, c3_24), split(m, b, c3_24))
    }
}

/// The triplet of `[a, b)`, built one term at a time from the left end.
pub open spec fn fold_terms(a: int, b: int, c3_24: int) -> (int, int, int)
    decreases b - a,
{
    if b - a <= 1 {
        leaf(a, c3_24)
    } else {
        merge(fold_terms(a, b - 1, c3_24), leaf(b - 1, c3_24))
    }
}

/// The number of terms that `digits` decimal digits need.
pub open spec fn terms_for(digits: int) -> int {
    digits * (DIGITS_PER_TERM_DEN as int) / (DIGITS_PER_TERM_NUM as int) + 1
}

/// Whether `r` is the square root of `n` rounded down.
pub open spec fn is_floor_sqrt(r: int, n: int) -> bool {
    0 <= r && r * r <= n && n < (r + 1) * (r + 1)
}

/// The square root of `n >= 0`, rounded down.
pub open spec fn floor_sqrt(n: int) -> int {
    choose|r: int| is_floor_sqrt(r, n)
}

/// The divisor of the final combination: `T + (A - 1) Q`. The one-term range
/// `[0, 1)` carries `T = 1` in the place of the series' zeroth term `A`, and this
/// puts the difference back.
pub open spec fn pi_divisor(s: (int, int, int)) -> int {
    s.2 + (SERIES_A as int - 1) * s.1
}

/// `floor(pi * 10^digits)` as the series of `terms_for(digits)` terms gives it.
pub open spec fn pi_digits_value(digits: int) -> int {
    let s = split(0, terms_for(digits), C3_24 as int);
    let root = floor_sqrt(SERIES_E as int * pow(10, (2 * digits) as nat));
    (s.1 * SERIES_D as int * root) / pi_divisor(s)
}

proof fn lemma_merge_assoc(x: (int, int, int), y: (int, int, int), z: (int, int, int))
    ensures
        merge(merge(x, y), z) == merge(x, merge(y, z)),
{
    let (x0, x1, x2) = x;
    let (y0, y1, y2) = y;
    let (z0, z1, z2) = z;
    assert(x0 * y0 * z0 == x0 * (y0 * z0)) by (nonlinear_arith);
    assert(x1 * y1 * z1 == x1 * (y1 * z1)) by (nonlinear_arith);
    assert(z1 * (y1 * x2 + x0 * y2) == z1 * y1 * x2 + z1 * x0 * y2) by (nonlinear_arith);
    assert(x0 * (z1 * y2 + y0 * z2) == x0 * z1 * y2 + x0 * y0 * z2) by (nonlinear_arith);
    assert(z1 * y1 * x2 == y1 * z1 * x2) by (nonlinear_arith);
    assert(z1 * x0 * y2 == x0 * z1 * y2) by (nonlinear_arith);
}

proof fn lemma_fold_merge(a: int, m: int, b: int, c: int)
    requires
        a < m < b,
    ensures
        fold_terms(a, b, c) == merge(fold_terms(a, m, c), fold_terms(m, b, c)),
    decreases b - m,
{
    if b - m > 1 {
        lemma_fold_merge(a, m, b - 1, c);
        lemma_merge_assoc(fold_terms(a, m, c), fold_terms(m, b - 1, c), leaf(b - 1, c));
    }
}

proof fn lemma_split_is_fold(a: int, b: int, c: int)
    requires
        a < b,
    ensures
        split(a, b, c) == fold_terms(a, b, c),
    decreases b - a,
{
    if b - a > 1 {
        let m = (a + b) / 2;
        lemma_split_is_fold(a, m, c);
        lemma_split_is_fold(m, b, c);
        lemma_fold_merge(a, m, b, c);
    }
}

/// Splitting `[a, b)` at any inner point `m` and merging the two halves gives
/// exactly the triplet of `[a, b)`.
pub proof fn lemma_split_merge(a: int, m: int, b: int, c3_24: int)
    requires
        0 <= a < m < b,
    ensures
        split(a, b, c3_24) == merge(split(a, m, c3_24), split(m, b, c3_24)),
{
    lemma_split_is_fold(a, b, c3_24);
    lemma_split_is_fold(a, m, c3_24);
    lemma_split_is_fold(m, b, c3_24);
    lemma_fold_merge(a, m, b, c3_24);
}

spec fn abs(x: int) -> int {
    if x < 0 {
        -x
    } else {
        x
    }
}

/// The partial sums stay within a half of the zeroth term `A`: with `(P, Q, T)` the
/// triplet of `[0, b)`, `|T - Q| / Q` (the sum of the terms after the zeroth) and
/// twice the next term's size stay under one half.
spec fn tail_bound(b: int) -> bool {
    let s = fold_terms(0, b, C3_24 as int);
    let q = term_q(b, C3_24 as int);
    let w = SERIES_A as int + SERIES_B as int * b;
    &&& s.0 > 0
    &&& s.1 > 0
    &&& 2 * q * abs(s.2 - s.1) + 4 * w * s.0 * term_p(b) <= q * s.1
}

proof fn lemma_term_ratio(b: int)
    requires
        b >= 1,
    ensures
        term_p(b) > 0,
        term_q(b, C3_24 as int) > 0,
        2 * (SERIES_A as int + SERIES_B as int * (b + 1)) * term_p(b + 1) <= (SERIES_A as int
            + SERIES_B as int * b) * term_q(b + 1, C3_24 as int),
{
    let k = b + 1;
    let c = C3_24 as int;
    let w = SERIES_A as int + SERIES_B as int * b;
    let w2 = SERIES_A as int + SERIES_B as int * k;
    assert(term_p(b) > 0) by (nonlinear_arith)
        requires
            b >= 1,
            term_p(b) == (6 * b - 5) * (2 * b - 1) * (6 * b - 1),
    ;
    assert(b * b * b * c > 0) by (nonlinear_arith)
        requires
            b >= 1,
            c > 0,
    ;
    assert(term_p(k) <= 72 * (k * k * k)) by (nonlinear_arith)
        requires
            k >= 2,
            term_p(k) == (6 * k - 5) * (2 * k - 1) * (6 * k - 1),
    ;
    assert(term_p(k) > 0) by (nonlinear_arith)
        requires
            k >= 1,
            term_p(k) == (6 * k - 5) * (2 * k - 1) * (6 * k - 1),
    ;
    assert(w2 <= 2 * w);
    assert(2 * w2 * term_p(k) <= w * (k * k * k * c)) by (nonlinear_arith)
        requires
            w2 <= 2 * w,
            w > 0,
            w2 > 0,
            term_p(k) <= 72 * (k * k * k),
            term_p(k) > 0,
            k >= 2,
            c >= 288,
    ;
}

proof fn lemma_tail_step(
    pp: int,
    qq: int,
    tt: int,
    p: int,
    q: int,
    t: int,
    w: int,
    p2: int,
    q2: int,
    w2: int,
)
    requires
        pp > 0,
        qq > 0,
        p > 0,
        q > 0,
        w > 0,
        q2 > 0,
        w2 > 0,
        p2 >= 0,
        abs(t) == w * p,
        2 * q * abs(tt - qq) + 4 * w * pp * p <= q * qq,
        2 * w2 * p2 <= w * q2,
    ensures
        pp * p > 0,
        qq * q > 0,
        2 * q2 * abs((q * tt + pp * t) - qq * q) + 4 * w2 * (pp * p) * p2 <= q2 * (qq * q),
{
    let d = tt - qq;
    let d2 = (q * tt + pp * t) - qq * q;
    assert(pp * p > 0) by (nonlinear_arith)
        requires
            pp > 0,
            p > 0,
    ;
    assert(qq * q > 0) by (nonlinear_arith)
        requires
            qq > 0,
            q > 0,
    ;
    assert(d2 == q * d + pp * t) by (nonlinear_arith)
        requires
            d == tt - qq,
            d2 == (q * tt + pp * t) - qq * q,
    ;
    assert(abs(q * d) == q * abs(d)) by (nonlinear_arith)
        requires
            q > 0,
    ;
    assert(abs(pp * t) == pp * (w * p)) by (nonlinear_arith)
        requires
            pp > 0,
            abs(t) == w * p,
    ;
    assert(abs(d2) <= q * abs(d) + pp * w * p) by (nonlinear_arith)
        requires
            d2 == q * d + pp * t,
            abs(q * d) == q * abs(d),
            abs(pp * t) == pp * (w * p),
    ;
    assert(2 * q2 * abs(d2) <= 2 * q2 * (q * abs(d)) + 2 * q2 * (pp * w * p)) by (nonlinear_arith)
        requires
            abs(d2) <= q * abs(d) + pp * w * p,
            q2 > 0,
    ;
    assert(q2 * (2 * q * abs(d)) + q2 * (4 * w * pp * p) <= q2 * (q * qq)) by (nonlinear_arith)
        requires
            2 * q * abs(d) + 4 * w * pp * p <= q * qq,
            q2 > 0,
    ;
    assert(4 * w2 * (pp * p) * p2 <= 2 * (pp * p) * (w * q2)) by (nonlinear_arith)
        requires
            2 * w2 * p2 <= w * q2,
            pp * p > 0,
    ;
    assert(2 * q2 * (q * abs(d)) == q2 * (2 * q * abs(d))) by (nonlinear_arith);
    assert(q2 * (4 * w * pp * p) == 2 * (2 * q2 * (pp * w * p))) by (nonlinear_arith);
    assert(2 * (pp * p) * (w * q2) == 2 * q2 * (pp * w * p)) by (nonlinear_arith);
    assert(q2 * (q * qq) == q2 * (qq * q)) by (nonlinear_arith);
}

proof fn lemma_tail_bound(b: int)
    requires
        b >= 1,
    ensures
        tail_bound(b),
    decreases b,
{
    lemma_term_ratio(b);
    if b == 1 {
        assert(term_p(1) == 5) by (nonlinear_arith)
            requires
                term_p(1) == (6 * 1 - 5) * (2 * 1 - 1) * (6 * 1 - 1),
        ;
        assert(term_q(1, C3_24 as int) == C3_24) by (nonlinear_arith)
            requires
                term_q(1, C3_24 as int) == 1 * 1 * 1 * (C3_24 as int),
        ;
        let w = SERIES_A as int + SERIES_B as int * 1;
        let q = term_q(1, C3_24 as int);
        assert(2 * q * abs(1 - 1) + 4 * w * 1 * term_p(1) <= q * 1) by (nonlinear_arith)
            requires
                w == 558731543,
                q == 10939058860032000,
                term_p(1) == 5,
        ;
    } else {
        let k = b - 1;
        lemma_tail_bound(k);
        lemma_term_ratio(k);
        let s = fold_terms(0, k, C3_24 as int);
        let w = SERIES_A as int + SERIES_B as int * k;
        assert(abs(term_t(k)) == w * term_p(k));
        lemma_tail_step(
            s.0,
            s.1,
            s.2,
            term_p(k),
            term_q(k, C3_24 as int),
            term_t(k),
            w,
            term_p(b),
            term_q(b, C3_24 as int),
            SERIES_A as int + SERIES_B as int * b,
        );
    }
}

/// The divisor of the final combination is positive, as is `Q`, for every
/// non-empty range of terms from zero.
pub proof fn lemma_divisor_positive(b: int)
    requires
        b >= 1,
    ensures
        split(0, b, C3_24 as int).1 > 0,
        pi_divisor(split(0, b, C3_24 as int)) > 0,
{
    lemma_tail_bound(b);
    lemma_split_is_fold(0, b, C3_24 as int);
    lemma_term_ratio(b);
    let s = split(0, b, C3_24 as int);
    let q = term_q(b, C3_24 as int);
    let w = SERIES_A as int + SERIES_B as int * b;
    assert(4 * w * s.0 * term_p(b) >= 0) by (nonlinear_arith)
        requires
            w > 0,
            s.0 > 0,
            term_p(b) > 0,
    ;
    assert(2 * abs(s.2 - s.1) <= s.1) by (nonlinear_arith)
        requires
            2 * q * abs(s.2 - s.1) <= q * s.1,
            q > 0,
    ;
}

proof fn lemma_floor_sqrt_unique(r: int, n: int)
    requires
        is_floor_sqrt(r, n),
    ensures
        floor_sqrt(n) == r,
{
    let s = floor_sqrt(n);
    assert(is_floor_sqrt(s, n));
    if s < r {
        assert((s + 1) * (s + 1) <= r * r) by (nonlinear_arith)
            requires
                0 <= s < r,
        ;
    } else if r < s {
        assert((r + 1) * (r + 1) <= s * s) by (nonlinear_arith)
            requires
                0 <= r < s,
        ;
    }
}

proof fn lemma_cube(x: int)
    ensures
        pow(x, 3) == x * x * x,
{
    vstd::arithmetic::power::lemma_pow1(x);
    vstd::arithmetic::power::lemma_pow_adds(x, 1, 1);
    vstd::arithmetic::power::lemma_pow_adds(x, 2, 1);
}

/// The triplet `(P, Q, T)` of the terms `[a, b)`, by binary splitting at the midpoint.
pub fn with_pqt(a: u64, b: u64, c3_24: &BigInt) -> (r: (BigInt, BigInt, BigInt))
    requires
        a < b,
    ensures
        (r.0@, r.1@, r.2@) == split(a as int, b as int, c3_24@),
    decreases b - a,
{
    if b - a == 1 {
        if a == 0 {
            (BigInt::from_u64(1), BigInt::from_u64(1), BigInt::from_u64(1))
        } else {
            let k = a as u128;
            assert(SERIES_B as u128 * k <= 0x1_0000_0000_0000_0000_0000_0000) by (nonlinear_arith)
                requires
                    k < 0x1_0000_0000_0000_0000,
            ;
            let pab = BigInt::from_u128(6 * k - 5).mul(&BigInt::from_u128(2 * k - 1)).mul(
                &BigInt::from_u128(6 * k - 1),
            );
            let qab = BigInt::from_u64(a).pow(3).mul(c3_24);
            let tab = pab.mul(&BigInt::from_u128(SERIES_A as u128 + SERIES_B as u128 * k));
            proof {
                lemma_cube(a as int);
                let w = SERIES_A as int + SERIES_B as int * a;
                assert(pab@ * w == w * term_p(a as int)) by (nonlinear_arith)
                    requires
                        pab@ == term_p(a as int),
                ;
            }
            if a % 2 == 1 {
                (pab, qab, tab.neg())
            } else {
                (pab, qab, tab)
            }
        }
    } else {
        let m = a + (b - a) / 2;
        let (pam, qam, tam) = with_pqt(a, m, c3_24);
        let (pmb, qmb, tmb) = with_pqt(m, b, c3_24);
        let pab = pam.mul(&pmb);
        let qab = qam.mul(&qmb);
        let tab = qmb.mul(&tam).add(&pam.mul(&tmb));
        (pab, qab, tab)
    }
}

/// The number of terms that `digits` decimal digits need:
/// `floor(digits / digits_per_term) + 1`.
pub fn term_count(digits: u32) -> (n: u64)
    ensures
        n == terms_for(digits as int),
        n >= 1,
{
    let scaled: u128 = (digits as u128) * DIGITS_PER_TERM_DEN;
    let q: u128 = scaled / DIGITS_PER_TERM_NUM;
    proof {
        let d = digits as int;
        let den = DIGITS_PER_TERM_DEN as int;
        let num = DIGITS_PER_TERM_NUM as int;
        assert(d * den / num <= d) by (nonlinear_arith)
            requires
                0 <= d,
                0 < den <= num,
        ;
    }
    (q + 1) as u64
}

/// `floor(pi * 10^digits)`, by the series of `terms_for(digits)` terms; refused
/// when `digits` is not positive.
pub fn pi_chudnovsky_bs(digits: i32) -> (r: Result<BigInt, PiError>)
    ensures
        digits <= 0 <==> r == Err::<BigInt, PiError>(PiError::InvalidInput),
        digits > 0 ==> r is Ok && r->Ok_0@ == pi_digits_value(digits as int),
{
    if digits <= 0 {
        return Err(PiError::InvalidInput);
    }
    let c = BigInt::from_u64(SERIES_C);
    let c3_24 = c.pow(3).div(&BigInt::from_u64(24));
    proof {
        lemma_cube(SERIES_C as int);
    }
    let n = term_count(digits as u32);
    let (_p, q, t) = with_pqt(0, n, &c3_24);
    let ten_digits = BigInt::from_u64(10).pow(digits as usize);
    let one_squared = ten_digits.mul(&ten_digits);
    proof {
        vstd::arithmetic::power::lemma_pow_positive(10, digits as nat);
        assert(one_squared@ * SERIES_E as int >= 0) by (nonlinear_arith)
            requires
                one_squared@ == ten_digits@ * ten_digits@,
        ;
    }
    let sqrt_c = one_squared.mul(&BigInt::from_u64(SERIES_E)).isqrt();
    let num = q.mul(&BigInt::from_u64(SERIES_D)).mul(&sqrt_c);
    let den = t.add(&q.mul(&BigInt::from_u64(SERIES_A - 1)));
    proof {
        lemma_divisor_positive(n as int);
        assert(q@ * (SERIES_A - 1) as int == (SERIES_A as int - 1) * q@) by (nonlinear_arith);
        vstd::arithmetic::power::lemma_pow_adds(10, digits as nat, digits as nat);
        lemma_floor_sqrt_unique(sqrt_c@, SERIES_E as int * pow(10, (2 * digits) as nat));
        assert(num@ >= 0) by (nonlinear_arith)
            requires
                num@ == q@ * SERIES_D as int * sqrt_c@,
                q@ > 0,
                sqrt_c@ >= 0,
        ;
    }
    Ok(num.div(&den))
}

/// The triplet of a range of terms.
pub struct PQT {
    pub p: BigInt,
    pub q: BigInt,
    pub t: BigInt,
}

/// The constants of the series for one requested digit count, derived once.
pub struct Chudnovsky {
    pub a: BigInt,
    pub b: BigInt,
    pub c: BigInt,
    pub d: BigInt,
    pub e: BigInt,
    pub c3_24: BigInt,
    pub digits: i32,
    /// The number of terms after the zeroth.
    pub n: u64,
}

impl Chudnovsky {
    /// The constants hold their values, the digit count is positive, and `n` is one
    /// less than the terms that it needs.
    pub open spec fn wf(&self) -> bool {
        &&& self.a@ == SERIES_A
        &&& self.b@ == SERIES_B
        &&& self.c@ == SERIES_C
        &&& self.d@ == SERIES_D
        &&& self.e@ == SERIES_E
        &&& self.c3_24@ == C3_24
        &&& self.digits > 0
        &&& self.n + 1 == terms_for(self.digits as int)
        &&& self.n >= 1
    }

    /// The constants for one hundred digits.
    pub fn new() -> (r: Chudnovsky)
        ensures
            r.wf(),
            r.digits == 100,
            r.n == 7,
    {
        let digits: i32 = 100;
        let a = BigInt::from_u64(SERIES_A);
        let b = BigInt::from_u64(SERIES_B);
        let c = BigInt::from_u64(SERIES_C);
        let d = BigInt::from_u64(SERIES_D);
        let e = BigInt::from_u64(SERIES_E);
        let c3_24 = c.mul(&c).mul(&c).div(&BigInt::from_u64(24));
        let n = term_count(digits as u32) - 1;
        Chudnovsky { a, b, c, d, e, c3_24, digits, n }
    }

    /// The triplet of the terms `n1 + 1` to `n2`, both included.
    pub fn comp_pqt(&self, n1: u64, n2: u64) -> (res: PQT)
        requires
            self.wf(),
            n1 < n2,
        ensures
            (res.p@, res.q@, res.t@) == split(n1 + 1, n2 + 1, C3_24 as int),
        decreases n2 - n1,
    {
        if n1 + 1 == n2 {
            let k = n2 as u128;
            let mut p = BigInt::from_u128(2 * k - 1);
            p = p.mul(&BigInt::from_u128(6 * k - 1));
            p = p.mul(&BigInt::from_u128(6 * k - 5));
            let k3 = BigInt::from_u64(n2);
            let q = self.c3_24.mul(&k3).mul(&k3).mul(&k3);
            let mut t = self.a.add(&self.b.mul(&k3)).mul(&p);
            if n2 % 2 == 1 {
                t = t.neg();
            }
            proof {
                let x = n2 as int;
                assert(p@ == term_p(x)) by (nonlinear_arith)
                    requires
                        p@ == (2 * x - 1) * (6 * x - 1) * (6 * x - 5),
                ;
                assert(q@ == term_q(x, C3_24 as int)) by (nonlinear_arith)
                    requires
                        q@ == C3_24 as int * x * x * x,
                ;
            }
            PQT { p, q, t }
        } else {
            let m = n1 + (n2 - n1) / 2;
            let res1 = self.comp_pqt(n1, m);
            let res2 = self.comp_pqt(m, n2);
            let p = res1.p.mul(&res2.p);
            let q = res1.q.mul(&res2.q);
            let t = res1.t.mul(&res2.q).add(&res1.p.mul(&res2.t));
            proof {
                assert(res1.t@ * res2.q@ == res2.q@ * res1.t@) by (nonlinear_arith);
            }
            PQT { p, q, t }
        }
    }

    /// `floor(pi * 10^digits)`, the zeroth term `A` entering through `A Q + T`.
    pub fn comp_pi(&self) -> (r: BigInt)
        requires
            self.wf(),
        ensures
            r@ == pi_digits_value(self.digits as int),
    {
        let pqt = self.comp_pqt(0, self.n);
        let ten_digits = BigInt::from_u64(10).pow(self.digits as usize);
        let scaled_e = self.e.mul(&ten_digits).mul(&ten_digits);
        proof {
            vstd::arithmetic::power::lemma_pow_positive(10, self.digits as nat);
            assert(scaled_e@ >= 0) by (nonlinear_arith)
                requires
                    scaled_e@ == SERIES_E as int * ten_digits@ * ten_digits@,
            ;
        }
        let root = scaled_e.isqrt();
        let mut pi = self.d.mul(&root).mul(&pqt.q);
        let den = self.a.mul(&pqt.q).add(&pqt.t);
        proof {
            let nn = self.n as int;
            lemma_split_merge(0, 1, nn + 1, C3_24 as int);
            lemma_divisor_positive(nn + 1);
            let s = split(0, nn + 1, C3_24 as int);
            let q = pqt.q@;
            assert(s.1 == 1 * q);
            assert(s.2 == q * 1 + 1 * pqt.t@);
            assert(den@ == pi_divisor(s)) by (nonlinear_arith)
                requires
                    s.2 == q * 1 + 1 * pqt.t@,
                    den@ == SERIES_A as int * q + pqt.t@,
                    pi_divisor(s) == s.2 + (SERIES_A as int - 1) * s.1,
                    s.1 == 1 * q,
            ;
            vstd::arithmetic::power::lemma_pow_adds(10, self.digits as nat, self.digits as nat);
            assert(scaled_e@ == SERIES_E as int * pow(10, (2 * self.digits) as nat))
                by (nonlinear_arith)
                requires
                    scaled_e@ == SERIES_E as int * ten_digits@ * ten_digits@,
                    pow(10, (2 * self.digits) as nat) == ten_digits@ * ten_digits@,
            ;
            lemma_floor_sqrt_unique(root@, scaled_e@);
            assert(pi@ == s.1 * SERIES_D as int * root@) by (nonlinear_arith)
                requires
                    pi@ == SERIES_D as int * root@ * q,
                    s.1 == 1 * q,
            ;
            assert(pi@ >= 0) by (nonlinear_arith)
                requires
                    pi@ == SERIES_D as int * root@ * q,
                    q > 0,
                    root@ >= 0,
                    s.1 == 1 * q,
            ;
        }
        pi = pi.div(&den);
        pi
    }
}

} // verus!
