//! Exact rational scalars.
//!
//! All geometry in this crate is carried out over rationals rather than
//! machine reals, so that every predicate the tree and the clipping walk
//! depend on (which side of a plane a point lies on, where a segment
//! crosses a plane) is exact.  A stored scalar is a fraction of two
//! `i64` values, kept in lowest terms; the mathematical model is a
//! fraction of two unbounded integers.  Each checked operation returns
//! its exact result, reduced, whenever that reduced result lies within
//! the machine bounds, and `None` otherwise.

use vstd::prelude::*;

verus! {

/// Magnitude bound on a stored numerator and denominator: `2^62`.
/// Keeping stored values strictly inside this bound lets every
/// intermediate product of two stored values be computed exactly in
/// `i128`.
pub const FRAC_BOUND: i64 = 0x4000_0000_0000_0000;

/// A rational number in the mathematical model: `n / d`.  Well-formed
/// values have `d > 0`.  Fractions are not kept reduced; two values
/// denote the same rational when they cross-multiply equally.
pub struct Rat {
    pub n: int,
    pub d: int,
}

pub open spec fn rat_wf(r: Rat) -> bool {
    r.d > 0
}

/// `a` and `b` denote the same rational number.
pub open spec fn rat_eq(a: Rat, b: Rat) -> bool {
    a.n * b.d == b.n * a.d
}

pub open spec fn rat_add(a: Rat, b: Rat) -> Rat {
    Rat { n: a.n * b.d + b.n * a.d, d: a.d * b.d }
}

pub open spec fn rat_sub(a: Rat, b: Rat) -> Rat {
    Rat { n: a.n * b.d - b.n * a.d, d: a.d * b.d }
}

pub open spec fn rat_mul(a: Rat, b: Rat) -> Rat {
    Rat { n: a.n * b.n, d: a.d * b.d }
}

/// Division, with the divisor's sign moved into the numerator so that a
/// well-formed dividend and a nonzero well-formed divisor give a
/// well-formed quotient.
pub open spec fn rat_div(a: Rat, b: Rat) -> Rat {
    if b.n >= 0 {
        Rat { n: a.n * b.d, d: a.d * b.n }
    } else {
        Rat { n: -(a.n * b.d), d: -(a.d * b.n) }
    }
}

/// The exact result of an operation can be stored in a `Frac` exactly
/// when it lies within the machine bounds.
pub open spec fn rat_fits(r: Rat) -> bool {
    &&& -(FRAC_BOUND as int) < r.n < FRAC_BOUND as int
    &&& 0 < r.d < FRAC_BOUND as int
}

pub open spec fn int_abs(i: int) -> int {
    if i < 0 {
        -i
    } else {
        i
    }
}

/// Greatest common divisor of two nonnegative integers, by Euclid's
/// recurrence.
pub open spec fn gcd(a: int, b: int) -> int
    decreases b
        when 0 <= a && 0 <= b
{
    if b <= 0 {
        a
    } else {
        gcd(b, a % b)
    }
}

/// The fraction in lowest terms: both parts divided by their greatest
/// common divisor.  Stored scalars are kept in this form so that exact
/// arithmetic does not outgrow the machine bounds needlessly.
pub open spec fn rat_norm(r: Rat) -> Rat {
    if r.d <= 0 {
        r
    } else {
        let g = gcd(int_abs(r.n), r.d);
        Rat { n: r.n / g, d: r.d / g }
    }
}

/// Sum, difference, product and quotient as the machine computes them:
/// the exact result, in lowest terms.
pub open spec fn rat_nadd(a: Rat, b: Rat) -> Rat {
    rat_norm(rat_add(a, b))
}

pub open spec fn rat_nsub(a: Rat, b: Rat) -> Rat {
    rat_norm(rat_sub(a, b))
}

pub open spec fn rat_nmul(a: Rat, b: Rat) -> Rat {
    rat_norm(rat_mul(a, b))
}

pub open spec fn rat_ndiv(a: Rat, b: Rat) -> Rat {
    rat_norm(rat_div(a, b))
}

/// The divisor returned by Euclid's recurrence on nonnegative
/// arguments, not both zero, is positive and divides both.
pub proof fn lemma_gcd_divides(a: int, b: int)
    requires
        0 <= a,
        0 <= b,
        a > 0 || b > 0,
    ensures
        gcd(a, b) >= 1,
        a % gcd(a, b) == 0,
        b % gcd(a, b) == 0,
    decreases b,
{
    if b <= 0 {
        assert(a % a == 0) by (nonlinear_arith)
            requires
                a >= 1,
        ;
        assert(b % a == 0) by (nonlinear_arith)
            requires
                a >= 1,
                b == 0,
        ;
    } else {
        let r = a % b;
        lemma_gcd_divides(b, r);
        let g = gcd(b, r);
        vstd::arithmetic::div_mod::lemma_fundamental_div_mod(a, b);
        vstd::arithmetic::div_mod::lemma_fundamental_div_mod(b, g);
        vstd::arithmetic::div_mod::lemma_fundamental_div_mod(r, g);
        let q = a / b;
        assert(a == g * ((b / g) * q + r / g)) by (nonlinear_arith)
            requires
                a == b * q + r,
                b == g * (b / g),
                r == g * (r / g),
        ;
        vstd::arithmetic::div_mod::lemma_mod_multiples_basic((b / g) * q + r / g, g);
    }
}

/// What normalization preserves: the denominator stays positive, the
/// value is the same rational, the sign of the numerator is kept, and
/// neither part grows.
pub proof fn lemma_rat_norm(r: Rat)
    requires
        r.d >= 1,
    ensures
        ({
            let q = rat_norm(r);
            &&& q.d >= 1
            &&& rat_eq(q, r)
            &&& (q.n <= 0 <==> r.n <= 0)
            &&& (q.n == 0 <==> r.n == 0)
            &&& int_abs(q.n) <= int_abs(r.n)
            &&& q.d <= r.d
        }),
{
    let m = int_abs(r.n);
    let g = gcd(m, r.d);
    lemma_gcd_divides(m, r.d);
    vstd::arithmetic::div_mod::lemma_fundamental_div_mod(m, g);
    vstd::arithmetic::div_mod::lemma_fundamental_div_mod(r.d, g);
    let mq = m / g;
    let dq = r.d / g;
    assert(m == g * mq);
    assert(r.d == g * dq);
    assert(dq >= 1 && dq <= r.d && 0 <= mq <= m) by (nonlinear_arith)
        requires
            g >= 1,
            m == g * mq,
            r.d == g * dq,
            r.d >= 1,
            m >= 0,
    ;
    if r.n >= 0 {
        assert(r.n / g == mq);
        assert(mq * r.d == r.n * dq) by (nonlinear_arith)
            requires
                r.n == g * mq,
                r.d == g * dq,
        ;
        assert((mq == 0) == (r.n == 0)) by (nonlinear_arith)
            requires
                r.n == g * mq,
                g >= 1,
                mq >= 0,
        ;
    } else {
        assert(r.n == g * (-mq)) by (nonlinear_arith)
            requires
                r.n == -m,
                m == g * mq,
        ;
        vstd::arithmetic::div_mod::lemma_div_multiples_vanish(-mq, g);
        assert(r.n / g == -mq);
        assert(mq > 0) by (nonlinear_arith)
            requires
                m == g * mq,
                m > 0,
                mq >= 0,
        ;
        assert((-mq) * r.d == r.n * dq) by (nonlinear_arith)
            requires
                r.n == g * (-mq),
                r.d == g * dq,
                m == g * mq,
                r.n == -m,
        ;
    }
}

/// An exact rational scalar: a fraction of two `i64` values with a
/// positive denominator.  The checked operations keep results in
/// lowest terms.
#[derive(Clone, Copy, Debug, PartialEq, Eq, Structural)]
pub struct Frac {
    pub num: i64,
    pub den: i64,
}

impl View for Frac {
    type V = Rat;

    open spec fn view(&self) -> Rat {
        Rat { n: self.num as int, d: self.den as int }
    }
}

/// `|x| < m1` and `|y| < m2` bound the product: `|x * y| < m1 * m2`.
pub proof fn lemma_mul_abs_bound(x: int, y: int, m1: int, m2: int)
    requires
        -m1 < x < m1,
        -m2 < y < m2,
        0 < m1,
        0 < m2,
    ensures
        -(m1 * m2) < x * y < m1 * m2,
{
    assert(-(m1 * m2) < x * y < m1 * m2) by (nonlinear_arith)
        requires
            -m1 < x < m1,
            -m2 < y < m2,
            0 < m1,
            0 < m2,
    ;
}

/// The product of two positive integers is positive.
pub proof fn lemma_mul_pos(x: int, y: int)
    requires
        0 < x,
        0 < y,
    ensures
        0 < x * y,
{
    assert(0 < x * y) by (nonlinear_arith)
        requires
            0 < x,
            0 < y,
    ;
}

/// Multiplying by a positive integer keeps the sign of the other factor.
pub proof fn lemma_mul_sign(x: int, y: int)
    requires
        0 < x,
    ensures
        y < 0 ==> x * y < 0,
        y == 0 ==> x * y == 0,
        y > 0 ==> x * y > 0,
        y <= 0 <==> x * y <= 0,
{
    assert((y < 0 ==> x * y < 0) && (y == 0 ==> x * y == 0) && (y > 0 ==> x * y > 0))
        by (nonlinear_arith)
        requires
            0 < x,
    ;
}

impl Frac {
    /// A stored scalar within the machine bounds, with a positive
    /// denominator.
    pub open spec fn wf(self) -> bool {
        rat_wf(self@) && rat_fits(self@)
    }

    /// The fraction `num / den`, when it lies within the machine bounds
    /// (in particular `den` must be positive).
    pub fn new(num: i64, den: i64) -> (r: Option<Frac>)
        ensures
            r matches Some(f) ==> f.wf() && f@ == (Rat { n: num as int, d: den as int }),
            r is Some <==> rat_fits(Rat { n: num as int, d: den as int }),
    {
        if -FRAC_BOUND < num && num < FRAC_BOUND && 0 < den && den < FRAC_BOUND {
            Some(Frac { num, den })
        } else {
            None
        }
    }

    /// The integer `i` as a scalar.
    pub fn from_int(i: i64) -> (r: Frac)
        requires
            -FRAC_BOUND < i < FRAC_BOUND,
        ensures
            r.wf(),
            r@ == (Rat { n: i as int, d: 1 }),
    {
        Frac { num: i, den: 1 }
    }

    /// Whether the scalar is at most zero.  Since the stored denominator
    /// is positive, the sign of the scalar is the sign of its numerator.
    pub fn le_zero(&self) -> (r: bool)
        requires
            self.wf(),
        ensures
            r == (self@.n <= 0),
    {
        self.num <= 0
    }

    /// Exact sum, when it fits.
    pub fn checked_add(&self, rhs: &Frac) -> (r: Option<Frac>)
        requires
            self.wf(),
            rhs.wf(),
        ensures
            r matches Some(f) ==> f.wf() && f@ == rat_nadd(self@, rhs@),
            r is Some <==> rat_fits(rat_nadd(self@, rhs@)),
    {
        proof {
            let b = FRAC_BOUND as int;
            lemma_mul_abs_bound(self@.n, rhs@.d, b, b);
            lemma_mul_abs_bound(rhs@.n, self@.d, b, b);
            lemma_mul_abs_bound(self@.d, rhs@.d, b, b);
            lemma_mul_pos(self@.d, rhs@.d);
        }
        let n: i128 = (self.num as i128) * (rhs.den as i128) + (rhs.num as i128) * (self.den
            as i128);
        let d: i128 = (self.den as i128) * (rhs.den as i128);
        clamp128(n, d)
    }

    /// Exact difference, when it fits.
    pub fn checked_sub(&self, rhs: &Frac) -> (r: Option<Frac>)
        requires
            self.wf(),
            rhs.wf(),
        ensures
            r matches Some(f) ==> f.wf() && f@ == rat_nsub(self@, rhs@),
            r is Some <==> rat_fits(rat_nsub(self@, rhs@)),
    {
        proof {
            let b = FRAC_BOUND as int;
            lemma_mul_abs_bound(self@.n, rhs@.d, b, b);
            lemma_mul_abs_bound(rhs@.n, self@.d, b, b);
            lemma_mul_abs_bound(self@.d, rhs@.d, b, b);
            lemma_mul_pos(self@.d, rhs@.d);
        }
        let n: i128 = (self.num as i128) * (rhs.den as i128) - (rhs.num as i128) * (self.den
            as i128);
        let d: i128 = (self.den as i128) * (rhs.den as i128);
        clamp128(n, d)
    }

    /// Exact product, when it fits.
    pub fn checked_mul(&self, rhs: &Frac) -> (r: Option<Frac>)
        requires
            self.wf(),
            rhs.wf(),
        ensures
            r matches Some(f) ==> f.wf() && f@ == rat_nmul(self@, rhs@),
            r is Some <==> rat_fits(rat_nmul(self@, rhs@)),
    {
        proof {
            let b = FRAC_BOUND as int;
            lemma_mul_abs_bound(self@.n, rhs@.n, b, b);
            lemma_mul_abs_bound(self@.d, rhs@.d, b, b);
            lemma_mul_pos(self@.d, rhs@.d);
        }
        let n: i128 = (self.num as i128) * (rhs.num as i128);
        let d: i128 = (self.den as i128) * (rhs.den as i128);
        clamp128(n, d)
    }

    /// Exact quotient by a nonzero divisor, when it fits.
    pub fn checked_div(&self, rhs: &Frac) -> (r: Option<Frac>)
        requires
            self.wf(),
            rhs.wf(),
            rhs@.n != 0,
        ensures
            r matches Some(f) ==> f.wf() && f@ == rat_ndiv(self@, rhs@),
            r is Some <==> rat_fits(rat_ndiv(self@, rhs@)),
    {
        proof {
            let b = FRAC_BOUND as int;
            lemma_mul_abs_bound(self@.n, rhs@.d, b, b);
            lemma_mul_abs_bound(self@.d, rhs@.n, b, b);
            lemma_mul_sign(self@.d, rhs@.n);
        }
        let n: i128 = (self.num as i128) * (rhs.den as i128);
        let d: i128 = (self.den as i128) * (rhs.num as i128);
        if d < 0 {
            clamp128(-n, -d)
        } else {
            clamp128(n, d)
        }
    }
}

/// Euclid's algorithm on machine integers.
fn gcd128(a: i128, b: i128) -> (g: i128)
    requires
        a >= 0,
        b >= 1,
    ensures
        g as int == gcd(a as int, b as int),
        g >= 1,
{
    let mut x = a;
    let mut y = b;
    while y != 0
        invariant
            x >= 0,
            y >= 0,
            x > 0 || y > 0,
            gcd(x as int, y as int) == gcd(a as int, b as int),
        decreases y,
    {
        let t = x % y;
        x = y;
        y = t;
    }
    proof {
        lemma_gcd_divides(a as int, b as int);
    }
    x
}

/// Reduce an exactly computed `i128` fraction to lowest terms and
/// store it, when the reduced form lies within the machine bounds.
fn clamp128(n: i128, d: i128) -> (r: Option<Frac>)
    requires
        d >= 1,
        n > i128::MIN,
    ensures
        r matches Some(f) ==> f.wf() && f@ == rat_norm(Rat { n: n as int, d: d as int }),
        r is Some <==> rat_fits(rat_norm(Rat { n: n as int, d: d as int })),
{
    proof {
        lemma_rat_norm(Rat { n: n as int, d: d as int });
    }
    let m: i128 = if n < 0 {
        -n
    } else {
        n
    };
    let g = gcd128(m, d);
    let mr = m / g;
    let dr = d / g;
    let nr: i128 = if n < 0 {
        -mr
    } else {
        mr
    };
    proof {
        lemma_gcd_divides(m as int, d as int);
        vstd::arithmetic::div_mod::lemma_fundamental_div_mod(m as int, g as int);
        if n < 0 {
            vstd::arithmetic::div_mod::lemma_div_multiples_vanish(-(m as int / g as int), g as int);
            assert((n as int) == (g as int) * (-(m as int / g as int))) by (nonlinear_arith)
                requires
                    n as int == -(m as int),
                    m as int == (g as int) * (m as int / g as int),
            ;
        }
    }
    let b: i128 = FRAC_BOUND as i128;
    if -b < nr && nr < b && dr < b {
        Some(Frac { num: nr as i64, den: dr as i64 })
    } else {
        None
    }
}

} // verus!
