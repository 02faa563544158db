//! Exact movement costs.
//!
//! Every cost in the game is a non-negative multiple of one half: entering an
//! open tile costs `1`, entering sand costs `5/2`, and accumulated costs are
//! sums of these. A [`Cost`] stores such a number as a fraction in lowest
//! terms; the arithmetic and the comparisons are done by `num`'s `Ratio<i64>`.
//! Contracts speak of a cost through [`Cost::halves`], the number of halves it
//! stands for, which keeps every proof obligation linear.

use num::rational::Ratio;
use num::One;
use std::cmp::Ordering;
use vstd::prelude::*;

verus! {

/// Whether `n` is a multiple of `d`.
pub open spec fn divides(d: int, n: int) -> bool {
    n % d == 0
}

/// Whether `numer / denom` is written in lowest terms with a positive
/// denominator.
pub open spec fn lowest_terms(numer: int, denom: int) -> bool {
    &&& denom > 0
    &&& forall|d: int| d > 1 && #[trigger] divides(d, numer) ==> !divides(d, denom)
}

/// `Ratio::<i64>::new(numer, denom)`, read back as `(numerator, denominator)`.
///
/// Trusted: the result is the same rational number as `numer / denom`, written
/// in lowest terms with a positive denominator. `Ratio::new` panics on a zero
/// denominator, and its reduction can overflow on `i64::MIN`; both are ruled
/// out by the precondition.
#[verifier::external_body]
fn ratio_new(numer: i64, denom: i64) -> (r: (i64, i64))
    requires
        denom != 0,
        numer > i64::MIN,
        denom > i64::MIN,
    ensures
        lowest_terms(r.0 as int, r.1 as int),
        r.0 * denom == numer * r.1,
{
    let q = Ratio::new(numer, denom);
    (*q.numer(), *q.denom())
}

/// `Ratio::<i64>::from_integer(t)`, read back as `(numerator, denominator)`.
///
/// Trusted: the result is `t / 1`.
#[verifier::external_body]
fn ratio_from_integer(t: i64) -> (r: (i64, i64))
    ensures
        r.0 == t,
        r.1 == 1,
{
    let q = Ratio::from_integer(t);
    (*q.numer(), *q.denom())
}

/// `<Ratio<i64> as One>::one()`, read back as `(numerator, denominator)`.
///
/// Trusted: the result is `1 / 1`.
#[verifier::external_body]
fn ratio_one() -> (r: (i64, i64))
    ensures
        r.0 == 1,
        r.1 == 1,
{
    let q: Ratio<i64> = One::one();
    (*q.numer(), *q.denom())
}

/// `a + b` on `Ratio<i64>`, with both operands given and the result read back
/// as `(numerator, denominator)`.
///
/// Trusted: the result is the sum of the two rational numbers, written in
/// lowest terms with a positive denominator. The precondition keeps every
/// intermediate value of `Ratio`'s addition inside `i64`: with equal
/// denominators it adds the numerators, otherwise it scales both numerators to
/// the least common multiple of the denominators first.
#[verifier::external_body]
fn ratio_sum(a: (i64, i64), b: (i64, i64)) -> (r: (i64, i64))
    requires
        a.1 > 0,
        b.1 > 0,
        a.0 > i64::MIN,
        b.0 > i64::MIN,
        a.1 == b.1 ==> -i64::MAX <= a.0 + b.0 <= i64::MAX,
        a.1 != b.1 ==> a.1 * b.1 <= i64::MAX && vstd::math::abs(a.0 as int) * b.1 + vstd::math::abs(
            b.0 as int,
        ) * a.1 <= i64::MAX,
    ensures
        lowest_terms(r.0 as int, r.1 as int),
        r.0 * (a.1 * b.1) == (a.0 * b.1 + b.0 * a.1) * r.1,
{
    let q = Ratio::new_raw(a.0, a.1) + Ratio::new_raw(b.0, b.1);
    (*q.numer(), *q.denom())
}

/// `a.cmp(&b)` on `Ratio<i64>`, with both operands given as
/// `(numerator, denominator)`.
///
/// Trusted: for positive denominators the result orders the two rational
/// numbers by value, that is, as cross-multiplication would.
#[verifier::external_body]
fn ratio_order(a: (i64, i64), b: (i64, i64)) -> (r: Ordering)
    requires
        a.1 > 0,
        b.1 > 0,
    ensures
        r == Ordering::Less <==> a.0 * b.1 < b.0 * a.1,
        r == Ordering::Greater <==> a.0 * b.1 > b.0 * a.1,
{
    Ratio::new_raw(a.0, a.1).cmp(&Ratio::new_raw(b.0, b.1))
}

/// A non-negative multiple of one half, held as a fraction in lowest terms.
#[derive(Debug, PartialEq, Eq, Clone, Copy, Structural)]
pub struct Cost {
    numer: i64,
    denom: i64,
}

/// A fraction in lowest terms whose double is the integer `t` is `t/2 / 1`
/// when `t` is even and `t / 2` when `t` is odd.
proof fn lemma_lowest_terms_of_halves(n: int, d: int, t: int)
    requires
        lowest_terms(n, d),
        n * 2 == t * d,
    ensures
        t % 2 == 0 ==> d == 1 && n * 2 == t,
        t % 2 != 0 ==> d == 2 && n == t,
{
    if t % 2 == 0 {
        let m = t / 2;
        assert(n == m * d) by (nonlinear_arith)
            requires
                n * 2 == t * d,
                t == 2 * m,
        ;
        if d > 1 {
            assert(divides(d, n)) by (nonlinear_arith)
                requires
                    n == m * d,
                    d > 1,
            ;
            assert(divides(d, d)) by (nonlinear_arith)
                requires
                    d > 1,
            ;
        }
        assert(n == m) by (nonlinear_arith)
            requires
                n == m * d,
                d == 1,
        ;
    } else {
        let m = t / 2;
        assert(t == 2 * m + 1);
        assert(d == 2 * (n - m * d)) by (nonlinear_arith)
            requires
                n * 2 == t * d,
                t == 2 * m + 1,
        ;
        let k = d / 2;
        assert(d == 2 * k);
        assert(n == t * k) by (nonlinear_arith)
            requires
                n * 2 == t * d,
                d == 2 * k,
        ;
        if k > 1 {
            assert(divides(k, n)) by (nonlinear_arith)
                requires
                    n == t * k,
                    k > 1,
            ;
            assert(divides(k, d)) by (nonlinear_arith)
                requires
                    d == 2 * k,
                    k > 1,
            ;
        }
        assert(n == t) by (nonlinear_arith)
            requires
                n == t * k,
                k == 1,
        ;
    }
}

impl Cost {
    /// The representation invariant: a non-negative fraction in lowest terms
    /// whose denominator is `1` or `2`.
    pub closed spec fn wf(self) -> bool {
        &&& self.numer >= 0
        &&& self.denom == 1 || (self.denom == 2 && self.numer % 2 == 1)
    }

    /// The number of halves this cost stands for: `2` for a cost of one, `5`
    /// for a cost of five halves.
    pub closed spec fn halves(self) -> int {
        if self.denom == 1 {
            2 * self.numer
        } else {
            self.numer as int
        }
    }

    /// The cost that stands for `h` halves.
    pub closed spec fn of_halves(h: int) -> Cost {
        if h % 2 == 0 {
            Cost { numer: (h / 2) as i64, denom: 1 }
        } else {
            Cost { numer: h as i64, denom: 2 }
        }
    }

    /// A well-formed cost is determined by its number of halves, which is
    /// never negative.
    pub proof fn lemma_halves(self)
        requires
            self.wf(),
        ensures
            self.halves() >= 0,
            self == Cost::of_halves(self.halves()),
    {
    }

    /// Two well-formed costs that stand for the same number of halves are the
    /// same value.
    pub proof fn lemma_halves_injective(self, other: Cost)
        requires
            self.wf(),
            other.wf(),
            self.halves() == other.halves(),
        ensures
            self == other,
    {
    }

    /// Cross-multiplying two well-formed costs compares their halves.
    proof fn lemma_cross_products(self, other: Cost)
        requires
            self.wf(),
            other.wf(),
        ensures
            self.numer * other.denom < other.numer * self.denom <==> self.halves() < other.halves(),
            self.numer * other.denom > other.numer * self.denom <==> self.halves() > other.halves(),
    {
        let left = self.numer * other.denom;
        let right = other.numer * self.denom;
        assert(left * 2 == self.halves() * (self.denom * other.denom)) by (nonlinear_arith)
            requires
                left == self.numer * other.denom,
                self.denom == 1 || self.denom == 2,
                other.denom == 1 || other.denom == 2,
                self.halves() == (if self.denom == 1 {
                    2 * self.numer
                } else {
                    1 * self.numer
                }),
        ;
        assert(right * 2 == other.halves() * (self.denom * other.denom)) by (nonlinear_arith)
            requires
                right == other.numer * self.denom,
                self.denom == 1 || self.denom == 2,
                other.denom == 1 || other.denom == 2,
                other.halves() == (if other.denom == 1 {
                    2 * other.numer
                } else {
                    1 * other.numer
                }),
        ;
        let scale = self.denom * other.denom;
        assert(scale == 1 || scale == 2 || scale == 4) by (nonlinear_arith)
            requires
                scale == self.denom * other.denom,
                self.denom == 1 || self.denom == 2,
                other.denom == 1 || other.denom == 2,
        ;
        assert(left < right <==> self.halves() < other.halves()) by (nonlinear_arith)
            requires
                left * 2 == self.halves() * scale,
                right * 2 == other.halves() * scale,
                scale == 1 || scale == 2 || scale == 4,
        ;
        assert(left > right <==> self.halves() > other.halves()) by (nonlinear_arith)
            requires
                left * 2 == self.halves() * scale,
                right * 2 == other.halves() * scale,
                scale == 1 || scale == 2 || scale == 4,
        ;
    }

    /// The cost of nothing.
    pub fn zero() -> (r: Cost)
        ensures
            r.wf(),
            r.halves() == 0,
    {
        let q = ratio_from_integer(0);
        Cost { numer: q.0, denom: q.1 }
    }

    /// The whole number `n` as a cost.
    pub fn from_integer(n: u32) -> (r: Cost)
        ensures
            r.wf(),
            r.halves() == 2 * n,
    {
        let q = ratio_from_integer(n as i64);
        Cost { numer: q.0, denom: q.1 }
    }

    /// The cost of one, the price of entering an open tile.
    pub fn one() -> (r: Cost)
        ensures
            r.wf(),
            r.halves() == 2,
    {
        let q = ratio_one();
        Cost { numer: q.0, denom: q.1 }
    }

    /// The cost of five halves, the price of entering sand.
    pub fn five_halves() -> (r: Cost)
        ensures
            r.wf(),
            r.halves() == 5,
    {
        let q = ratio_new(25, 10);
        proof {
            lemma_lowest_terms_of_halves(q.0 as int, q.1 as int, 5);
        }
        Cost { numer: q.0, denom: q.1 }
    }

    /// The numerator of the cost in lowest terms.
    pub fn numer(&self) -> (n: i64)
        ensures
            self.wf() && self.halves() % 2 == 0 ==> n * 2 == self.halves(),
            self.wf() && self.halves() % 2 != 0 ==> n == self.halves(),
    {
        self.numer
    }

    /// The denominator of the cost in lowest terms, `1` or `2`.
    pub fn denom(&self) -> (d: i64)
        ensures
            self.wf() && self.halves() % 2 == 0 ==> d == 1,
            self.wf() && self.halves() % 2 != 0 ==> d == 2,
    {
        self.denom
    }

    /// The sum of two costs.
    pub fn plus(self, other: Cost) -> (r: Cost)
        requires
            self.wf(),
            other.wf(),
            self.halves() + other.halves() <= i64::MAX,
        ensures
            r.wf(),
            r.halves() == self.halves() + other.halves(),
    {
        let q = ratio_sum((self.numer, self.denom), (other.numer, other.denom));
        proof {
            let t = self.halves() + other.halves();
            assert(q.0 * 2 == t * q.1) by (nonlinear_arith)
                requires
                    q.0 * (self.denom * other.denom) == (self.numer * other.denom + other.numer
                        * self.denom) * q.1,
                    self.denom == 1 || self.denom == 2,
                    other.denom == 1 || other.denom == 2,
                    t == (if self.denom == 1 {
                        2 * self.numer
                    } else {
                        self.numer as int
                    }) + (if other.denom == 1 {
                        2 * other.numer
                    } else {
                        other.numer as int
                    }),
            ;
            lemma_lowest_terms_of_halves(q.0 as int, q.1 as int, t);
        }
        Cost { numer: q.0, denom: q.1 }
    }

    /// Whether this cost is at most `other`.
    pub fn le(&self, other: &Cost) -> (r: bool)
        requires
            self.wf(),
            other.wf(),
        ensures
            r == (self.halves() <= other.halves()),
    {
        let order = ratio_order((self.numer, self.denom), (other.numer, other.denom));
        proof {
            self.lemma_cross_products(*other);
        }
        match order {
            Ordering::Greater => false,
            _ => true,
        }
    }

    /// Whether this cost is strictly less than `other`.
    pub fn lt(&self, other: &Cost) -> (r: bool)
        requires
            self.wf(),
            other.wf(),
        ensures
            r == (self.halves() < other.halves()),
    {
        let order = ratio_order((self.numer, self.denom), (other.numer, other.denom));
        proof {
            self.lemma_cross_products(*other);
        }
        match order {
            Ordering::Less => true,
            _ => false,
        }
    }
}

} // verus!
