//! Rational numbers with a sign flag and `u32` magnitudes, always kept in
//! lowest terms.
//!
//! A value is modelled by a pair `(n, d)` of integers: the signed numerator
//! and the positive denominator. The arithmetic is exact: the raw numerator
//! and denominator of a result are computed in `u128`, where they cannot
//! overflow, and then reduced. An operation asks in its precondition that the
//! reduced result fit the `u32` magnitudes; it never wraps or truncates.
use vstd::prelude::*;
use crate::utils::{
    gcd_spec, gcd_wide, lemma_gcd_divides, lemma_gcd_reduced_coprime, lemma_lowest_terms_unique,
    lemma_divides_exact, lemma_gcd_zero_left, lemma_gcd_self,
};

verus! {

/// The magnitude of an integer.
pub open spec fn abs_spec(n: int) -> nat {
    if n < 0 {
        (-n) as nat
    } else {
        n as nat
    }
}

/// `m` with a minus sign when `neg` holds.
pub open spec fn signed(neg: bool, m: int) -> int {
    if neg {
        -m
    } else {
        m
    }
}

/// The pair `(n, d)` is a fraction in lowest terms: `d > 0` and
/// `gcd(|n|, d) == 1`. Zero is thereby only `(0, 1)`.
pub open spec fn is_canonical(q: (int, int)) -> bool {
    q.1 > 0 && gcd_spec(abs_spec(q.0), q.1 as nat) == 1
}

/// The fraction `n / d`, for `d > 0`, in lowest terms.
pub open spec fn canonical(n: int, d: int) -> (int, int) {
    let g = gcd_spec(abs_spec(n), d as nat);
    (signed(n < 0, (abs_spec(n) / g) as int), d / (g as int))
}

/// The pairs stand for the same rational number (both denominators positive).
pub open spec fn same_value(x: (int, int), y: (int, int)) -> bool {
    x.0 * y.1 == y.0 * x.1
}

/// Both parts of the pair fit a `u32` magnitude.
pub open spec fn fits(q: (int, int)) -> bool {
    abs_spec(q.0) <= u32::MAX && q.1 <= u32::MAX
}

/// The rational `n / d` built from two integers, `d != 0`.
pub open spec fn q_new(n: int, d: int) -> (int, int) {
    canonical(if d < 0 { -n } else { n }, abs_spec(d) as int)
}

/// `x + y`.
pub open spec fn q_add(x: (int, int), y: (int, int)) -> (int, int) {
    canonical(x.0 * y.1 + y.0 * x.1, x.1 * y.1)
}

/// `x - y`.
pub open spec fn q_sub(x: (int, int), y: (int, int)) -> (int, int) {
    canonical(x.0 * y.1 - y.0 * x.1, x.1 * y.1)
}

/// `x * y`.
pub open spec fn q_mul(x: (int, int), y: (int, int)) -> (int, int) {
    canonical(x.0 * y.0, x.1 * y.1)
}

/// `x / y`, for `y` not zero.
pub open spec fn q_div(x: (int, int), y: (int, int)) -> (int, int) {
    canonical(signed(y.0 < 0, x.0 * y.1), x.1 * abs_spec(y.0))
}

/// `-x`.
pub open spec fn q_neg(x: (int, int)) -> (int, int) {
    (-x.0, x.1)
}

/// `canonical(n, d)` is in lowest terms and has the value `n / d`.
pub proof fn lemma_canonical(n: int, d: int)
    requires
        d > 0,
    ensures
        is_canonical(canonical(n, d)),
        same_value(canonical(n, d), (n, d)),
        abs_spec(canonical(n, d).0) <= abs_spec(n),
        canonical(n, d).1 <= d,
{
    let a = abs_spec(n);
    let g = gcd_spec(a, d as nat);
    lemma_gcd_divides(a, d as nat);
    lemma_gcd_reduced_coprime(a, d as nat);
    lemma_divides_exact(g, a);
    lemma_divides_exact(g, d as nat);
    let a1 = a / g;
    let d1 = d / (g as int);
    assert(d1 > 0) by (nonlinear_arith)
        requires d == g * d1, d > 0, g > 0;
    assert(a1 <= a && d1 <= d) by (nonlinear_arith)
        requires d == g * d1, a == g * a1, g > 0, d1 >= 0;
    assert(a1 * d == a * d1) by (nonlinear_arith)
        requires d == g * d1, a == g * a1;
    assert(abs_spec(signed(n < 0, a1 as int)) == a1);
    assert(signed(n < 0, a1 as int) * d == n * d1) by (nonlinear_arith)
        requires a1 * d == a * d1, n < 0 ==> a == -n, n >= 0 ==> a == n;
}

/// A pair already in lowest terms is its own canonical form.
pub proof fn lemma_canonical_fixed(q: (int, int))
    requires
        is_canonical(q),
    ensures
        canonical(q.0, q.1) == q,
{
    vstd::arithmetic::div_mod::lemma_div_basics(abs_spec(q.0) as int);
    vstd::arithmetic::div_mod::lemma_div_basics(q.1);
}

/// Pairs with the same value have the same canonical form.
pub proof fn lemma_canonical_same_value(n1: int, d1: int, n2: int, d2: int)
    requires
        d1 > 0,
        d2 > 0,
        n1 * d2 == n2 * d1,
    ensures
        canonical(n1, d1) == canonical(n2, d2),
{
    let c1 = canonical(n1, d1);
    let c2 = canonical(n2, d2);
    lemma_canonical(n1, d1);
    lemma_canonical(n2, d2);
    assert(c1.0 * c2.1 == c2.0 * c1.1) by (nonlinear_arith)
        requires
            c1.0 * d1 == n1 * c1.1,
            c2.0 * d2 == n2 * c2.1,
            n1 * d2 == n2 * d1,
            d1 > 0,
            d2 > 0,
            c1.1 > 0,
            c2.1 > 0;
    assert((c1.0 < 0) == (c2.0 < 0) && (c1.0 == 0) == (c2.0 == 0)) by (nonlinear_arith)
        requires c1.0 * c2.1 == c2.0 * c1.1, c1.1 > 0, c2.1 > 0;
    assert(abs_spec(c1.0) * c2.1 == abs_spec(c2.0) * c1.1) by (nonlinear_arith)
        requires
            c1.0 * c2.1 == c2.0 * c1.1,
            (c1.0 < 0) == (c2.0 < 0),
            c1.0 < 0 ==> abs_spec(c1.0) == -c1.0,
            c1.0 >= 0 ==> abs_spec(c1.0) == c1.0,
            c2.0 < 0 ==> abs_spec(c2.0) == -c2.0,
            c2.0 >= 0 ==> abs_spec(c2.0) == c2.0;
    lemma_lowest_terms_unique(abs_spec(c1.0), c1.1 as nat, abs_spec(c2.0), c2.1 as nat);
}

/// The canonical form of zero is `(0, 1)`.
pub proof fn lemma_canonical_zero(d: int)
    requires
        d > 0,
    ensures
        canonical(0, d) == (0int, 1int),
{
    lemma_gcd_zero_left(d as nat);
    vstd::arithmetic::div_mod::lemma_div_basics(d);
}

/// A rational number: a sign flag and the magnitudes of numerator and
/// denominator, kept in lowest terms with zero stored as `+0/1`.
#[derive(Debug, Clone, Copy, PartialEq, Eq, Structural)]
pub struct RNum {
    neg_flag: bool,
    nume: u32,
    deno: u32,
}

impl View for RNum {
    type V = (int, int);

    /// The signed numerator and the denominator.
    closed spec fn view(&self) -> (int, int) {
        (signed(self.neg_flag, self.nume as int), self.deno as int)
    }
}

impl RNum {
    /// The stored form is canonical: lowest terms, and no sign on zero.
    pub closed spec fn wf(self) -> bool {
        &&& is_canonical(self@)
        &&& (self.nume == 0 ==> !self.neg_flag)
    }

    /// The stored form of the pair `q`.
    pub closed spec fn from_view(q: (int, int)) -> RNum {
        RNum { neg_flag: q.0 < 0, nume: abs_spec(q.0) as u32, deno: q.1 as u32 }
    }

    /// A well-formed value has a canonical view.
    pub proof fn lemma_wf_canonical(self)
        requires
            self.wf(),
        ensures
            is_canonical(self@),
    {
    }

    /// A well-formed value is the stored form of its view.
    pub proof fn lemma_from_view(self)
        requires
            self.wf(),
        ensures
            RNum::from_view(self@) == self,
    {
    }

    /// The stored form of a canonical pair that fits is well formed and has
    /// that pair as its view.
    pub proof fn lemma_view_of_from_view(q: (int, int))
        requires
            is_canonical(q),
            fits(q),
        ensures
            RNum::from_view(q).wf(),
            RNum::from_view(q)@ == q,
    {
        if q.0 == 0 {
            lemma_gcd_zero_left(q.1 as nat);
        }
    }

    /// Two well-formed values are equal exactly when their views are.
    pub proof fn lemma_view_determines(a: RNum, b: RNum)
        requires
            a.wf(),
            b.wf(),
        ensures
            (a == b) == (a@ == b@),
    {
        a.lemma_from_view();
        b.lemma_from_view();
    }

    /// Reduces `signed(neg, n) / d` to lowest terms.
    fn reduce(neg: bool, n: u128, d: u128) -> (r: RNum)
        requires
            d > 0,
            fits(canonical(signed(neg, n as int), d as int)),
        ensures
            r.wf(),
            r@ == canonical(signed(neg, n as int), d as int),
    {
        let ghost q = canonical(signed(neg, n as int), d as int);
        proof {
            lemma_canonical(signed(neg, n as int), d as int);
            lemma_gcd_divides(n as nat, d as nat);
            assert(abs_spec(signed(neg, n as int)) == n);
        }
        let g = gcd_wide(n, d);
        let nn = n / g;
        let dd = d / g;
        proof {
            if n == 0 {
                lemma_canonical_zero(d as int);
            }
            RNum::lemma_view_of_from_view(q);
        }
        RNum { neg_flag: neg && nn != 0, nume: nn as u32, deno: dd as u32 }
    }

    /// The rational `n / d`; `d` must not be zero.
    pub fn new(n: i32, d: i32) -> (r: RNum)
        requires
            d != 0,
        ensures
            r.wf(),
            r@ == q_new(n as int, d as int),
            r@.0 == 0 || gcd_spec(abs_spec(r@.0), r@.1 as nat) == 1,
    {
        let flag = (n < 0) != (d < 0);
        let nm: u128 = if n < 0 { (-(n as i64)) as u128 } else { n as u128 };
        let dm: u128 = if d < 0 { (-(d as i64)) as u128 } else { d as u128 };
        proof {
            assert(signed(flag, nm as int) == if d < 0 { -n } else { n as int });
            assert(dm as int == abs_spec(d as int));
            lemma_canonical(signed(flag, nm as int), dm as int);
        }
        RNum::reduce(flag, nm, dm)
    }

    /// The rational `n / d`, or `None` when `d` is zero.
    pub fn safe_make(n: i32, d: i32) -> (r: Option<RNum>)
        ensures
            r.is_none() == (d == 0),
            r matches Some(x) ==> x.wf() && x@ == q_new(n as int, d as int),
    {
        if d == 0 {
            None
        } else {
            Some(RNum::new(n, d))
        }
    }

    /// The value is below zero.
    pub fn is_negative(&self) -> (r: bool)
        ensures
            r == (self@.0 < 0),
    {
        self.neg_flag && self.nume != 0
    }

    /// The value is above zero.
    pub fn is_positive(&self) -> (r: bool)
        ensures
            r == (self@.0 > 0),
    {
        !self.neg_flag && self.nume != 0
    }

    /// The value is zero.
    pub fn is_zero(&self) -> (r: bool)
        ensures
            r == (self@.0 == 0),
    {
        self.nume == 0
    }

    /// Zero, as `0/1`.
    pub fn zero() -> (r: RNum)
        ensures
            r.wf(),
            r@ == (0int, 1int),
    {
        proof {
            lemma_canonical_zero(1);
        }
        RNum::new(0, 1)
    }

    /// The magnitude of the numerator, in lowest terms.
    pub fn numerator(&self) -> (r: u32)
        ensures
            r == abs_spec(self@.0),
    {
        self.nume
    }

    /// The denominator, in lowest terms.
    pub fn denominator(&self) -> (r: u32)
        ensures
            r == self@.1,
    {
        self.deno
    }
    /// The view in terms of the stored sign flag and magnitudes.
    proof fn lemma_parts(self)
        ensures
            self@.0 == signed(self.neg_flag, self.nume as int),
            self@.1 == self.deno as int,
            abs_spec(self@.0) == self.nume,
    {
    }

    /// Reduces `(signed(neg_a, x) + signed(neg_b, y)) / d` to lowest terms.
    fn reduce_sum(neg_a: bool, x: u128, neg_b: bool, y: u128, d: u128) -> (r: RNum)
        requires
            d > 0,
            x < 0x1_0000_0000_0000_0000,
            y < 0x1_0000_0000_0000_0000,
            fits(canonical(signed(neg_a, x as int) + signed(neg_b, y as int), d as int)),
        ensures
            r.wf(),
            r@ == canonical(signed(neg_a, x as int) + signed(neg_b, y as int), d as int),
    {
        if neg_a == neg_b {
            RNum::reduce(neg_a, x + y, d)
        } else if x >= y {
            RNum::reduce(neg_a, x - y, d)
        } else {
            RNum::reduce(neg_b, y - x, d)
        }
    }
}

impl std::ops::Add for RNum {
    type Output = RNum;

    /// The exact sum, reduced.
    fn add(self, rhs: RNum) -> (r: RNum)
        ensures
            r.wf(),
            r@ == q_add(self@, rhs@),
    {
        let ad = self.deno as u128;
        let bd = rhs.deno as u128;
        let an = self.nume as u128;
        let bn = rhs.nume as u128;
        proof {
            self.lemma_parts();
            rhs.lemma_parts();
            assert(an * bd <= 0xffff_ffff * 0xffff_ffff && bn * ad <= 0xffff_ffff * 0xffff_ffff
                && ad * bd > 0 && ad * bd <= 0xffff_ffff * 0xffff_ffff) by (nonlinear_arith)
                requires an <= 0xffff_ffff, bd <= 0xffff_ffff, bn <= 0xffff_ffff,
                    ad <= 0xffff_ffff, ad > 0, bd > 0;
            assert(self@.0 * rhs@.1 == signed(self.neg_flag, an * bd)) by (nonlinear_arith)
                requires self@.0 == signed(self.neg_flag, an as int), rhs@.1 == bd;
            assert(rhs@.0 * self@.1 == signed(rhs.neg_flag, bn * ad)) by (nonlinear_arith)
                requires rhs@.0 == signed(rhs.neg_flag, bn as int), self@.1 == ad;
        }
        RNum::reduce_sum(self.neg_flag, an * bd, rhs.neg_flag, bn * ad, ad * bd)
    }
}

impl vstd::std_specs::ops::AddSpecImpl for RNum {
    open spec fn obeys_add_spec() -> bool {
        true
    }

    open spec fn add_req(self, rhs: RNum) -> bool {
        self.wf() && rhs.wf() && fits(q_add(self@, rhs@))
    }

    open spec fn add_spec(self, rhs: RNum) -> RNum {
        RNum::from_view(q_add(self@, rhs@))
    }
}

impl std::ops::Sub for RNum {
    type Output = RNum;

    /// The exact difference, reduced.
    fn sub(self, rhs: RNum) -> (r: RNum)
        ensures
            r.wf(),
            r@ == q_sub(self@, rhs@),
    {
        let ad = self.deno as u128;
        let bd = rhs.deno as u128;
        let an = self.nume as u128;
        let bn = rhs.nume as u128;
        proof {
            self.lemma_parts();
            rhs.lemma_parts();
            assert(an * bd <= 0xffff_ffff * 0xffff_ffff && bn * ad <= 0xffff_ffff * 0xffff_ffff
                && ad * bd > 0 && ad * bd <= 0xffff_ffff * 0xffff_ffff) by (nonlinear_arith)
                requires an <= 0xffff_ffff, bd <= 0xffff_ffff, bn <= 0xffff_ffff,
                    ad <= 0xffff_ffff, ad > 0, bd > 0;
            assert(self@.0 * rhs@.1 == signed(self.neg_flag, an * bd)) by (nonlinear_arith)
                requires self@.0 == signed(self.neg_flag, an as int), rhs@.1 == bd;
            assert(-(rhs@.0 * self@.1) == signed(!rhs.neg_flag, bn * ad)) by (nonlinear_arith)
                requires rhs@.0 == signed(rhs.neg_flag, bn as int), self@.1 == ad;
        }
        RNum::reduce_sum(self.neg_flag, an * bd, !rhs.neg_flag, bn * ad, ad * bd)
    }
}

impl vstd::std_specs::ops::SubSpecImpl for RNum {
    open spec fn obeys_sub_spec() -> bool {
        true
    }

    open spec fn sub_req(self, rhs: RNum) -> bool {
        self.wf() && rhs.wf() && fits(q_sub(self@, rhs@))
    }

    open spec fn sub_spec(self, rhs: RNum) -> RNum {
        RNum::from_view(q_sub(self@, rhs@))
    }
}

impl std::ops::Mul for RNum {
    type Output = RNum;

    /// The exact product, reduced.
    fn mul(self, rhs: RNum) -> (r: RNum)
        ensures
            r.wf(),
            r@ == q_mul(self@, rhs@),
    {
        let ad = self.deno as u128;
        let bd = rhs.deno as u128;
        let an = self.nume as u128;
        let bn = rhs.nume as u128;
        let flag = self.neg_flag != rhs.neg_flag;
        proof {
            self.lemma_parts();
            rhs.lemma_parts();
            assert(an * bn <= 0xffff_ffff * 0xffff_ffff && ad * bd > 0
                && ad * bd <= 0xffff_ffff * 0xffff_ffff) by (nonlinear_arith)
                requires an <= 0xffff_ffff, bd <= 0xffff_ffff, bn <= 0xffff_ffff,
                    ad <= 0xffff_ffff, ad > 0, bd > 0;
            assert(self@.0 * rhs@.0 == signed(flag, an * bn)) by (nonlinear_arith)
                requires self@.0 == signed(self.neg_flag, an as int),
                    rhs@.0 == signed(rhs.neg_flag, bn as int),
                    flag == (self.neg_flag != rhs.neg_flag);
        }
        RNum::reduce(flag, an * bn, ad * bd)
    }
}

impl vstd::std_specs::ops::MulSpecImpl for RNum {
    open spec fn obeys_mul_spec() -> bool {
        true
    }

    open spec fn mul_req(self, rhs: RNum) -> bool {
        self.wf() && rhs.wf() && fits(q_mul(self@, rhs@))
    }

    open spec fn mul_spec(self, rhs: RNum) -> RNum {
        RNum::from_view(q_mul(self@, rhs@))
    }
}

impl std::ops::Div for RNum {
    type Output = RNum;

    /// The exact quotient, reduced; the divisor is not zero.
    fn div(self, rhs: RNum) -> (r: RNum)
        ensures
            r.wf(),
            r@ == q_div(self@, rhs@),
    {
        let ad = self.deno as u128;
        let bd = rhs.deno as u128;
        let an = self.nume as u128;
        let bn = rhs.nume as u128;
        let flag = self.neg_flag != rhs.neg_flag;
        proof {
            self.lemma_parts();
            rhs.lemma_parts();
            assert(an * bd <= 0xffff_ffff * 0xffff_ffff && ad * bn > 0
                && ad * bn <= 0xffff_ffff * 0xffff_ffff) by (nonlinear_arith)
                requires an <= 0xffff_ffff, bd <= 0xffff_ffff, bn <= 0xffff_ffff,
                    ad <= 0xffff_ffff, ad > 0, bn > 0;
            assert(signed(rhs@.0 < 0, self@.0 * rhs@.1) == signed(flag, an * bd)) by (nonlinear_arith)
                requires self@.0 == signed(self.neg_flag, an as int),
                    rhs@.0 == signed(rhs.neg_flag, bn as int), bn > 0,
                    rhs@.1 == bd,
                    flag == (self.neg_flag != rhs.neg_flag);
        }
        RNum::reduce(flag, an * bd, ad * bn)
    }
}

impl vstd::std_specs::ops::DivSpecImpl for RNum {
    open spec fn obeys_div_spec() -> bool {
        true
    }

    open spec fn div_req(self, rhs: RNum) -> bool {
        self.wf() && rhs.wf() && rhs@.0 != 0 && fits(q_div(self@, rhs@))
    }

    open spec fn div_spec(self, rhs: RNum) -> RNum {
        RNum::from_view(q_div(self@, rhs@))
    }
}

impl std::ops::Neg for RNum {
    type Output = RNum;

    /// The opposite value; zero stays unsigned.
    fn neg(self) -> (r: RNum)
        ensures
            self.wf() ==> r.wf(),
            r@ == q_neg(self@),
    {
        let flag = if self.nume == 0 { false } else { !self.neg_flag };
        RNum { neg_flag: flag, nume: self.nume, deno: self.deno }
    }
}

impl vstd::std_specs::ops::NegSpecImpl for RNum {
    open spec fn obeys_neg_spec() -> bool {
        true
    }

    open spec fn neg_req(self) -> bool {
        true
    }

    open spec fn neg_spec(self) -> RNum {
        RNum::from_view(q_neg(self@))
    }
}

/// Every constructed rational is in lowest terms: `gcd(|n|, d) == 1`, which
/// also makes zero `0/1`.
pub proof fn law_new_lowest_terms(n: int, d: int)
    requires
        d != 0,
    ensures
        is_canonical(q_new(n, d)),
{
    lemma_canonical(if d < 0 { -n } else { n }, abs_spec(d) as int);
}

/// Negating both numerator and denominator gives the same rational.
pub proof fn law_new_sign_cancels(n: int, d: int)
    requires
        d != 0,
    ensures
        q_new(n, d) == q_new(-n, -d),
{
}

/// Zero over any denominator is the one canonical zero.
pub proof fn law_new_zero_canonical(d1: int, d2: int)
    requires
        d1 != 0,
        d2 != 0,
    ensures
        q_new(0, d1) == q_new(0, d2),
        q_new(0, d1) == (0int, 1int),
{
    lemma_canonical_zero(abs_spec(d1) as int);
    lemma_canonical_zero(abs_spec(d2) as int);
}

/// Adding zero changes nothing.
pub proof fn law_add_zero(x: (int, int))
    requires
        is_canonical(x),
    ensures
        q_add(x, (0int, 1int)) == x,
{
    assert(x.0 * 1 + 0 * x.1 == x.0 && x.1 * 1 == x.1) by (nonlinear_arith);
    lemma_canonical_fixed(x);
}

/// Multiplying by zero gives zero.
pub proof fn law_mul_zero(x: (int, int))
    requires
        is_canonical(x),
    ensures
        q_mul(x, (0int, 1int)) == (0int, 1int),
{
    assert(x.0 * 0 == 0 && x.1 * 1 == x.1) by (nonlinear_arith);
    lemma_canonical_zero(x.1);
}

/// A number minus itself is zero.
pub proof fn law_sub_self(x: (int, int))
    requires
        is_canonical(x),
    ensures
        q_sub(x, x) == (0int, 1int),
{
    assert(x.0 * x.1 - x.0 * x.1 == 0 && x.1 * x.1 > 0) by (nonlinear_arith)
        requires x.1 > 0;
    lemma_canonical_zero(x.1 * x.1);
}

/// A nonzero number divided by itself is one.
pub proof fn law_div_self(x: (int, int))
    requires
        is_canonical(x),
        x.0 != 0,
    ensures
        q_div(x, x) == q_new(1, 1),
{
    let m = x.1 * abs_spec(x.0);
    if x.0 < 0 {
        assert(-(x.0 * x.1) == m && m > 0) by (nonlinear_arith)
            requires x.1 > 0, x.0 < 0, abs_spec(x.0) == -x.0, m == x.1 * abs_spec(x.0);
    } else {
        assert(x.0 * x.1 == m && m > 0) by (nonlinear_arith)
            requires x.1 > 0, x.0 > 0, abs_spec(x.0) == x.0, m == x.1 * abs_spec(x.0);
    }
    lemma_gcd_self(m as nat);
    vstd::arithmetic::div_mod::lemma_div_basics(m);
    vstd::arithmetic::div_mod::lemma_div_basics(1);
    crate::utils::lemma_gcd_one_right(1);
}

/// Negating twice gives the number back.
pub proof fn law_neg_neg(x: (int, int))
    ensures
        q_neg(q_neg(x)) == x,
{
}

/// Addition is commutative.
pub proof fn law_add_commutative(x: (int, int), y: (int, int))
    requires
        is_canonical(x),
        is_canonical(y),
    ensures
        q_add(x, y) == q_add(y, x),
{
    assert(x.0 * y.1 + y.0 * x.1 == y.0 * x.1 + x.0 * y.1 && x.1 * y.1 == y.1 * x.1)
        by (nonlinear_arith);
}

/// Multiplication is commutative.
pub proof fn law_mul_commutative(x: (int, int), y: (int, int))
    requires
        is_canonical(x),
        is_canonical(y),
    ensures
        q_mul(x, y) == q_mul(y, x),
{
    assert(x.0 * y.0 == y.0 * x.0 && x.1 * y.1 == y.1 * x.1) by (nonlinear_arith);
}

/// `(a*b + c*d) * (e*b) == (a*e) * (b*b) + c*e*d*b`.
proof fn lemma_expand_sum_product(a: int, b: int, c: int, d: int, e: int)
    ensures
        (a * b + c * d) * (e * b) == (a * e) * (b * b) + c * e * d * b,
{
    vstd::arithmetic::mul::lemma_mul_is_distributive_add_other_way(e * b, a * b, c * d);
    assert((a * b) * (e * b) == (a * e) * (b * b)) by (nonlinear_arith);
    assert((c * d) * (e * b) == c * e * d * b) by (nonlinear_arith);
}

/// Adding `z` to the canonical form of `n / d` is adding it to `n / d`.
proof fn lemma_add_canonical_left(n: int, d: int, z: (int, int))
    requires
        d > 0,
        z.1 > 0,
    ensures
        q_add(canonical(n, d), z) == canonical(n * z.1 + z.0 * d, d * z.1),
{
    let c = canonical(n, d);
    lemma_canonical(n, d);
    assert(c.1 * z.1 > 0 && d * z.1 > 0) by (nonlinear_arith)
        requires c.1 > 0, z.1 > 0, d > 0;
    assert((c.0 * d) * (z.1 * z.1) == (n * c.1) * (z.1 * z.1));
    assert((c.0 * z.1 + z.0 * c.1) * (d * z.1) == (c.0 * d) * (z.1 * z.1) + z.0 * c.1 * d * z.1)
        by (nonlinear_arith);
    lemma_expand_sum_product(n, z.1, z.0, d, c.1);
    lemma_canonical_same_value(c.0 * z.1 + z.0 * c.1, c.1 * z.1, n * z.1 + z.0 * d, d * z.1);
}

/// Multiplying the canonical form of `n / d` by `z` is multiplying `n / d`.
proof fn lemma_mul_canonical_left(n: int, d: int, z: (int, int))
    requires
        d > 0,
        z.1 > 0,
    ensures
        q_mul(canonical(n, d), z) == canonical(n * z.0, d * z.1),
{
    let c = canonical(n, d);
    lemma_canonical(n, d);
    assert(c.1 * z.1 > 0 && d * z.1 > 0) by (nonlinear_arith)
        requires c.1 > 0, z.1 > 0, d > 0;
    assert((c.0 * d) * (z.0 * z.1) == (n * c.1) * (z.0 * z.1));
    assert((c.0 * z.0) * (d * z.1) == (c.0 * d) * (z.0 * z.1)) by (nonlinear_arith);
    assert((n * z.0) * (c.1 * z.1) == (n * c.1) * (z.0 * z.1)) by (nonlinear_arith);
    lemma_canonical_same_value(c.0 * z.0, c.1 * z.1, n * z.0, d * z.1);
}

/// Addition is associative.
pub proof fn law_add_associative(x: (int, int), y: (int, int), z: (int, int))
    requires
        is_canonical(x),
        is_canonical(y),
        is_canonical(z),
    ensures
        q_add(q_add(x, y), z) == q_add(x, q_add(y, z)),
{
    assert(x.1 * y.1 > 0 && y.1 * z.1 > 0) by (nonlinear_arith)
        requires x.1 > 0, y.1 > 0, z.1 > 0;
    lemma_add_canonical_left(x.0 * y.1 + y.0 * x.1, x.1 * y.1, z);
    lemma_add_canonical_left(y.0 * z.1 + z.0 * y.1, y.1 * z.1, x);
    lemma_canonical(y.0 * z.1 + z.0 * y.1, y.1 * z.1);
    law_add_commutative(x, q_add(y, z));
    assert((x.0 * y.1 + y.0 * x.1) * z.1 + z.0 * (x.1 * y.1)
        == (y.0 * z.1 + z.0 * y.1) * x.1 + x.0 * (y.1 * z.1)
        && (x.1 * y.1) * z.1 == (y.1 * z.1) * x.1) by (nonlinear_arith);
}

/// Multiplication is associative.
pub proof fn law_mul_associative(x: (int, int), y: (int, int), z: (int, int))
    requires
        is_canonical(x),
        is_canonical(y),
        is_canonical(z),
    ensures
        q_mul(q_mul(x, y), z) == q_mul(x, q_mul(y, z)),
{
    assert(x.1 * y.1 > 0 && y.1 * z.1 > 0) by (nonlinear_arith)
        requires x.1 > 0, y.1 > 0, z.1 > 0;
    lemma_mul_canonical_left(x.0 * y.0, x.1 * y.1, z);
    lemma_mul_canonical_left(y.0 * z.0, y.1 * z.1, x);
    lemma_canonical(y.0 * z.0, y.1 * z.1);
    law_mul_commutative(x, q_mul(y, z));
    assert((x.0 * y.0) * z.0 == (y.0 * z.0) * x.0 && (x.1 * y.1) * z.1 == (y.1 * z.1) * x.1)
        by (nonlinear_arith);
}

/// Division by a zero-valued rational is never admitted, whatever the
/// dividend.
pub proof fn law_div_by_zero_refused(a: RNum, b: RNum)
    requires
        b@.0 == 0,
    ensures
        !vstd::std_specs::ops::DivSpec::div_req(a, b),
{
}

} // verus!
