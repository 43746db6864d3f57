//! Greatest common divisor, as a spec function with its lemmas and as
//! executable code proved against it.
use vstd::prelude::*;

verus! {

/// Greatest common divisor by Euclid's recursion; `gcd_spec(0, 0) == 0`.
pub open spec fn gcd_spec(a: nat, b: nat) -> nat
    decreases b,
{
    if b == 0 {
        a
    } else {
        gcd_spec(b, a % b)
    }
}

/// `d` divides `a` (a positive divisor is assumed by the callers).
pub open spec fn divides(d: nat, a: nat) -> bool {
    d > 0 && a % d == 0
}

/// A divisor of `x` and `y` divides `x + k * y`.
pub proof fn lemma_divides_combination(g: int, x: int, y: int, k: int)
    requires
        g > 0,
        x % g == 0,
        y % g == 0,
    ensures
        (x + k * y) % g == 0,
{
    let qx = x / g;
    let qy = y / g;
    vstd::arithmetic::div_mod::lemma_fundamental_div_mod(x, g);
    vstd::arithmetic::div_mod::lemma_fundamental_div_mod(y, g);
    assert(x + k * y == (qx + k * qy) * g) by (nonlinear_arith)
        requires x == g * qx, y == g * qy;
    vstd::arithmetic::div_mod::lemma_mod_multiples_basic(qx + k * qy, g);
}

/// `a == b * (a / b) + a % b` for a positive `b`.
pub proof fn lemma_div_mod_split(a: nat, b: nat)
    requires
        b > 0,
    ensures
        a as int == b * (a / b) + a % b,
{
    vstd::arithmetic::div_mod::lemma_fundamental_div_mod(a as int, b as int);
}

/// The gcd of two numbers that are not both zero is positive and divides both.
pub proof fn lemma_gcd_divides(a: nat, b: nat)
    requires
        a > 0 || b > 0,
    ensures
        gcd_spec(a, b) > 0,
        divides(gcd_spec(a, b), a),
        divides(gcd_spec(a, b), b),
    decreases b,
{
    if b > 0 {
        let r = a % b;
        lemma_gcd_divides(b, r);
        let g = gcd_spec(b, r);
        lemma_div_mod_split(a, b);
        lemma_divides_combination(g as int, r as int, b as int, (a / b) as int);
    }
}

/// Every common divisor of `a` and `b` divides their gcd.
pub proof fn lemma_common_divisor_divides_gcd(d: nat, a: nat, b: nat)
    requires
        divides(d, a),
        divides(d, b),
    ensures
        divides(d, gcd_spec(a, b)),
    decreases b,
{
    if b > 0 {
        let r = a % b;
        lemma_div_mod_split(a, b);
        lemma_divides_combination(d as int, a as int, b as int, -((a / b) as int));
        assert(a + (-((a / b) as int)) * b == r) by (nonlinear_arith)
            requires a as int == b * (a / b) + r;
        lemma_common_divisor_divides_gcd(d, b, r);
    }
}

/// A positive multiple of `m` is at least `m`.
pub proof fn lemma_divisor_le(m: nat, x: nat)
    requires
        divides(m, x),
        x > 0,
    ensures
        m <= x,
{
    vstd::arithmetic::div_mod::lemma_fundamental_div_mod(x as int, m as int);
    assert(x / m >= 1) by (nonlinear_arith)
        requires x == m * (x / m), x > 0, m > 0;
    assert(m <= x) by (nonlinear_arith)
        requires x == m * (x / m), x / m >= 1, m > 0;
}

/// If `g` divides `x` then `x == g * (x / g)`.
pub proof fn lemma_divides_exact(g: nat, x: nat)
    requires
        divides(g, x),
    ensures
        x == g * (x / g),
{
    vstd::arithmetic::div_mod::lemma_fundamental_div_mod(x as int, g as int);
}

/// `gcd(0, d) == d`.
pub proof fn lemma_gcd_zero_left(d: nat)
    ensures
        gcd_spec(0, d) == d,
{
    if d > 0 {
        assert(0nat % d == 0);
        assert(gcd_spec(d, 0) == d);
    }
}

/// `gcd(x, x) == x`.
pub proof fn lemma_gcd_self(x: nat)
    ensures
        gcd_spec(x, x) == x,
{
    if x > 0 {
        assert(x % x == 0) by {
            vstd::arithmetic::div_mod::lemma_mod_self_0(x as int);
        }
        assert(gcd_spec(x, 0) == x);
    }
}

/// `gcd(a, 1) == 1`.
pub proof fn lemma_gcd_one_right(a: nat)
    ensures
        gcd_spec(a, 1) == 1,
{
    assert(a % 1 == 0);
    assert(gcd_spec(1, 0) == 1);
}

/// Dividing two numbers by their gcd leaves them coprime.
pub proof fn lemma_gcd_reduced_coprime(a: nat, b: nat)
    requires
        a > 0 || b > 0,
    ensures
        gcd_spec(a / gcd_spec(a, b), b / gcd_spec(a, b)) == 1,
{
    let g = gcd_spec(a, b);
    lemma_gcd_divides(a, b);
    lemma_divides_exact(g, a);
    lemma_divides_exact(g, b);
    let a1 = a / g;
    let b1 = b / g;
    assert(a1 > 0 || b1 > 0) by (nonlinear_arith)
        requires a == g * a1, b == g * b1, a > 0 || b > 0;
    let h = gcd_spec(a1, b1);
    lemma_gcd_divides(a1, b1);
    lemma_divides_exact(h, a1);
    lemma_divides_exact(h, b1);
    let gh = g * h;
    assert(gh > 0) by (nonlinear_arith)
        requires g > 0, h > 0, gh == g * h;
    assert(a == gh * (a1 / h)) by (nonlinear_arith)
        requires a == g * a1, a1 == h * (a1 / h), gh == g * h;
    assert(b == gh * (b1 / h)) by (nonlinear_arith)
        requires b == g * b1, b1 == h * (b1 / h), gh == g * h;
    vstd::arithmetic::div_mod::lemma_mod_multiples_basic((a1 / h) as int, gh as int);
    vstd::arithmetic::div_mod::lemma_mod_multiples_basic((b1 / h) as int, gh as int);
    assert((a1 / h) * gh == gh * (a1 / h)) by (nonlinear_arith);
    assert((b1 / h) * gh == gh * (b1 / h)) by (nonlinear_arith);
    lemma_common_divisor_divides_gcd(gh as nat, a, b);
    lemma_divisor_le(gh as nat, g);
    assert(h <= 1) by (nonlinear_arith)
        requires g * h <= g, g > 0;
}

/// The gcd commutes with a common positive factor: `gcd(k*a, k*b) == k * gcd(a, b)`.
pub proof fn lemma_gcd_scale(k: nat, a: nat, b: nat)
    requires
        k > 0,
    ensures
        gcd_spec(k * a, k * b) == k * gcd_spec(a, b),
    decreases b,
{
    if b > 0 {
        assert(k * b > 0) by (nonlinear_arith)
            requires k > 0, b > 0;
        vstd::arithmetic::div_mod::lemma_truncate_middle(a as int, k as int, b as int);
        lemma_gcd_scale(k, b, a % b);
        assert(gcd_spec(k * a, k * b) == gcd_spec(k * b, (k * a) % (k * b)));
    } else {
        assert(k * b == 0) by (nonlinear_arith)
            requires b == 0;
    }
}

/// Two fractions in lowest terms with equal cross products are the same
/// fraction.
pub proof fn lemma_lowest_terms_unique(n1: nat, d1: nat, n2: nat, d2: nat)
    requires
        d1 > 0,
        d2 > 0,
        gcd_spec(n1, d1) == 1,
        gcd_spec(n2, d2) == 1,
        n1 * d2 == n2 * d1,
    ensures
        n1 == n2,
        d1 == d2,
{
    lemma_gcd_scale(d2, n1, d1);
    lemma_gcd_scale(d1, n2, d2);
    assert(d2 * n1 == d1 * n2 && d2 * d1 == d1 * d2) by (nonlinear_arith)
        requires n1 * d2 == n2 * d1;
    assert(d1 == d2);
    assert(n1 == n2) by (nonlinear_arith)
        requires n1 * d2 == n2 * d1, d1 == d2, d1 > 0;
}

/// Greatest common divisor of two magnitudes, by repeated remainders after
/// putting the larger one first.
pub fn gcd(a: u32, b: u32) -> (r: u32)
    ensures
        r == gcd_spec(a as nat, b as nat),
{
    let mut a: u32 = a;
    let mut b: u32 = b;
    if a < b {
        proof {
            assert(gcd_spec(a as nat, b as nat) == gcd_spec(b as nat, a as nat)) by {
                assert((a as nat) % (b as nat) == a as nat) by {
                    vstd::arithmetic::div_mod::lemma_small_mod(a as nat, b as nat);
                }
            }
        }
        let tmp = b;
        b = a;
        a = tmp;
    }
    if b == 1 {
        proof {
            lemma_gcd_one_right(a as nat);
        }
        1
    } else if a == b || b == 0 {
        proof {
            lemma_gcd_self(a as nat);
        }
        a
    } else {
        let ghost target = gcd_spec(a as nat, b as nat);
        let mut r: u32 = a % b;
        while r > 0
            invariant
                b > 0,
                r == a % b,
                gcd_spec(a as nat, b as nat) == target,
            decreases b,
        {
            a = b;
            b = r;
            r = a % b;
        }
        proof {
            assert(gcd_spec(b as nat, 0) == b);
        }
        b
    }
}

/// Greatest common divisor on wide magnitudes, by Euclid's loop.
pub(crate) fn gcd_wide(a: u128, b: u128) -> (r: u128)
    ensures
        r == gcd_spec(a as nat, b as nat),
{
    let mut x: u128 = a;
    let mut y: u128 = b;
    while y > 0
        invariant
            gcd_spec(x as nat, y as nat) == gcd_spec(a as nat, b as nat),
        decreases y,
    {
        let t = x % y;
        x = y;
        y = t;
    }
    x
}

/// Both magnitudes divided by their gcd.
pub fn get_reduced_pair(a: u32, b: u32) -> (r: (u32, u32))
    requires
        a > 0 || b > 0,
    ensures
        r.0 == a as nat / gcd_spec(a as nat, b as nat),
        r.1 == b as nat / gcd_spec(a as nat, b as nat),
        gcd_spec(r.0 as nat, r.1 as nat) == 1,
{
    let gcd_num = gcd(a, b);
    proof {
        lemma_gcd_divides(a as nat, b as nat);
        lemma_gcd_reduced_coprime(a as nat, b as nat);
    }
    (a / gcd_num, b / gcd_num)
}

} // verus!
