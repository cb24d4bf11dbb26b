//! Fractions compared by value form a field: the laws that rearrange sums
//! and products of exact rationals.

use vstd::arithmetic::mul::{
    lemma_mul_is_associative, lemma_mul_is_commutative, lemma_mul_is_distributive_add, lemma_mul_unary_negation,
};
use vstd::prelude::*;

use crate::rational::{
    frac_add, frac_div, frac_int, frac_mul, frac_neg, frac_sub, lemma_add_associates, lemma_add_commutes,
    lemma_congruent, lemma_distributes, lemma_same_value_transitive, same_value, Frac,
};

verus! {

/// `a` and `b` have positive denominators and denote the same value.
pub open spec fn eqv(a: Frac, b: Frac) -> bool {
    &&& a.d > 0
    &&& b.d > 0
    &&& same_value(a, b)
}

pub proof fn lemma_positive(a: Frac, b: Frac)
    requires
        a.d > 0,
        b.d > 0,
    ensures
        frac_add(a, b).d > 0,
        frac_sub(a, b).d > 0,
        frac_mul(a, b).d > 0,
        frac_neg(a).d > 0,
{
    assert(a.d * b.d > 0) by (nonlinear_arith)
        requires
            a.d > 0,
            b.d > 0,
    ;
}

pub proof fn lemma_eqv_reflexive(a: Frac)
    requires
        a.d > 0,
    ensures
        eqv(a, a),
{
}

pub proof fn lemma_eqv_symmetric(a: Frac, b: Frac)
    requires
        eqv(a, b),
    ensures
        eqv(b, a),
{
}

pub proof fn lemma_eqv_transitive(a: Frac, b: Frac, c: Frac)
    requires
        eqv(a, b),
        eqv(b, c),
    ensures
        eqv(a, c),
{
    lemma_same_value_transitive(a, b, c);
}

/// Sums, differences and products of equal values are equal.
pub proof fn lemma_eqv_congruent(a: Frac, b: Frac, c: Frac, d: Frac)
    requires
        eqv(a, b),
        eqv(c, d),
    ensures
        eqv(frac_add(a, c), frac_add(b, d)),
        eqv(frac_sub(a, c), frac_sub(b, d)),
        eqv(frac_mul(a, c), frac_mul(b, d)),
{
    lemma_congruent(a, b, c, d);
    lemma_positive(a, c);
    lemma_positive(b, d);
}

pub proof fn lemma_neg_congruent(a: Frac, b: Frac)
    requires
        eqv(a, b),
    ensures
        eqv(frac_neg(a), frac_neg(b)),
{
    assert((-a.n) * b.d == (-b.n) * a.d) by (nonlinear_arith)
        requires
            a.n * b.d == b.n * a.d,
    ;
}

pub proof fn lemma_add_commutative(a: Frac, b: Frac)
    requires
        a.d > 0,
        b.d > 0,
    ensures
        eqv(frac_add(a, b), frac_add(b, a)),
{
    lemma_add_commutes(a, b);
    lemma_positive(a, b);
    lemma_positive(b, a);
}

pub proof fn lemma_add_associative(a: Frac, b: Frac, c: Frac)
    requires
        a.d > 0,
        b.d > 0,
        c.d > 0,
    ensures
        eqv(frac_add(frac_add(a, b), c), frac_add(a, frac_add(b, c))),
{
    lemma_add_associates(a, b, c);
    lemma_positive(a, b);
    lemma_positive(b, c);
    lemma_positive(frac_add(a, b), c);
    lemma_positive(a, frac_add(b, c));
}

pub proof fn lemma_mul_commutative(a: Frac, b: Frac)
    requires
        a.d > 0,
        b.d > 0,
    ensures
        eqv(frac_mul(a, b), frac_mul(b, a)),
{
    lemma_positive(a, b);
    lemma_positive(b, a);
    lemma_mul_is_commutative(a.n, b.n);
    lemma_mul_is_commutative(a.d, b.d);
}

pub proof fn lemma_mul_associative(a: Frac, b: Frac, c: Frac)
    requires
        a.d > 0,
        b.d > 0,
        c.d > 0,
    ensures
        eqv(frac_mul(frac_mul(a, b), c), frac_mul(a, frac_mul(b, c))),
{
    lemma_positive(a, b);
    lemma_positive(b, c);
    lemma_positive(frac_mul(a, b), c);
    lemma_positive(a, frac_mul(b, c));
    lemma_mul_is_associative(a.n, b.n, c.n);
    lemma_mul_is_associative(a.d, b.d, c.d);
}

/// Multiplication distributes over addition.
pub proof fn lemma_distributive(a: Frac, b: Frac, c: Frac)
    requires
        a.d > 0,
        b.d > 0,
        c.d > 0,
    ensures
        eqv(frac_mul(a, frac_add(b, c)), frac_add(frac_mul(a, b), frac_mul(a, c))),
{
    lemma_distributes(a, b, c);
    lemma_positive(b, c);
    lemma_positive(a, frac_add(b, c));
    lemma_positive(a, b);
    lemma_positive(a, c);
    lemma_positive(frac_mul(a, b), frac_mul(a, c));
}

/// A difference is the sum with the negation.
pub proof fn lemma_sub_is_add_neg(a: Frac, b: Frac)
    requires
        a.d > 0,
        b.d > 0,
    ensures
        eqv(frac_sub(a, b), frac_add(a, frac_neg(b))),
{
    lemma_positive(a, b);
    lemma_positive(a, frac_neg(b));
    assert((-b.n) * a.d == -(b.n * a.d)) by (nonlinear_arith);
}

/// Negation moves out of a product.
pub proof fn lemma_mul_neg(a: Frac, b: Frac)
    requires
        a.d > 0,
        b.d > 0,
    ensures
        eqv(frac_mul(frac_neg(a), b), frac_neg(frac_mul(a, b))),
        eqv(frac_mul(a, frac_neg(b)), frac_neg(frac_mul(a, b))),
{
    lemma_positive(a, b);
    lemma_positive(frac_neg(a), b);
    lemma_positive(a, frac_neg(b));
    assert((-a.n) * b.n == -(a.n * b.n)) by (nonlinear_arith);
    assert(a.n * (-b.n) == -(a.n * b.n)) by (nonlinear_arith);
}

/// A value plus its negation is zero.
pub proof fn lemma_add_neg_self(a: Frac)
    requires
        a.d > 0,
    ensures
        eqv(frac_add(a, frac_neg(a)), frac_int(0)),
{
    lemma_positive(a, frac_neg(a));
    assert(a.n * a.d + (-a.n) * a.d == 0) by (nonlinear_arith);
}

/// Zero is neutral for addition.
pub proof fn lemma_add_zero(a: Frac)
    requires
        a.d > 0,
    ensures
        eqv(frac_add(a, frac_int(0)), a),
        eqv(frac_add(frac_int(0), a), a),
{
    lemma_positive(a, frac_int(0));
    lemma_positive(frac_int(0), a);
    assert((a.n * 1 + 0 * a.d) * a.d == a.n * (a.d * 1)) by (nonlinear_arith);
    assert((0 * a.d + a.n * 1) * a.d == a.n * (1 * a.d)) by (nonlinear_arith);
}

/// Zero absorbs multiplication; one is neutral.
pub proof fn lemma_mul_zero_one(a: Frac)
    requires
        a.d > 0,
    ensures
        eqv(frac_mul(frac_int(0), a), frac_int(0)),
        eqv(frac_mul(a, frac_int(0)), frac_int(0)),
        eqv(frac_mul(frac_int(1), a), a),
        eqv(frac_mul(a, frac_int(1)), a),
{
    lemma_positive(frac_int(0), a);
    lemma_positive(a, frac_int(0));
    lemma_positive(frac_int(1), a);
    lemma_positive(a, frac_int(1));
    assert((0 * a.n) * 1 == 0 * (1 * a.d)) by (nonlinear_arith);
    assert((a.n * 0) * 1 == 0 * (a.d * 1)) by (nonlinear_arith);
    assert((1 * a.n) * a.d == a.n * (1 * a.d)) by (nonlinear_arith);
    assert((a.n * 1) * a.d == a.n * (a.d * 1)) by (nonlinear_arith);
}

/// Dividing by a nonzero value and multiplying back gives the value.
pub proof fn lemma_div_mul_cancel(p: Frac, divisor: Frac)
    requires
        p.d > 0,
        divisor.d > 0,
        divisor.n != 0,
    ensures
        frac_div(p, divisor).d > 0,
        eqv(frac_mul(frac_div(p, divisor), divisor), p),
{
    let q = frac_div(p, divisor);
    if divisor.n >= 0 {
        assert(q.d == p.d * divisor.n);
        assert(q.d > 0) by (nonlinear_arith)
            requires
                q.d == p.d * divisor.n,
                p.d > 0,
                divisor.n > 0,
        ;
        assert((p.n * divisor.d * divisor.n) * p.d == p.n * (p.d * divisor.n * divisor.d)) by (nonlinear_arith);
    } else {
        assert(q.d == -(p.d * divisor.n));
        assert(q.d > 0) by (nonlinear_arith)
            requires
                q.d == -(p.d * divisor.n),
                p.d > 0,
                divisor.n < 0,
        ;
        assert((-(p.n * divisor.d) * divisor.n) * p.d == p.n * (-(p.d * divisor.n) * divisor.d)) by (
        nonlinear_arith);
    }
    lemma_positive(q, divisor);
}

/// Coefficients of `x`, `y` and `r`, then a constant.
pub type Coefficients = (Frac, Frac, Frac, Frac);

/// The linear form `x * c.0 + y * c.1 + r * c.2 + c.3`.
pub open spec fn linear(c: Coefficients, x: Frac, y: Frac, r: Frac) -> Frac {
    frac_add(frac_add(frac_add(frac_mul(x, c.0), frac_mul(y, c.1)), frac_mul(r, c.2)), c.3)
}

pub open spec fn coefficients_positive(c: Coefficients) -> bool {
    c.0.d > 0 && c.1.d > 0 && c.2.d > 0 && c.3.d > 0
}

/// Componentwise sum of coefficients.
pub open spec fn sum_coefficients(c: Coefficients, e: Coefficients) -> Coefficients {
    (frac_add(c.0, e.0), frac_add(c.1, e.1), frac_add(c.2, e.2), frac_add(c.3, e.3))
}

/// Coefficients scaled by `k`.
pub open spec fn scaled_coefficients(k: Frac, c: Coefficients) -> Coefficients {
    (frac_mul(k, c.0), frac_mul(k, c.1), frac_mul(k, c.2), frac_mul(k, c.3))
}

/// `value` at position `k` (3 for the constant), zero elsewhere.
pub open spec fn unit(k: int, value: Frac) -> Coefficients {
    (
        if k == 0 {
            value
        } else {
            frac_int(0)
        },
        if k == 1 {
            value
        } else {
            frac_int(0)
        },
        if k == 2 {
            value
        } else {
            frac_int(0)
        },
        if k == 3 {
            value
        } else {
            frac_int(0)
        },
    )
}

/// `(p + q) + (s + t)` has the value of `(p + s) + (q + t)`.
pub proof fn lemma_interchange(p: Frac, q: Frac, s: Frac, t: Frac)
    requires
        p.d > 0,
        q.d > 0,
        s.d > 0,
        t.d > 0,
    ensures
        eqv(frac_add(frac_add(p, q), frac_add(s, t)), frac_add(frac_add(p, s), frac_add(q, t))),
{
    lemma_positive(p, q);
    lemma_positive(s, t);
    lemma_positive(q, s);
    lemma_positive(s, q);
    lemma_positive(q, t);
    lemma_positive(p, s);
    lemma_positive(frac_add(q, s), t);
    lemma_positive(frac_add(s, q), t);
    lemma_positive(q, frac_add(s, t));
    lemma_positive(s, frac_add(q, t));
    // (p + q) + (s + t) == p + (q + (s + t)) == p + ((q + s) + t)
    lemma_add_associative(p, q, frac_add(s, t));
    lemma_add_associative(q, s, t);
    lemma_eqv_symmetric(frac_add(frac_add(q, s), t), frac_add(q, frac_add(s, t)));
    lemma_eqv_reflexive(p);
    lemma_eqv_congruent(p, p, frac_add(q, frac_add(s, t)), frac_add(frac_add(q, s), t));
    lemma_eqv_transitive(
        frac_add(frac_add(p, q), frac_add(s, t)),
        frac_add(p, frac_add(q, frac_add(s, t))),
        frac_add(p, frac_add(frac_add(q, s), t)),
    );
    // == p + ((s + q) + t) == p + (s + (q + t))
    lemma_add_commutative(q, s);
    lemma_eqv_reflexive(t);
    lemma_eqv_congruent(frac_add(q, s), frac_add(s, q), t, t);
    lemma_eqv_congruent(p, p, frac_add(frac_add(q, s), t), frac_add(frac_add(s, q), t));
    lemma_eqv_transitive(
        frac_add(frac_add(p, q), frac_add(s, t)),
        frac_add(p, frac_add(frac_add(q, s), t)),
        frac_add(p, frac_add(frac_add(s, q), t)),
    );
    lemma_add_associative(s, q, t);
    lemma_eqv_congruent(p, p, frac_add(frac_add(s, q), t), frac_add(s, frac_add(q, t)));
    lemma_eqv_transitive(
        frac_add(frac_add(p, q), frac_add(s, t)),
        frac_add(p, frac_add(frac_add(s, q), t)),
        frac_add(p, frac_add(s, frac_add(q, t))),
    );
    // == (p + s) + (q + t)
    lemma_add_associative(p, s, frac_add(q, t));
    lemma_eqv_symmetric(frac_add(frac_add(p, s), frac_add(q, t)), frac_add(p, frac_add(s, frac_add(q, t))));
    lemma_eqv_transitive(
        frac_add(frac_add(p, q), frac_add(s, t)),
        frac_add(p, frac_add(s, frac_add(q, t))),
        frac_add(frac_add(p, s), frac_add(q, t)),
    );
}

/// `x * (a + b)` has the value of `x * a + x * b`, reversed.
proof fn lemma_factor(x: Frac, a: Frac, b: Frac)
    requires
        x.d > 0,
        a.d > 0,
        b.d > 0,
    ensures
        eqv(frac_add(frac_mul(x, a), frac_mul(x, b)), frac_mul(x, frac_add(a, b))),
{
    lemma_distributive(x, a, b);
    lemma_eqv_symmetric(frac_mul(x, frac_add(a, b)), frac_add(frac_mul(x, a), frac_mul(x, b)));
}

/// Sums of linear forms add their coefficients.
pub proof fn lemma_linear_add(c: Coefficients, e: Coefficients, x: Frac, y: Frac, r: Frac)
    requires
        coefficients_positive(c),
        coefficients_positive(e),
        x.d > 0,
        y.d > 0,
        r.d > 0,
    ensures
        eqv(frac_add(linear(c, x, y, r), linear(e, x, y, r)), linear(sum_coefficients(c, e), x, y, r)),
{
    let (xc, yc, rc) = (frac_mul(x, c.0), frac_mul(y, c.1), frac_mul(r, c.2));
    let (xe, ye, re) = (frac_mul(x, e.0), frac_mul(y, e.1), frac_mul(r, e.2));
    lemma_positive(x, c.0);
    lemma_positive(y, c.1);
    lemma_positive(r, c.2);
    lemma_positive(x, e.0);
    lemma_positive(y, e.1);
    lemma_positive(r, e.2);
    let (c2, e2) = (frac_add(xc, yc), frac_add(xe, ye));
    lemma_positive(xc, yc);
    lemma_positive(xe, ye);
    let (c3, e3) = (frac_add(c2, rc), frac_add(e2, re));
    lemma_positive(c2, rc);
    lemma_positive(e2, re);
    // Interchange at each level.
    lemma_interchange(c3, c.3, e3, e.3);
    lemma_interchange(c2, rc, e2, re);
    lemma_interchange(xc, yc, xe, ye);
    // Factor each variable.
    lemma_factor(x, c.0, e.0);
    lemma_factor(y, c.1, e.1);
    lemma_factor(r, c.2, e.2);
    lemma_positive(c.0, e.0);
    lemma_positive(c.1, e.1);
    lemma_positive(c.2, e.2);
    lemma_positive(c.3, e.3);
    let (xs, ys, rs) = (frac_mul(x, frac_add(c.0, e.0)), frac_mul(y, frac_add(c.1, e.1)), frac_mul(r, frac_add(c.2, e.2)));
    lemma_positive(x, frac_add(c.0, e.0));
    lemma_positive(y, frac_add(c.1, e.1));
    lemma_positive(r, frac_add(c.2, e.2));
    // (xc + yc) + (xe + ye) == (xc + xe) + (yc + ye) == xs + ys
    lemma_positive(xc, xe);
    lemma_positive(yc, ye);
    lemma_eqv_congruent(frac_add(xc, xe), xs, frac_add(yc, ye), ys);
    lemma_eqv_transitive(frac_add(c2, e2), frac_add(frac_add(xc, xe), frac_add(yc, ye)), frac_add(xs, ys));
    // (c2 + rc) + (e2 + re) == (c2 + e2) + (rc + re) == (xs + ys) + rs
    lemma_positive(c2, e2);
    lemma_positive(rc, re);
    lemma_eqv_congruent(frac_add(c2, e2), frac_add(xs, ys), frac_add(rc, re), rs);
    lemma_eqv_transitive(
        frac_add(c3, e3),
        frac_add(frac_add(c2, e2), frac_add(rc, re)),
        frac_add(frac_add(xs, ys), rs),
    );
    // (c3 + c.3) + (e3 + e.3) == (c3 + e3) + (c.3 + e.3) == linear(sum)
    lemma_positive(c3, e3);
    lemma_positive(xs, ys);
    lemma_positive(frac_add(xs, ys), rs);
    lemma_eqv_reflexive(frac_add(c.3, e.3));
    lemma_eqv_congruent(frac_add(c3, e3), frac_add(frac_add(xs, ys), rs), frac_add(c.3, e.3), frac_add(c.3, e.3));
    lemma_positive(c3, c.3);
    lemma_positive(e3, e.3);
    lemma_eqv_transitive(
        frac_add(linear(c, x, y, r), linear(e, x, y, r)),
        frac_add(frac_add(c3, e3), frac_add(c.3, e.3)),
        linear(sum_coefficients(c, e), x, y, r),
    );
}

/// `k * (x * a)` has the value of `x * (k * a)`.
proof fn lemma_scale_term(k: Frac, x: Frac, a: Frac)
    requires
        k.d > 0,
        x.d > 0,
        a.d > 0,
    ensures
        eqv(frac_mul(k, frac_mul(x, a)), frac_mul(x, frac_mul(k, a))),
{
    lemma_positive(k, x);
    lemma_positive(x, k);
    lemma_positive(x, a);
    lemma_positive(k, a);
    lemma_mul_associative(k, x, a);
    lemma_eqv_symmetric(frac_mul(frac_mul(k, x), a), frac_mul(k, frac_mul(x, a)));
    lemma_mul_commutative(k, x);
    lemma_eqv_reflexive(a);
    lemma_eqv_congruent(frac_mul(k, x), frac_mul(x, k), a, a);
    lemma_mul_associative(x, k, a);
    lemma_eqv_transitive(frac_mul(k, frac_mul(x, a)), frac_mul(frac_mul(k, x), a), frac_mul(frac_mul(x, k), a));
    lemma_eqv_transitive(frac_mul(k, frac_mul(x, a)), frac_mul(frac_mul(x, k), a), frac_mul(x, frac_mul(k, a)));
}

/// Scaling a linear form scales its coefficients.
pub proof fn lemma_linear_scale(k: Frac, c: Coefficients, x: Frac, y: Frac, r: Frac)
    requires
        k.d > 0,
        coefficients_positive(c),
        x.d > 0,
        y.d > 0,
        r.d > 0,
    ensures
        eqv(frac_mul(k, linear(c, x, y, r)), linear(scaled_coefficients(k, c), x, y, r)),
{
    let (xc, yc, rc) = (frac_mul(x, c.0), frac_mul(y, c.1), frac_mul(r, c.2));
    lemma_positive(x, c.0);
    lemma_positive(y, c.1);
    lemma_positive(r, c.2);
    let c2 = frac_add(xc, yc);
    lemma_positive(xc, yc);
    let c3 = frac_add(c2, rc);
    lemma_positive(c2, rc);
    lemma_distributive(k, c3, c.3);
    lemma_distributive(k, c2, rc);
    lemma_distributive(k, xc, yc);
    lemma_scale_term(k, x, c.0);
    lemma_scale_term(k, y, c.1);
    lemma_scale_term(k, r, c.2);
    lemma_positive(k, c.0);
    lemma_positive(k, c.1);
    lemma_positive(k, c.2);
    lemma_positive(k, c.3);
    let (kx, ky, kr) = (frac_mul(x, frac_mul(k, c.0)), frac_mul(y, frac_mul(k, c.1)), frac_mul(r, frac_mul(k, c.2)));
    lemma_positive(x, frac_mul(k, c.0));
    lemma_positive(y, frac_mul(k, c.1));
    lemma_positive(r, frac_mul(k, c.2));
    lemma_positive(k, xc);
    lemma_positive(k, yc);
    lemma_positive(k, rc);
    lemma_positive(k, c2);
    lemma_positive(k, c3);
    // k * c2 == k xc + k yc == kx + ky
    lemma_eqv_congruent(frac_mul(k, xc), kx, frac_mul(k, yc), ky);
    lemma_eqv_transitive(frac_mul(k, c2), frac_add(frac_mul(k, xc), frac_mul(k, yc)), frac_add(kx, ky));
    // k * c3 == k c2 + k rc == (kx + ky) + kr
    lemma_positive(kx, ky);
    lemma_eqv_congruent(frac_mul(k, c2), frac_add(kx, ky), frac_mul(k, rc), kr);
    lemma_positive(frac_mul(k, c2), frac_mul(k, rc));
    lemma_eqv_transitive(frac_mul(k, c3), frac_add(frac_mul(k, c2), frac_mul(k, rc)), frac_add(frac_add(kx, ky), kr));
    // k * (c3 + c.3) == k c3 + k c.3 == linear(scaled)
    lemma_positive(frac_add(kx, ky), kr);
    lemma_eqv_reflexive(frac_mul(k, c.3));
    lemma_eqv_congruent(frac_mul(k, c3), frac_add(frac_add(kx, ky), kr), frac_mul(k, c.3), frac_mul(k, c.3));
    lemma_eqv_transitive(
        frac_mul(k, linear(c, x, y, r)),
        frac_add(frac_mul(k, c3), frac_mul(k, c.3)),
        linear(scaled_coefficients(k, c), x, y, r),
    );
}

/// Linear forms with equal coefficients are equal.
pub proof fn lemma_linear_congruent(c: Coefficients, e: Coefficients, x: Frac, y: Frac, r: Frac)
    requires
        eqv(c.0, e.0),
        eqv(c.1, e.1),
        eqv(c.2, e.2),
        eqv(c.3, e.3),
        x.d > 0,
        y.d > 0,
        r.d > 0,
    ensures
        eqv(linear(c, x, y, r), linear(e, x, y, r)),
{
    lemma_eqv_reflexive(x);
    lemma_eqv_reflexive(y);
    lemma_eqv_reflexive(r);
    lemma_eqv_congruent(x, x, c.0, e.0);
    lemma_eqv_congruent(y, y, c.1, e.1);
    lemma_eqv_congruent(r, r, c.2, e.2);
    lemma_eqv_congruent(frac_mul(x, c.0), frac_mul(x, e.0), frac_mul(y, c.1), frac_mul(y, e.1));
    lemma_eqv_congruent(
        frac_add(frac_mul(x, c.0), frac_mul(y, c.1)),
        frac_add(frac_mul(x, e.0), frac_mul(y, e.1)),
        frac_mul(r, c.2),
        frac_mul(r, e.2),
    );
    lemma_eqv_congruent(
        frac_add(frac_add(frac_mul(x, c.0), frac_mul(y, c.1)), frac_mul(r, c.2)),
        frac_add(frac_add(frac_mul(x, e.0), frac_mul(y, e.1)), frac_mul(r, e.2)),
        c.3,
        e.3,
    );
}

/// A form with one nonzero coefficient is that single term.
pub proof fn lemma_linear_unit(k: int, value: Frac, x: Frac, y: Frac, r: Frac)
    requires
        0 <= k <= 3,
        value.d > 0,
        x.d > 0,
        y.d > 0,
        r.d > 0,
    ensures
        coefficients_positive(unit(k, value)),
        k == 0 ==> eqv(linear(unit(k, value), x, y, r), frac_mul(x, value)),
        k == 1 ==> eqv(linear(unit(k, value), x, y, r), frac_mul(y, value)),
        k == 2 ==> eqv(linear(unit(k, value), x, y, r), frac_mul(r, value)),
        k == 3 ==> eqv(linear(unit(k, value), x, y, r), value),
{
    let c = unit(k, value);
    let zero = frac_int(0);
    lemma_mul_zero_one(x);
    lemma_mul_zero_one(y);
    lemma_mul_zero_one(r);
    lemma_positive(x, value);
    lemma_positive(y, value);
    lemma_positive(r, value);
    lemma_positive(x, c.0);
    lemma_positive(y, c.1);
    lemma_positive(r, c.2);
    let (xc, yc, rc) = (frac_mul(x, c.0), frac_mul(y, c.1), frac_mul(r, c.2));
    // The two zero terms drop; what stays is the one term.
    let term = if k == 0 {
        xc
    } else if k == 1 {
        yc
    } else if k == 2 {
        rc
    } else {
        value
    };
    lemma_positive(xc, yc);
    lemma_positive(frac_add(xc, yc), rc);
    if k == 0 {
        lemma_add_zero(xc);
        lemma_eqv_reflexive(xc);
        lemma_eqv_congruent(xc, xc, yc, zero);
        lemma_eqv_transitive(frac_add(xc, yc), frac_add(xc, zero), xc);
        lemma_eqv_congruent(frac_add(xc, yc), xc, rc, zero);
        lemma_eqv_transitive(frac_add(frac_add(xc, yc), rc), frac_add(xc, zero), xc);
        lemma_eqv_congruent(frac_add(frac_add(xc, yc), rc), xc, zero, zero);
        lemma_eqv_transitive(linear(c, x, y, r), frac_add(xc, zero), xc);
    } else if k == 1 {
        lemma_add_zero(yc);
        lemma_eqv_reflexive(yc);
        lemma_eqv_congruent(xc, zero, yc, yc);
        lemma_eqv_transitive(frac_add(xc, yc), frac_add(zero, yc), yc);
        lemma_eqv_congruent(frac_add(xc, yc), yc, rc, zero);
        lemma_eqv_transitive(frac_add(frac_add(xc, yc), rc), frac_add(yc, zero), yc);
        lemma_eqv_congruent(frac_add(frac_add(xc, yc), rc), yc, zero, zero);
        lemma_eqv_transitive(linear(c, x, y, r), frac_add(yc, zero), yc);
    } else if k == 2 {
        lemma_add_zero(zero);
        lemma_add_zero(rc);
        lemma_eqv_congruent(xc, zero, yc, zero);
        lemma_eqv_transitive(frac_add(xc, yc), frac_add(zero, zero), zero);
        lemma_eqv_reflexive(rc);
        lemma_eqv_congruent(frac_add(xc, yc), zero, rc, rc);
        lemma_eqv_transitive(frac_add(frac_add(xc, yc), rc), frac_add(zero, rc), rc);
        lemma_eqv_congruent(frac_add(frac_add(xc, yc), rc), rc, zero, zero);
        lemma_eqv_transitive(linear(c, x, y, r), frac_add(rc, zero), rc);
    } else {
        lemma_add_zero(zero);
        lemma_add_zero(value);
        lemma_eqv_congruent(xc, zero, yc, zero);
        lemma_eqv_transitive(frac_add(xc, yc), frac_add(zero, zero), zero);
        lemma_eqv_congruent(frac_add(xc, yc), zero, rc, zero);
        lemma_eqv_transitive(frac_add(frac_add(xc, yc), rc), frac_add(zero, zero), zero);
        lemma_eqv_reflexive(value);
        lemma_eqv_congruent(frac_add(frac_add(xc, yc), rc), zero, value, value);
        lemma_eqv_transitive(linear(c, x, y, r), frac_add(zero, value), value);
    }
}


/// A quotient times a factor is the product's quotient.
pub proof fn lemma_div_times(a: Frac, divisor: Frac, p: Frac)
    requires
        a.d > 0,
        p.d > 0,
        divisor.d > 0,
        divisor.n != 0,
    ensures
        eqv(frac_mul(frac_div(a, divisor), p), frac_div(frac_mul(a, p), divisor)),
{
    lemma_div_mul_cancel(a, divisor);
    lemma_positive(a, p);
    lemma_div_mul_cancel(frac_mul(a, p), divisor);
    lemma_positive(frac_div(a, divisor), p);
    if divisor.n >= 0 {
        assert(((a.n * divisor.d) * p.n) * ((a.d * p.d) * divisor.n) == ((a.n * p.n) * divisor.d) * ((a.d
            * divisor.n) * p.d)) by (nonlinear_arith);
    } else {
        assert(((-(a.n * divisor.d)) * p.n) * (-((a.d * p.d) * divisor.n)) == (-((a.n * p.n) * divisor.d)) * ((
        -(a.d * divisor.n)) * p.d)) by (nonlinear_arith);
    }
}

/// Quotients by one divisor add by their numerators.
pub proof fn lemma_div_sum(a: Frac, b: Frac, divisor: Frac)
    requires
        a.d > 0,
        b.d > 0,
        divisor.d > 0,
        divisor.n != 0,
    ensures
        eqv(frac_add(frac_div(a, divisor), frac_div(b, divisor)), frac_div(frac_add(a, b), divisor)),
{
    lemma_div_mul_cancel(a, divisor);
    lemma_div_mul_cancel(b, divisor);
    lemma_positive(a, b);
    lemma_div_mul_cancel(frac_add(a, b), divisor);
    lemma_positive(frac_div(a, divisor), frac_div(b, divisor));
    let s = a.n * b.d + b.n * a.d;
    let (dn, dd) = (divisor.n, divisor.d);
    if dn >= 0 {
        assert((a.n * dd) * (b.d * dn) == (dd * dn) * (a.n * b.d)) by (nonlinear_arith);
        assert((b.n * dd) * (a.d * dn) == (dd * dn) * (b.n * a.d)) by (nonlinear_arith);
        lemma_mul_is_distributive_add(dd * dn, a.n * b.d, b.n * a.d);
        assert(((dd * dn) * s) * ((a.d * b.d) * dn) == (s * dd) * ((a.d * dn) * (b.d * dn))) by (nonlinear_arith);
    } else {
        assert((-(a.n * dd)) * (-(b.d * dn)) == (dd * dn) * (a.n * b.d)) by (nonlinear_arith);
        assert((-(b.n * dd)) * (-(a.d * dn)) == (dd * dn) * (b.n * a.d)) by (nonlinear_arith);
        lemma_mul_is_distributive_add(dd * dn, a.n * b.d, b.n * a.d);
        assert((-(a.d * dn)) * (-(b.d * dn)) == (a.d * dn) * (b.d * dn)) by (nonlinear_arith);
        assert(((dd * dn) * s) * ((a.d * b.d) * dn) == (s * dd) * ((a.d * dn) * (b.d * dn))) by (nonlinear_arith);
        lemma_mul_unary_negation((dd * dn) * s, (a.d * b.d) * dn);
        lemma_mul_unary_negation(s * dd, (a.d * dn) * (b.d * dn));
    }
}

/// A quotient of zero is zero; a value over itself is one.
pub proof fn lemma_div_trivial(a: Frac, divisor: Frac)
    requires
        a.d > 0,
        divisor.d > 0,
        divisor.n != 0,
    ensures
        eqv(a, frac_int(0)) ==> eqv(frac_div(a, divisor), frac_int(0)),
        eqv(a, divisor) ==> eqv(frac_div(a, divisor), frac_int(1)),
{
    lemma_div_mul_cancel(a, divisor);
    if eqv(a, frac_int(0)) {
        assert(a.n == 0);
        assert(a.n * divisor.d == 0) by (nonlinear_arith)
            requires
                a.n == 0,
        ;
    }
    if eqv(a, divisor) {
        if divisor.n >= 0 {
            assert((a.n * divisor.d) * 1 == 1 * (a.d * divisor.n)) by (nonlinear_arith)
                requires
                    a.n * divisor.d == divisor.n * a.d,
            ;
        } else {
            assert((-(a.n * divisor.d)) * 1 == 1 * (-(a.d * divisor.n))) by (nonlinear_arith)
                requires
                    a.n * divisor.d == divisor.n * a.d,
            ;
        }
    }
}


/// A value plus one equal to its negation is zero.
pub proof fn lemma_cancel_pair(a: Frac, b: Frac)
    requires
        a.d > 0,
        eqv(b, frac_neg(a)),
    ensures
        eqv(frac_add(a, b), frac_int(0)),
{
    lemma_eqv_reflexive(a);
    lemma_eqv_congruent(a, a, b, frac_neg(a));
    lemma_add_neg_self(a);
    lemma_eqv_transitive(frac_add(a, b), frac_add(a, frac_neg(a)), frac_int(0));
}

/// `(a + b) + (c + d)` is zero when `c` and `d` are the negations of `a` and `b`.
pub proof fn lemma_cancel_four(a: Frac, b: Frac, c: Frac, d: Frac)
    requires
        a.d > 0,
        b.d > 0,
        eqv(c, frac_neg(a)),
        eqv(d, frac_neg(b)),
    ensures
        eqv(frac_add(frac_add(a, b), frac_add(c, d)), frac_int(0)),
{
    lemma_interchange(a, b, c, d);
    lemma_cancel_pair(a, c);
    lemma_cancel_pair(b, d);
    lemma_eqv_congruent(frac_add(a, c), frac_int(0), frac_add(b, d), frac_int(0));
    lemma_add_zero(frac_int(0));
    lemma_eqv_transitive(
        frac_add(frac_add(a, c), frac_add(b, d)),
        frac_add(frac_int(0), frac_int(0)),
        frac_int(0),
    );
    lemma_eqv_transitive(
        frac_add(frac_add(a, b), frac_add(c, d)),
        frac_add(frac_add(a, c), frac_add(b, d)),
        frac_int(0),
    );
}

/// Zero at both ends of `((0 + a) + b) + 0` drops out.
pub proof fn lemma_zero_ends(a: Frac, b: Frac)
    requires
        a.d > 0,
        b.d > 0,
    ensures
        eqv(frac_add(frac_add(frac_add(frac_int(0), a), b), frac_int(0)), frac_add(a, b)),
{
    lemma_add_zero(a);
    lemma_eqv_reflexive(b);
    lemma_eqv_congruent(frac_add(frac_int(0), a), a, b, b);
    lemma_positive(frac_int(0), a);
    lemma_positive(frac_add(frac_int(0), a), b);
    lemma_positive(a, b);
    lemma_add_zero(frac_add(frac_add(frac_int(0), a), b));
    lemma_eqv_transitive(
        frac_add(frac_add(frac_add(frac_int(0), a), b), frac_int(0)),
        frac_add(frac_add(frac_int(0), a), b),
        frac_add(a, b),
    );
}

/// `(-a) * b` has the value of `-(b * a)`.
pub proof fn lemma_neg_product(a: Frac, b: Frac)
    requires
        a.d > 0,
        b.d > 0,
    ensures
        eqv(frac_mul(frac_neg(a), b), frac_neg(frac_mul(b, a))),
{
    lemma_mul_neg(a, b);
    lemma_mul_commutative(a, b);
    lemma_neg_congruent(frac_mul(a, b), frac_mul(b, a));
    lemma_eqv_transitive(frac_mul(frac_neg(a), b), frac_neg(frac_mul(a, b)), frac_neg(frac_mul(b, a)));
}

/// Sums and scaled terms over one common divisor collect into a single quotient.
pub proof fn lemma_over_divisor(n1: Frac, n2: Frac, n3: Frac, n4: Frac, p: Frac, q: Frac, divisor: Frac)
    requires
        n1.d > 0,
        n2.d > 0,
        n3.d > 0,
        n4.d > 0,
        p.d > 0,
        q.d > 0,
        divisor.d > 0,
        divisor.n != 0,
    ensures
        eqv(
            frac_add(
                frac_add(
                    frac_add(frac_div(n1, divisor), frac_mul(frac_div(n2, divisor), p)),
                    frac_mul(frac_div(n3, divisor), q),
                ),
                frac_div(n4, divisor),
            ),
            frac_div(frac_add(frac_add(frac_add(n1, frac_mul(n2, p)), frac_mul(n3, q)), n4), divisor),
        ),
{
    let (a, b, c) = (frac_mul(n2, p), frac_mul(n3, q), n4);
    lemma_positive(n2, p);
    lemma_positive(n3, q);
    lemma_div_times(n2, divisor, p);
    lemma_div_times(n3, divisor, q);
    lemma_div_mul_cancel(n1, divisor);
    lemma_div_mul_cancel(n4, divisor);
    lemma_div_mul_cancel(a, divisor);
    lemma_div_mul_cancel(b, divisor);
    // n1/D + a/D == (n1 + a)/D
    lemma_eqv_reflexive(frac_div(n1, divisor));
    lemma_eqv_congruent(
        frac_div(n1, divisor),
        frac_div(n1, divisor),
        frac_mul(frac_div(n2, divisor), p),
        frac_div(a, divisor),
    );
    lemma_div_sum(n1, a, divisor);
    let first = frac_add(n1, a);
    lemma_positive(n1, a);
    lemma_eqv_transitive(
        frac_add(frac_div(n1, divisor), frac_mul(frac_div(n2, divisor), p)),
        frac_add(frac_div(n1, divisor), frac_div(a, divisor)),
        frac_div(first, divisor),
    );
    // ... + b/D == (first + b)/D
    lemma_eqv_congruent(
        frac_add(frac_div(n1, divisor), frac_mul(frac_div(n2, divisor), p)),
        frac_div(first, divisor),
        frac_mul(frac_div(n3, divisor), q),
        frac_div(b, divisor),
    );
    lemma_div_mul_cancel(first, divisor);
    lemma_div_sum(first, b, divisor);
    let second = frac_add(first, b);
    lemma_positive(first, b);
    lemma_eqv_transitive(
        frac_add(
            frac_add(frac_div(n1, divisor), frac_mul(frac_div(n2, divisor), p)),
            frac_mul(frac_div(n3, divisor), q),
        ),
        frac_add(frac_div(first, divisor), frac_div(b, divisor)),
        frac_div(second, divisor),
    );
    // ... + c/D == (second + c)/D
    lemma_eqv_reflexive(frac_div(c, divisor));
    lemma_eqv_congruent(
        frac_add(
            frac_add(frac_div(n1, divisor), frac_mul(frac_div(n2, divisor), p)),
            frac_mul(frac_div(n3, divisor), q),
        ),
        frac_div(second, divisor),
        frac_div(c, divisor),
        frac_div(c, divisor),
    );
    lemma_div_mul_cancel(second, divisor);
    lemma_div_sum(second, c, divisor);
    lemma_eqv_transitive(
        frac_add(
            frac_add(
                frac_add(frac_div(n1, divisor), frac_mul(frac_div(n2, divisor), p)),
                frac_mul(frac_div(n3, divisor), q),
            ),
            frac_div(n4, divisor),
        ),
        frac_add(frac_div(second, divisor), frac_div(c, divisor)),
        frac_div(frac_add(second, c), divisor),
    );
}


/// Sums and scalings of coefficients with positive denominators keep them positive.
pub proof fn lemma_coefficients_closed(c: Coefficients, e: Coefficients, k: Frac)
    requires
        coefficients_positive(c),
        coefficients_positive(e),
        k.d > 0,
    ensures
        coefficients_positive(sum_coefficients(c, e)),
        coefficients_positive(scaled_coefficients(k, c)),
{
    lemma_positive(c.0, e.0);
    lemma_positive(c.1, e.1);
    lemma_positive(c.2, e.2);
    lemma_positive(c.3, e.3);
    lemma_positive(k, c.0);
    lemma_positive(k, c.1);
    lemma_positive(k, c.2);
    lemma_positive(k, c.3);
}

/// `((p - q) + r) + s` is zero when `r` and `s` are `q` and `-p`, in either order.
pub proof fn lemma_difference_cancels(p: Frac, q: Frac, r: Frac, s: Frac)
    requires
        p.d > 0,
        q.d > 0,
        (eqv(r, q) && eqv(s, frac_neg(p))) || (eqv(r, frac_neg(p)) && eqv(s, q)),
    ensures
        eqv(frac_add(frac_add(frac_sub(p, q), r), s), frac_int(0)),
{
    let (np, nq) = (frac_neg(p), frac_neg(q));
    lemma_positive(p, q);
    lemma_sub_is_add_neg(p, q);
    lemma_add_associative(frac_sub(p, q), r, s);
    // r + s has the value of -p + q.
    if eqv(r, q) && eqv(s, np) {
        lemma_eqv_congruent(r, q, s, np);
        lemma_add_commutative(q, np);
        lemma_eqv_transitive(frac_add(r, s), frac_add(q, np), frac_add(np, q));
    } else {
        lemma_eqv_congruent(r, np, s, q);
    }
    lemma_eqv_congruent(frac_sub(p, q), frac_add(p, nq), frac_add(r, s), frac_add(np, q));
    lemma_eqv_reflexive(np);
    assert(frac_neg(nq) == q);
    lemma_eqv_reflexive(q);
    lemma_cancel_four(p, nq, np, q);
    lemma_eqv_transitive(
        frac_add(frac_add(frac_sub(p, q), r), s),
        frac_add(frac_sub(p, q), frac_add(r, s)),
        frac_add(frac_add(p, nq), frac_add(np, q)),
    );
    lemma_eqv_transitive(
        frac_add(frac_add(frac_sub(p, q), r), s),
        frac_add(frac_add(p, nq), frac_add(np, q)),
        frac_int(0),
    );
}

/// One coefficient of a combination over a common divisor: the outer terms
/// are quotients by the divisor, or zero with a zero numerator.
pub proof fn lemma_coefficient_value(
    t1: Frac,
    n1: Frac,
    a: Frac,
    p: Frac,
    b: Frac,
    q: Frac,
    t4: Frac,
    n4: Frac,
    divisor: Frac,
)
    requires
        n1.d > 0,
        a.d > 0,
        p.d > 0,
        b.d > 0,
        q.d > 0,
        n4.d > 0,
        divisor.d > 0,
        divisor.n != 0,
        t1 == frac_div(n1, divisor) || (t1 == frac_int(0) && n1 == frac_int(0)),
        t4 == frac_div(n4, divisor) || (t4 == frac_int(0) && n4 == frac_int(0)),
    ensures
        eqv(
            frac_add(
                frac_add(frac_add(t1, frac_mul(frac_div(a, divisor), p)), frac_mul(frac_div(b, divisor), q)),
                t4,
            ),
            frac_div(frac_add(frac_add(frac_add(n1, frac_mul(a, p)), frac_mul(b, q)), n4), divisor),
        ),
{
    lemma_div_mul_cancel(n1, divisor);
    lemma_div_mul_cancel(n4, divisor);
    lemma_div_mul_cancel(a, divisor);
    lemma_div_mul_cancel(b, divisor);
    lemma_div_trivial(n1, divisor);
    lemma_div_trivial(n4, divisor);
    if t1 != frac_div(n1, divisor) {
        lemma_eqv_symmetric(frac_div(n1, divisor), frac_int(0));
    } else {
        lemma_eqv_reflexive(t1);
    }
    if t4 != frac_div(n4, divisor) {
        lemma_eqv_symmetric(frac_div(n4, divisor), frac_int(0));
    } else {
        lemma_eqv_reflexive(t4);
    }
    let (ap, bq) = (frac_mul(frac_div(a, divisor), p), frac_mul(frac_div(b, divisor), q));
    lemma_positive(frac_div(a, divisor), p);
    lemma_positive(frac_div(b, divisor), q);
    lemma_eqv_reflexive(ap);
    lemma_eqv_reflexive(bq);
    lemma_eqv_congruent(t1, frac_div(n1, divisor), ap, ap);
    lemma_eqv_congruent(frac_add(t1, ap), frac_add(frac_div(n1, divisor), ap), bq, bq);
    lemma_eqv_congruent(
        frac_add(frac_add(t1, ap), bq),
        frac_add(frac_add(frac_div(n1, divisor), ap), bq),
        t4,
        frac_div(n4, divisor),
    );
    lemma_over_divisor(n1, a, b, n4, p, q, divisor);
    lemma_eqv_transitive(
        frac_add(frac_add(frac_add(t1, ap), bq), t4),
        frac_add(frac_add(frac_add(frac_div(n1, divisor), ap), bq), frac_div(n4, divisor)),
        frac_div(frac_add(frac_add(frac_add(n1, frac_mul(a, p)), frac_mul(b, q)), n4), divisor),
    );
}

} // verus!
