use vstd::prelude::*;

use num_rational::Ratio;

verus! {

/// A rational value written as a numerator over a nonzero denominator, not
/// necessarily in lowest terms.
pub struct Frac {
    pub n: int,
    pub d: int,
}

pub open spec fn abs(value: int) -> int {
    if value < 0 {
        -value
    } else {
        value
    }
}

pub open spec fn frac_int(value: int) -> Frac {
    Frac { n: value, d: 1 }
}

pub open spec fn frac_add(a: Frac, b: Frac) -> Frac {
    Frac { n: a.n * b.d + b.n * a.d, d: a.d * b.d }
}

pub open spec fn frac_sub(a: Frac, b: Frac) -> Frac {
    Frac { n: a.n * b.d - b.n * a.d, d: a.d * b.d }
}

pub open spec fn frac_mul(a: Frac, b: Frac) -> Frac {
    Frac { n: a.n * b.n, d: a.d * b.d }
}

pub open spec fn frac_neg(a: Frac) -> Frac {
    Frac { n: -a.n, d: a.d }
}

/// `a / b`, written over a positive denominator whenever `a`'s is positive.
pub open spec fn frac_div(a: Frac, b: Frac) -> Frac {
    if b.n >= 0 {
        Frac { n: a.n * b.d, d: a.d * b.n }
    } else {
        Frac { n: -(a.n * b.d), d: -(a.d * b.n) }
    }
}

/// `a < b`, for positive denominators.
pub open spec fn frac_lt(a: Frac, b: Frac) -> bool {
    a.n * b.d < b.n * a.d
}

/// `a` and `b` denote the same rational number.
pub open spec fn same_value(a: Frac, b: Frac) -> bool {
    a.n * b.d == b.n * a.d
}

/// The integer combination `s * a + t * b`.
pub open spec fn combination(a: int, b: int, s: int, t: int) -> int {
    s * a + t * b
}

/// `a` and `b` have no common divisor above one (in Bézout form).
pub open spec fn coprime(a: int, b: int) -> bool {
    exists|s: int, t: int| #[trigger] combination(a, b, s, t) == 1
}

/// `numerator / denominator` rounded towards zero, for a positive denominator.
pub open spec fn trunc_div(numerator: int, denominator: int) -> int {
    if numerator >= 0 {
        numerator / denominator
    } else {
        -((-numerator) / denominator)
    }
}

/// A denominator that both `a` and `b` divide, small enough that the two
/// numerators scaled to it still sum within `i64`.
pub open spec fn common_scale_fits(a: Frac, b: Frac, multiple: int) -> bool {
    &&& 0 < multiple <= i64::MAX
    &&& multiple % a.d == 0
    &&& multiple % b.d == 0
    &&& abs(a.n) * (multiple / a.d) + abs(b.n) * (multiple / b.d) <= i64::MAX
}

/// A denominator that both `a` and `b` divide, small enough that each
/// numerator scaled to it stays within `i64`.
pub open spec fn separate_scale_fits(a: Frac, b: Frac, multiple: int) -> bool {
    &&& 0 < multiple <= i64::MAX
    &&& multiple % a.d == 0
    &&& multiple % b.d == 0
    &&& abs(a.n) * (multiple / a.d) <= i64::MAX
    &&& abs(b.n) * (multiple / b.d) <= i64::MAX
}

/// An exact rational number with `i64` numerator and denominator, always in
/// lowest terms with a positive denominator.
#[derive(Clone, Copy, Debug, PartialEq, Eq)]
pub struct Rational {
    numer: i64,
    denom: i64,
}

impl View for Rational {
    type V = Frac;

    closed spec fn view(&self) -> Frac {
        Frac { n: self.numer as int, d: self.denom as int }
    }
}

impl Rational {
    /// Lowest terms with a positive denominator.
    pub open spec fn wf(self) -> bool {
        &&& self@.d > 0
        &&& coprime(self@.n, self@.d)
    }

    /// `numer / denom` in lowest terms.
    pub fn new(numer: i64, denom: i64) -> (value: Self)
        requires
            denom != 0,
            denom > i64::MIN,
            denom > 0 || numer > i64::MIN,
        ensures
            value.wf(),
            same_value(value@, Frac { n: numer as int, d: denom as int }),
    {
        ratio_new(numer, denom)
    }

    /// The integer `value` as a rational.
    pub fn from_integer(value: i64) -> (rational: Self)
        ensures
            rational.wf(),
            rational@ == frac_int(value as int),
    {
        let rational = Rational { numer: value, denom: 1 };
        assert(combination(value as int, 1, 0, 1) == 1);
        rational
    }

    pub fn numer(&self) -> (numer: i64)
        ensures
            numer == self@.n,
    {
        self.numer
    }

    pub fn denom(&self) -> (denom: i64)
        ensures
            denom == self@.d,
    {
        self.denom
    }

    pub fn is_zero(&self) -> (zero: bool)
        requires
            self.wf(),
        ensures
            zero <==> self@.n == 0,
    {
        self.numer == 0
    }
}

/// The reduced form of `numer / denom`.
///
/// Calls `num_rational::Ratio::new`, which divides both parts by their
/// greatest common divisor and makes the denominator positive; it panics on a
/// zero denominator, and would overflow negating `i64::MIN`.
#[verifier::external_body]
fn ratio_new(numer: i64, denom: i64) -> (value: Rational)
    requires
        denom != 0,
        denom > i64::MIN,
        denom > 0 || numer > i64::MIN,
    ensures
        value.wf(),
        same_value(value@, Frac { n: numer as int, d: denom as int }),
{
    let value = Ratio::new(numer, denom);
    Rational { numer: *value.numer(), denom: *value.denom() }
}

/// `a + b` in lowest terms.
///
/// Calls `Add` of `num_rational::Ratio<i64>`, which scales both numerators to
/// the least common multiple of the denominators (at most any other common
/// multiple, so the sums stay within `i64` under `requires`) and reduces.
#[verifier::external_body]
fn ratio_add(a: Rational, b: Rational) -> (sum: Rational)
    requires
        a.wf(),
        b.wf(),
        exists|multiple: int| #[trigger] common_scale_fits(a@, b@, multiple),
    ensures
        sum.wf(),
        same_value(sum@, frac_add(a@, b@)),
{
    let sum = Ratio::new_raw(a.numer, a.denom) + Ratio::new_raw(b.numer, b.denom);
    Rational { numer: *sum.numer(), denom: *sum.denom() }
}

/// `a - b` in lowest terms; as `ratio_add` through `Sub` of `Ratio<i64>`.
#[verifier::external_body]
fn ratio_sub(a: Rational, b: Rational) -> (difference: Rational)
    requires
        a.wf(),
        b.wf(),
        exists|multiple: int| #[trigger] common_scale_fits(a@, b@, multiple),
    ensures
        difference.wf(),
        same_value(difference@, frac_sub(a@, b@)),
{
    let difference = Ratio::new_raw(a.numer, a.denom) - Ratio::new_raw(b.numer, b.denom);
    Rational { numer: *difference.numer(), denom: *difference.denom() }
}

/// `a * b` in lowest terms.
///
/// Calls `Mul` of `Ratio<i64>`, which cancels cross factors before
/// multiplying, so its products never exceed the plain ones bounded here.
#[verifier::external_body]
fn ratio_mul(a: Rational, b: Rational) -> (product: Rational)
    requires
        a.wf(),
        b.wf(),
        abs(a@.n * b@.n) <= i64::MAX,
        a@.d * b@.d <= i64::MAX,
    ensures
        product.wf(),
        same_value(product@, frac_mul(a@, b@)),
{
    let product = Ratio::new_raw(a.numer, a.denom) * Ratio::new_raw(b.numer, b.denom);
    Rational { numer: *product.numer(), denom: *product.denom() }
}

/// `a / b` in lowest terms.
///
/// Calls `Div` of `Ratio<i64>`, which forms `(a.n / gcd) * (b.d / gcd')` over
/// `(a.d / gcd') * (b.n / gcd)`; each factor `b.d / gcd(a.d, b.d)` is at most
/// `multiple / a.d` for any common multiple, which bounds both products. It
/// panics when `b` is zero.
#[verifier::external_body]
fn ratio_div(a: Rational, b: Rational) -> (quotient: Rational)
    requires
        a.wf(),
        b.wf(),
        b@.n != 0,
        exists|multiple: int| #[trigger] separate_scale_fits(a@, b@, multiple),
    ensures
        quotient.wf(),
        same_value(quotient@, frac_div(a@, b@)),
{
    let quotient = Ratio::new_raw(a.numer, a.denom) / Ratio::new_raw(b.numer, b.denom);
    Rational { numer: *quotient.numer(), denom: *quotient.denom() }
}

/// `-a`: calls `Neg` of `Ratio<i64>`, which negates the numerator only.
#[verifier::external_body]
fn ratio_neg(a: Rational) -> (negated: Rational)
    requires
        a.wf(),
        a@.n > i64::MIN,
    ensures
        negated@ == frac_neg(a@),
{
    let negated = -Ratio::new_raw(a.numer, a.denom);
    Rational { numer: *negated.numer(), denom: *negated.denom() }
}

/// `a < b`: calls `PartialOrd::lt` of `Ratio<i64>`, which compares by value
/// without overflow.
#[verifier::external_body]
pub(crate) fn ratio_less_than(a: Rational, b: Rational) -> (less: bool)
    requires
        a.wf(),
        b.wf(),
    ensures
        less == frac_lt(a@, b@),
{
    Ratio::new_raw(a.numer, a.denom) < Ratio::new_raw(b.numer, b.denom)
}

/// `a` rounded towards zero: calls `Ratio::to_integer`.
#[verifier::external_body]
pub(crate) fn ratio_to_integer(a: Rational) -> (integer: i64)
    requires
        a.wf(),
    ensures
        integer == trunc_div(a@.n, a@.d),
{
    Ratio::new_raw(a.numer, a.denom).to_integer()
}

/// `|value|`, exactly.
pub fn abs_ratio(value: Rational) -> (magnitude: Rational)
    requires
        value.wf(),
        value@.n > i64::MIN,
    ensures
        magnitude.wf(),
        magnitude@ == (if value@.n < 0 {
            frac_neg(value@)
        } else {
            value@
        }),
{
    let zero = Rational::from_integer(0);
    if ratio_less_than(value, zero) {
        let negated = ratio_neg(value);
        proof {
            lemma_negated_wf(value@);
        }
        negated
    } else {
        value
    }
}

/// `a + b`, for values written over one shared denominator `scale`.
pub(crate) fn add_over(
    a: Rational,
    b: Rational,
    Ghost(a_over): Ghost<int>,
    Ghost(b_over): Ghost<int>,
    Ghost(scale): Ghost<int>,
) -> (sum: Rational)
    requires
        a.wf(),
        b.wf(),
        0 < scale <= i64::MAX,
        same_value(a@, Frac { n: a_over, d: scale }),
        same_value(b@, Frac { n: b_over, d: scale }),
        abs(a_over) + abs(b_over) <= i64::MAX,
    ensures
        sum.wf(),
        same_value(sum@, Frac { n: a_over + b_over, d: scale }),
{
    proof {
        lemma_scaled_numerator(a@, a_over, scale);
        lemma_scaled_numerator(b@, b_over, scale);
        assert(common_scale_fits(a@, b@, scale));
    }
    let sum = ratio_add(a, b);
    proof {
        lemma_sum_over(a@, b@, a_over, b_over, scale, true);
        lemma_same_value_transitive(sum@, frac_add(a@, b@), Frac { n: a_over + b_over, d: scale });
    }
    sum
}

/// `a - b`, for values written over one shared denominator `scale`.
pub(crate) fn sub_over(
    a: Rational,
    b: Rational,
    Ghost(a_over): Ghost<int>,
    Ghost(b_over): Ghost<int>,
    Ghost(scale): Ghost<int>,
) -> (difference: Rational)
    requires
        a.wf(),
        b.wf(),
        0 < scale <= i64::MAX,
        same_value(a@, Frac { n: a_over, d: scale }),
        same_value(b@, Frac { n: b_over, d: scale }),
        abs(a_over) + abs(b_over) <= i64::MAX,
    ensures
        difference.wf(),
        same_value(difference@, Frac { n: a_over - b_over, d: scale }),
{
    proof {
        lemma_scaled_numerator(a@, a_over, scale);
        lemma_scaled_numerator(b@, b_over, scale);
        assert(common_scale_fits(a@, b@, scale));
    }
    let difference = ratio_sub(a, b);
    proof {
        lemma_sum_over(a@, b@, a_over, b_over, scale, false);
        lemma_same_value_transitive(difference@, frac_sub(a@, b@), Frac { n: a_over - b_over, d: scale });
    }
    difference
}

/// `a * b`, for `a` written over `a_scale` and `b` over `b_scale`.
pub(crate) fn mul_over(
    a: Rational,
    b: Rational,
    Ghost(a_over): Ghost<int>,
    Ghost(a_scale): Ghost<int>,
    Ghost(b_over): Ghost<int>,
    Ghost(b_scale): Ghost<int>,
) -> (product: Rational)
    requires
        a.wf(),
        b.wf(),
        a_scale > 0,
        b_scale > 0,
        same_value(a@, Frac { n: a_over, d: a_scale }),
        same_value(b@, Frac { n: b_over, d: b_scale }),
        abs(a_over * b_over) <= i64::MAX,
        a_scale * b_scale <= i64::MAX,
    ensures
        product.wf(),
        same_value(product@, Frac { n: a_over * b_over, d: a_scale * b_scale }),
{
    proof {
        lemma_lowest_terms(a@, Frac { n: a_over, d: a_scale });
        lemma_lowest_terms(b@, Frac { n: b_over, d: b_scale });
        lemma_product_bounds(a@.n, a_over, b@.n, b_over);
        lemma_product_bounds(a@.d, a_scale, b@.d, b_scale);
    }
    let product = ratio_mul(a, b);
    proof {
        lemma_rearranged(a@.n, b@.n, a_scale, b_scale);
        lemma_rearranged(a_over, a@.d, b_over, b@.d);
        assert(same_value(frac_mul(a@, b@), Frac { n: a_over * b_over, d: a_scale * b_scale }));
        assert(a@.d * b@.d != 0) by (nonlinear_arith)
            requires
                a@.d > 0,
                b@.d > 0,
        ;
        lemma_same_value_transitive(
            product@,
            frac_mul(a@, b@),
            Frac { n: a_over * b_over, d: a_scale * b_scale },
        );
    }
    product
}

/// `a / b`, for values written over one shared denominator `scale`; the
/// quotient is `a_over / b_over`.
pub(crate) fn div_over(
    a: Rational,
    b: Rational,
    Ghost(a_over): Ghost<int>,
    Ghost(b_over): Ghost<int>,
    Ghost(scale): Ghost<int>,
) -> (quotient: Rational)
    requires
        a.wf(),
        b.wf(),
        0 < scale <= i64::MAX,
        same_value(a@, Frac { n: a_over, d: scale }),
        same_value(b@, Frac { n: b_over, d: scale }),
        b_over != 0,
        abs(a_over) <= i64::MAX,
        abs(b_over) <= i64::MAX,
    ensures
        quotient.wf(),
        same_value(quotient@, Frac { n: a_over, d: b_over }),
{
    proof {
        lemma_scaled_numerator(a@, a_over, scale);
        lemma_scaled_numerator(b@, b_over, scale);
        assert(separate_scale_fits(a@, b@, scale));
        assert(b@.n != 0) by (nonlinear_arith)
            requires
                b@.n * (scale / b@.d) == b_over,
                b_over != 0,
        ;
    }
    let quotient = ratio_div(a, b);
    proof {
        let ka = scale / a@.d;
        let kb = scale / b@.d;
        assert(a@.d * ka == scale && b@.d * kb == scale) by {
            vstd::arithmetic::div_mod::lemma_fundamental_div_mod(scale, a@.d);
            vstd::arithmetic::div_mod::lemma_fundamental_div_mod(scale, b@.d);
        }
        let q = frac_div(a@, b@);
        assert(q.d != 0) by (nonlinear_arith)
            requires
                q.d == a@.d * b@.n || q.d == -(a@.d * b@.n),
                a@.d > 0,
                b@.n != 0,
        ;
        lemma_rearranged(a@.n, b@.d, b@.n, kb);
        lemma_rearranged(a@.n, ka, a@.d, b@.n);
        lemma_rearranged(a@.n, b@.n, a@.d, ka);
        assert(same_value(q, Frac { n: a_over, d: b_over })) by {
            if b@.n >= 0 {
                assert(q.n * b_over == (a@.n * b@.n) * (b@.d * kb));
                assert(a_over * q.d == (a@.n * b@.n) * (a@.d * ka));
            } else {
                assert(q.n * b_over == -((a@.n * b@.n) * (b@.d * kb))) by (nonlinear_arith)
                    requires
                        q.n == -(a@.n * b@.d),
                        (a@.n * b@.d) * (b@.n * kb) == (a@.n * b@.n) * (b@.d * kb),
                        b_over == b@.n * kb,
                ;
                assert(a_over * q.d == -((a@.n * b@.n) * (a@.d * ka))) by (nonlinear_arith)
                    requires
                        q.d == -(a@.d * b@.n),
                        (a@.n * ka) * (a@.d * b@.n) == (a@.n * b@.n) * (a@.d * ka),
                        a_over == a@.n * ka,
                ;
            }
        }
        lemma_same_value_transitive(quotient@, q, Frac { n: a_over, d: b_over });
    }
    quotient
}

/// `a * b` written over `scale`, a multiple of `a.d * b.d`.
pub open spec fn scaled_product(a: Frac, b: Frac, scale: int) -> int {
    a.n * b.n * (scale / (a.d * b.d))
}

/// The numerator over `scale` of `Σ a_k * b_k`.
pub open spec fn scaled_products_sum(pairs: Seq<(Frac, Frac)>, scale: int) -> int
    decreases pairs.len(),
{
    if pairs.len() == 0 {
        0
    } else {
        scaled_products_sum(pairs.drop_last(), scale) + scaled_product(pairs.last().0, pairs.last().1, scale)
    }
}

/// `Σ |a_k * b_k|` written over `scale`.
pub open spec fn scaled_products_magnitude(pairs: Seq<(Frac, Frac)>, scale: int) -> int
    decreases pairs.len(),
{
    if pairs.len() == 0 {
        0
    } else {
        scaled_products_magnitude(pairs.drop_last(), scale) + abs(
            scaled_product(pairs.last().0, pairs.last().1, scale),
        )
    }
}

/// `Σ a_k * b_k`, summed from zero in order.
pub open spec fn products_value(pairs: Seq<(Frac, Frac)>) -> Frac
    decreases pairs.len(),
{
    if pairs.len() == 0 {
        frac_int(0)
    } else {
        frac_add(products_value(pairs.drop_last()), frac_mul(pairs.last().0, pairs.last().1))
    }
}

/// A shared denominator of every product, over which the magnitudes of all
/// products sum within `i64`: then no partial sum leaves `i64`.
pub open spec fn products_fit(pairs: Seq<(Frac, Frac)>, scale: int) -> bool {
    &&& 0 < scale <= i64::MAX
    &&& forall|k: int| 0 <= k < pairs.len() ==> scale % ((#[trigger] pairs[k]).0.d * pairs[k].1.d) == 0
    &&& scaled_products_magnitude(pairs, scale) <= i64::MAX
}

pub open spec fn pair_views(pairs: Seq<(Rational, Rational)>) -> Seq<(Frac, Frac)> {
    pairs.map_values(|pair: (Rational, Rational)| (pair.0@, pair.1@))
}

/// `Σ a_k * b_k` over `pairs`, accumulated from zero in order.
pub fn sum_of_products(pairs: &Vec<(Rational, Rational)>) -> (sum: Rational)
    requires
        forall|k: int| 0 <= k < pairs@.len() ==> (#[trigger] pairs@[k]).0.wf() && pairs@[k].1.wf(),
        exists|scale: int| #[trigger] products_fit(pair_views(pairs@), scale),
    ensures
        sum.wf(),
        same_value(sum@, products_value(pair_views(pairs@))),
        products_value(pair_views(pairs@)).d > 0,
{
    let ghost views = pair_views(pairs@);
    let ghost scale = choose|scale: int| #[trigger] products_fit(views, scale);
    let mut sum = Rational::from_integer(0);
    let mut index: usize = 0;
    proof {
        assert(views.take(0) =~= Seq::<(Frac, Frac)>::empty());
        assert(same_value(sum@, Frac { n: 0, d: scale }));
    }
    while index < pairs.len()
        invariant
            views == pair_views(pairs@),
            products_fit(views, scale),
            forall|k: int| 0 <= k < pairs@.len() ==> (#[trigger] pairs@[k]).0.wf() && pairs@[k].1.wf(),
            index <= pairs@.len(),
            sum.wf(),
            same_value(sum@, Frac { n: scaled_products_sum(views.take(index as int), scale), d: scale }),
        decreases pairs@.len() - index,
    {
        let (a, b) = pairs[index];
        let ghost prefix = views.take(index as int);
        let ghost next = views.take(index + 1);
        proof {
            assert(next.drop_last() =~= prefix);
            assert(next.last() == (a@, b@));
            lemma_magnitude_prefix(views, index + 1, scale);
            lemma_sum_within_magnitude(prefix, scale);
            let k = scale / (a@.d * b@.d);
            assert(views[index as int] == (a@, b@));
            assert(scale % (a@.d * b@.d) == 0);
            assert(a@.d * b@.d > 0) by (nonlinear_arith)
                requires
                    a@.d > 0,
                    b@.d > 0,
            ;
            vstd::arithmetic::div_mod::lemma_fundamental_div_mod(scale, a@.d * b@.d);
            assert(k >= 1) by (nonlinear_arith)
                requires
                    scale == (a@.d * b@.d) * k,
                    scale > 0,
                    a@.d * b@.d > 0,
            ;
            assert(abs(a@.n * b@.n) <= abs(a@.n * b@.n * k)) by (nonlinear_arith)
                requires
                    k >= 1,
            ;
            assert(a@.d * b@.d <= scale) by (nonlinear_arith)
                requires
                    scale == (a@.d * b@.d) * k,
                    k >= 1,
                    a@.d * b@.d > 0,
            ;
        }
        let product = mul_over(a, b, Ghost(a@.n), Ghost(a@.d), Ghost(b@.n), Ghost(b@.d));
        proof {
            let k = scale / (a@.d * b@.d);
            assert(same_value(Frac { n: a@.n * b@.n, d: a@.d * b@.d }, Frac { n: scaled_product(a@, b@, scale), d: scale }))
                by (nonlinear_arith)
                requires
                    scale == (a@.d * b@.d) * k,
                    scaled_product(a@, b@, scale) == a@.n * b@.n * k,
            ;
            lemma_same_value_transitive(
                product@,
                Frac { n: a@.n * b@.n, d: a@.d * b@.d },
                Frac { n: scaled_product(a@, b@, scale), d: scale },
            );
        }
        sum = add_over(
            sum,
            product,
            Ghost(scaled_products_sum(prefix, scale)),
            Ghost(scaled_product(a@, b@, scale)),
            Ghost(scale),
        );
        index += 1;
    }
    proof {
        assert(views.take(pairs@.len() as int) =~= views);
        lemma_products_value(views, scale);
        lemma_same_value_transitive(sum@, Frac { n: scaled_products_sum(views, scale), d: scale }, products_value(views));
    }
    sum
}

pub proof fn lemma_magnitude_prefix(pairs: Seq<(Frac, Frac)>, count: int, scale: int)
    requires
        0 <= count <= pairs.len(),
    ensures
        scaled_products_magnitude(pairs.take(count), scale) <= scaled_products_magnitude(pairs, scale),
        0 <= scaled_products_magnitude(pairs.take(count), scale),
    decreases pairs.len(),
{
    if pairs.len() > 0 {
        if count == pairs.len() {
            assert(pairs.take(count) =~= pairs);
            lemma_magnitude_prefix(pairs.drop_last(), count - 1, scale);
        } else {
            assert(pairs.take(count) =~= pairs.drop_last().take(count));
            lemma_magnitude_prefix(pairs.drop_last(), count, scale);
        }
    }
}

pub proof fn lemma_sum_within_magnitude(pairs: Seq<(Frac, Frac)>, scale: int)
    ensures
        abs(scaled_products_sum(pairs, scale)) <= scaled_products_magnitude(pairs, scale),
    decreases pairs.len(),
{
    if pairs.len() > 0 {
        lemma_sum_within_magnitude(pairs.drop_last(), scale);
    }
}

pub proof fn lemma_products_value(pairs: Seq<(Frac, Frac)>, scale: int)
    requires
        scale > 0,
        forall|k: int| 0 <= k < pairs.len() ==> (#[trigger] pairs[k]).0.d > 0 && pairs[k].1.d > 0,
        forall|k: int| 0 <= k < pairs.len() ==> scale % ((#[trigger] pairs[k]).0.d * pairs[k].1.d) == 0,
    ensures
        products_value(pairs).d > 0,
        same_value(Frac { n: scaled_products_sum(pairs, scale), d: scale }, products_value(pairs)),
    decreases pairs.len(),
{
    if pairs.len() > 0 {
        let rest = pairs.drop_last();
        assert forall|k: int| 0 <= k < rest.len() implies (#[trigger] rest[k]).0.d > 0 && rest[k].1.d > 0
            && scale % (rest[k].0.d * rest[k].1.d) == 0 by {
            assert(rest[k] == pairs[k]);
        }
        lemma_products_value(rest, scale);
        let (a, b) = pairs.last();
        assert(pairs[pairs.len() - 1] == (a, b));
        let head = products_value(rest);
        let product = frac_mul(a, b);
        let k = scale / (a.d * b.d);
        assert(a.d * b.d > 0) by (nonlinear_arith)
            requires
                a.d > 0,
                b.d > 0,
        ;
        vstd::arithmetic::div_mod::lemma_fundamental_div_mod(scale, a.d * b.d);
        assert(same_value(product, Frac { n: scaled_product(a, b, scale), d: scale })) by (nonlinear_arith)
            requires
                scale == (a.d * b.d) * k,
                scaled_product(a, b, scale) == a.n * b.n * k,
                product == frac_mul(a, b),
        ;
        lemma_add_values(head, product, scaled_products_sum(rest, scale), scaled_product(a, b, scale), scale);
        assert(products_value(pairs).d > 0) by (nonlinear_arith)
            requires
                products_value(pairs).d == head.d * product.d,
                head.d > 0,
                product.d > 0,
        ;
    }
}

/// Adding two values each written over `scale` adds their numerators.
proof fn lemma_add_values(a: Frac, b: Frac, a_over: int, b_over: int, scale: int)
    requires
        a.d > 0,
        b.d > 0,
        scale > 0,
        same_value(Frac { n: a_over, d: scale }, a),
        same_value(b, Frac { n: b_over, d: scale }),
    ensures
        same_value(Frac { n: a_over + b_over, d: scale }, frac_add(a, b)),
{
    assert(a_over * (a.d * b.d) == (a_over * a.d) * b.d) by (nonlinear_arith);
    assert((a.n * scale) * b.d == (a.n * b.d) * scale) by (nonlinear_arith);
    assert(b_over * (a.d * b.d) == (b_over * b.d) * a.d) by (nonlinear_arith);
    assert((b.n * scale) * a.d == (b.n * a.d) * scale) by (nonlinear_arith);
    vstd::arithmetic::mul::lemma_mul_is_distributive_add_other_way(a.d * b.d, a_over, b_over);
    vstd::arithmetic::mul::lemma_mul_is_distributive_add_other_way(scale, a.n * b.d, b.n * a.d);
}

/// `a + b` (or `a - b`) computed naively on these fractions fits `i64`.
pub open spec fn add_fits(a: Frac, b: Frac) -> bool {
    &&& abs(a.n) * b.d + abs(b.n) * a.d <= i64::MAX
    &&& a.d * b.d <= i64::MAX
}

/// `a * b` computed naively on these fractions fits `i64`.
pub open spec fn mul_fits(a: Frac, b: Frac) -> bool {
    &&& abs(a.n * b.n) <= i64::MAX
    &&& a.d * b.d <= i64::MAX
}

/// `a / b` computed naively on these fractions fits `i64`, `b` nonzero.
pub open spec fn div_fits(a: Frac, b: Frac) -> bool {
    &&& b.n != 0
    &&& abs(a.n) * b.d <= i64::MAX
    &&& abs(b.n) * a.d <= i64::MAX
    &&& a.d * b.d <= i64::MAX
}

/// `a + b`, for `a` holding the value of `fa` and `b` that of `fb`.
pub(crate) fn add_exact(a: Rational, b: Rational, Ghost(fa): Ghost<Frac>, Ghost(fb): Ghost<Frac>) -> (sum: Rational)
    requires
        a.wf(),
        b.wf(),
        fa.d > 0,
        fb.d > 0,
        same_value(a@, fa),
        same_value(b@, fb),
        add_fits(fa, fb),
    ensures
        sum.wf(),
        same_value(sum@, frac_add(fa, fb)),
        frac_add(fa, fb).d > 0,
{
    proof {
        lemma_scale_fits(a@, fa, b@, fb);
    }
    let sum = ratio_add(a, b);
    proof {
        lemma_congruent(a@, fa, b@, fb);
        lemma_same_value_transitive(sum@, frac_add(a@, b@), frac_add(fa, fb));
    }
    sum
}

/// `a - b`, for `a` holding the value of `fa` and `b` that of `fb`.
pub(crate) fn sub_exact(a: Rational, b: Rational, Ghost(fa): Ghost<Frac>, Ghost(fb): Ghost<Frac>) -> (difference:
    Rational)
    requires
        a.wf(),
        b.wf(),
        fa.d > 0,
        fb.d > 0,
        same_value(a@, fa),
        same_value(b@, fb),
        add_fits(fa, fb),
    ensures
        difference.wf(),
        same_value(difference@, frac_sub(fa, fb)),
        frac_sub(fa, fb).d > 0,
{
    proof {
        lemma_scale_fits(a@, fa, b@, fb);
    }
    let difference = ratio_sub(a, b);
    proof {
        lemma_congruent(a@, fa, b@, fb);
        lemma_same_value_transitive(difference@, frac_sub(a@, b@), frac_sub(fa, fb));
    }
    difference
}

/// `a * b`, for `a` holding the value of `fa` and `b` that of `fb`.
pub(crate) fn mul_exact(a: Rational, b: Rational, Ghost(fa): Ghost<Frac>, Ghost(fb): Ghost<Frac>) -> (product:
    Rational)
    requires
        a.wf(),
        b.wf(),
        fa.d > 0,
        fb.d > 0,
        same_value(a@, fa),
        same_value(b@, fb),
        mul_fits(fa, fb),
    ensures
        product.wf(),
        same_value(product@, frac_mul(fa, fb)),
        frac_mul(fa, fb).d > 0,
{
    let product = mul_over(a, b, Ghost(fa.n), Ghost(fa.d), Ghost(fb.n), Ghost(fb.d));
    proof {
        assert(fa.d * fb.d > 0) by (nonlinear_arith)
            requires
                fa.d > 0,
                fb.d > 0,
        ;
    }
    product
}

/// `a / b`, for `a` holding the value of `fa` and `b` that of `fb`.
pub(crate) fn div_exact(a: Rational, b: Rational, Ghost(fa): Ghost<Frac>, Ghost(fb): Ghost<Frac>) -> (quotient:
    Rational)
    requires
        a.wf(),
        b.wf(),
        fa.d > 0,
        fb.d > 0,
        same_value(a@, fa),
        same_value(b@, fb),
        div_fits(fa, fb),
    ensures
        quotient.wf(),
        same_value(quotient@, frac_div(fa, fb)),
        frac_div(fa, fb).d > 0,
{
    proof {
        lemma_lowest_terms(a@, fa);
        lemma_lowest_terms(b@, fb);
        let scale = fa.d * fb.d;
        assert(scale > 0) by (nonlinear_arith)
            requires
                scale == fa.d * fb.d,
                fa.d > 0,
                fb.d > 0,
        ;
        assert(same_value(a@, Frac { n: fa.n * fb.d, d: scale })) by (nonlinear_arith)
            requires
                a@.n * fa.d == fa.n * a@.d,
                scale == fa.d * fb.d,
        ;
        assert(same_value(b@, Frac { n: fb.n * fa.d, d: scale })) by (nonlinear_arith)
            requires
                b@.n * fb.d == fb.n * b@.d,
                scale == fa.d * fb.d,
        ;
        assert(abs(fa.n * fb.d) == abs(fa.n) * fb.d) by (nonlinear_arith)
            requires
                fb.d > 0,
        ;
        assert(abs(fb.n * fa.d) == abs(fb.n) * fa.d) by (nonlinear_arith)
            requires
                fa.d > 0,
        ;
        assert(fb.n * fa.d != 0) by (nonlinear_arith)
            requires
                fb.n != 0,
                fa.d > 0,
        ;
    }
    let quotient = div_over(a, b, Ghost(fa.n * fb.d), Ghost(fb.n * fa.d), Ghost(fa.d * fb.d));
    proof {
        let q = frac_div(fa, fb);
        assert(q.d > 0) by (nonlinear_arith)
            requires
                q.d == fa.d * fb.n || q.d == -(fa.d * fb.n),
                fb.n >= 0 ==> q.d == fa.d * fb.n,
                fb.n < 0 ==> q.d == -(fa.d * fb.n),
                fa.d > 0,
                fb.n != 0,
        ;
        assert(same_value(Frac { n: fa.n * fb.d, d: fb.n * fa.d }, q)) by (nonlinear_arith)
            requires
                fb.n >= 0 ==> q == (Frac { n: fa.n * fb.d, d: fa.d * fb.n }),
                fb.n < 0 ==> q == (Frac { n: -(fa.n * fb.d), d: -(fa.d * fb.n) }),
        ;
        lemma_same_value_transitive(quotient@, Frac { n: fa.n * fb.d, d: fb.n * fa.d }, q);
    }
    quotient
}

/// `-a`, for `a` holding the value of `fa`.
pub(crate) fn neg_exact(a: Rational, Ghost(fa): Ghost<Frac>) -> (negated: Rational)
    requires
        a.wf(),
        fa.d > 0,
        same_value(a@, fa),
        abs(fa.n) <= i64::MAX,
    ensures
        negated.wf(),
        same_value(negated@, frac_neg(fa)),
{
    proof {
        lemma_lowest_terms(a@, fa);
        lemma_negated_wf(a@);
    }
    let negated = ratio_neg(a);
    proof {
        assert(same_value(negated@, frac_neg(fa)) ) by (nonlinear_arith)
            requires
                negated@ == frac_neg(a@),
                a@.n * fa.d == fa.n * a@.d,
        ;
    }
    negated
}

/// The reduced operands of a naive sum that fits share a scale that fits.
proof fn lemma_scale_fits(a: Frac, fa: Frac, b: Frac, fb: Frac)
    requires
        coprime(a.n, a.d),
        coprime(b.n, b.d),
        a.d > 0,
        b.d > 0,
        fa.d > 0,
        fb.d > 0,
        same_value(a, fa),
        same_value(b, fb),
        add_fits(fa, fb),
    ensures
        common_scale_fits(a, b, fa.d * fb.d),
{
    let scale = fa.d * fb.d;
    assert(same_value(a, Frac { n: fa.n * fb.d, d: scale })) by (nonlinear_arith)
        requires
            a.n * fa.d == fa.n * a.d,
            scale == fa.d * fb.d,
    ;
    assert(same_value(b, Frac { n: fb.n * fa.d, d: scale })) by (nonlinear_arith)
        requires
            b.n * fb.d == fb.n * b.d,
            scale == fa.d * fb.d,
    ;
    assert(scale > 0) by (nonlinear_arith)
        requires
            scale == fa.d * fb.d,
            fa.d > 0,
            fb.d > 0,
    ;
    lemma_scaled_numerator(a, fa.n * fb.d, scale);
    lemma_scaled_numerator(b, fb.n * fa.d, scale);
    assert(abs(fa.n * fb.d) == abs(fa.n) * fb.d) by (nonlinear_arith)
        requires
            fb.d > 0,
    ;
    assert(abs(fb.n * fa.d) == abs(fb.n) * fa.d) by (nonlinear_arith)
        requires
            fa.d > 0,
    ;
}

/// Sums, differences and products respect value equality.
pub proof fn lemma_congruent(a: Frac, fa: Frac, b: Frac, fb: Frac)
    requires
        a.d > 0,
        b.d > 0,
        fa.d > 0,
        fb.d > 0,
        same_value(a, fa),
        same_value(b, fb),
    ensures
        same_value(frac_add(a, b), frac_add(fa, fb)),
        same_value(frac_sub(a, b), frac_sub(fa, fb)),
        same_value(frac_mul(a, b), frac_mul(fa, fb)),
        frac_add(a, b).d > 0,
        frac_add(fa, fb).d > 0,
{
    assert(a.d * b.d > 0 && fa.d * fb.d > 0) by (nonlinear_arith)
        requires
            a.d > 0,
            b.d > 0,
            fa.d > 0,
            fb.d > 0,
    ;
    // a.n * b.d * (fa.d * fb.d) == fa.n * fb.d * (a.d * b.d)
    assert((a.n * b.d) * (fa.d * fb.d) == (a.n * fa.d) * (b.d * fb.d)) by (nonlinear_arith);
    assert((fa.n * fb.d) * (a.d * b.d) == (fa.n * a.d) * (b.d * fb.d)) by (nonlinear_arith);
    assert((b.n * a.d) * (fa.d * fb.d) == (b.n * fb.d) * (a.d * fa.d)) by (nonlinear_arith);
    assert((fb.n * fa.d) * (a.d * b.d) == (fb.n * b.d) * (a.d * fa.d)) by (nonlinear_arith);
    vstd::arithmetic::mul::lemma_mul_is_distributive_add_other_way(fa.d * fb.d, a.n * b.d, b.n * a.d);
    vstd::arithmetic::mul::lemma_mul_is_distributive_add_other_way(a.d * b.d, fa.n * fb.d, fb.n * fa.d);
    vstd::arithmetic::mul::lemma_mul_is_distributive_sub_other_way(fa.d * fb.d, a.n * b.d, b.n * a.d);
    vstd::arithmetic::mul::lemma_mul_is_distributive_sub_other_way(a.d * b.d, fa.n * fb.d, fb.n * fa.d);
    assert((a.n * b.n) * (fa.d * fb.d) == (a.n * fa.d) * (b.n * fb.d)) by (nonlinear_arith);
    assert((fa.n * fb.n) * (a.d * b.d) == (fa.n * a.d) * (fb.n * b.d)) by (nonlinear_arith);
}

// ---------------------------------------------------------------------------
// Facts about values in lowest terms.
// ---------------------------------------------------------------------------

/// A fraction in lowest terms divides every other way of writing its value:
/// its denominator divides theirs, and it is no larger in either part.
pub proof fn lemma_lowest_terms(reduced: Frac, other: Frac)
    requires
        coprime(reduced.n, reduced.d),
        reduced.d > 0,
        other.d > 0,
        same_value(reduced, other),
    ensures
        other.d % reduced.d == 0,
        reduced.d <= other.d,
        abs(reduced.n) <= abs(other.n),
        reduced.n * (other.d / reduced.d) == other.n,
{
    let (s, t) = choose|s: int, t: int| #[trigger] combination(reduced.n, reduced.d, s, t) == 1;
    let k = s * other.n + t * other.d;
    assert(other.d == reduced.d * k) by (nonlinear_arith)
        requires
            s * reduced.n + t * reduced.d == 1,
            reduced.n * other.d == other.n * reduced.d,
            k == s * other.n + t * other.d,
    ;
    assert(k >= 1) by (nonlinear_arith)
        requires
            other.d == reduced.d * k,
            reduced.d > 0,
            other.d > 0,
    ;
    assert(reduced.n * k == other.n) by (nonlinear_arith)
        requires
            other.d == reduced.d * k,
            reduced.n * other.d == other.n * reduced.d,
            reduced.d > 0,
    ;
    assert(reduced.d <= other.d) by (nonlinear_arith)
        requires
            other.d == reduced.d * k,
            k >= 1,
            reduced.d > 0,
    ;
    assert(abs(reduced.n) <= abs(other.n)) by (nonlinear_arith)
        requires
            reduced.n * k == other.n,
            k >= 1,
    ;
    vstd::arithmetic::div_mod::lemma_mod_multiples_basic(k, reduced.d);
    assert(other.d == k * reduced.d) by (nonlinear_arith)
        requires
            other.d == reduced.d * k,
    ;
    vstd::arithmetic::div_mod::lemma_div_multiples_vanish(k, reduced.d);
}

/// `-a` stays in lowest terms.
pub proof fn lemma_negated_wf(a: Frac)
    requires
        a.d > 0,
        a.n > i64::MIN,
        a.n <= i64::MAX,
        coprime(a.n, a.d),
    ensures
        coprime(-a.n, a.d),
        -a.n > i64::MIN,
{
    let (s, t) = choose|s: int, t: int| #[trigger] combination(a.n, a.d, s, t) == 1;
    assert(combination(-a.n, a.d, -s, t) == 1) by (nonlinear_arith)
        requires
            s * a.n + t * a.d == 1,
    ;
}

/// A value in lowest terms, written over a multiple `scale` of its
/// denominator, has the numerator it is scaled to.
pub proof fn lemma_scaled_numerator(reduced: Frac, over: int, scale: int)
    requires
        coprime(reduced.n, reduced.d),
        reduced.d > 0,
        scale > 0,
        same_value(reduced, Frac { n: over, d: scale }),
    ensures
        scale % reduced.d == 0,
        reduced.n * (scale / reduced.d) == over,
        abs(reduced.n) * (scale / reduced.d) == abs(over),
        scale / reduced.d >= 1,
{
    lemma_lowest_terms(reduced, Frac { n: over, d: scale });
    let k = scale / reduced.d;
    vstd::arithmetic::div_mod::lemma_fundamental_div_mod(scale, reduced.d);
    assert(k >= 1) by (nonlinear_arith)
        requires
            scale == reduced.d * k,
            scale > 0,
            reduced.d > 0,
    ;
    assert(abs(reduced.n) * k == abs(over)) by (nonlinear_arith)
        requires
            reduced.n * k == over,
            k >= 1,
    ;
}

/// The sum or difference of two values over one denominator, written
/// through their own denominators, is the sum or difference over it.
proof fn lemma_sum_over(a: Frac, b: Frac, a_over: int, b_over: int, scale: int, adding: bool)
    requires
        a.d > 0,
        b.d > 0,
        scale > 0,
        scale % a.d == 0,
        scale % b.d == 0,
        a.n * (scale / a.d) == a_over,
        b.n * (scale / b.d) == b_over,
    ensures
        adding ==> same_value(frac_add(a, b), Frac { n: a_over + b_over, d: scale }),
        !adding ==> same_value(frac_sub(a, b), Frac { n: a_over - b_over, d: scale }),
        a.d * b.d != 0,
{
    let ka = scale / a.d;
    let kb = scale / b.d;
    vstd::arithmetic::div_mod::lemma_fundamental_div_mod(scale, a.d);
    vstd::arithmetic::div_mod::lemma_fundamental_div_mod(scale, b.d);
    assert(a.d * b.d != 0) by (nonlinear_arith)
        requires
            a.d > 0,
            b.d > 0,
    ;
    lemma_rearranged(a.n, b.d, a.d, ka);
    lemma_rearranged(b.n, a.d, b.d, kb);
    assert(a.n * b.d * scale == a_over * (a.d * b.d)) by {
        assert(a.n * b.d * scale == (a.n * b.d) * (a.d * ka));
    }
    assert(b.n * a.d * scale == b_over * (a.d * b.d)) by {
        assert(b.n * a.d * scale == (b.n * a.d) * (b.d * kb));
        vstd::arithmetic::mul::lemma_mul_is_commutative(a.d, b.d);
    }
    vstd::arithmetic::mul::lemma_mul_is_distributive_add_other_way(scale, a.n * b.d, b.n * a.d);
    vstd::arithmetic::mul::lemma_mul_is_distributive_sub_other_way(scale, a.n * b.d, b.n * a.d);
    vstd::arithmetic::mul::lemma_mul_is_distributive_add_other_way(a.d * b.d, a_over, b_over);
    vstd::arithmetic::mul::lemma_mul_is_distributive_sub_other_way(a.d * b.d, a_over, b_over);
}

/// Regrouping a product of four factors.
pub proof fn lemma_rearranged(p: int, q: int, r: int, s: int)
    ensures
        (p * q) * (r * s) == (p * r) * (q * s),
        (p * q) * (r * s) == (p * s) * (q * r),
        (p * q) * (r * s) == (p * (r * s)) * q,
        p * q * r == p * r * q,
        p * q * (r * s) == (p * s) * (q * r),
{
    assert((p * q) * (r * s) == (p * r) * (q * s)) by (nonlinear_arith);
    assert((p * q) * (r * s) == (p * s) * (q * r)) by (nonlinear_arith);
    assert((p * q) * (r * s) == (p * (r * s)) * q) by (nonlinear_arith);
    assert(p * q * r == p * r * q) by (nonlinear_arith);
}

/// Products of smaller magnitudes are no larger.
pub proof fn lemma_product_bounds(a: int, big_a: int, b: int, big_b: int)
    requires
        abs(a) <= abs(big_a),
        abs(b) <= abs(big_b),
    ensures
        abs(a * b) <= abs(big_a * big_b),
{
    assert(abs(a * b) == abs(a) * abs(b)) by (nonlinear_arith);
    assert(abs(big_a * big_b) == abs(big_a) * abs(big_b)) by (nonlinear_arith);
    assert(abs(a) * abs(b) <= abs(big_a) * abs(big_b)) by (nonlinear_arith)
        requires
            0 <= abs(a) <= abs(big_a),
            0 <= abs(b) <= abs(big_b),
    ;
}

/// Comparison of two values over one positive denominator is comparison of
/// their numerators.
pub proof fn lemma_less_than_over(a: Frac, b: Frac, a_over: int, b_over: int, scale: int)
    requires
        a.d > 0,
        b.d > 0,
        scale > 0,
        same_value(a, Frac { n: a_over, d: scale }),
        same_value(b, Frac { n: b_over, d: scale }),
    ensures
        frac_lt(a, b) <==> a_over < b_over,
{
    assert(frac_lt(a, b) <==> a_over < b_over) by (nonlinear_arith)
        requires
            a.n * scale == a_over * a.d,
            b.n * scale == b_over * b.d,
            a.d > 0,
            b.d > 0,
            scale > 0,
    {
        assert(a.n * b.d * scale == a_over * a.d * b.d);
        assert(b.n * a.d * scale == b_over * b.d * a.d);
    }
}

/// `a >= b >= c` gives `a >= c`, by value, for positive denominators.
pub proof fn lemma_not_less_transitive(a: Frac, b: Frac, c: Frac)
    requires
        a.d > 0,
        b.d > 0,
        c.d > 0,
        !frac_lt(a, b),
        !frac_lt(b, c),
    ensures
        !frac_lt(a, c),
{
    assert(a.n * b.d * c.d >= b.n * a.d * c.d) by (nonlinear_arith)
        requires
            a.n * b.d >= b.n * a.d,
            c.d > 0,
    ;
    assert(b.n * c.d * a.d >= c.n * b.d * a.d) by (nonlinear_arith)
        requires
            b.n * c.d >= c.n * b.d,
            a.d > 0,
    ;
    assert(a.n * c.d * b.d >= c.n * a.d * b.d) by (nonlinear_arith)
        requires
            a.n * b.d * c.d >= b.n * a.d * c.d,
            b.n * c.d * a.d >= c.n * b.d * a.d,
    ;
    assert(a.n * c.d >= c.n * a.d) by (nonlinear_arith)
        requires
            a.n * c.d * b.d >= c.n * a.d * b.d,
            b.d > 0,
    ;
}

/// Comparisons see only values.
pub proof fn lemma_less_than_same_value(a: Frac, a2: Frac, c: Frac)
    requires
        a.d > 0,
        a2.d > 0,
        c.d > 0,
        same_value(a, a2),
    ensures
        frac_lt(a, c) <==> frac_lt(a2, c),
        frac_lt(c, a) <==> frac_lt(c, a2),
{
    assert((a.n * c.d) * a2.d == (a2.n * c.d) * a.d) by (nonlinear_arith)
        requires
            a.n * a2.d == a2.n * a.d,
    ;
    assert((c.n * a.d) * a2.d == (c.n * a2.d) * a.d) by (nonlinear_arith);
    assert(frac_lt(a, c) <==> frac_lt(a2, c)) by (nonlinear_arith)
        requires
            (a.n * c.d) * a2.d == (a2.n * c.d) * a.d,
            (c.n * a.d) * a2.d == (c.n * a2.d) * a.d,
            a.d > 0,
            a2.d > 0,
    ;
    assert(frac_lt(c, a) <==> frac_lt(c, a2)) by (nonlinear_arith)
        requires
            (a.n * c.d) * a2.d == (a2.n * c.d) * a.d,
            (c.n * a.d) * a2.d == (c.n * a2.d) * a.d,
            a.d > 0,
            a2.d > 0,
    ;
}

/// Value equality is transitive (through a fraction with a positive denominator).
pub proof fn lemma_same_value_transitive(a: Frac, b: Frac, c: Frac)
    requires
        b.d != 0,
        same_value(a, b),
        same_value(b, c),
    ensures
        same_value(a, c),
{
    assert(a.n * c.d * b.d == c.n * a.d * b.d) by (nonlinear_arith)
        requires
            a.n * b.d == b.n * a.d,
            b.n * c.d == c.n * b.d,
    ;
    vstd::arithmetic::mul::lemma_mul_is_associative(a.n, c.d, b.d);
    assert(a.n * c.d == c.n * a.d) by (nonlinear_arith)
        requires
            a.n * c.d * b.d == c.n * a.d * b.d,
            b.d != 0,
    ;
}

/// A value in lowest terms is fixed by its value.
pub proof fn lemma_lowest_terms_unique(a: Frac, b: Frac)
    requires
        coprime(a.n, a.d),
        coprime(b.n, b.d),
        a.d > 0,
        b.d > 0,
        same_value(a, b),
    ensures
        a == b,
{
    lemma_lowest_terms(a, b);
    lemma_lowest_terms(b, a);
    assert(a.d == b.d);
    assert(a.n == b.n) by (nonlinear_arith)
        requires
            a.n * b.d == b.n * a.d,
            a.d == b.d,
            a.d > 0,
    ;
}

/// The lowest-terms form of a value.
pub open spec fn lowest(value: Frac) -> Frac {
    choose|reduced: Frac| reduced.d > 0 && coprime(reduced.n, reduced.d) && same_value(reduced, value)
}

/// A value in lowest terms is the lowest-terms form of every way of writing
/// that value.
pub proof fn lemma_lowest(reduced: Frac, value: Frac)
    requires
        reduced.d > 0,
        coprime(reduced.n, reduced.d),
        same_value(reduced, value),
        value.d != 0,
    ensures
        lowest(value) == reduced,
{
    let other = lowest(value);
    assert(other.d > 0 && coprime(other.n, other.d) && same_value(other, value));
    lemma_same_value_transitive(other, value, reduced);
    lemma_lowest_terms_unique(other, reduced);
}

/// Multiplication distributes over addition, as values.
pub proof fn lemma_distributes(a: Frac, b: Frac, c: Frac)
    requires
        a.d > 0,
        b.d > 0,
        c.d > 0,
    ensures
        same_value(frac_add(frac_mul(a, b), frac_mul(a, c)), frac_mul(a, frac_add(b, c))),
{
    let left = frac_add(frac_mul(a, b), frac_mul(a, c));
    let right = frac_mul(a, frac_add(b, c));
    assert(left.n == (a.n * b.n) * (a.d * c.d) + (a.n * c.n) * (a.d * b.d));
    assert(left.d == (a.d * b.d) * (a.d * c.d));
    assert(right.n == a.n * (b.n * c.d + c.n * b.d));
    assert(right.d == a.d * (b.d * c.d));
    assert((a.n * b.n) * (a.d * c.d) == a.d * (a.n * (b.n * c.d))) by (nonlinear_arith);
    assert((a.n * c.n) * (a.d * b.d) == a.d * (a.n * (c.n * b.d))) by (nonlinear_arith);
    vstd::arithmetic::mul::lemma_mul_is_distributive_add(a.n, b.n * c.d, c.n * b.d);
    vstd::arithmetic::mul::lemma_mul_is_distributive_add(a.d, a.n * (b.n * c.d), a.n * (c.n * b.d));
    assert(left.d == a.d * right.d) by (nonlinear_arith)
        requires
            left.d == (a.d * b.d) * (a.d * c.d),
            right.d == a.d * (b.d * c.d),
    ;
    assert(left.n * right.d == right.n * left.d) by (nonlinear_arith)
        requires
            left.n == a.d * right.n,
            left.d == a.d * right.d,
    ;
}

/// Addition is associative, as values.
pub proof fn lemma_add_associates(a: Frac, b: Frac, c: Frac)
    requires
        a.d > 0,
        b.d > 0,
        c.d > 0,
    ensures
        same_value(frac_add(frac_add(a, b), c), frac_add(a, frac_add(b, c))),
{
    let left = frac_add(frac_add(a, b), c);
    let right = frac_add(a, frac_add(b, c));
    assert(left.n == (a.n * b.d + b.n * a.d) * c.d + c.n * (a.d * b.d));
    assert(left.d == (a.d * b.d) * c.d);
    assert(right.n == a.n * (b.d * c.d) + (b.n * c.d + c.n * b.d) * a.d);
    assert(right.d == a.d * (b.d * c.d));
    vstd::arithmetic::mul::lemma_mul_is_distributive_add_other_way(c.d, a.n * b.d, b.n * a.d);
    vstd::arithmetic::mul::lemma_mul_is_distributive_add_other_way(a.d, b.n * c.d, c.n * b.d);
    assert((a.n * b.d) * c.d == a.n * (b.d * c.d)) by (nonlinear_arith);
    assert((b.n * a.d) * c.d == (b.n * c.d) * a.d) by (nonlinear_arith);
    assert(c.n * (a.d * b.d) == (c.n * b.d) * a.d) by (nonlinear_arith);
    assert(left.d == right.d) by (nonlinear_arith)
        requires
            left.d == (a.d * b.d) * c.d,
            right.d == a.d * (b.d * c.d),
    ;
}

/// Addition is commutative, as values.
pub proof fn lemma_add_commutes(a: Frac, b: Frac)
    ensures
        same_value(frac_add(a, b), frac_add(b, a)),
{
    let left = frac_add(a, b);
    let right = frac_add(b, a);
    assert(left.n * right.d == right.n * left.d) by (nonlinear_arith)
        requires
            left.n == a.n * b.d + b.n * a.d,
            left.d == a.d * b.d,
            right.n == b.n * a.d + a.n * b.d,
            right.d == b.d * a.d,
    ;
}


/// The rational in lowest terms whose value is `value`.
pub closed spec fn rational_of(value: Frac) -> Rational {
    choose|r: Rational| r.wf() && same_value(r@, value)
}

/// A rational in lowest terms is the rational of its value.
pub proof fn lemma_rational_of(r: Rational, value: Frac)
    requires
        r.wf(),
        same_value(r@, value),
        value.d != 0,
    ensures
        rational_of(value) == r,
{
    let c = rational_of(value);
    assert(c.wf() && same_value(c@, value));
    assert(same_value(value, r@));
    lemma_same_value_transitive(c@, value, r@);
    lemma_lowest_terms_unique(c@, r@);
    assert(c.numer == r.numer && c.denom == r.denom);
}

/// The magnitude of a numerator and the denominator, widened.
fn widened(a: Rational) -> (parts: (i128, i128))
    requires
        a.wf(),
    ensures
        parts.0 == abs(a@.n),
        parts.1 == a@.d,
        0 <= parts.0 <= 0x8000_0000_0000_0000,
        0 < parts.1 < 0x8000_0000_0000_0000,
{
    let numer = a.numer as i128;
    (if numer < 0 { -numer } else { numer }, a.denom as i128)
}

/// Whether `a + b` (or `a - b`) computed plainly fits `i64`.
fn sum_fits(a: Rational, b: Rational) -> (fits: bool)
    requires
        a.wf(),
        b.wf(),
    ensures
        fits == add_fits(a@, b@),
{
    let (an, ad) = widened(a);
    let (bn, bd) = widened(b);
    proof {
        assert(an * bd <= 0x8000_0000_0000_0000 * 0x7fff_ffff_ffff_ffff && 0 <= an * bd) by (nonlinear_arith)
            requires
                0 <= an <= 0x8000_0000_0000_0000,
                0 < bd < 0x8000_0000_0000_0000,
        ;
        assert(bn * ad <= 0x8000_0000_0000_0000 * 0x7fff_ffff_ffff_ffff && 0 <= bn * ad) by (nonlinear_arith)
            requires
                0 <= bn <= 0x8000_0000_0000_0000,
                0 < ad < 0x8000_0000_0000_0000,
        ;
        assert(0 < ad * bd < 0x8000_0000_0000_0000 * 0x8000_0000_0000_0000) by (nonlinear_arith)
            requires
                0 < ad < 0x8000_0000_0000_0000,
                0 < bd < 0x8000_0000_0000_0000,
        ;
    }
    an * bd + bn * ad <= i64::MAX as i128 && ad * bd <= i64::MAX as i128
}

/// Whether `a * b` computed plainly fits `i64`.
fn product_fits(a: Rational, b: Rational) -> (fits: bool)
    requires
        a.wf(),
        b.wf(),
    ensures
        fits == mul_fits(a@, b@),
{
    let (an, ad) = widened(a);
    let (bn, bd) = widened(b);
    proof {
        assert(0 <= an * bn <= 0x8000_0000_0000_0000 * 0x8000_0000_0000_0000) by (nonlinear_arith)
            requires
                0 <= an <= 0x8000_0000_0000_0000,
                0 <= bn <= 0x8000_0000_0000_0000,
        ;
        assert(0 < ad * bd < 0x8000_0000_0000_0000 * 0x8000_0000_0000_0000) by (nonlinear_arith)
            requires
                0 < ad < 0x8000_0000_0000_0000,
                0 < bd < 0x8000_0000_0000_0000,
        ;
        assert(abs(a@.n * b@.n) == an * bn) by (nonlinear_arith)
            requires
                an == abs(a@.n),
                bn == abs(b@.n),
        ;
    }
    an * bn <= i64::MAX as i128 && ad * bd <= i64::MAX as i128
}

impl Rational {
    /// `self + other` in lowest terms; none when the plain sum leaves `i64`.
    pub fn checked_add(self, other: Self) -> (sum: Option<Self>)
        requires
            self.wf(),
            other.wf(),
        ensures
            match sum {
                Some(s) => add_fits(self@, other@) && s.wf() && s@ == lowest(frac_add(self@, other@))
                    && same_value(s@, frac_add(self@, other@)) && frac_add(self@, other@).d > 0,
                None => !add_fits(self@, other@),
            },
    {
        if sum_fits(self, other) {
            let s = add_exact(self, other, Ghost(self@), Ghost(other@));
            proof {
                lemma_lowest(s@, frac_add(self@, other@));
            }
            Some(s)
        } else {
            None
        }
    }

    /// `self - other` in lowest terms; none when the plain difference leaves `i64`.
    pub fn checked_sub(self, other: Self) -> (difference: Option<Self>)
        requires
            self.wf(),
            other.wf(),
        ensures
            match difference {
                Some(s) => add_fits(self@, other@) && s.wf() && s@ == lowest(frac_sub(self@, other@))
                    && same_value(s@, frac_sub(self@, other@)) && frac_sub(self@, other@).d > 0,
                None => !add_fits(self@, other@),
            },
    {
        if sum_fits(self, other) {
            let s = sub_exact(self, other, Ghost(self@), Ghost(other@));
            proof {
                lemma_lowest(s@, frac_sub(self@, other@));
            }
            Some(s)
        } else {
            None
        }
    }

    /// `self * other` in lowest terms; none when the plain product leaves `i64`.
    pub fn checked_mul(self, other: Self) -> (product: Option<Self>)
        requires
            self.wf(),
            other.wf(),
        ensures
            match product {
                Some(s) => mul_fits(self@, other@) && s.wf() && s@ == lowest(frac_mul(self@, other@))
                    && same_value(s@, frac_mul(self@, other@)) && frac_mul(self@, other@).d > 0,
                None => !mul_fits(self@, other@),
            },
    {
        if product_fits(self, other) {
            let s = mul_exact(self, other, Ghost(self@), Ghost(other@));
            proof {
                lemma_lowest(s@, frac_mul(self@, other@));
            }
            Some(s)
        } else {
            None
        }
    }
}

} // verus!
