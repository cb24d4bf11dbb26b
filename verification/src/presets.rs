use vstd::prelude::*;

use crate::chart::{Bounds, CanonicalView};
use crate::frame::CanonicalFrame;
use crate::rational::{
    abs, frac_int, frac_lt, frac_mul, lemma_congruent, lemma_less_than_same_value, lemma_not_less_transitive, lemma_products_value, lemma_same_value_transitive,
    lemma_sum_within_magnitude, mul_exact, pair_views, products_fit, products_value, ratio_less_than, same_value,
    scaled_products_magnitude, scaled_products_sum, sum_of_products, Frac, Rational, lemma_scaled_numerator,
};
use crate::warp::{lcm, lcm_of, lemma_lcm_bounds, lemma_lcm_divides, lemma_lcm_multiple, WarpCoefficients};

verus! {

/// A camera: the world directions of screen right, screen down and depth.
#[derive(Clone, Copy, Debug, PartialEq, Eq)]
pub struct CameraBasis {
    screen_right: [Rational; 3],
    screen_down: [Rational; 3],
    depth: [Rational; 3],
}

/// A view direction to render a model from.
#[derive(Clone, Copy, Debug, PartialEq, Eq)]
pub struct TargetView {
    camera: CameraBasis,
}

/// The screen rectangle a model's bounding box projects into.
#[derive(Clone, Copy, Debug, PartialEq, Eq)]
pub struct TargetExtents {
    pub min_x: Rational,
    pub max_x: Rational,
    pub min_y: Rational,
    pub max_y: Rational,
}

/// The products of a camera row with an integer vector.
pub open spec fn row_pairs(row: (Frac, Frac, Frac), vector: [i64; 3]) -> Seq<(Frac, Frac)> {
    seq![
        (row.0, frac_int(vector[0] as int)),
        (row.1, frac_int(vector[1] as int)),
        (row.2, frac_int(vector[2] as int)),
    ]
}

/// A camera row dotted with an integer vector.
pub open spec fn row_dot(row: (Frac, Frac, Frac), vector: [i64; 3]) -> Frac {
    products_value(row_pairs(row, vector))
}

/// One relief unit, an eighth of a model pixel.
pub open spec fn relief_unit() -> Frac {
    Frac { n: 1, d: 8 }
}

/// A common multiple `scale` of a row's denominators, at most an eighth of
/// `i64::MAX`, over which the row applied to any integer vector with entries
/// of magnitude at most `reach` sums within `i64`.
pub open spec fn row_fits(row: (Frac, Frac, Frac), reach: int, scale: int) -> bool {
    &&& 0 < scale
    &&& scale * 8 <= i64::MAX
    &&& scale % row.0.d == 0
    &&& scale % row.1.d == 0
    &&& scale % row.2.d == 0
    &&& (abs(row.0.n) * (scale / row.0.d) + abs(row.1.n) * (scale / row.1.d) + abs(row.2.n) * (scale / row.2.d))
        * reach <= i64::MAX
}

/// The largest magnitude of any frame or corner coordinate of a model.
pub open spec fn model_reach() -> int {
    63
}

pub open spec fn within_reach(vector: [i64; 3]) -> bool {
    &&& abs(vector[0] as int) <= model_reach()
    &&& abs(vector[1] as int) <= model_reach()
    &&& abs(vector[2] as int) <= model_reach()
}

/// The exact warp of a chart registered on `frame` under `camera`: each
/// screen row and the depth row dotted with the frame's source axes and
/// origin, the relief coefficients dotted with the inward axis and scaled to
/// relief units.
pub open spec fn composed(camera: CameraBasis, frame: CanonicalFrame, warp: WarpCoefficients) -> bool {
    let (r, d, z) = (camera.right_row(), camera.down_row(), camera.depth_row());
    &&& warp.wf()
    &&& same_value(warp.screen_row(0).0, row_dot(r, frame.source_u))
    &&& same_value(warp.screen_row(0).1, row_dot(r, frame.source_v))
    &&& same_value(warp.screen_row(0).2, row_dot(r, frame.origin))
    &&& same_value(warp.screen_row(1).0, row_dot(d, frame.source_u))
    &&& same_value(warp.screen_row(1).1, row_dot(d, frame.source_v))
    &&& same_value(warp.screen_row(1).2, row_dot(d, frame.origin))
    &&& same_value(warp.parallax_of(0), frac_mul(row_dot(r, frame.inward), relief_unit()))
    &&& same_value(warp.parallax_of(1), frac_mul(row_dot(d, frame.inward), relief_unit()))
    &&& same_value(warp.depth_row().0, row_dot(z, frame.source_u))
    &&& same_value(warp.depth_row().1, row_dot(z, frame.source_v))
    &&& same_value(warp.depth_row().2, row_dot(z, frame.origin))
    &&& same_value(warp.depth_relief_of(), frac_mul(row_dot(z, frame.inward), relief_unit()))
}

proof fn lemma_row_fits(row: (Frac, Frac, Frac), scale: int, vector: [i64; 3])
    requires
        row.0.d > 0,
        row.1.d > 0,
        row.2.d > 0,
        row_fits(row, model_reach(), scale),
        within_reach(vector),
    ensures
        products_fit(row_pairs(row, vector), scale),
{
    let pairs = row_pairs(row, vector);
    let k0 = scale / row.0.d;
    let k1 = scale / row.1.d;
    let k2 = scale / row.2.d;
    assert(pairs.drop_last().drop_last().drop_last() =~= Seq::<(Frac, Frac)>::empty());
    assert(pairs.drop_last().drop_last() =~= seq![(row.0, frac_int(vector[0] as int))]);
    assert(pairs.drop_last() =~= seq![(row.0, frac_int(vector[0] as int)), (row.1, frac_int(vector[1] as int))]);
    assert(row.0.d * 1 == row.0.d && row.1.d * 1 == row.1.d && row.2.d * 1 == row.2.d);
    let (v0, v1, v2) = (vector[0] as int, vector[1] as int, vector[2] as int);
    assert(abs(row.0.n * v0 * k0) <= abs(row.0.n) * k0 * 63) by (nonlinear_arith)
        requires
            abs(v0) <= 63,
            k0 >= 0,
    ;
    assert(abs(row.1.n * v1 * k1) <= abs(row.1.n) * k1 * 63) by (nonlinear_arith)
        requires
            abs(v1) <= 63,
            k1 >= 0,
    ;
    assert(abs(row.2.n * v2 * k2) <= abs(row.2.n) * k2 * 63) by (nonlinear_arith)
        requires
            abs(v2) <= 63,
            k2 >= 0,
    ;
    assert((abs(row.0.n) * k0 + abs(row.1.n) * k1 + abs(row.2.n) * k2) * 63 == abs(row.0.n) * k0 * 63 + abs(
        row.1.n,
    ) * k1 * 63 + abs(row.2.n) * k2 * 63) by (nonlinear_arith);
    reveal_with_fuel(scaled_products_magnitude, 4);
    assert(scaled_products_magnitude(pairs, scale) <= i64::MAX);
    assert forall|k: int| 0 <= k < pairs.len() implies scale % ((#[trigger] pairs[k]).0.d * pairs[k].1.d) == 0 by {
        assert(pairs[k].1.d == 1);
    }
}

/// `row · vector`, exactly.
fn dot(row: [Rational; 3], vector: [i64; 3], Ghost(scale): Ghost<int>) -> (value: Rational)
    requires
        row[0].wf(),
        row[1].wf(),
        row[2].wf(),
        row_fits((row[0]@, row[1]@, row[2]@), model_reach(), scale),
        within_reach(vector),
    ensures
        value.wf(),
        same_value(value@, row_dot((row[0]@, row[1]@, row[2]@), vector)),
        same_value(value@, Frac { n: scaled_products_sum(row_pairs((row[0]@, row[1]@, row[2]@), vector), scale), d: scale }),
        abs(scaled_products_sum(row_pairs((row[0]@, row[1]@, row[2]@), vector), scale)) <= i64::MAX,
        row_dot((row[0]@, row[1]@, row[2]@), vector).d > 0,
{
    let ghost r = (row[0]@, row[1]@, row[2]@);
    let pairs = vec![
        (row[0], Rational::from_integer(vector[0])),
        (row[1], Rational::from_integer(vector[1])),
        (row[2], Rational::from_integer(vector[2])),
    ];
    proof {
        assert(pair_views(pairs@) =~= row_pairs(r, vector));
        lemma_row_fits(r, scale, vector);
    }
    let value = sum_of_products(&pairs);
    proof {
        let views = row_pairs(r, vector);
        assert forall|k: int| 0 <= k < views.len() implies (#[trigger] views[k]).0.d > 0 && views[k].1.d > 0 by {}
        lemma_products_value(views, scale);
        lemma_same_value_transitive(
            value@,
            products_value(views),
            Frac { n: scaled_products_sum(views, scale), d: scale },
        );
        lemma_sum_within_magnitude(views, scale);
    }
    value
}

/// `(row · vector) / 8`, exactly.
fn dot_relief(row: [Rational; 3], vector: [i64; 3], Ghost(scale): Ghost<int>) -> (value: Rational)
    requires
        row[0].wf(),
        row[1].wf(),
        row[2].wf(),
        row_fits((row[0]@, row[1]@, row[2]@), model_reach(), scale),
        within_reach(vector),
    ensures
        value.wf(),
        same_value(value@, frac_mul(row_dot((row[0]@, row[1]@, row[2]@), vector), relief_unit())),
{
    let ghost r = (row[0]@, row[1]@, row[2]@);
    let ghost over = Frac { n: scaled_products_sum(row_pairs(r, vector), scale), d: scale };
    let plain = dot(row, vector, Ghost(scale));
    let eighth = Rational::new(1, 8);
    proof {
        assert(same_value(eighth@, relief_unit()));
    }
    let value = mul_exact(plain, eighth, Ghost(over), Ghost(relief_unit()));
    proof {
        lemma_same_value_transitive(over, plain@, row_dot(r, vector));
        lemma_congruent(over, row_dot(r, vector), relief_unit(), relief_unit());
        lemma_same_value_transitive(value@, frac_mul(over, relief_unit()), frac_mul(row_dot(r, vector), relief_unit()));
    }
    value
}

impl CameraBasis {
    pub closed spec fn right_row(&self) -> (Frac, Frac, Frac) {
        (self.screen_right[0]@, self.screen_right[1]@, self.screen_right[2]@)
    }

    pub closed spec fn down_row(&self) -> (Frac, Frac, Frac) {
        (self.screen_down[0]@, self.screen_down[1]@, self.screen_down[2]@)
    }

    pub closed spec fn depth_row(&self) -> (Frac, Frac, Frac) {
        (self.depth[0]@, self.depth[1]@, self.depth[2]@)
    }

    pub closed spec fn wf(&self) -> bool {
        &&& forall|i: int| 0 <= i < 3 ==> (#[trigger] self.screen_right[i]).wf()
        &&& forall|i: int| 0 <= i < 3 ==> (#[trigger] self.screen_down[i]).wf()
        &&& forall|i: int| 0 <= i < 3 ==> (#[trigger] self.depth[i]).wf()
    }

    /// Every row fits `i64` over the model's coordinate range.
    pub open spec fn fits(&self) -> bool {
        &&& exists|scale: int| #[trigger] row_fits(self.right_row(), model_reach(), scale)
        &&& exists|scale: int| #[trigger] row_fits(self.down_row(), model_reach(), scale)
        &&& exists|scale: int| #[trigger] row_fits(self.depth_row(), model_reach(), scale)
    }

    pub fn new(screen_right: [Rational; 3], screen_down: [Rational; 3], depth: [Rational; 3]) -> (camera: Self)
        ensures
            camera.right_row() == (screen_right[0]@, screen_right[1]@, screen_right[2]@),
            camera.down_row() == (screen_down[0]@, screen_down[1]@, screen_down[2]@),
            camera.depth_row() == (depth[0]@, depth[1]@, depth[2]@),
            (forall|i: int| 0 <= i < 3 ==> (#[trigger] screen_right[i]).wf() && screen_down[i].wf() && depth[i].wf())
                ==> camera.wf(),
    {
        let camera = Self { screen_right, screen_down, depth };
        proof {
            if forall|i: int| 0 <= i < 3 ==> (#[trigger] screen_right[i]).wf() && screen_down[i].wf() && depth[i].wf() {
                assert forall|i: int| 0 <= i < 3 implies (#[trigger] camera.screen_right[i]).wf() by {
                    assert(screen_right[i].wf());
                }
                assert forall|i: int| 0 <= i < 3 implies (#[trigger] camera.screen_down[i]).wf() by {
                    assert(screen_right[i].wf());
                }
                assert forall|i: int| 0 <= i < 3 implies (#[trigger] camera.depth[i]).wf() by {
                    assert(screen_right[i].wf());
                }
            }
        }
        camera
    }
}

/// The entries of `row` are, in value, `over.0 / scale`, `over.1 / scale`
/// and `over.2 / scale`.
pub open spec fn row_over(row: (Frac, Frac, Frac), over: (int, int, int), scale: int) -> bool {
    &&& same_value(row.0, Frac { n: over.0, d: scale })
    &&& same_value(row.1, Frac { n: over.1, d: scale })
    &&& same_value(row.2, Frac { n: over.2, d: scale })
}

/// The numerators over a common denominator are small enough for a row to
/// fit `i64` over the model's reach.
pub open spec fn small_over(over: (int, int, int), scale: int) -> bool {
    &&& 0 < scale
    &&& scale * 8 <= i64::MAX
    &&& (abs(over.0) + abs(over.1) + abs(over.2)) * model_reach() <= i64::MAX
}

/// A value equal to `n / d` equals `(n * k) / (d * k)`.
pub proof fn lemma_same_value_rescaled(a: Frac, n: int, d: int, k: int)
    requires
        same_value(a, Frac { n, d }),
    ensures
        same_value(a, Frac { n: n * k, d: d * k }),
{
    assert(a.n * (d * k) == (n * k) * a.d) by (nonlinear_arith)
        requires
            a.n * d == n * a.d,
    ;
}

impl CameraBasis {
    /// A camera whose rows are, in value, small numerators over common
    /// denominators fits `i64` over the model's coordinate range.
    pub proof fn lemma_fits_over(
        self,
        right: (int, int, int),
        right_scale: int,
        down: (int, int, int),
        down_scale: int,
        depth: (int, int, int),
        depth_scale: int,
    )
        requires
            self.wf(),
            row_over(self.right_row(), right, right_scale),
            row_over(self.down_row(), down, down_scale),
            row_over(self.depth_row(), depth, depth_scale),
            small_over(right, right_scale),
            small_over(down, down_scale),
            small_over(depth, depth_scale),
        ensures
            self.fits(),
    {
        lemma_row_fits_over(self.screen_right, right, right_scale);
        lemma_row_fits_over(self.screen_down, down, down_scale);
        lemma_row_fits_over(self.depth, depth, depth_scale);
    }
}

proof fn lemma_row_fits_over(row: [Rational; 3], over: (int, int, int), scale: int)
    requires
        forall|i: int| 0 <= i < 3 ==> (#[trigger] row[i]).wf(),
        row_over((row[0]@, row[1]@, row[2]@), over, scale),
        small_over(over, scale),
    ensures
        row_fits((row[0]@, row[1]@, row[2]@), model_reach(), scale),
{
    assert(row[0].wf() && row[1].wf() && row[2].wf());
    lemma_scaled_numerator(row[0]@, over.0, scale);
    lemma_scaled_numerator(row[1]@, over.1, scale);
    lemma_scaled_numerator(row[2]@, over.2, scale);
}

/// The magnitude of `row` over `scale`, the sum `row_fits` bounds.
pub open spec fn row_magnitude(row: (Frac, Frac, Frac), scale: int) -> int {
    abs(row.0.n) * (scale / row.0.d) + abs(row.1.n) * (scale / row.1.d) + abs(row.2.n) * (scale / row.2.d)
}

/// A larger common scale gives a magnitude at least as large.
proof fn lemma_magnitude_grows(row: (Frac, Frac, Frac), small_scale: int, large_scale: int)
    requires
        row.0.d > 0,
        row.1.d > 0,
        row.2.d > 0,
        0 < small_scale <= large_scale,
    ensures
        row_magnitude(row, small_scale) <= row_magnitude(row, large_scale),
{
    vstd::arithmetic::div_mod::lemma_div_is_ordered(small_scale, large_scale, row.0.d);
    vstd::arithmetic::div_mod::lemma_div_is_ordered(small_scale, large_scale, row.1.d);
    vstd::arithmetic::div_mod::lemma_div_is_ordered(small_scale, large_scale, row.2.d);
    vstd::arithmetic::mul::lemma_mul_inequality(small_scale / row.0.d, large_scale / row.0.d, abs(row.0.n));
    vstd::arithmetic::mul::lemma_mul_inequality(small_scale / row.1.d, large_scale / row.1.d, abs(row.1.n));
    vstd::arithmetic::mul::lemma_mul_inequality(small_scale / row.2.d, large_scale / row.2.d, abs(row.2.n));
    vstd::arithmetic::mul::lemma_mul_is_commutative(small_scale / row.0.d, abs(row.0.n));
    vstd::arithmetic::mul::lemma_mul_is_commutative(large_scale / row.0.d, abs(row.0.n));
    vstd::arithmetic::mul::lemma_mul_is_commutative(small_scale / row.1.d, abs(row.1.n));
    vstd::arithmetic::mul::lemma_mul_is_commutative(large_scale / row.1.d, abs(row.1.n));
    vstd::arithmetic::mul::lemma_mul_is_commutative(small_scale / row.2.d, abs(row.2.n));
    vstd::arithmetic::mul::lemma_mul_is_commutative(large_scale / row.2.d, abs(row.2.n));
}

/// Whether some common scale makes `row` fit over the model's reach. The
/// least common multiple of its denominators is the scale to try: every
/// other common scale is a multiple of it, so no smaller.
fn row_fits_now(row: &[Rational; 3]) -> (fits: bool)
    requires
        row[0].wf(),
        row[1].wf(),
        row[2].wf(),
    ensures
        fits == exists|scale: int| #[trigger] row_fits((row[0]@, row[1]@, row[2]@), model_reach(), scale),
{
    let ghost view = (row[0]@, row[1]@, row[2]@);
    let (n0, d0) = (row[0].numer(), row[0].denom());
    let (n1, d1) = (row[1].numer(), row[1].denom());
    let (n2, d2) = (row[2].numer(), row[2].denom());
    let limit: u128 = 1152921504606846975;
    assert(limit * 8 <= i64::MAX && (limit + 1) * 8 > i64::MAX);
    let inner = lcm_of(d0 as u64, d1 as u64);
    proof {
        lemma_lcm_bounds(d0 as nat, d1 as nat);
        lemma_lcm_multiple(d0 as nat, d1 as nat);
    }
    if inner > limit {
        proof {
            assert forall|scale: int| !#[trigger] row_fits(view, model_reach(), scale) by {
                if row_fits(view, model_reach(), scale) {
                    lemma_lcm_divides(d0 as nat, d1 as nat, scale);
                }
            }
        }
        return false;
    }
    let scale = lcm_of(inner as u64, d2 as u64);
    proof {
        lemma_lcm_bounds(inner as nat, d2 as nat);
        lemma_lcm_multiple(inner as nat, d2 as nat);
        let (si, ii) = (scale as int, inner as int);
        let m = si / ii;
        vstd::arithmetic::div_mod::lemma_fundamental_div_mod(si, ii);
        vstd::arithmetic::div_mod::lemma_fundamental_div_mod(ii, d0 as int);
        vstd::arithmetic::div_mod::lemma_fundamental_div_mod(ii, d1 as int);
        let (k0, k1) = (ii / (d0 as int), ii / (d1 as int));
        assert(si == (d0 as int) * (k0 * m) && si == (d1 as int) * (k1 * m)) by (nonlinear_arith)
            requires
                si == ii * m,
                ii == (d0 as int) * k0,
                ii == (d1 as int) * k1,
        ;
        vstd::arithmetic::div_mod::lemma_mod_multiples_basic(k0 * m, d0 as int);
        vstd::arithmetic::div_mod::lemma_mod_multiples_basic(k1 * m, d1 as int);
        vstd::arithmetic::mul::lemma_mul_is_commutative(k0 * m, d0 as int);
        vstd::arithmetic::mul::lemma_mul_is_commutative(k1 * m, d1 as int);
    }
    if scale > limit {
        proof {
            assert forall|s: int| !#[trigger] row_fits(view, model_reach(), s) by {
                if row_fits(view, model_reach(), s) {
                    lemma_lcm_divides(d0 as nat, d1 as nat, s);
                    lemma_lcm_divides(inner as nat, d2 as nat, s);
                }
            }
        }
        return false;
    }
    let common = scale as i128;
    proof {
        assert(0 <= common / (d0 as i128) <= common && 0 <= common / (d1 as i128) <= common && 0 <= common / (
        d2 as i128) <= common) by (nonlinear_arith)
            requires
                0 < common <= limit,
                d0 >= 1,
                d1 >= 1,
                d2 >= 1,
        ;
        assert(abs(n0 as int) * (common / (d0 as i128)) <= 0x8000_0000_0000_0000 * 0x1000_0000_0000_0000)
            by (nonlinear_arith)
            requires
                abs(n0 as int) <= 0x8000_0000_0000_0000,
                0 <= common / (d0 as i128) <= 0x1000_0000_0000_0000,
        ;
        assert(abs(n1 as int) * (common / (d1 as i128)) <= 0x8000_0000_0000_0000 * 0x1000_0000_0000_0000)
            by (nonlinear_arith)
            requires
                abs(n1 as int) <= 0x8000_0000_0000_0000,
                0 <= common / (d1 as i128) <= 0x1000_0000_0000_0000,
        ;
        assert(abs(n2 as int) * (common / (d2 as i128)) <= 0x8000_0000_0000_0000 * 0x1000_0000_0000_0000)
            by (nonlinear_arith)
            requires
                abs(n2 as int) <= 0x8000_0000_0000_0000,
                0 <= common / (d2 as i128) <= 0x1000_0000_0000_0000,
        ;
    }
    let a0: i128 = if n0 < 0 { -(n0 as i128) } else { n0 as i128 };
    let a1: i128 = if n1 < 0 { -(n1 as i128) } else { n1 as i128 };
    let a2: i128 = if n2 < 0 { -(n2 as i128) } else { n2 as i128 };
    let magnitude = a0 * (common / d0 as i128) + a1 * (common / d1 as i128) + a2 * (common / d2 as i128);
    let fits = magnitude <= 146402730743726600;
    proof {
        assert(magnitude == row_magnitude(view, common as int));
        assert(146402730743726600 * 63 <= i64::MAX && 146402730743726601 * 63 > i64::MAX);
        if fits {
            assert(row_fits(view, model_reach(), common as int));
        } else {
            assert forall|s: int| !#[trigger] row_fits(view, model_reach(), s) by {
                if row_fits(view, model_reach(), s) {
                    lemma_lcm_divides(d0 as nat, d1 as nat, s);
                    lemma_lcm_divides(inner as nat, d2 as nat, s);
                    lemma_magnitude_grows(view, common as int, s);
                    assert(row_magnitude(view, s) * model_reach() <= i64::MAX);
                }
            }
        }
    }
    fits
}

impl CameraBasis {
    /// Whether every row fits `i64` over the model's coordinate range.
    pub fn fits_now(&self) -> (fits: bool)
        requires
            self.wf(),
        ensures
            fits == self.fits(),
    {
        proof {
            assert(self.screen_right[0].wf() && self.screen_right[1].wf() && self.screen_right[2].wf());
            assert(self.screen_down[0].wf() && self.screen_down[1].wf() && self.screen_down[2].wf());
            assert(self.depth[0].wf() && self.depth[1].wf() && self.depth[2].wf());
        }
        let right = row_fits_now(&self.screen_right);
        let down = row_fits_now(&self.screen_down);
        let depth = row_fits_now(&self.depth);
        proof {
            assert(self.right_row() == (self.screen_right[0]@, self.screen_right[1]@, self.screen_right[2]@));
            assert(self.down_row() == (self.screen_down[0]@, self.screen_down[1]@, self.screen_down[2]@));
            assert(self.depth_row() == (self.depth[0]@, self.depth[1]@, self.depth[2]@));
        }
        right && down && depth
    }
}

/// The warp of a chart on `frame` under `camera`.
fn compose(camera: &CameraBasis, frame: CanonicalFrame) -> (warp: WarpCoefficients)
    requires
        camera.wf(),
        camera.fits(),
        within_reach(frame.origin),
        within_reach(frame.source_u),
        within_reach(frame.source_v),
        within_reach(frame.inward),
    ensures
        composed(*camera, frame, warp),
{
    let ghost right_scale = choose|scale: int| #[trigger] row_fits(camera.right_row(), model_reach(), scale);
    let ghost down_scale = choose|scale: int| #[trigger] row_fits(camera.down_row(), model_reach(), scale);
    let ghost depth_scale = choose|scale: int| #[trigger] row_fits(camera.depth_row(), model_reach(), scale);
    let right = camera.screen_right;
    let down = camera.screen_down;
    let depth = camera.depth;
    proof {
        assert(right[0].wf() && right[1].wf() && right[2].wf());
        assert(down[0].wf() && down[1].wf() && down[2].wf());
        assert(depth[0].wf() && depth[1].wf() && depth[2].wf());
    }
    let screen = [
        [
            dot(right, frame.source_u, Ghost(right_scale)),
            dot(right, frame.source_v, Ghost(right_scale)),
            dot(right, frame.origin, Ghost(right_scale)),
        ],
        [
            dot(down, frame.source_u, Ghost(down_scale)),
            dot(down, frame.source_v, Ghost(down_scale)),
            dot(down, frame.origin, Ghost(down_scale)),
        ],
    ];
    let parallax = [
        dot_relief(right, frame.inward, Ghost(right_scale)),
        dot_relief(down, frame.inward, Ghost(down_scale)),
    ];
    let depth_plane = [
        dot(depth, frame.source_u, Ghost(depth_scale)),
        dot(depth, frame.source_v, Ghost(depth_scale)),
        dot(depth, frame.origin, Ghost(depth_scale)),
    ];
    let depth_relief = dot_relief(depth, frame.inward, Ghost(depth_scale));
    WarpCoefficients::from_rational(screen, parallax, depth_plane, depth_relief)
}

proof fn lemma_row_dot_positive(row: (Frac, Frac, Frac), vector: [i64; 3])
    requires
        row.0.d > 0,
        row.1.d > 0,
        row.2.d > 0,
    ensures
        row_dot(row, vector).d > 0,
{
    let pairs = row_pairs(row, vector);
    assert(pairs.drop_last().drop_last().drop_last() =~= Seq::<(Frac, Frac)>::empty());
    assert(pairs.drop_last().drop_last() =~= seq![(row.0, frac_int(vector[0] as int))]);
    assert(pairs.drop_last() =~= seq![(row.0, frac_int(vector[0] as int)), (row.1, frac_int(vector[1] as int))]);
    reveal_with_fuel(products_value, 4);
    let p1 = products_value(pairs.drop_last().drop_last());
    let p2 = products_value(pairs.drop_last());
    assert(p1.d == 1 * (row.0.d * 1));
    assert(p1.d > 0);
    assert(p2.d == p1.d * (row.1.d * 1));
    assert(p2.d > 0) by (nonlinear_arith)
        requires
            p2.d == p1.d * (row.1.d * 1),
            p1.d > 0,
            row.1.d > 0,
    ;
    assert(row_dot(row, vector).d == p2.d * (row.2.d * 1));
    assert(row_dot(row, vector).d > 0) by (nonlinear_arith)
        requires
            row_dot(row, vector).d == p2.d * (row.2.d * 1),
            p2.d > 0,
            row.2.d > 0,
    ;
}

proof fn lemma_frame_within_reach(view: CanonicalView, bounds: Bounds)
    requires
        bounds.wf(),
    ensures
        within_reach(view.spec_frame(bounds).origin),
        within_reach(view.spec_frame(bounds).source_u),
        within_reach(view.spec_frame(bounds).source_v),
        within_reach(view.spec_frame(bounds).inward),
{
}

/// The model corner with index bits `(x, y, z)`: 0 or the full extent per axis.
pub open spec fn corner(bounds: Bounds, index: int) -> [i64; 3] {
    [
        if index / 4 == 1 {
            bounds.spec_width() as i64
        } else {
            0
        },
        if (index / 2) % 2 == 1 {
            bounds.spec_height() as i64
        } else {
            0
        },
        if index % 2 == 1 {
            bounds.spec_depth() as i64
        } else {
            0
        },
    ]
}

/// `value` is the least (or, when `largest`, greatest) of `row` dotted
/// with the eight corners, by value.
pub open spec fn extreme_over_corners(row: (Frac, Frac, Frac), bounds: Bounds, value: Frac, largest: bool) -> bool {
    &&& forall|index: int|
        0 <= index < 8 ==> if largest {
            !frac_lt(value, #[trigger] row_dot(row, corner(bounds, index)))
        } else {
            !frac_lt(#[trigger] row_dot(row, corner(bounds, index)), value)
        }
    &&& exists|index: int| 0 <= index < 8 && same_value(value, #[trigger] row_dot(row, corner(bounds, index)))
}

impl TargetView {
    pub closed spec fn camera(&self) -> CameraBasis {
        self.camera
    }

    pub fn from_camera(camera: CameraBasis) -> (target: Self)
        ensures
            target.camera() == camera,
    {
        Self { camera }
    }

    /// Whether the camera's rows fit `i64` over any model, as warping and
    /// framing need.
    pub fn camera_fits(&self) -> (fits: bool)
        requires
            self.camera().wf(),
        ensures
            fits == self.camera().fits(),
    {
        self.camera.fits_now()
    }

    /// The camera's depth row.
    pub fn depth_row(&self) -> (row: [Rational; 3])
        ensures
            (row[0]@, row[1]@, row[2]@) == self.camera().depth_row(),
    {
        self.camera.depth
    }

    pub fn front() -> (target: Self)
        ensures
            target.camera().wf(),
            target.camera().fits(),
            target.camera().right_row() == (frac_int(1), frac_int(0), frac_int(0)),
            target.camera().down_row() == (frac_int(0), frac_int(1), frac_int(0)),
            target.camera().depth_row() == (frac_int(0), frac_int(0), frac_int(1)),
    {
        let target = Self::from_camera(
            CameraBasis::new(
                integer_vector(1, 0, 0),
                integer_vector(0, 1, 0),
                integer_vector(0, 0, 1),
            ),
        );
        proof {
            target.camera().lemma_fits_over((1, 0, 0), 1, (0, 1, 0), 1, (0, 0, 1), 1);
        }
        target
    }

    pub fn right() -> (target: Self)
        ensures
            target.camera().wf(),
            target.camera().fits(),
            target.camera().right_row() == (frac_int(0), frac_int(0), frac_int(-1)),
            target.camera().down_row() == (frac_int(0), frac_int(1), frac_int(0)),
            target.camera().depth_row() == (frac_int(-1), frac_int(0), frac_int(0)),
    {
        let target = Self::from_camera(
            CameraBasis::new(
                integer_vector(0, 0, -1),
                integer_vector(0, 1, 0),
                integer_vector(-1, 0, 0),
            ),
        );
        proof {
            target.camera().lemma_fits_over((0, 0, -1), 1, (0, 1, 0), 1, (-1, 0, 0), 1);
        }
        target
    }

    pub fn back() -> (target: Self)
        ensures
            target.camera().wf(),
            target.camera().fits(),
            target.camera().right_row() == (frac_int(-1), frac_int(0), frac_int(0)),
            target.camera().down_row() == (frac_int(0), frac_int(1), frac_int(0)),
            target.camera().depth_row() == (frac_int(0), frac_int(0), frac_int(-1)),
    {
        let target = Self::from_camera(
            CameraBasis::new(
                integer_vector(-1, 0, 0),
                integer_vector(0, 1, 0),
                integer_vector(0, 0, -1),
            ),
        );
        proof {
            target.camera().lemma_fits_over((-1, 0, 0), 1, (0, 1, 0), 1, (0, 0, -1), 1);
        }
        target
    }

    pub fn left() -> (target: Self)
        ensures
            target.camera().wf(),
            target.camera().fits(),
            target.camera().right_row() == (frac_int(0), frac_int(0), frac_int(1)),
            target.camera().down_row() == (frac_int(0), frac_int(1), frac_int(0)),
            target.camera().depth_row() == (frac_int(1), frac_int(0), frac_int(0)),
    {
        let target = Self::from_camera(
            CameraBasis::new(
                integer_vector(0, 0, 1),
                integer_vector(0, 1, 0),
                integer_vector(1, 0, 0),
            ),
        );
        proof {
            target.camera().lemma_fits_over((0, 0, 1), 1, (0, 1, 0), 1, (1, 0, 0), 1);
        }
        target
    }

    pub fn top() -> (target: Self)
        ensures
            target.camera().wf(),
            target.camera().fits(),
            target.camera().right_row() == (frac_int(1), frac_int(0), frac_int(0)),
            target.camera().down_row() == (frac_int(0), frac_int(0), frac_int(1)),
            target.camera().depth_row() == (frac_int(0), frac_int(1), frac_int(0)),
    {
        let target = Self::from_camera(
            CameraBasis::new(
                integer_vector(1, 0, 0),
                integer_vector(0, 0, 1),
                integer_vector(0, 1, 0),
            ),
        );
        proof {
            target.camera().lemma_fits_over((1, 0, 0), 1, (0, 0, 1), 1, (0, 1, 0), 1);
        }
        target
    }

    pub fn bottom() -> (target: Self)
        ensures
            target.camera().wf(),
            target.camera().fits(),
            target.camera().right_row() == (frac_int(1), frac_int(0), frac_int(0)),
            target.camera().down_row() == (frac_int(0), frac_int(0), frac_int(-1)),
            target.camera().depth_row() == (frac_int(0), frac_int(-1), frac_int(0)),
    {
        let target = Self::from_camera(
            CameraBasis::new(
                integer_vector(1, 0, 0),
                integer_vector(0, 0, -1),
                integer_vector(0, -1, 0),
            ),
        );
        proof {
            target.camera().lemma_fits_over((1, 0, 0), 1, (0, 0, -1), 1, (0, -1, 0), 1);
        }
        target
    }

    pub fn isometric() -> (target: Self)
        ensures
            target.camera().wf(),
            same_value(target.camera().right_row().0, Frac { n: 1, d: 2 }),
            target.camera().right_row().1 == frac_int(0),
            same_value(target.camera().right_row().2, Frac { n: 1, d: 2 }),
            same_value(target.camera().down_row().0, Frac { n: 1, d: 4 }),
            same_value(target.camera().down_row().1, Frac { n: 1, d: 2 }),
            same_value(target.camera().down_row().2, Frac { n: -1, d: 4 }),
            same_value(target.camera().depth_row().0, Frac { n: -1, d: 3 }),
            same_value(target.camera().depth_row().1, Frac { n: 1, d: 3 }),
            same_value(target.camera().depth_row().2, Frac { n: 1, d: 3 }),
            target.camera().fits(),
    {
        let target = Self::from_camera(
            CameraBasis::new(
                [Rational::new(1, 2), Rational::from_integer(0), Rational::new(1, 2)],
                [Rational::new(1, 4), Rational::new(1, 2), Rational::new(-1, 4)],
                [Rational::new(-1, 3), Rational::new(1, 3), Rational::new(1, 3)],
            ),
        );
        proof {
            lemma_same_value_rescaled(target.camera().down_row().1, 1, 2, 2);
            target.camera().lemma_fits_over((1, 0, 1), 2, (1, 2, -1), 4, (-1, 1, 1), 3);
        }
        target
    }

    pub fn bowl_acceptance() -> (target: Self)
        ensures
            target.camera().wf(),
            same_value(target.camera().right_row().0, Frac { n: 1, d: 2 }),
            target.camera().right_row().1 == frac_int(0),
            same_value(target.camera().right_row().2, Frac { n: 1, d: 2 }),
            target.camera().down_row().0 == frac_int(1),
            same_value(target.camera().down_row().1, Frac { n: 1, d: 2 }),
            target.camera().down_row().2 == frac_int(-1),
            target.camera().depth_row() == (frac_int(-1), frac_int(4), frac_int(1)),
            target.camera().fits(),
    {
        let target = Self::from_camera(
            CameraBasis::new(
                [Rational::new(1, 2), Rational::from_integer(0), Rational::new(1, 2)],
                [Rational::from_integer(1), Rational::new(1, 2), Rational::from_integer(-1)],
                integer_vector(-1, 4, 1),
            ),
        );
        proof {
            target.camera().lemma_fits_over((1, 0, 1), 2, (2, 1, -2), 2, (-1, 4, 1), 1);
        }
        target
    }

    /// The exact warp of the chart registered as `view` in `bounds`.
    pub fn warp_coefficients(&self, view: CanonicalView, bounds: Bounds) -> (warp: WarpCoefficients)
        requires
            self.camera().wf(),
            self.camera().fits(),
            bounds.wf(),
        ensures
            composed(self.camera(), view.spec_frame(bounds), warp),
    {
        let frame = view.frame(bounds);
        proof {
            lemma_frame_within_reach(view, bounds);
        }
        compose(&self.camera, frame)
    }

    /// The screen rectangle spanned by the eight corners of `bounds`.
    pub fn framing_extents(&self, bounds: Bounds) -> (extents: TargetExtents)
        requires
            self.camera().wf(),
            self.camera().fits(),
            bounds.wf(),
        ensures
            extents.min_x.wf() && extents.max_x.wf() && extents.min_y.wf() && extents.max_y.wf(),
            extreme_over_corners(self.camera().right_row(), bounds, extents.min_x@, false),
            extreme_over_corners(self.camera().right_row(), bounds, extents.max_x@, true),
            extreme_over_corners(self.camera().down_row(), bounds, extents.min_y@, false),
            extreme_over_corners(self.camera().down_row(), bounds, extents.max_y@, true),
    {
        camera_extents(&self.camera, bounds)
    }
}

fn corner_vector(bounds: Bounds, index: usize) -> (vector: [i64; 3])
    requires
        bounds.wf(),
        index < 8,
    ensures
        vector == corner(bounds, index as int),
        within_reach(vector),
{
    let x = if index / 4 == 1 {
        bounds.width() as i64
    } else {
        0
    };
    let y = if (index / 2) % 2 == 1 {
        bounds.height() as i64
    } else {
        0
    };
    let z = if index % 2 == 1 {
        bounds.depth() as i64
    } else {
        0
    };
    [x, y, z]
}

/// Keeps the smaller (or, when `largest`, the larger) of two values.
fn keep_extreme(current: Rational, candidate: Rational, largest: bool) -> (kept: Rational)
    requires
        current.wf(),
        candidate.wf(),
    ensures
        kept.wf(),
        kept == current || kept == candidate,
        largest ==> !frac_lt(kept@, current@) && !frac_lt(kept@, candidate@),
        !largest ==> !frac_lt(current@, kept@) && !frac_lt(candidate@, kept@),
{
    if largest {
        if ratio_less_than(current, candidate) {
            candidate
        } else {
            current
        }
    } else {
        if ratio_less_than(candidate, current) {
            candidate
        } else {
            current
        }
    }
}

fn camera_extents(camera: &CameraBasis, bounds: Bounds) -> (extents: TargetExtents)
    requires
        camera.wf(),
        camera.fits(),
        bounds.wf(),
    ensures
        extents.min_x.wf() && extents.max_x.wf() && extents.min_y.wf() && extents.max_y.wf(),
        extreme_over_corners(camera.right_row(), bounds, extents.min_x@, false),
        extreme_over_corners(camera.right_row(), bounds, extents.max_x@, true),
        extreme_over_corners(camera.down_row(), bounds, extents.min_y@, false),
        extreme_over_corners(camera.down_row(), bounds, extents.max_y@, true),
{
    let ghost right_scale = choose|scale: int| #[trigger] row_fits(camera.right_row(), model_reach(), scale);
    let ghost down_scale = choose|scale: int| #[trigger] row_fits(camera.down_row(), model_reach(), scale);
    let right = camera.screen_right;
    let down = camera.screen_down;
    proof {
        assert(right[0].wf() && right[1].wf() && right[2].wf());
        assert(down[0].wf() && down[1].wf() && down[2].wf());
    }
    let ghost r = camera.right_row();
    let ghost d = camera.down_row();
    let first = corner_vector(bounds, 0);
    let first_x = dot(right, first, Ghost(right_scale));
    let first_y = dot(down, first, Ghost(down_scale));
    let mut extents = TargetExtents { min_x: first_x, max_x: first_x, min_y: first_y, max_y: first_y };
    let mut index: usize = 0;
    while index < 8
        invariant
            camera.wf(),
            bounds.wf(),
            r == camera.right_row(),
            d == camera.down_row(),
            r == (right[0]@, right[1]@, right[2]@),
            d == (down[0]@, down[1]@, down[2]@),
            right[0].wf() && right[1].wf() && right[2].wf(),
            down[0].wf() && down[1].wf() && down[2].wf(),
            row_fits(r, model_reach(), right_scale),
            row_fits(d, model_reach(), down_scale),
            0 <= index <= 8,
            extents.min_x.wf() && extents.max_x.wf() && extents.min_y.wf() && extents.max_y.wf(),
            forall|i: int|
                0 <= i < index ==> !frac_lt(#[trigger] row_dot(r, corner(bounds, i)), extents.min_x@) && !frac_lt(
                    extents.max_x@,
                    row_dot(r, corner(bounds, i)),
                ),
            forall|i: int|
                0 <= i < index ==> !frac_lt(#[trigger] row_dot(d, corner(bounds, i)), extents.min_y@) && !frac_lt(
                    extents.max_y@,
                    row_dot(d, corner(bounds, i)),
                ),
            exists|i: int| 0 <= i < 8 && same_value(extents.min_x@, #[trigger] row_dot(r, corner(bounds, i))),
            exists|i: int| 0 <= i < 8 && same_value(extents.max_x@, #[trigger] row_dot(r, corner(bounds, i))),
            exists|i: int| 0 <= i < 8 && same_value(extents.min_y@, #[trigger] row_dot(d, corner(bounds, i))),
            exists|i: int| 0 <= i < 8 && same_value(extents.max_y@, #[trigger] row_dot(d, corner(bounds, i))),
        decreases 8 - index,
    {
        let point = corner_vector(bounds, index);
        let screen_x = dot(right, point, Ghost(right_scale));
        let screen_y = dot(down, point, Ghost(down_scale));
        let ghost before = extents;
        extents.min_x = keep_extreme(extents.min_x, screen_x, false);
        extents.max_x = keep_extreme(extents.max_x, screen_x, true);
        extents.min_y = keep_extreme(extents.min_y, screen_y, false);
        extents.max_y = keep_extreme(extents.max_y, screen_y, true);
        proof {
            assert forall|i: int| 0 <= i < 8 implies (#[trigger] row_dot(r, corner(bounds, i))).d > 0 by {
                lemma_row_dot_positive(r, corner(bounds, i));
            }
            assert forall|i: int| 0 <= i < 8 implies (#[trigger] row_dot(d, corner(bounds, i))).d > 0 by {
                lemma_row_dot_positive(d, corner(bounds, i));
            }
            let cx = row_dot(r, corner(bounds, index as int));
            let cy = row_dot(d, corner(bounds, index as int));
            lemma_order_by_value(extents, before, screen_x@, screen_y@, cx, cy, r, d, bounds, index as int);
        }
        index += 1;
    }
    extents
}

/// Orders survive replacing values by values equal to them.
proof fn lemma_order_by_value(
    extents: TargetExtents,
    before: TargetExtents,
    x: Frac,
    y: Frac,
    cx: Frac,
    cy: Frac,
    r: (Frac, Frac, Frac),
    d: (Frac, Frac, Frac),
    bounds: Bounds,
    index: int,
)
    requires
        0 <= index < 8,
        cx == row_dot(r, corner(bounds, index)),
        cy == row_dot(d, corner(bounds, index)),
        x.d > 0,
        y.d > 0,
        cx.d > 0,
        cy.d > 0,
        same_value(x, cx),
        same_value(y, cy),
        extents.min_x@.d > 0 && extents.max_x@.d > 0 && extents.min_y@.d > 0 && extents.max_y@.d > 0,
        before.min_x@.d > 0 && before.max_x@.d > 0 && before.min_y@.d > 0 && before.max_y@.d > 0,
        extents.min_x == before.min_x || extents.min_x@ == x,
        extents.max_x == before.max_x || extents.max_x@ == x,
        extents.min_y == before.min_y || extents.min_y@ == y,
        extents.max_y == before.max_y || extents.max_y@ == y,
        !frac_lt(before.min_x@, extents.min_x@) && !frac_lt(x, extents.min_x@),
        !frac_lt(extents.max_x@, before.max_x@) && !frac_lt(extents.max_x@, x),
        !frac_lt(before.min_y@, extents.min_y@) && !frac_lt(y, extents.min_y@),
        !frac_lt(extents.max_y@, before.max_y@) && !frac_lt(extents.max_y@, y),
        forall|i: int|
            0 <= i < index ==> !frac_lt(#[trigger] row_dot(r, corner(bounds, i)), before.min_x@) && !frac_lt(
                before.max_x@,
                row_dot(r, corner(bounds, i)),
            ),
        forall|i: int|
            0 <= i < index ==> !frac_lt(#[trigger] row_dot(d, corner(bounds, i)), before.min_y@) && !frac_lt(
                before.max_y@,
                row_dot(d, corner(bounds, i)),
            ),
        forall|i: int| 0 <= i < 8 ==> (#[trigger] row_dot(r, corner(bounds, i))).d > 0,
        forall|i: int| 0 <= i < 8 ==> (#[trigger] row_dot(d, corner(bounds, i))).d > 0,
        exists|i: int| 0 <= i < 8 && same_value(before.min_x@, #[trigger] row_dot(r, corner(bounds, i))),
        exists|i: int| 0 <= i < 8 && same_value(before.max_x@, #[trigger] row_dot(r, corner(bounds, i))),
        exists|i: int| 0 <= i < 8 && same_value(before.min_y@, #[trigger] row_dot(d, corner(bounds, i))),
        exists|i: int| 0 <= i < 8 && same_value(before.max_y@, #[trigger] row_dot(d, corner(bounds, i))),
    ensures
        forall|i: int|
            0 <= i < index + 1 ==> !frac_lt(#[trigger] row_dot(r, corner(bounds, i)), extents.min_x@) && !frac_lt(
                extents.max_x@,
                row_dot(r, corner(bounds, i)),
            ),
        forall|i: int|
            0 <= i < index + 1 ==> !frac_lt(#[trigger] row_dot(d, corner(bounds, i)), extents.min_y@) && !frac_lt(
                extents.max_y@,
                row_dot(d, corner(bounds, i)),
            ),
        exists|i: int| 0 <= i < 8 && same_value(extents.min_x@, #[trigger] row_dot(r, corner(bounds, i))),
        exists|i: int| 0 <= i < 8 && same_value(extents.max_x@, #[trigger] row_dot(r, corner(bounds, i))),
        exists|i: int| 0 <= i < 8 && same_value(extents.min_y@, #[trigger] row_dot(d, corner(bounds, i))),
        exists|i: int| 0 <= i < 8 && same_value(extents.max_y@, #[trigger] row_dot(d, corner(bounds, i))),
{
    assert forall|i: int| 0 <= i < index + 1 implies !frac_lt(#[trigger] row_dot(r, corner(bounds, i)), extents.min_x@)
        && !frac_lt(extents.max_x@, row_dot(r, corner(bounds, i))) by {
        let c = row_dot(r, corner(bounds, i));
        if i < index {
            lemma_not_less_transitive(c, before.min_x@, extents.min_x@);
            lemma_not_less_transitive(extents.max_x@, before.max_x@, c);
        } else {
            lemma_less_than_same_value(x, cx, extents.min_x@);
            lemma_less_than_same_value(x, cx, extents.max_x@);
        }
    }
    assert forall|i: int| 0 <= i < index + 1 implies !frac_lt(#[trigger] row_dot(d, corner(bounds, i)), extents.min_y@)
        && !frac_lt(extents.max_y@, row_dot(d, corner(bounds, i))) by {
        let c = row_dot(d, corner(bounds, i));
        if i < index {
            lemma_not_less_transitive(c, before.min_y@, extents.min_y@);
            lemma_not_less_transitive(extents.max_y@, before.max_y@, c);
        } else {
            lemma_less_than_same_value(y, cy, extents.min_y@);
            lemma_less_than_same_value(y, cy, extents.max_y@);
        }
    }
    if extents.min_x != before.min_x {
        assert(same_value(extents.min_x@, row_dot(r, corner(bounds, index))));
    }
    if extents.max_x != before.max_x {
        assert(same_value(extents.max_x@, row_dot(r, corner(bounds, index))));
    }
    if extents.min_y != before.min_y {
        assert(same_value(extents.min_y@, row_dot(d, corner(bounds, index))));
    }
    if extents.max_y != before.max_y {
        assert(same_value(extents.max_y@, row_dot(d, corner(bounds, index))));
    }
}

fn integer_vector(x: i64, y: i64, z: i64) -> (vector: [Rational; 3])
    ensures
        vector[0].wf() && vector[1].wf() && vector[2].wf(),
        vector[0]@ == frac_int(x as int),
        vector[1]@ == frac_int(y as int),
        vector[2]@ == frac_int(z as int),
{
    [Rational::from_integer(x), Rational::from_integer(y), Rational::from_integer(z)]
}

} // verus!
