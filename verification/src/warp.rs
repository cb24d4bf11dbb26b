use vstd::prelude::*;

use crate::field::{
    coefficients_positive, eqv, lemma_add_commutative, lemma_add_zero, lemma_cancel_four, lemma_cancel_pair,
    lemma_coefficient_value, lemma_coefficients_closed, lemma_difference_cancels, lemma_distributive,
    lemma_div_mul_cancel, lemma_div_trivial, lemma_eqv_congruent, lemma_eqv_reflexive, lemma_eqv_symmetric,
    lemma_eqv_transitive, lemma_interchange, lemma_linear_add, lemma_linear_congruent, lemma_linear_scale,
    lemma_linear_unit, lemma_mul_associative, lemma_mul_commutative, lemma_mul_neg, lemma_mul_zero_one,
    lemma_neg_congruent, lemma_neg_product, lemma_positive, lemma_sub_is_add_neg, lemma_zero_ends, linear,
    scaled_coefficients, sum_coefficients, unit, Coefficients,
};
use crate::rational::{
    abs, abs_ratio, add_exact, add_fits, coprime, div_exact, div_fits, frac_add, frac_div, frac_int, frac_mul, frac_neg,
    frac_sub, lemma_add_associates, lemma_add_commutes, lemma_congruent, lemma_distributes, lemma_lowest,
    lemma_lowest_terms, lemma_same_value_transitive, lowest, mul_exact,
    mul_fits, neg_exact, pair_views, products_fit, products_value, ratio_less_than, same_value, sub_exact,
    sum_of_products, Frac, Rational,
};

verus! {

/// A point of a chart's source plane, in texel units.
#[derive(Clone, Copy, Debug, PartialEq, Eq)]
pub struct SourcePoint {
    pub x: Rational,
    pub y: Rational,
}

impl SourcePoint {
    pub fn new(x: Rational, y: Rational) -> (point: Self)
        ensures
            point == (SourcePoint { x, y }),
    {
        Self { x, y }
    }
}

/// Where a warped source sample lands: screen position and camera depth.
#[derive(Clone, Copy, Debug, PartialEq, Eq)]
pub struct WarpedSample {
    pub screen_x: Rational,
    pub screen_y: Rational,
    pub depth: Rational,
}

/// The exact affine map from (source x, source y, relief) to screen position
/// and camera depth for one chart under one camera.
#[derive(Clone, Copy, Debug, PartialEq, Eq)]
pub struct WarpCoefficients {
    screen: [[Rational; 3]; 2],
    parallax: [Rational; 2],
    depth_plane: [Rational; 3],
    depth_relief: Rational,
}

/// The products summed for one output of a warp: source x, source y and one
/// against a coefficient row, then relief against its relief coefficient.
pub open spec fn warp_terms(row: (Frac, Frac, Frac), relief_coefficient: Frac, x: Frac, y: Frac, relief: Frac) -> Seq<
    (Frac, Frac),
> {
    seq![(x, row.0), (y, row.1), (frac_int(1), row.2), (relief, relief_coefficient)]
}

impl WarpCoefficients {
    /// Screen row `row` (0 for x, 1 for y) as `(x, y, constant)` coefficients.
    pub closed spec fn screen_row(&self, row: int) -> (Frac, Frac, Frac) {
        (self.screen[row][0]@, self.screen[row][1]@, self.screen[row][2]@)
    }

    pub closed spec fn parallax_of(&self, axis: int) -> Frac {
        self.parallax[axis]@
    }

    pub closed spec fn depth_row(&self) -> (Frac, Frac, Frac) {
        (self.depth_plane[0]@, self.depth_plane[1]@, self.depth_plane[2]@)
    }

    pub closed spec fn depth_relief_of(&self) -> Frac {
        self.depth_relief@
    }

    pub closed spec fn wf(&self) -> bool {
        &&& forall|row: int, column: int| 0 <= row < 2 && 0 <= column < 3 ==> (#[trigger] self.screen[row][column]).wf()
        &&& self.parallax[0].wf()
        &&& self.parallax[1].wf()
        &&& forall|column: int| 0 <= column < 3 ==> (#[trigger] self.depth_plane[column]).wf()
        &&& self.depth_relief.wf()
    }

    /// Integer coefficients.
    pub fn new(screen: [[i64; 3]; 2], parallax: [i64; 2], depth_plane: [i64; 3], depth_relief: i64) -> (warp: Self)
        ensures
            warp.wf(),
            forall|row: int|
                0 <= row < 2 ==> #[trigger] warp.screen_row(row) == (
                    frac_int(screen[row][0] as int),
                    frac_int(screen[row][1] as int),
                    frac_int(screen[row][2] as int),
                ),
            forall|axis: int| 0 <= axis < 2 ==> #[trigger] warp.parallax_of(axis) == frac_int(parallax[axis] as int),
            warp.depth_row() == (
                frac_int(depth_plane[0] as int),
                frac_int(depth_plane[1] as int),
                frac_int(depth_plane[2] as int),
            ),
            warp.depth_relief_of() == frac_int(depth_relief as int),
    {
        Self::from_rational(
            [
                [
                    Rational::from_integer(screen[0][0]),
                    Rational::from_integer(screen[0][1]),
                    Rational::from_integer(screen[0][2]),
                ],
                [
                    Rational::from_integer(screen[1][0]),
                    Rational::from_integer(screen[1][1]),
                    Rational::from_integer(screen[1][2]),
                ],
            ],
            [Rational::from_integer(parallax[0]), Rational::from_integer(parallax[1])],
            [
                Rational::from_integer(depth_plane[0]),
                Rational::from_integer(depth_plane[1]),
                Rational::from_integer(depth_plane[2]),
            ],
            Rational::from_integer(depth_relief),
        )
    }

    pub fn from_rational(
        screen: [[Rational; 3]; 2],
        parallax: [Rational; 2],
        depth_plane: [Rational; 3],
        depth_relief: Rational,
    ) -> (warp: Self)
        ensures
            warp.screen() == screen,
            warp.parallax() == parallax,
            warp.screen_row(0) == (screen[0][0]@, screen[0][1]@, screen[0][2]@),
            warp.screen_row(1) == (screen[1][0]@, screen[1][1]@, screen[1][2]@),
            warp.parallax_of(0) == parallax[0]@,
            warp.parallax_of(1) == parallax[1]@,
            warp.depth_row() == (depth_plane[0]@, depth_plane[1]@, depth_plane[2]@),
            warp.depth_relief_of() == depth_relief@,
            (forall|row: int, column: int| 0 <= row < 2 && 0 <= column < 3 ==> (#[trigger] screen[row][column]).wf())
                && parallax[0].wf() && parallax[1].wf() && (forall|column: int|
                0 <= column < 3 ==> (#[trigger] depth_plane[column]).wf()) && depth_relief.wf() ==> warp.wf(),
    {
        Self { screen, parallax, depth_plane, depth_relief }
    }

    /// The screen rows: `screen[axis]` dotted with `(x, y, 1)` is screen axis
    /// `axis` before the relief term.
    #[verifier::when_used_as_spec(spec_screen)]
    pub fn screen(&self) -> (screen: [[Rational; 3]; 2])
        ensures
            screen == self.spec_screen(),
    {
        self.screen
    }

    pub closed spec fn spec_screen(&self) -> [[Rational; 3]; 2] {
        self.screen
    }

    /// The relief parallax: screen axis `axis` gains `relief * parallax[axis]`.
    #[verifier::when_used_as_spec(spec_parallax)]
    pub fn parallax(&self) -> (parallax: [Rational; 2])
        ensures
            parallax == self.spec_parallax(),
    {
        self.parallax
    }

    pub closed spec fn spec_parallax(&self) -> [Rational; 2] {
        self.parallax
    }

    /// No partial sum of any output leaves `i64` for this point and relief.
    pub closed spec fn apply_fits(&self, point: SourcePoint, relief: Rational) -> bool {
        let (x, y) = (point.x@, point.y@);
        &&& exists|scale: int|
            #[trigger] products_fit(warp_terms(self.screen_row(0), self.parallax_of(0), x, y, relief@), scale)
        &&& exists|scale: int|
            #[trigger] products_fit(warp_terms(self.screen_row(1), self.parallax_of(1), x, y, relief@), scale)
        &&& exists|scale: int|
            #[trigger] products_fit(warp_terms(self.depth_row(), self.depth_relief_of(), x, y, relief@), scale)
    }

    /// Warps one source point with its relief: each output is
    /// `row · (x, y, 1) + relief * relief_coefficient`, exactly.
    pub fn apply(&self, point: SourcePoint, relief: Rational) -> (sample: WarpedSample)
        requires
            self.wf(),
            point.x.wf(),
            point.y.wf(),
            relief.wf(),
            self.apply_fits(point, relief),
        ensures
            sample.screen_x.wf(),
            sample.screen_y.wf(),
            sample.depth.wf(),
            same_value(
                sample.screen_x@,
                products_value(
                    warp_terms(self.screen_row(0), self.parallax_of(0), point.x@, point.y@, relief@),
                ),
            ),
            same_value(
                sample.screen_y@,
                products_value(
                    warp_terms(self.screen_row(1), self.parallax_of(1), point.x@, point.y@, relief@),
                ),
            ),
            same_value(
                sample.depth@,
                products_value(
                    warp_terms(self.depth_row(), self.depth_relief_of(), point.x@, point.y@, relief@),
                ),
            ),
    {
        let screen_x = self.output(self.screen[0], self.parallax[0], point, relief);
        let screen_y = self.output(self.screen[1], self.parallax[1], point, relief);
        let depth = self.output(self.depth_plane, self.depth_relief, point, relief);
        WarpedSample { screen_x, screen_y, depth }
    }

    fn output(&self, row: [Rational; 3], relief_coefficient: Rational, point: SourcePoint, relief: Rational) -> (value:
        Rational)
        requires
            row[0].wf(),
            row[1].wf(),
            row[2].wf(),
            relief_coefficient.wf(),
            point.x.wf(),
            point.y.wf(),
            relief.wf(),
            exists|scale: int|
                #[trigger] products_fit(
                    warp_terms((row[0]@, row[1]@, row[2]@), relief_coefficient@, point.x@, point.y@, relief@),
                    scale,
                ),
        ensures
            value.wf(),
            same_value(
                value@,
                products_value(
                    warp_terms((row[0]@, row[1]@, row[2]@), relief_coefficient@, point.x@, point.y@, relief@),
                ),
            ),
    {
        let one = Rational::from_integer(1);
        let pairs = vec![(point.x, row[0]), (point.y, row[1]), (one, row[2]), (relief, relief_coefficient)];
        proof {
            assert(pair_views(pairs@) =~= warp_terms(
                (row[0]@, row[1]@, row[2]@),
                relief_coefficient@,
                point.x@,
                point.y@,
                relief@,
            ));
        }
        sum_of_products(&pairs)
    }
}

/// The camera-only factoring of the inverse-line solve for one warp: which
/// two of (source x, source y, relief) are solved for, and the affine
/// coefficients of their offsets and slopes along the line.
#[derive(Clone, Copy, Debug, PartialEq, Eq)]
pub struct PreparedInverse {
    first: usize,
    second: usize,
    free: usize,
    first_offset: [Rational; 3],
    second_offset: [Rational; 3],
    first_slope: Rational,
    second_slope: Rational,
    depth_plane: [Rational; 3],
    depth_relief: Rational,
    depth_slope: Rational,
}

/// Largest magnitude up to which every integer is exactly representable in `f64`.
pub const MAX_F64_EXACT_INT: i128 = 9007199254740992;

/// Greatest common divisor.
pub open spec fn gcd(a: nat, b: nat) -> nat
    decreases b,
{
    if b == 0 {
        a
    } else {
        gcd(b, a % b)
    }
}

/// Least common multiple.
pub open spec fn lcm(a: nat, b: nat) -> nat {
    if gcd(a, b) == 0 {
        0
    } else {
        a * b / gcd(a, b)
    }
}

/// The pivot pairs tried, in order: (first, second, free) variables.
pub open spec fn candidate(index: int) -> (int, int, int) {
    if index == 0 {
        (0, 1, 2)
    } else if index == 1 {
        (0, 2, 1)
    } else {
        (1, 2, 0)
    }
}

/// `|a| > |b|`, for positive denominators.
pub open spec fn larger_magnitude(a: Frac, b: Frac) -> bool {
    abs(a.n) * b.d > abs(b.n) * a.d
}

impl WarpCoefficients {
    /// How source x (0), source y (1) and relief (2) move the two screen axes.
    pub open spec fn column(&self, variable: int) -> (Frac, Frac) {
        if variable == 0 {
            (self.screen_row(0).0, self.screen_row(1).0)
        } else if variable == 1 {
            (self.screen_row(0).1, self.screen_row(1).1)
        } else {
            (self.parallax_of(0), self.parallax_of(1))
        }
    }

    /// The 2x2 minor of the projected map on two variables.
    pub open spec fn minor(&self, first: int, second: int) -> Frac {
        frac_sub(
            frac_mul(self.column(first).0, self.column(second).1),
            frac_mul(self.column(second).0, self.column(first).1),
        )
    }

    /// Among candidates `0..count` with a nonzero minor, the first of largest magnitude.
    pub open spec fn best_candidate(&self, count: int) -> Option<int>
        decreases count,
    {
        if count <= 0 {
            None
        } else {
            let before = self.best_candidate(count - 1);
            let (first, second, free) = candidate(count - 1);
            let minor = self.minor(first, second);
            if minor.n == 0 {
                before
            } else {
                match before {
                    None => Some(count - 1),
                    Some(best) => {
                        let (bf, bs, bfree) = candidate(best);
                        if larger_magnitude(minor, self.minor(bf, bs)) {
                            Some(count - 1)
                        } else {
                            Some(best)
                        }
                    },
                }
            }
        }
    }

    /// The offset `[base, d/dscreen_x, d/dscreen_y]` of the first pivot variable.
    pub open spec fn first_offset_formula(&self, first: int, second: int) -> (Frac, Frac, Frac) {
        let det = self.minor(first, second);
        let (s0, s1) = (self.screen_row(0).2, self.screen_row(1).2);
        let (cs0, cs1) = self.column(second);
        (
            frac_div(frac_sub(frac_mul(cs0, s1), frac_mul(s0, cs1)), det),
            frac_div(cs1, det),
            frac_div(frac_neg(cs0), det),
        )
    }

    /// The offset `[base, d/dscreen_x, d/dscreen_y]` of the second pivot variable.
    pub open spec fn second_offset_formula(&self, first: int, second: int) -> (Frac, Frac, Frac) {
        let det = self.minor(first, second);
        let (s0, s1) = (self.screen_row(0).2, self.screen_row(1).2);
        let (cf0, cf1) = self.column(first);
        (
            frac_div(frac_sub(frac_mul(s0, cf1), frac_mul(cf0, s1)), det),
            frac_div(frac_neg(cf1), det),
            frac_div(cf0, det),
        )
    }

    pub open spec fn first_slope_formula(&self, first: int, second: int, free: int) -> Frac {
        let (cs0, cs1) = self.column(second);
        let (cfr0, cfr1) = self.column(free);
        frac_div(frac_add(frac_mul(frac_neg(cfr0), cs1), frac_mul(cs0, cfr1)), self.minor(first, second))
    }

    pub open spec fn second_slope_formula(&self, first: int, second: int, free: int) -> Frac {
        let (cf0, cf1) = self.column(first);
        let (cfr0, cfr1) = self.column(free);
        frac_div(frac_add(frac_mul(frac_neg(cf0), cfr1), frac_mul(cfr0, cf1)), self.minor(first, second))
    }

    /// The slope of each variable along the inverse line.
    pub open spec fn slope_formula(&self, first: int, second: int, free: int, variable: int) -> Frac {
        if variable == free {
            frac_int(1)
        } else if variable == first {
            self.first_slope_formula(first, second, free)
        } else {
            self.second_slope_formula(first, second, free)
        }
    }

    /// The camera depth's slope along the inverse line.
    pub open spec fn depth_slope_formula(&self, first: int, second: int, free: int) -> Frac {
        let (d0, d1, d2) = self.depth_row();
        frac_add(
            frac_add(
                frac_mul(d0, self.slope_formula(first, second, free, 0)),
                frac_mul(d1, self.slope_formula(first, second, free, 1)),
            ),
            frac_mul(self.depth_relief_of(), self.slope_formula(first, second, free, 2)),
        )
    }

    /// Every operation of the minor on `first`, `second`, done naively, fits `i64`.
    pub open spec fn minor_fits(&self, first: int, second: int) -> bool {
        let (cf0, cf1) = self.column(first);
        let (cs0, cs1) = self.column(second);
        &&& mul_fits(cf0, cs1)
        &&& mul_fits(cs0, cf1)
        &&& add_fits(frac_mul(cf0, cs1), frac_mul(cs0, cf1))
        &&& abs(self.minor(first, second).n) <= i64::MAX
    }

    /// Every operation of the factoring on this pivot, done naively, fits `i64`.
    pub open spec fn pivot_fits(&self, first: int, second: int, free: int) -> bool {
        let det = self.minor(first, second);
        let (s0, s1) = (self.screen_row(0).2, self.screen_row(1).2);
        let (cf0, cf1) = self.column(first);
        let (cs0, cs1) = self.column(second);
        let (cfr0, cfr1) = self.column(free);
        let (d0, d1, d2) = self.depth_row();
        let slope = |variable: int| self.slope_formula(first, second, free, variable);
        &&& mul_fits(cs0, s1) && mul_fits(s0, cs1) && add_fits(frac_mul(cs0, s1), frac_mul(s0, cs1))
        &&& div_fits(frac_sub(frac_mul(cs0, s1), frac_mul(s0, cs1)), det)
        &&& div_fits(cs1, det) && abs(cs0.n) <= i64::MAX && div_fits(frac_neg(cs0), det)
        &&& mul_fits(s0, cf1) && mul_fits(cf0, s1) && add_fits(frac_mul(s0, cf1), frac_mul(cf0, s1))
        &&& div_fits(frac_sub(frac_mul(s0, cf1), frac_mul(cf0, s1)), det)
        &&& abs(cf1.n) <= i64::MAX && div_fits(frac_neg(cf1), det) && div_fits(cf0, det)
        &&& abs(cfr0.n) <= i64::MAX && mul_fits(frac_neg(cfr0), cs1) && mul_fits(cs0, cfr1)
        &&& add_fits(frac_mul(frac_neg(cfr0), cs1), frac_mul(cs0, cfr1))
        &&& div_fits(frac_add(frac_mul(frac_neg(cfr0), cs1), frac_mul(cs0, cfr1)), det)
        &&& abs(cf0.n) <= i64::MAX && mul_fits(frac_neg(cf0), cfr1) && mul_fits(cfr0, cf1)
        &&& add_fits(frac_mul(frac_neg(cf0), cfr1), frac_mul(cfr0, cf1))
        &&& div_fits(frac_add(frac_mul(frac_neg(cf0), cfr1), frac_mul(cfr0, cf1)), det)
        &&& mul_fits(d0, slope(0)) && mul_fits(d1, slope(1))
        &&& add_fits(frac_mul(d0, slope(0)), frac_mul(d1, slope(1)))
        &&& mul_fits(self.depth_relief_of(), slope(2))
        &&& add_fits(frac_add(frac_mul(d0, slope(0)), frac_mul(d1, slope(1))), frac_mul(self.depth_relief_of(), slope(2)))
    }

    /// Every candidate's minor, computed naively, fits `i64`.
    pub open spec fn minors_fit(&self) -> bool {
        forall|index: int|
            0 <= index < 3 ==> {
                let (first, second, free) = #[trigger] candidate(index);
                self.minor_fits(first, second)
            }
    }

    /// No step of `prepare_inverse` leaves `i64`: the minors of all three
    /// candidates, and the factoring on the pivot it picks.
    pub open spec fn prepare_fits(&self) -> bool {
        &&& self.minors_fit()
        &&& self.best_candidate(3) matches Some(index) ==> {
            let (first, second, free) = candidate(index);
            self.pivot_fits(first, second, free)
        }
    }
}

impl PreparedInverse {
    /// The (first, second, free) variables of the pivot.
    pub closed spec fn pivot(&self) -> (int, int, int) {
        (self.first as int, self.second as int, self.free as int)
    }

    pub closed spec fn first_offset_of(&self) -> (Frac, Frac, Frac) {
        (self.first_offset[0]@, self.first_offset[1]@, self.first_offset[2]@)
    }

    pub closed spec fn second_offset_of(&self) -> (Frac, Frac, Frac) {
        (self.second_offset[0]@, self.second_offset[1]@, self.second_offset[2]@)
    }

    /// The slopes of the first and second pivot variables.
    pub closed spec fn slopes_of(&self) -> (Frac, Frac) {
        (self.first_slope@, self.second_slope@)
    }

    /// The depth plane, depth relief coefficient and depth slope.
    pub closed spec fn depth_of(&self) -> ((Frac, Frac, Frac), Frac, Frac) {
        (
            (self.depth_plane[0]@, self.depth_plane[1]@, self.depth_plane[2]@),
            self.depth_relief@,
            self.depth_slope@,
        )
    }

    pub closed spec fn wf(&self) -> bool {
        &&& self.first < 3 && self.second < 3 && self.free < 3
        &&& self.first != self.second && self.first != self.free && self.second != self.free
        &&& forall|i: int| 0 <= i < 3 ==> (#[trigger] self.first_offset[i]).wf() && self.second_offset[i].wf()
        &&& self.first_slope.wf() && self.second_slope.wf()
        &&& forall|i: int| 0 <= i < 3 ==> (#[trigger] self.depth_plane[i]).wf()
        &&& self.depth_relief.wf() && self.depth_slope.wf()
    }
}

/// `prepared` is the factoring of `warp` on candidate pivot `index`.
pub open spec fn prepared_matches(warp: WarpCoefficients, prepared: PreparedInverse, index: int) -> bool {
    let (first, second, free) = candidate(index);
    let fo = warp.first_offset_formula(first, second);
    let so = warp.second_offset_formula(first, second);
    &&& prepared.wf()
    &&& prepared.pivot() == (first, second, free)
    &&& same_value(prepared.first_offset_of().0, fo.0)
    &&& same_value(prepared.first_offset_of().1, fo.1)
    &&& same_value(prepared.first_offset_of().2, fo.2)
    &&& same_value(prepared.second_offset_of().0, so.0)
    &&& same_value(prepared.second_offset_of().1, so.1)
    &&& same_value(prepared.second_offset_of().2, so.2)
    &&& same_value(prepared.slopes_of().0, warp.first_slope_formula(first, second, free))
    &&& same_value(prepared.slopes_of().1, warp.second_slope_formula(first, second, free))
    &&& prepared.depth_of().0 == warp.depth_row()
    &&& prepared.depth_of().1 == warp.depth_relief_of()
    &&& same_value(prepared.depth_of().2, warp.depth_slope_formula(first, second, free))
}

proof fn lemma_magnitude_order(small: Frac, small_value: Frac, large: Frac, large_value: Frac)
    requires
        small.d > 0,
        large.d > 0,
        small_value.d > 0,
        large_value.d > 0,
        same_value(small, small_value),
        same_value(large, large_value),
    ensures
        (abs(small.n) * large.d < abs(large.n) * small.d) <==> larger_magnitude(large_value, small_value),
{
    assert(abs(small.n) * small_value.d == abs(small_value.n) * small.d) by (nonlinear_arith)
        requires
            small.n * small_value.d == small_value.n * small.d,
            small.d > 0,
            small_value.d > 0,
    ;
    assert(abs(large.n) * large_value.d == abs(large_value.n) * large.d) by (nonlinear_arith)
        requires
            large.n * large_value.d == large_value.n * large.d,
            large.d > 0,
            large_value.d > 0,
    ;
    let p = small_value.d * large_value.d;
    assert(p > 0) by (nonlinear_arith)
        requires
            p == small_value.d * large_value.d,
            small_value.d > 0,
            large_value.d > 0,
    ;
    assert((abs(small.n) * large.d) * p == (abs(small_value.n) * large_value.d) * (small.d * large.d)) by (
    nonlinear_arith)
        requires
            abs(small.n) * small_value.d == abs(small_value.n) * small.d,
            p == small_value.d * large_value.d,
    ;
    assert((abs(large.n) * small.d) * p == (abs(large_value.n) * small_value.d) * (small.d * large.d)) by (
    nonlinear_arith)
        requires
            abs(large.n) * large_value.d == abs(large_value.n) * large.d,
            p == small_value.d * large_value.d,
    ;
    let q = small.d * large.d;
    assert(q > 0) by (nonlinear_arith)
        requires
            q == small.d * large.d,
            small.d > 0,
            large.d > 0,
    ;
    assert((abs(small.n) * large.d < abs(large.n) * small.d) <==> ((abs(small.n) * large.d) * p < (abs(large.n)
        * small.d) * p)) by (nonlinear_arith)
        requires
            p > 0,
    ;
    assert(((abs(small_value.n) * large_value.d) * q < (abs(large_value.n) * small_value.d) * q) <==> (abs(
        small_value.n) * large_value.d < abs(large_value.n) * small_value.d)) by (nonlinear_arith)
        requires
            q > 0,
    ;
}

/// `a[0] * b[1] - b[0] * a[1]`, exactly.
fn minor_of(a: [Rational; 2], b: [Rational; 2], Ghost(fa): Ghost<(Frac, Frac)>, Ghost(fb): Ghost<(Frac, Frac)>) -> (
    minor: Rational)
    requires
        a[0].wf(),
        a[1].wf(),
        b[0].wf(),
        b[1].wf(),
        fa == (a[0]@, a[1]@),
        fb == (b[0]@, b[1]@),
        mul_fits(fa.0, fb.1),
        mul_fits(fb.0, fa.1),
        add_fits(frac_mul(fa.0, fb.1), frac_mul(fb.0, fa.1)),
    ensures
        minor.wf(),
        same_value(minor@, frac_sub(frac_mul(fa.0, fb.1), frac_mul(fb.0, fa.1))),
        frac_sub(frac_mul(fa.0, fb.1), frac_mul(fb.0, fa.1)).d > 0,
{
    let left = mul_exact(a[0], b[1], Ghost(fa.0), Ghost(fb.1));
    let right = mul_exact(b[0], a[1], Ghost(fb.0), Ghost(fa.1));
    sub_exact(left, right, Ghost(frac_mul(fa.0, fb.1)), Ghost(frac_mul(fb.0, fa.1)))
}

impl WarpCoefficients {
    fn columns(&self) -> (columns: [[Rational; 2]; 3])
        requires
            self.wf(),
        ensures
            forall|variable: int|
                0 <= variable < 3 ==> (#[trigger] columns[variable])[0].wf() && columns[variable][1].wf() && (
                columns[variable][0]@, columns[variable][1]@) == self.column(variable),
    {
        let columns = [
            [self.screen[0][0], self.screen[1][0]],
            [self.screen[0][1], self.screen[1][1]],
            [self.parallax[0], self.parallax[1]],
        ];
        proof {
            assert(self.screen[0][0].wf() && self.screen[1][0].wf() && self.screen[0][1].wf() && self.screen[1][1].wf());
        }
        columns
    }

    /// Solves the camera-only part of the inverse-line system once: picks
    /// the pivot pair of variables whose projected 2x2 minor is largest in
    /// magnitude (the earlier candidate on ties, none when every minor is
    /// zero) and factors the offsets and slopes of the line.
    pub fn prepare_inverse(&self) -> (prepared: Option<PreparedInverse>)
        requires
            self.wf(),
            self.prepare_fits(),
        ensures
            match self.best_candidate(3) {
                None => prepared is None,
                Some(index) => prepared matches Some(p) && prepared_matches(*self, p, index),
            },
    {
        let columns = self.columns();
        match self.best_pivot(&columns) {
            None => None,
            Some((chosen, determinant)) => Some(self.factor(&columns, chosen, determinant)),
        }
    }

    /// The pivot `prepare_inverse` picks, with its minor.
    fn best_pivot(&self, columns: &[[Rational; 2]; 3]) -> (best: Option<(usize, Rational)>)
        requires
            self.wf(),
            self.minors_fit(),
            forall|variable: int|
                0 <= variable < 3 ==> (#[trigger] columns[variable])[0].wf() && columns[variable][1].wf() && (
                columns[variable][0]@, columns[variable][1]@) == self.column(variable),
        ensures
            match self.best_candidate(3) {
                None => best is None,
                Some(index) => best matches Some((chosen, determinant)) && chosen == index && chosen < 3
                    && determinant.wf() && ({
                    let (first, second, free) = candidate(index);
                    &&& same_value(determinant@, self.minor(first, second))
                    &&& self.minor(first, second).d > 0
                    &&& self.minor(first, second).n != 0
                }),
            },
    {
        let columns = self.columns();
        let zero = Rational::from_integer(0);
        let mut best: Option<(usize, Rational, Rational)> = None;
        let mut index: usize = 0;
        while index < 3
            invariant
                self.wf(),
                self.minors_fit(),
                index <= 3,
                forall|variable: int|
                    0 <= variable < 3 ==> (#[trigger] columns[variable])[0].wf() && columns[variable][1].wf() && (
                    columns[variable][0]@, columns[variable][1]@) == self.column(variable),
                match best {
                    None => self.best_candidate(index as int) is None,
                    Some((chosen, determinant, magnitude)) => {
                        let (first, second, free) = candidate(chosen as int);
                        &&& self.best_candidate(index as int) == Some(chosen as int)
                        &&& chosen < 3
                        &&& determinant.wf()
                        &&& magnitude.wf()
                        &&& same_value(determinant@, self.minor(first, second))
                        &&& self.minor(first, second).d > 0
                        &&& self.minor(first, second).n != 0
                        &&& magnitude@.n == abs(determinant@.n)
                        &&& magnitude@.d == determinant@.d
                    },
                },
            decreases 3 - index,
        {
            let (first, second): (usize, usize) = if index == 0 {
                (0, 1)
            } else if index == 1 {
                (0, 2)
            } else {
                (1, 2)
            };
            proof {
                assert(candidate(index as int) matches (f, s, _) && f == first && s == second);
                assert(self.minor_fits(first as int, second as int));
            }
            let determinant = minor_of(
                columns[first],
                columns[second],
                Ghost(self.column(first as int)),
                Ghost(self.column(second as int)),
            );
            let ghost minor = self.minor(first as int, second as int);
            if !determinant.is_zero() {
                proof {
                    lemma_lowest_terms(determinant@, minor);
                    assert(minor.n != 0) by (nonlinear_arith)
                        requires
                            determinant@.n * minor.d == minor.n * determinant@.d,
                            determinant@.n != 0,
                            minor.d > 0,
                            determinant@.d > 0,
                    ;
                }
                let magnitude = abs_ratio(determinant);
                match best {
                    None => {
                        best = Some((index, determinant, magnitude));
                    },
                    Some((chosen, best_determinant, best_magnitude)) => {
                        proof {
                            let (bf, bs, bfree) = candidate(chosen as int);
                            lemma_magnitude_order(best_determinant@, self.minor(bf, bs), determinant@, minor);
                        }
                        if ratio_less_than(best_magnitude, magnitude) {
                            best = Some((index, determinant, magnitude));
                        }
                    },
                }
            } else {
                proof {
                    assert(minor.n == 0) by (nonlinear_arith)
                        requires
                            determinant@.n * minor.d == minor.n * determinant@.d,
                            determinant@.n == 0,
                            determinant@.d > 0,
                    ;
                }
            }
            index += 1;
        }
        match best {
            None => None,
            Some((chosen, determinant, _)) => Some((chosen, determinant)),
        }
    }

    fn factor(&self, columns: &[[Rational; 2]; 3], chosen: usize, determinant: Rational) -> (prepared: PreparedInverse)
        requires
            self.wf(),
            chosen < 3,
            ({
                let (first, second, free) = candidate(chosen as int);
                self.pivot_fits(first, second, free)
            }),
            forall|variable: int|
                0 <= variable < 3 ==> (#[trigger] columns[variable])[0].wf() && columns[variable][1].wf() && (
                columns[variable][0]@, columns[variable][1]@) == self.column(variable),
            determinant.wf(),
            ({
                let (first, second, free) = candidate(chosen as int);
                &&& same_value(determinant@, self.minor(first, second))
                &&& self.minor(first, second).d > 0
                &&& self.minor(first, second).n != 0
            }),
        ensures
            prepared_matches(*self, prepared, chosen as int),
    {
        let (first, second, free): (usize, usize, usize) = if chosen == 0 {
            (0, 1, 2)
        } else if chosen == 1 {
            (0, 2, 1)
        } else {
            (1, 2, 0)
        };
        let ghost (f, s, fr) = (first as int, second as int, free as int);
        let ghost det = self.minor(f, s);
        proof {
            assert(candidate(chosen as int) == (f, s, fr));
            assert(self.pivot_fits(f, s, fr));
        }
        let s0 = self.screen[0][2];
        let s1 = self.screen[1][2];
        proof {
            assert(self.screen[0][2].wf() && self.screen[1][2].wf());
        }
        let ghost (gs0, gs1) = (s0@, s1@);
        let cf = columns[first];
        let cs = columns[second];
        let cfr = columns[free];
        let ghost (gf0, gf1) = self.column(f);
        let ghost (gs_0, gs_1) = self.column(s);
        let ghost (gr0, gr1) = self.column(fr);

        // first_offset
        let a = mul_exact(cs[0], s1, Ghost(gs_0), Ghost(gs1));
        let b = mul_exact(s0, cs[1], Ghost(gs0), Ghost(gs_1));
        let n = sub_exact(a, b, Ghost(frac_mul(gs_0, gs1)), Ghost(frac_mul(gs0, gs_1)));
        let fo0 = div_exact(n, determinant, Ghost(frac_sub(frac_mul(gs_0, gs1), frac_mul(gs0, gs_1))), Ghost(det));
        let fo1 = div_exact(cs[1], determinant, Ghost(gs_1), Ghost(det));
        let neg_cs0 = neg_exact(cs[0], Ghost(gs_0));
        let fo2 = div_exact(neg_cs0, determinant, Ghost(frac_neg(gs_0)), Ghost(det));

        // second_offset
        let a = mul_exact(s0, cf[1], Ghost(gs0), Ghost(gf1));
        let b = mul_exact(cf[0], s1, Ghost(gf0), Ghost(gs1));
        let n = sub_exact(a, b, Ghost(frac_mul(gs0, gf1)), Ghost(frac_mul(gf0, gs1)));
        let so0 = div_exact(n, determinant, Ghost(frac_sub(frac_mul(gs0, gf1), frac_mul(gf0, gs1))), Ghost(det));
        let neg_cf1 = neg_exact(cf[1], Ghost(gf1));
        let so1 = div_exact(neg_cf1, determinant, Ghost(frac_neg(gf1)), Ghost(det));
        let so2 = div_exact(cf[0], determinant, Ghost(gf0), Ghost(det));

        // slopes
        let neg_r0 = neg_exact(cfr[0], Ghost(gr0));
        let a = mul_exact(neg_r0, cs[1], Ghost(frac_neg(gr0)), Ghost(gs_1));
        let b = mul_exact(cs[0], cfr[1], Ghost(gs_0), Ghost(gr1));
        let n = add_exact(a, b, Ghost(frac_mul(frac_neg(gr0), gs_1)), Ghost(frac_mul(gs_0, gr1)));
        let first_slope = div_exact(
            n,
            determinant,
            Ghost(frac_add(frac_mul(frac_neg(gr0), gs_1), frac_mul(gs_0, gr1))),
            Ghost(det),
        );
        let neg_f0 = neg_exact(cf[0], Ghost(gf0));
        let a = mul_exact(neg_f0, cfr[1], Ghost(frac_neg(gf0)), Ghost(gr1));
        let b = mul_exact(cfr[0], cf[1], Ghost(gr0), Ghost(gf1));
        let n = add_exact(a, b, Ghost(frac_mul(frac_neg(gf0), gr1)), Ghost(frac_mul(gr0, gf1)));
        let second_slope = div_exact(
            n,
            determinant,
            Ghost(frac_add(frac_mul(frac_neg(gf0), gr1), frac_mul(gr0, gf1))),
            Ghost(det),
        );

        let mut slopes = [Rational::from_integer(0); 3];
        slopes[free] = Rational::from_integer(1);
        slopes[first] = first_slope;
        slopes[second] = second_slope;
        let ghost slope = |variable: int| self.slope_formula(f, s, fr, variable);
        proof {
            assert(forall|v: int| 0 <= v < 3 ==> (#[trigger] slopes[v]).wf() && same_value(slopes[v]@, slope(v)) && slope(v).d > 0);
            assert(self.depth_plane[0].wf() && self.depth_plane[1].wf() && self.depth_plane[2].wf());
        }
        let (d0, d1, d2) = (self.depth_plane[0], self.depth_plane[1], self.depth_plane[2]);
        let a = mul_exact(d0, slopes[0], Ghost(d0@), Ghost(slope(0)));
        let b = mul_exact(d1, slopes[1], Ghost(d1@), Ghost(slope(1)));
        let partial = add_exact(a, b, Ghost(frac_mul(d0@, slope(0))), Ghost(frac_mul(d1@, slope(1))));
        let c = mul_exact(self.depth_relief, slopes[2], Ghost(self.depth_relief@), Ghost(slope(2)));
        let depth_slope = add_exact(
            partial,
            c,
            Ghost(frac_add(frac_mul(d0@, slope(0)), frac_mul(d1@, slope(1)))),
            Ghost(frac_mul(self.depth_relief@, slope(2))),
        );
        let prepared = PreparedInverse {
            first,
            second,
            free,
            first_offset: [fo0, fo1, fo2],
            second_offset: [so0, so1, so2],
            first_slope,
            second_slope,
            depth_plane: self.depth_plane,
            depth_relief: self.depth_relief,
            depth_slope,
        };
        proof {
            assert(prepared.wf());
        }
        prepared
    }
}

// ---------------------------------------------------------------------------
// The per-frame inverse line.
// ---------------------------------------------------------------------------

/// `a + b` of values in lowest terms, itself in lowest terms.
fn add_lowest(a: Rational, b: Rational) -> (sum: Rational)
    requires
        a.wf(),
        b.wf(),
        add_fits(a@, b@),
    ensures
        sum.wf(),
        sum@ == lowest(frac_add(a@, b@)),
        same_value(sum@, frac_add(a@, b@)),
        frac_add(a@, b@).d > 0,
{
    let sum = add_exact(a, b, Ghost(a@), Ghost(b@));
    proof {
        lemma_lowest(sum@, frac_add(a@, b@));
    }
    sum
}

/// `a * b` of values in lowest terms, itself in lowest terms.
fn mul_lowest(a: Rational, b: Rational) -> (product: Rational)
    requires
        a.wf(),
        b.wf(),
        mul_fits(a@, b@),
    ensures
        product.wf(),
        product@ == lowest(frac_mul(a@, b@)),
        same_value(product@, frac_mul(a@, b@)),
        frac_mul(a@, b@).d > 0,
{
    let product = mul_exact(a, b, Ghost(a@), Ghost(b@));
    proof {
        lemma_lowest(product@, frac_mul(a@, b@));
    }
    product
}

/// The affine value `base + dx * u + dy * v`.
pub open spec fn affine(base: Frac, dx: Frac, dy: Frac, u: Frac, v: Frac) -> Frac {
    frac_add(frac_add(base, frac_mul(dx, u)), frac_mul(dy, v))
}

/// Every step of `base + dx * u + dy * v`, each taken on values in lowest
/// terms, fits `i64`.
pub open spec fn affine_fits(base: Frac, dx: Frac, dy: Frac, u: Frac, v: Frac) -> bool {
    let first = lowest(frac_mul(dx, u));
    let partial = lowest(frac_add(base, first));
    let second = lowest(frac_mul(dy, v));
    &&& mul_fits(dx, u)
    &&& add_fits(base, first)
    &&& mul_fits(dy, v)
    &&& add_fits(partial, second)
}

fn affine_value(base: Rational, dx: Rational, dy: Rational, u: Rational, v: Rational) -> (value: Rational)
    requires
        base.wf(),
        dx.wf(),
        dy.wf(),
        u.wf(),
        v.wf(),
        affine_fits(base@, dx@, dy@, u@, v@),
    ensures
        value.wf(),
        same_value(value@, affine(base@, dx@, dy@, u@, v@)),
        affine(base@, dx@, dy@, u@, v@).d > 0,
{
    let first = mul_lowest(dx, u);
    let partial = add_lowest(base, first);
    let second = mul_lowest(dy, v);
    let value = add_lowest(partial, second);
    proof {
        lemma_congruent(base@, base@, first@, frac_mul(dx@, u@));
        lemma_same_value_transitive(partial@, frac_add(base@, first@), frac_add(base@, frac_mul(dx@, u@)));
        lemma_congruent(partial@, frac_add(base@, frac_mul(dx@, u@)), second@, frac_mul(dy@, v@));
        lemma_same_value_transitive(value@, frac_add(partial@, second@), affine(base@, dx@, dy@, u@, v@));
    }
    value
}

/// The camera depth `(plane.0 * v0 + plane.1 * v1 + plane.2) + relief * v2`
/// at source x `v0`, source y `v1` and relief `v2`.
pub open spec fn depth_value(plane: (Frac, Frac, Frac), relief: Frac, v0: Frac, v1: Frac, v2: Frac) -> Frac {
    frac_add(frac_add(frac_add(frac_mul(plane.0, v0), frac_mul(plane.1, v1)), plane.2), frac_mul(relief, v2))
}

/// Every step of the camera depth, each taken on values in lowest terms,
/// fits `i64`.
pub open spec fn depth_fits(plane: (Frac, Frac, Frac), relief: Frac, v0: Frac, v1: Frac, v2: Frac) -> bool {
    let a = lowest(frac_mul(plane.0, v0));
    let b = lowest(frac_mul(plane.1, v1));
    let ab = lowest(frac_add(a, b));
    let with_constant = lowest(frac_add(ab, plane.2));
    let c = lowest(frac_mul(relief, v2));
    &&& mul_fits(plane.0, v0)
    &&& mul_fits(plane.1, v1)
    &&& add_fits(a, b)
    &&& add_fits(ab, plane.2)
    &&& mul_fits(relief, v2)
    &&& add_fits(with_constant, c)
}

fn depth_of_values(plane: [Rational; 3], relief: Rational, v0: Rational, v1: Rational, v2: Rational) -> (depth:
    Rational)
    requires
        plane[0].wf(),
        plane[1].wf(),
        plane[2].wf(),
        relief.wf(),
        v0.wf(),
        v1.wf(),
        v2.wf(),
        depth_fits((plane[0]@, plane[1]@, plane[2]@), relief@, v0@, v1@, v2@),
    ensures
        depth.wf(),
        same_value(depth@, depth_value((plane[0]@, plane[1]@, plane[2]@), relief@, v0@, v1@, v2@)),
        depth_value((plane[0]@, plane[1]@, plane[2]@), relief@, v0@, v1@, v2@).d > 0,
{
    let ghost (p0, p1, p2) = (plane[0]@, plane[1]@, plane[2]@);
    let a = mul_lowest(plane[0], v0);
    let b = mul_lowest(plane[1], v1);
    let ab = add_lowest(a, b);
    let with_constant = add_lowest(ab, plane[2]);
    let c = mul_lowest(relief, v2);
    let depth = add_lowest(with_constant, c);
    proof {
        let fa = frac_mul(p0, v0@);
        let fb = frac_mul(p1, v1@);
        let fc = frac_mul(relief@, v2@);
        lemma_congruent(a@, fa, b@, fb);
        lemma_same_value_transitive(ab@, frac_add(a@, b@), frac_add(fa, fb));
        lemma_congruent(ab@, frac_add(fa, fb), p2, p2);
        lemma_same_value_transitive(with_constant@, frac_add(ab@, p2), frac_add(frac_add(fa, fb), p2));
        lemma_congruent(with_constant@, frac_add(frac_add(fa, fb), p2), c@, fc);
        lemma_same_value_transitive(
            depth@,
            frac_add(with_constant@, c@),
            depth_value((p0, p1, p2), relief@, v0@, v1@, v2@),
        );
    }
    depth
}

impl PreparedInverse {
    /// The offset `[base, d/dscreen_x, d/dscreen_y]` of variable `variable`
    /// along the inverse line: zero for the free variable.
    pub open spec fn offset_of(&self, variable: int) -> (Frac, Frac, Frac) {
        let (first, second, free) = self.pivot();
        if variable == first {
            self.first_offset_of()
        } else if variable == second {
            self.second_offset_of()
        } else {
            (frac_int(0), frac_int(0), frac_int(0))
        }
    }

    /// The slope of variable `variable` along the inverse line: one for the
    /// free variable.
    pub open spec fn slope_of(&self, variable: int) -> Frac {
        let (first, second, free) = self.pivot();
        if variable == first {
            self.slopes_of().0
        } else if variable == second {
            self.slopes_of().1
        } else {
            frac_int(1)
        }
    }

    /// The common denominator of the offset of `variable` as a function of
    /// the pixel: the least common multiple of the lowest-terms denominators
    /// of its value at pixel `(0, 0)` and of its two per-pixel steps.
    pub open spec fn pixel_denominator(&self, variable: int, sx0: Frac, sy0: Frac) -> nat {
        let offset = self.offset_of(variable);
        let constant = lowest(affine(offset.0, offset.1, offset.2, sx0, sy0));
        lcm(lcm(constant.d as nat, lowest(offset.1).d as nat), lowest(offset.2).d as nat)
    }

    /// The integer numerator of that offset at pixel `(x, y)` over the
    /// common denominator.
    pub open spec fn pixel_numerator(&self, variable: int, sx0: Frac, sy0: Frac, x: int, y: int) -> int {
        let offset = self.offset_of(variable);
        let d = self.pixel_denominator(variable, sx0, sy0) as int;
        let constant = lowest(affine(offset.0, offset.1, offset.2, sx0, sy0));
        let (step_x, step_y) = (lowest(offset.1), lowest(offset.2));
        constant.n * (d / constant.d) + step_x.n * (d / step_x.d) * x + step_y.n * (d / step_y.d) * y
    }

    /// Each solved variable's common denominator, and its numerators at the
    /// four corner pixels of the `width` by `height` frame, are at most
    /// 2^53 in magnitude: every offset in the frame then converts to `f64`
    /// exactly.
    pub open spec fn frame_certified(&self, sx0: Frac, sy0: Frac, width: int, height: int) -> bool {
        let last_x = if width > 0 {
            width - 1
        } else {
            0
        };
        let last_y = if height > 0 {
            height - 1
        } else {
            0
        };
        forall|variable: int|
            0 <= variable < 3 && variable != self.pivot().2 ==> {
                &&& #[trigger] self.pixel_denominator(variable, sx0, sy0) <= MAX_F64_EXACT_INT
                &&& forall|x: int, y: int|
                    (x == 0 || x == last_x) && (y == 0 || y == last_y) ==> abs(
                        #[trigger] self.pixel_numerator(variable, sx0, sy0, x, y),
                    ) <= MAX_F64_EXACT_INT
            }
    }

    /// Placing the solved offsets at the frame origin `(sx0, sy0)` stays in
    /// `i64` at every step.
    pub open spec fn frame_fits(&self, sx0: Frac, sy0: Frac) -> bool {
        forall|variable: int|
            0 <= variable < 3 && variable != self.pivot().2 ==> {
                let offset = #[trigger] self.offset_of(variable);
                affine_fits(offset.0, offset.1, offset.2, sx0, sy0)
            }
    }

    /// Fixes the frame screen origin: pixel column `x` and row `y` are at
    /// `screen_x = x + sx0`, `screen_y = y + sy0`. The offsets of the solved
    /// variables become affine in the pixel position, with their value at
    /// pixel `(0, 0)` computed once here. The frame of `width` by `height`
    /// pixels must be certified: over it, every offset converts to `f64`
    /// exactly.
    pub fn inverse_frame(&self, sx0: Rational, sy0: Rational, width: u32, height: u32) -> (frame: FrameInverse)
        requires
            self.wf(),
            sx0.wf(),
            sy0.wf(),
            self.frame_fits(sx0@, sy0@),
            self.frame_certified(sx0@, sy0@, width as int, height as int),
        ensures
            frame.wf(),
            frames(*self, sx0@, sy0@, frame),
    {
        let zero = Rational::from_integer(0);
        let one = Rational::from_integer(1);
        let mut var_offset = [[zero, zero, zero]; 3];
        let mut var_slope = [zero; 3];
        var_slope[self.free] = one;
        var_slope[self.first] = self.first_slope;
        var_slope[self.second] = self.second_slope;
        proof {
            assert(self.first_offset[0].wf() && self.first_offset[1].wf() && self.first_offset[2].wf());
            assert(self.second_offset[0].wf() && self.second_offset[1].wf() && self.second_offset[2].wf());
            assert(self.offset_of(self.first as int) == self.first_offset_of());
            assert(self.offset_of(self.second as int) == self.second_offset_of());
        }
        let first_constant = affine_value(
            self.first_offset[0],
            self.first_offset[1],
            self.first_offset[2],
            sx0,
            sy0,
        );
        let second_constant = affine_value(
            self.second_offset[0],
            self.second_offset[1],
            self.second_offset[2],
            sx0,
            sy0,
        );
        var_offset[self.first] = [first_constant, self.first_offset[1], self.first_offset[2]];
        var_offset[self.second] = [second_constant, self.second_offset[1], self.second_offset[2]];
        let frame = FrameInverse {
            var_offset,
            var_slope,
            depth_plane: self.depth_plane,
            depth_relief: self.depth_relief,
            depth_slope: self.depth_slope,
        };
        proof {
            assert forall|variable: int| 0 <= variable < 3 implies {
                let offset = #[trigger] self.offset_of(variable);
                &&& same_value(frame.offset_at(variable).0, affine(offset.0, offset.1, offset.2, sx0@, sy0@))
                &&& frame.offset_at(variable).1 == offset.1
                &&& frame.offset_at(variable).2 == offset.2
                &&& frame.slope_at(variable) == self.slope_of(variable)
            } by {
                if variable == self.first as int {
                    assert(frame.var_offset[variable][0] == first_constant);
                } else if variable == self.second as int {
                    assert(frame.var_offset[variable][0] == second_constant);
                } else {
                    assert(variable == self.free as int);
                    assert(frame.var_offset[variable] == [zero, zero, zero]);
                    let offset = self.offset_of(variable);
                    assert(offset == (frac_int(0), frac_int(0), frac_int(0)));
                    let inner = frac_add(frac_int(0), frac_mul(frac_int(0), sx0@));
                    assert(frac_mul(frac_int(0), sx0@).n == 0 * sx0@.n);
                    assert(inner.n == 0 * frac_mul(frac_int(0), sx0@).d + 0 * sx0@.n * 1);
                    assert(inner.n == 0) by (nonlinear_arith)
                        requires
                            inner.n == 0 * frac_mul(frac_int(0), sx0@).d + 0 * sx0@.n * 1,
                    ;
                    let whole = frac_add(inner, frac_mul(frac_int(0), sy0@));
                    assert(whole.n == inner.n * frac_mul(frac_int(0), sy0@).d + (0 * sy0@.n) * inner.d);
                    assert(whole.n == 0) by (nonlinear_arith)
                        requires
                            whole.n == inner.n * frac_mul(frac_int(0), sy0@).d + (0 * sy0@.n) * inner.d,
                            inner.n == 0,
                    ;
                    assert(affine(offset.0, offset.1, offset.2, sx0@, sy0@) == whole);
                }
            }
            assert(frame.wf());
        }
        frame
    }
}

/// `frame` fixes `prepared` at the frame origin `(sx0, sy0)`: each offset's
/// value at pixel `(0, 0)` is the prepared offset at the origin, its steps
/// per pixel are the prepared screen derivatives, and slopes and depth are
/// carried over.
pub open spec fn frames(prepared: PreparedInverse, sx0: Frac, sy0: Frac, frame: FrameInverse) -> bool {
    &&& forall|variable: int|
        0 <= variable < 3 ==> {
            let offset = #[trigger] prepared.offset_of(variable);
            &&& same_value(frame.offset_at(variable).0, affine(offset.0, offset.1, offset.2, sx0, sy0))
            &&& frame.offset_at(variable).1 == offset.1
            &&& frame.offset_at(variable).2 == offset.2
            &&& frame.slope_at(variable) == prepared.slope_of(variable)
        }
    &&& frame.depth_of() == prepared.depth_of()
}

/// The inverse line of one warp in one frame: at each pixel, source x,
/// source y and relief are affine in the line parameter, with offsets
/// affine in the pixel position.
#[derive(Clone, Copy, Debug, PartialEq, Eq)]
pub struct FrameInverse {
    /// Per variable: `[value at pixel (0, 0), per pixel column, per pixel row]`.
    var_offset: [[Rational; 3]; 3],
    var_slope: [Rational; 3],
    depth_plane: [Rational; 3],
    depth_relief: Rational,
    depth_slope: Rational,
}

impl FrameInverse {
    /// The offset of variable `variable`: its value at pixel `(0, 0)` and its
    /// steps per pixel column and row.
    pub closed spec fn offset_at(&self, variable: int) -> (Frac, Frac, Frac) {
        (self.var_offset[variable][0]@, self.var_offset[variable][1]@, self.var_offset[variable][2]@)
    }

    pub closed spec fn slope_at(&self, variable: int) -> Frac {
        self.var_slope[variable]@
    }

    /// The depth plane, depth relief coefficient and depth slope.
    pub closed spec fn depth_of(&self) -> ((Frac, Frac, Frac), Frac, Frac) {
        (
            (self.depth_plane[0]@, self.depth_plane[1]@, self.depth_plane[2]@),
            self.depth_relief@,
            self.depth_slope@,
        )
    }

    pub closed spec fn wf(&self) -> bool {
        &&& forall|variable: int, k: int|
            0 <= variable < 3 && 0 <= k < 3 ==> (#[trigger] self.var_offset[variable][k]).wf()
        &&& forall|variable: int| 0 <= variable < 3 ==> (#[trigger] self.var_slope[variable]).wf()
        &&& forall|k: int| 0 <= k < 3 ==> (#[trigger] self.depth_plane[k]).wf()
        &&& self.depth_relief.wf()
        &&& self.depth_slope.wf()
    }

    /// The exact offset of variable `variable` at pixel `(x, y)`.
    pub open spec fn offset_value(&self, variable: int, x: int, y: int) -> Frac {
        let offset = self.offset_at(variable);
        affine(offset.0, offset.1, offset.2, frac_int(x), frac_int(y))
    }

    /// Evaluating every offset at pixel `(x, y)` stays in `i64` at every step.
    pub open spec fn pixel_fits(&self, x: int, y: int) -> bool {
        forall|variable: int|
            0 <= variable < 3 ==> {
                let offset = #[trigger] self.offset_at(variable);
                affine_fits(offset.0, offset.1, offset.2, frac_int(x), frac_int(y))
            }
    }

    /// Evaluating the camera depth at pixel `(x, y)` stays in `i64` at every
    /// step.
    pub open spec fn depth_fits_at(&self, x: int, y: int) -> bool {
        let (plane, relief, slope) = self.depth_of();
        depth_fits(
            plane,
            relief,
            lowest(self.offset_value(0, x, y)),
            lowest(self.offset_value(1, x, y)),
            lowest(self.offset_value(2, x, y)),
        )
    }

    /// The exact camera depth at pixel `(x, y)` where the line meets parameter zero.
    pub open spec fn depth_offset_value(&self, x: int, y: int) -> Frac {
        let (plane, relief, slope) = self.depth_of();
        depth_value(plane, relief, self.offset_value(0, x, y), self.offset_value(1, x, y), self.offset_value(2, x, y))
    }

    /// Exact `[offset, slope]` of source x, source y and relief at pixel
    /// `(x, y)`, in lowest terms: along the inverse line each is
    /// `offset + slope * parameter`.
    pub fn variable_coefficients_exact(&self, x: u32, y: u32) -> (variables: [[Rational; 2]; 3])
        requires
            self.wf(),
            self.pixel_fits(x as int, y as int),
        ensures
            forall|variable: int|
                0 <= variable < 3 ==> {
                    &&& (#[trigger] variables[variable])[0].wf()
                    &&& variables[variable][1].wf()
                    &&& same_value(variables[variable][0]@, self.offset_value(variable, x as int, y as int))
                    &&& self.offset_value(variable, x as int, y as int).d > 0
                    &&& variables[variable][1]@ == self.slope_at(variable)
                },
    {
        let column = Rational::from_integer(x as i64);
        let row = Rational::from_integer(y as i64);
        let mut variables = [[Rational::from_integer(0); 2]; 3];
        let mut variable: usize = 0;
        while variable < 3
            invariant
                self.wf(),
                self.pixel_fits(x as int, y as int),
                column.wf() && column@ == frac_int(x as int),
                row.wf() && row@ == frac_int(y as int),
                variable <= 3,
                forall|done: int|
                    0 <= done < variable ==> {
                        &&& (#[trigger] variables[done])[0].wf()
                        &&& variables[done][1].wf()
                        &&& same_value(variables[done][0]@, self.offset_value(done, x as int, y as int))
                        &&& self.offset_value(done, x as int, y as int).d > 0
                        &&& variables[done][1]@ == self.slope_at(done)
                    },
            decreases 3 - variable,
        {
            let offset = self.var_offset[variable];
            proof {
                assert(self.offset_at(variable as int) == (offset[0]@, offset[1]@, offset[2]@));
                assert(offset[0].wf() && offset[1].wf() && offset[2].wf());
                assert(self.var_slope[variable as int].wf());
            }
            let value = affine_value(offset[0], offset[1], offset[2], column, row);
            variables[variable] = [value, self.var_slope[variable]];
            variable += 1;
        }
        variables
    }

    /// Exact `[constant, slope]` of the camera depth at pixel `(x, y)`: along
    /// the inverse line the depth is `constant + slope * parameter`.
    pub fn depth_coefficients_exact(&self, x: u32, y: u32) -> (depth: [Rational; 2])
        requires
            self.wf(),
            self.pixel_fits(x as int, y as int),
            self.depth_fits_at(x as int, y as int),
        ensures
            depth[0].wf(),
            depth[1].wf(),
            same_value(depth[0]@, self.depth_offset_value(x as int, y as int)),
            self.depth_offset_value(x as int, y as int).d > 0,
            depth[1]@ == self.depth_of().2,
    {
        let offset = self.depth_offset(x, y);
        [offset, self.depth_slope]
    }

    fn depth_offset(&self, x: u32, y: u32) -> (offset: Rational)
        requires
            self.wf(),
            self.pixel_fits(x as int, y as int),
            self.depth_fits_at(x as int, y as int),
        ensures
            offset.wf(),
            same_value(offset@, self.depth_offset_value(x as int, y as int)),
            self.depth_offset_value(x as int, y as int).d > 0,
    {
        let variables = self.variable_coefficients_exact(x, y);
        let ghost values = |variable: int| self.offset_value(variable, x as int, y as int);
        proof {
            assert(variables[0][0].wf() && variables[1][0].wf() && variables[2][0].wf());
            lemma_lowest(variables[0][0]@, values(0));
            lemma_lowest(variables[1][0]@, values(1));
            lemma_lowest(variables[2][0]@, values(2));
            assert(self.depth_plane[0].wf() && self.depth_plane[1].wf() && self.depth_plane[2].wf());
        }
        let offset = depth_of_values(
            self.depth_plane,
            self.depth_relief,
            variables[0][0],
            variables[1][0],
            variables[2][0],
        );
        proof {
            let (plane, relief, slope) = self.depth_of();
            lemma_depth_congruent(
                plane,
                relief,
                variables[0][0]@,
                values(0),
                variables[1][0]@,
                values(1),
                variables[2][0]@,
                values(2),
            );
            lemma_same_value_transitive(
                offset@,
                depth_value(plane, relief, variables[0][0]@, variables[1][0]@, variables[2][0]@),
                self.depth_offset_value(x as int, y as int),
            );
        }
        offset
    }

    /// Whether evaluating the camera depth at `parameter` along the line at
    /// pixel `(x, y)` stays in `i64` at every step.
    pub open spec fn depth_at_fits(&self, x: int, y: int, parameter: Frac) -> bool {
        let (plane, relief, slope) = self.depth_of();
        let constant = lowest(self.depth_offset_value(x, y));
        let moved = lowest(frac_mul(slope, parameter));
        &&& mul_fits(slope, parameter)
        &&& add_fits(constant, moved)
    }

    /// The exact camera depth `constant + slope * parameter` at pixel `(x, y)`.
    pub fn depth_at(&self, x: u32, y: u32, parameter: Rational) -> (depth: Rational)
        requires
            self.wf(),
            parameter.wf(),
            self.pixel_fits(x as int, y as int),
            self.depth_fits_at(x as int, y as int),
            self.depth_at_fits(x as int, y as int, parameter@),
        ensures
            depth.wf(),
            same_value(
                depth@,
                frac_add(self.depth_offset_value(x as int, y as int), frac_mul(self.depth_of().2, parameter@)),
            ),
            frac_add(self.depth_offset_value(x as int, y as int), frac_mul(self.depth_of().2, parameter@)).d > 0,
    {
        let constant = self.depth_offset(x, y);
        proof {
            lemma_lowest(constant@, self.depth_offset_value(x as int, y as int));
        }
        let moved = mul_lowest(self.depth_slope, parameter);
        let depth = add_lowest(constant, moved);
        proof {
            let exact = self.depth_offset_value(x as int, y as int);
            let step = frac_mul(self.depth_of().2, parameter@);
            lemma_congruent(constant@, exact, moved@, step);
            lemma_same_value_transitive(depth@, frac_add(constant@, moved@), frac_add(exact, step));
            lemma_positive(exact, step);
        }
        depth
    }
}

/// The camera depth respects value equality of its inputs.
proof fn lemma_depth_congruent(
    plane: (Frac, Frac, Frac),
    relief: Frac,
    a0: Frac,
    b0: Frac,
    a1: Frac,
    b1: Frac,
    a2: Frac,
    b2: Frac,
)
    requires
        plane.0.d > 0,
        plane.1.d > 0,
        plane.2.d > 0,
        relief.d > 0,
        a0.d > 0,
        b0.d > 0,
        a1.d > 0,
        b1.d > 0,
        a2.d > 0,
        b2.d > 0,
        same_value(a0, b0),
        same_value(a1, b1),
        same_value(a2, b2),
    ensures
        same_value(depth_value(plane, relief, a0, a1, a2), depth_value(plane, relief, b0, b1, b2)),
        depth_value(plane, relief, b0, b1, b2).d > 0,
{
    lemma_congruent(plane.0, plane.0, a0, b0);
    lemma_congruent(plane.1, plane.1, a1, b1);
    lemma_congruent(relief, relief, a2, b2);
    let (m0, n0) = (frac_mul(plane.0, a0), frac_mul(plane.0, b0));
    let (m1, n1) = (frac_mul(plane.1, a1), frac_mul(plane.1, b1));
    let (m2, n2) = (frac_mul(relief, a2), frac_mul(relief, b2));
    assert(m0.d > 0 && n0.d > 0 && m1.d > 0 && n1.d > 0 && m2.d > 0 && n2.d > 0) by (nonlinear_arith)
        requires
            plane.0.d > 0,
            plane.1.d > 0,
            relief.d > 0,
            a0.d > 0,
            b0.d > 0,
            a1.d > 0,
            b1.d > 0,
            a2.d > 0,
            b2.d > 0,
            m0 == frac_mul(plane.0, a0),
            n0 == frac_mul(plane.0, b0),
            m1 == frac_mul(plane.1, a1),
            n1 == frac_mul(plane.1, b1),
            m2 == frac_mul(relief, a2),
            n2 == frac_mul(relief, b2),
    ;
    lemma_congruent(m0, n0, m1, n1);
    lemma_congruent(frac_add(m0, m1), frac_add(n0, n1), plane.2, plane.2);
    lemma_congruent(frac_add(frac_add(m0, m1), plane.2), frac_add(frac_add(n0, n1), plane.2), m2, n2);
}

/// Swapping the last two summands keeps the value.
proof fn lemma_swap_last(a: Frac, b: Frac, c: Frac)
    requires
        a.d > 0,
        b.d > 0,
        c.d > 0,
    ensures
        same_value(frac_add(frac_add(a, b), c), frac_add(frac_add(a, c), b)),
{
    lemma_positive(a, b);
    lemma_positive(b, c);
    lemma_positive(c, b);
    lemma_positive(a, c);
    lemma_positive(a, frac_add(b, c));
    lemma_add_associates(a, b, c);
    lemma_add_commutes(b, c);
    lemma_congruent(a, a, frac_add(b, c), frac_add(c, b));
    lemma_same_value_transitive(frac_add(frac_add(a, b), c), frac_add(a, frac_add(b, c)), frac_add(a, frac_add(c, b)));
    lemma_add_associates(a, c, b);
    lemma_positive(a, frac_add(c, b));
    lemma_same_value_transitive(
        frac_add(frac_add(a, b), c),
        frac_add(a, frac_add(c, b)),
        frac_add(frac_add(a, c), b),
    );
}

/// Re-basing an affine value: evaluating at `(u, v)` first and then stepping
/// by `(x, y)` gives the value at `(u + x, v + y)`.
pub proof fn lemma_affine_rebased(base: Frac, dx: Frac, dy: Frac, u: Frac, v: Frac, x: Frac, y: Frac)
    requires
        base.d > 0,
        dx.d > 0,
        dy.d > 0,
        u.d > 0,
        v.d > 0,
        x.d > 0,
        y.d > 0,
    ensures
        same_value(
            affine(affine(base, dx, dy, u, v), dx, dy, x, y),
            affine(base, dx, dy, frac_add(u, x), frac_add(v, y)),
        ),
{
    let (du, dxx, dv, dyy) = (frac_mul(dx, u), frac_mul(dx, x), frac_mul(dy, v), frac_mul(dy, y));
    lemma_positive(dx, u);
    lemma_positive(dx, x);
    lemma_positive(dy, v);
    lemma_positive(dy, y);
    let a = frac_add(base, du);
    lemma_positive(base, du);
    let c = frac_add(a, dv);
    lemma_positive(a, dv);
    // Left side: ((a + dv) + dxx) + dyy; right side: (base + dx (u + x)) + dy (v + y).
    lemma_positive(c, dxx);
    lemma_positive(frac_add(c, dxx), dyy);
    lemma_swap_last(a, dv, dxx);
    lemma_positive(a, dxx);
    lemma_positive(frac_add(a, dxx), dv);
    lemma_congruent(frac_add(c, dxx), frac_add(frac_add(a, dxx), dv), dyy, dyy);
    lemma_add_associates(frac_add(a, dxx), dv, dyy);
    lemma_positive(dv, dyy);
    lemma_same_value_transitive(
        frac_add(frac_add(c, dxx), dyy),
        frac_add(frac_add(frac_add(a, dxx), dv), dyy),
        frac_add(frac_add(a, dxx), frac_add(dv, dyy)),
    );
    lemma_add_associates(base, du, dxx);
    lemma_positive(du, dxx);
    lemma_positive(base, frac_add(du, dxx));
    lemma_positive(u, x);
    lemma_positive(v, y);
    lemma_positive(dx, frac_add(u, x));
    lemma_positive(dy, frac_add(v, y));
    lemma_distributes(dx, u, x);
    lemma_distributes(dy, v, y);
    lemma_congruent(base, base, frac_add(du, dxx), frac_mul(dx, frac_add(u, x)));
    lemma_same_value_transitive(
        frac_add(a, dxx),
        frac_add(base, frac_add(du, dxx)),
        frac_add(base, frac_mul(dx, frac_add(u, x))),
    );
    lemma_congruent(
        frac_add(a, dxx),
        frac_add(base, frac_mul(dx, frac_add(u, x))),
        frac_add(dv, dyy),
        frac_mul(dy, frac_add(v, y)),
    );
    lemma_positive(frac_add(a, dxx), frac_add(dv, dyy));
    lemma_same_value_transitive(
        frac_add(frac_add(c, dxx), dyy),
        frac_add(frac_add(a, dxx), frac_add(dv, dyy)),
        affine(base, dx, dy, frac_add(u, x), frac_add(v, y)),
    );
}

/// The frame factoring is exact: at every pixel `(x, y)` the offset of each
/// variable is the prepared offset at the pixel's screen position
/// `(x + sx0, y + sy0)`.
pub proof fn lemma_frame_is_exact(
    prepared: PreparedInverse,
    sx0: Frac,
    sy0: Frac,
    frame: FrameInverse,
    variable: int,
    x: int,
    y: int,
)
    requires
        prepared.wf(),
        frame.wf(),
        sx0.d > 0,
        sy0.d > 0,
        frames(prepared, sx0, sy0, frame),
        0 <= variable < 3,
    ensures
        same_value(
            frame.offset_value(variable, x, y),
            affine(
                prepared.offset_of(variable).0,
                prepared.offset_of(variable).1,
                prepared.offset_of(variable).2,
                frac_add(sx0, frac_int(x)),
                frac_add(sy0, frac_int(y)),
            ),
        ),
{
    let offset = prepared.offset_of(variable);
    assert(prepared.first_offset[0].wf() && prepared.first_offset[1].wf() && prepared.first_offset[2].wf());
    assert(prepared.second_offset[0].wf() && prepared.second_offset[1].wf() && prepared.second_offset[2].wf());
    assert(offset.0.d > 0 && offset.1.d > 0 && offset.2.d > 0);
    let at = frame.offset_at(variable);
    assert(frame.var_offset[variable][0].wf() && frame.var_offset[variable][1].wf() && frame.var_offset[variable][2].wf());
    let constant = affine(offset.0, offset.1, offset.2, sx0, sy0);
    lemma_positive(offset.1, sx0);
    lemma_positive(offset.0, frac_mul(offset.1, sx0));
    lemma_positive(offset.2, sy0);
    lemma_positive(frac_add(offset.0, frac_mul(offset.1, sx0)), frac_mul(offset.2, sy0));
    // The frame's value at pixel (0, 0) stands for the constant.
    lemma_positive(offset.1, frac_int(x));
    lemma_positive(offset.2, frac_int(y));
    lemma_congruent(at.0, constant, frac_mul(offset.1, frac_int(x)), frac_mul(offset.1, frac_int(x)));
    lemma_positive(at.0, frac_mul(offset.1, frac_int(x)));
    lemma_positive(constant, frac_mul(offset.1, frac_int(x)));
    lemma_congruent(
        frac_add(at.0, frac_mul(offset.1, frac_int(x))),
        frac_add(constant, frac_mul(offset.1, frac_int(x))),
        frac_mul(offset.2, frac_int(y)),
        frac_mul(offset.2, frac_int(y)),
    );
    lemma_affine_rebased(offset.0, offset.1, offset.2, sx0, sy0, frac_int(x), frac_int(y));
    lemma_positive(frac_add(constant, frac_mul(offset.1, frac_int(x))), frac_mul(offset.2, frac_int(y)));
    lemma_same_value_transitive(
        frame.offset_value(variable, x, y),
        affine(constant, offset.1, offset.2, frac_int(x), frac_int(y)),
        affine(offset.0, offset.1, offset.2, frac_add(sx0, frac_int(x)), frac_add(sy0, frac_int(y))),
    );
}


/// Source x (0), source y (1) or relief (2).
pub open spec fn source_value(variable: int, x: Frac, y: Frac, r: Frac) -> Frac {
    if variable == 0 {
        x
    } else if variable == 1 {
        y
    } else {
        r
    }
}

/// Coefficient `k` of a linear form: of source x, source y, relief, then the constant.
pub open spec fn coefficient(c: Coefficients, k: int) -> Frac {
    if k == 0 {
        c.0
    } else if k == 1 {
        c.1
    } else if k == 2 {
        c.2
    } else {
        c.3
    }
}

impl WarpCoefficients {
    /// Screen axis `row` as a linear form in source x, source y and relief.
    pub open spec fn screen_coefficients(&self, row: int) -> Coefficients {
        (self.screen_row(row).0, self.screen_row(row).1, self.parallax_of(row), self.screen_row(row).2)
    }

    /// Screen axis `row` of the point that source `(x, y)` with relief `r` warps to.
    pub open spec fn screen_value(&self, row: int, x: Frac, y: Frac, r: Frac) -> Frac {
        products_value(warp_terms(self.screen_row(row), self.parallax_of(row), x, y, r))
    }

    /// The inverse line's value of one variable, `offset + slope * t`, as a
    /// linear form in the preimage: the offset is taken at the screen point
    /// of the preimage and `t` is the preimage's free variable.
    pub open spec fn line_coefficients(&self, offset: (Frac, Frac, Frac), slope: Frac, free: int) -> Coefficients {
        sum_coefficients(
            sum_coefficients(
                sum_coefficients(unit(3, offset.0), scaled_coefficients(offset.1, self.screen_coefficients(0))),
                scaled_coefficients(offset.2, self.screen_coefficients(1)),
            ),
            unit(free, slope),
        )
    }

    proof fn lemma_coefficients_positive(&self)
        requires
            self.wf(),
        ensures
            coefficients_positive(self.screen_coefficients(0)),
            coefficients_positive(self.screen_coefficients(1)),
            forall|variable: int|
                0 <= variable < 3 ==> (#[trigger] self.column(variable)).0.d > 0 && self.column(variable).1.d > 0,
    {
        assert(self.screen[0][0].wf() && self.screen[0][1].wf() && self.screen[0][2].wf());
        assert(self.screen[1][0].wf() && self.screen[1][1].wf() && self.screen[1][2].wf());
    }
}

/// The products of one warp output sum to a linear form in the source point.
proof fn lemma_terms_linear(row: (Frac, Frac, Frac), relief_coefficient: Frac, x: Frac, y: Frac, r: Frac)
    requires
        row.0.d > 0,
        row.1.d > 0,
        row.2.d > 0,
        relief_coefficient.d > 0,
        x.d > 0,
        y.d > 0,
        r.d > 0,
    ensures
        eqv(
            products_value(warp_terms(row, relief_coefficient, x, y, r)),
            linear((row.0, row.1, relief_coefficient, row.2), x, y, r),
        ),
{
    let terms = warp_terms(row, relief_coefficient, x, y, r);
    let (xa, yb, one, rp) = (
        frac_mul(x, row.0),
        frac_mul(y, row.1),
        frac_mul(frac_int(1), row.2),
        frac_mul(r, relief_coefficient),
    );
    assert(products_value(terms) == frac_add(
        frac_add(frac_add(frac_add(frac_int(0), xa), yb), one),
        rp,
    )) by {
        reveal_with_fuel(products_value, 5);
        assert(terms.drop_last().drop_last().drop_last().drop_last() =~= Seq::<(Frac, Frac)>::empty());
    }
    lemma_positive(x, row.0);
    lemma_positive(y, row.1);
    lemma_positive(r, relief_coefficient);
    lemma_add_zero(xa);
    lemma_mul_zero_one(row.2);
    lemma_eqv_reflexive(yb);
    lemma_eqv_reflexive(rp);
    lemma_eqv_congruent(frac_add(frac_int(0), xa), xa, yb, yb);
    let sum2 = frac_add(xa, yb);
    lemma_positive(xa, yb);
    lemma_eqv_congruent(frac_add(frac_add(frac_int(0), xa), yb), sum2, one, row.2);
    lemma_eqv_congruent(
        frac_add(frac_add(frac_add(frac_int(0), xa), yb), one),
        frac_add(sum2, row.2),
        rp,
        rp,
    );
    lemma_swap_last(sum2, row.2, rp);
    lemma_positive(sum2, row.2);
    lemma_positive(frac_add(sum2, row.2), rp);
    lemma_positive(sum2, rp);
    lemma_positive(frac_add(sum2, rp), row.2);
    lemma_eqv_transitive(
        products_value(terms),
        frac_add(frac_add(sum2, row.2), rp),
        frac_add(frac_add(sum2, rp), row.2),
    );
}


/// Along the inverse line, a variable's value at the screen point of a
/// preimage is a linear form in that preimage.
proof fn lemma_line_linear(
    warp: WarpCoefficients,
    offset: (Frac, Frac, Frac),
    slope: Frac,
    free: int,
    x: Frac,
    y: Frac,
    r: Frac,
)
    requires
        warp.wf(),
        offset.0.d > 0,
        offset.1.d > 0,
        offset.2.d > 0,
        slope.d > 0,
        0 <= free < 3,
        x.d > 0,
        y.d > 0,
        r.d > 0,
    ensures
        coefficients_positive(warp.line_coefficients(offset, slope, free)),
        eqv(
            frac_add(
                affine(
                    offset.0,
                    offset.1,
                    offset.2,
                    warp.screen_value(0, x, y, r),
                    warp.screen_value(1, x, y, r),
                ),
                frac_mul(slope, source_value(free, x, y, r)),
            ),
            linear(warp.line_coefficients(offset, slope, free), x, y, r),
        ),
{
    warp.lemma_coefficients_positive();
    let (cx, cy) = (warp.screen_coefficients(0), warp.screen_coefficients(1));
    let (sx, sy) = (warp.screen_value(0, x, y, r), warp.screen_value(1, x, y, r));
    let t = source_value(free, x, y, r);
    lemma_terms_linear(warp.screen_row(0), warp.parallax_of(0), x, y, r);
    lemma_terms_linear(warp.screen_row(1), warp.parallax_of(1), x, y, r);
    // Each term of the affine value as a form.
    let (u3, gx, gy, uf) = (
        unit(3, offset.0),
        scaled_coefficients(offset.1, cx),
        scaled_coefficients(offset.2, cy),
        unit(free, slope),
    );
    lemma_linear_unit(3, offset.0, x, y, r);
    lemma_linear_unit(free, slope, x, y, r);
    lemma_coefficients_closed(cx, cx, offset.1);
    lemma_coefficients_closed(cy, cy, offset.2);
    lemma_eqv_symmetric(linear(u3, x, y, r), offset.0);
    lemma_eqv_reflexive(offset.1);
    lemma_eqv_reflexive(offset.2);
    lemma_eqv_congruent(offset.1, offset.1, sx, linear(cx, x, y, r));
    lemma_eqv_congruent(offset.2, offset.2, sy, linear(cy, x, y, r));
    lemma_linear_scale(offset.1, cx, x, y, r);
    lemma_linear_scale(offset.2, cy, x, y, r);
    lemma_eqv_transitive(frac_mul(offset.1, sx), frac_mul(offset.1, linear(cx, x, y, r)), linear(gx, x, y, r));
    lemma_eqv_transitive(frac_mul(offset.2, sy), frac_mul(offset.2, linear(cy, x, y, r)), linear(gy, x, y, r));
    // offset.0 + offset.1 * sx
    lemma_eqv_congruent(offset.0, linear(u3, x, y, r), frac_mul(offset.1, sx), linear(gx, x, y, r));
    lemma_linear_add(u3, gx, x, y, r);
    let s1 = sum_coefficients(u3, gx);
    lemma_coefficients_closed(u3, gx, offset.0);
    lemma_eqv_transitive(
        frac_add(offset.0, frac_mul(offset.1, sx)),
        frac_add(linear(u3, x, y, r), linear(gx, x, y, r)),
        linear(s1, x, y, r),
    );
    // ... + offset.2 * sy
    lemma_eqv_congruent(
        frac_add(offset.0, frac_mul(offset.1, sx)),
        linear(s1, x, y, r),
        frac_mul(offset.2, sy),
        linear(gy, x, y, r),
    );
    lemma_linear_add(s1, gy, x, y, r);
    let s2 = sum_coefficients(s1, gy);
    lemma_coefficients_closed(s1, gy, offset.0);
    lemma_eqv_transitive(
        affine(offset.0, offset.1, offset.2, sx, sy),
        frac_add(linear(s1, x, y, r), linear(gy, x, y, r)),
        linear(s2, x, y, r),
    );
    // slope * t
    lemma_mul_commutative(slope, t);
    lemma_eqv_symmetric(linear(uf, x, y, r), frac_mul(t, slope));
    lemma_eqv_transitive(frac_mul(slope, t), frac_mul(t, slope), linear(uf, x, y, r));
    lemma_eqv_congruent(
        affine(offset.0, offset.1, offset.2, sx, sy),
        linear(s2, x, y, r),
        frac_mul(slope, t),
        linear(uf, x, y, r),
    );
    lemma_linear_add(s2, uf, x, y, r);
    lemma_coefficients_closed(s2, uf, offset.0);
    lemma_eqv_transitive(
        frac_add(affine(offset.0, offset.1, offset.2, sx, sy), frac_mul(slope, t)),
        frac_add(linear(s2, x, y, r), linear(uf, x, y, r)),
        linear(sum_coefficients(s2, uf), x, y, r),
    );
}

/// When every coefficient of the line's form is that of the variable alone,
/// the line gives back the variable.
proof fn lemma_line_recovers(
    warp: WarpCoefficients,
    offset: (Frac, Frac, Frac),
    slope: Frac,
    variable: int,
    free: int,
    x: Frac,
    y: Frac,
    r: Frac,
)
    requires
        warp.wf(),
        offset.0.d > 0,
        offset.1.d > 0,
        offset.2.d > 0,
        slope.d > 0,
        0 <= free < 3,
        0 <= variable < 3,
        x.d > 0,
        y.d > 0,
        r.d > 0,
        forall|k: int|
            0 <= k < 4 ==> eqv(
                #[trigger] coefficient(warp.line_coefficients(offset, slope, free), k),
                coefficient(unit(variable, frac_int(1)), k),
            ),
    ensures
        eqv(
            frac_add(
                affine(
                    offset.0,
                    offset.1,
                    offset.2,
                    warp.screen_value(0, x, y, r),
                    warp.screen_value(1, x, y, r),
                ),
                frac_mul(slope, source_value(free, x, y, r)),
            ),
            source_value(variable, x, y, r),
        ),
{
    let c = warp.line_coefficients(offset, slope, free);
    let e = unit(variable, frac_int(1));
    let v = source_value(variable, x, y, r);
    lemma_line_linear(warp, offset, slope, free, x, y, r);
    assert(eqv(coefficient(c, 0), coefficient(e, 0)));
    assert(eqv(coefficient(c, 1), coefficient(e, 1)));
    assert(eqv(coefficient(c, 2), coefficient(e, 2)));
    assert(eqv(coefficient(c, 3), coefficient(e, 3)));
    lemma_linear_congruent(c, e, x, y, r);
    lemma_linear_unit(variable, frac_int(1), x, y, r);
    lemma_mul_zero_one(v);
    lemma_eqv_transitive(linear(c, x, y, r), linear(e, x, y, r), frac_mul(v, frac_int(1)));
    lemma_eqv_transitive(linear(c, x, y, r), frac_mul(v, frac_int(1)), v);
    lemma_eqv_transitive(
        frac_add(
            affine(offset.0, offset.1, offset.2, warp.screen_value(0, x, y, r), warp.screen_value(1, x, y, r)),
            frac_mul(slope, source_value(free, x, y, r)),
        ),
        linear(c, x, y, r),
        v,
    );
}


/// Coefficient `k` of the line's form times the common divisor, for an
/// offset `(base, a, b)` and a slope `s`, each over that divisor.
pub open spec fn line_numerator(warp: WarpCoefficients, base: Frac, a: Frac, b: Frac, s: Frac, free: int, k: int) -> Frac {
    frac_add(
        frac_add(
            frac_add(
                if k == 3 {
                    base
                } else {
                    frac_int(0)
                },
                frac_mul(a, coefficient(warp.screen_coefficients(0), k)),
            ),
            frac_mul(b, coefficient(warp.screen_coefficients(1), k)),
        ),
        if k == free {
            s
        } else {
            frac_int(0)
        },
    )
}

/// Each coefficient of the line's form is its numerator over the divisor.
proof fn lemma_line_coefficient(
    warp: WarpCoefficients,
    base: Frac,
    a: Frac,
    b: Frac,
    s: Frac,
    divisor: Frac,
    free: int,
    k: int,
)
    requires
        warp.wf(),
        base.d > 0,
        a.d > 0,
        b.d > 0,
        s.d > 0,
        divisor.d > 0,
        divisor.n != 0,
        0 <= free < 3,
        0 <= k < 4,
    ensures
        eqv(
            coefficient(
                warp.line_coefficients(
                    (frac_div(base, divisor), frac_div(a, divisor), frac_div(b, divisor)),
                    frac_div(s, divisor),
                    free,
                ),
                k,
            ),
            frac_div(line_numerator(warp, base, a, b, s, free, k), divisor),
        ),
        line_numerator(warp, base, a, b, s, free, k).d > 0,
{
    warp.lemma_coefficients_positive();
    let (cx, cy) = (warp.screen_coefficients(0), warp.screen_coefficients(1));
    let t1 = if k == 3 {
        frac_div(base, divisor)
    } else {
        frac_int(0)
    };
    let n1 = if k == 3 {
        base
    } else {
        frac_int(0)
    };
    let t4 = if k == free {
        frac_div(s, divisor)
    } else {
        frac_int(0)
    };
    let n4 = if k == free {
        s
    } else {
        frac_int(0)
    };
    assert(coefficient(
        warp.line_coefficients(
            (frac_div(base, divisor), frac_div(a, divisor), frac_div(b, divisor)),
            frac_div(s, divisor),
            free,
        ),
        k,
    ) == frac_add(
        frac_add(
            frac_add(t1, frac_mul(frac_div(a, divisor), coefficient(cx, k))),
            frac_mul(frac_div(b, divisor), coefficient(cy, k)),
        ),
        t4,
    ));
    lemma_coefficient_value(t1, n1, a, coefficient(cx, k), b, coefficient(cy, k), t4, n4, divisor);
    lemma_positive(a, coefficient(cx, k));
    lemma_positive(b, coefficient(cy, k));
    lemma_positive(n1, frac_mul(a, coefficient(cx, k)));
    lemma_positive(frac_add(n1, frac_mul(a, coefficient(cx, k))), frac_mul(b, coefficient(cy, k)));
    lemma_positive(frac_add(frac_add(n1, frac_mul(a, coefficient(cx, k))), frac_mul(b, coefficient(cy, k))), n4);
}


/// Each coefficient of the first pivot variable's line is that of the
/// variable alone.
proof fn lemma_first_coefficients(warp: WarpCoefficients, first: int, second: int, free: int)
    requires
        warp.wf(),
        0 <= first < 3,
        0 <= second < 3,
        0 <= free < 3,
        first != second,
        first != free,
        second != free,
        warp.minor(first, second).n != 0,
    ensures
        forall|k: int|
            0 <= k < 4 ==> eqv(
                #[trigger] coefficient(
                    warp.line_coefficients(
                        warp.first_offset_formula(first, second),
                        warp.first_slope_formula(first, second, free),
                        free,
                    ),
                    k,
                ),
                coefficient(unit(first, frac_int(1)), k),
            ),
        warp.first_offset_formula(first, second).0.d > 0,
        warp.first_offset_formula(first, second).1.d > 0,
        warp.first_offset_formula(first, second).2.d > 0,
        warp.first_slope_formula(first, second, free).d > 0,
{
    warp.lemma_coefficients_positive();
    let det = warp.minor(first, second);
    let (s0, s1) = (warp.screen_row(0).2, warp.screen_row(1).2);
    let (cf0, cf1) = warp.column(first);
    let (cs0, cs1) = warp.column(second);
    let (cfr0, cfr1) = warp.column(free);
    let base = frac_sub(frac_mul(cs0, s1), frac_mul(s0, cs1));
    let (a, b) = (cs1, frac_neg(cs0));
    let slope = frac_add(frac_mul(frac_neg(cfr0), cs1), frac_mul(cs0, cfr1));
    lemma_positive(cf0, cs1);
    lemma_positive(cs0, cf1);
    lemma_positive(frac_mul(cf0, cs1), frac_mul(cs0, cf1));
    lemma_positive(cs0, s1);
    lemma_positive(s0, cs1);
    lemma_positive(frac_mul(cs0, s1), frac_mul(s0, cs1));
    lemma_positive(cfr0, cs1);
    lemma_positive(frac_neg(cfr0), cs1);
    lemma_positive(cs0, cfr1);
    lemma_positive(frac_mul(frac_neg(cfr0), cs1), frac_mul(cs0, cfr1));
    assert(warp.screen_row(0).2.d > 0 && warp.screen_row(1).2.d > 0) by {
        assert(coefficients_positive(warp.screen_coefficients(0)));
        assert(coefficients_positive(warp.screen_coefficients(1)));
    }
    lemma_div_mul_cancel(base, det);
    lemma_div_mul_cancel(a, det);
    lemma_div_mul_cancel(b, det);
    lemma_div_mul_cancel(slope, det);
    assert forall|k: int| 0 <= k < 4 implies eqv(
        #[trigger] coefficient(
            warp.line_coefficients(
                warp.first_offset_formula(first, second),
                warp.first_slope_formula(first, second, free),
                free,
            ),
            k,
        ),
        coefficient(unit(first, frac_int(1)), k),
    ) by {
        lemma_line_coefficient(warp, base, a, b, slope, det, free, k);
        let n = line_numerator(warp, base, a, b, slope, free, k);
        let zero = frac_int(0);
        if k == first {
            assert(n == frac_add(frac_add(frac_add(zero, frac_mul(cs1, cf0)), frac_mul(b, cf1)), zero));
            lemma_positive(cs1, cf0);
            lemma_positive(b, cf1);
            lemma_zero_ends(frac_mul(cs1, cf0), frac_mul(b, cf1));
            lemma_mul_commutative(cs1, cf0);
            lemma_mul_neg(cs0, cf1);
            lemma_eqv_congruent(
                frac_mul(cs1, cf0),
                frac_mul(cf0, cs1),
                frac_mul(b, cf1),
                frac_neg(frac_mul(cs0, cf1)),
            );
            lemma_eqv_transitive(
                n,
                frac_add(frac_mul(cs1, cf0), frac_mul(b, cf1)),
                frac_add(frac_mul(cf0, cs1), frac_neg(frac_mul(cs0, cf1))),
            );
            lemma_sub_is_add_neg(frac_mul(cf0, cs1), frac_mul(cs0, cf1));
            lemma_eqv_symmetric(det, frac_add(frac_mul(cf0, cs1), frac_neg(frac_mul(cs0, cf1))));
            lemma_eqv_transitive(n, frac_add(frac_mul(cf0, cs1), frac_neg(frac_mul(cs0, cf1))), det);
        } else if k == second {
            assert(n == frac_add(frac_add(frac_add(zero, frac_mul(cs1, cs0)), frac_mul(b, cs1)), zero));
            lemma_positive(cs1, cs0);
            lemma_positive(b, cs1);
            lemma_zero_ends(frac_mul(cs1, cs0), frac_mul(b, cs1));
            lemma_neg_product(cs0, cs1);
            lemma_cancel_pair(frac_mul(cs1, cs0), frac_mul(b, cs1));
            lemma_eqv_transitive(n, frac_add(frac_mul(cs1, cs0), frac_mul(b, cs1)), zero);
        } else if k == free {
            let (pa, pb, pc, pd) = (frac_mul(cs1, cfr0), frac_mul(b, cfr1), frac_mul(frac_neg(cfr0), cs1), frac_mul(cs0, cfr1));
            assert(n == frac_add(frac_add(frac_add(zero, pa), pb), frac_add(pc, pd)));
            lemma_positive(cs1, cfr0);
            lemma_positive(b, cfr1);
            lemma_add_zero(pa);
            lemma_eqv_reflexive(pb);
            lemma_eqv_congruent(frac_add(zero, pa), pa, pb, pb);
            lemma_eqv_reflexive(frac_add(pc, pd));
            lemma_eqv_congruent(frac_add(frac_add(zero, pa), pb), frac_add(pa, pb), frac_add(pc, pd), frac_add(pc, pd));
            lemma_neg_product(cfr0, cs1);
            lemma_mul_neg(cs0, cfr1);
            lemma_neg_congruent(pb, frac_neg(pd));
            assert(frac_neg(frac_neg(pd)) == pd);
            lemma_eqv_symmetric(frac_neg(pb), pd);
            lemma_cancel_four(pa, pb, pc, pd);
            lemma_eqv_transitive(n, frac_add(frac_add(pa, pb), frac_add(pc, pd)), zero);
        } else {
            let (p, q, r, t) = (frac_mul(cs0, s1), frac_mul(s0, cs1), frac_mul(cs1, s0), frac_mul(b, s1));
            assert(n == frac_add(frac_add(frac_add(base, r), t), zero));
            lemma_positive(cs1, s0);
            lemma_positive(b, s1);
            lemma_positive(base, r);
            lemma_positive(frac_add(base, r), t);
            lemma_add_zero(frac_add(frac_add(base, r), t));
            lemma_mul_commutative(cs1, s0);
            lemma_mul_neg(cs0, s1);
            lemma_difference_cancels(p, q, r, t);
            lemma_eqv_transitive(n, frac_add(frac_add(base, r), t), zero);
        }
        lemma_div_trivial(n, det);
        if k == first {
            lemma_eqv_transitive(
                coefficient(
                    warp.line_coefficients(
                        warp.first_offset_formula(first, second),
                        warp.first_slope_formula(first, second, free),
                        free,
                    ),
                    k,
                ),
                frac_div(n, det),
                frac_int(1),
            );
        } else {
            lemma_eqv_transitive(
                coefficient(
                    warp.line_coefficients(
                        warp.first_offset_formula(first, second),
                        warp.first_slope_formula(first, second, free),
                        free,
                    ),
                    k,
                ),
                frac_div(n, det),
                zero,
            );
        }
    }
}


/// Each coefficient of the second pivot variable's line is that of the
/// variable alone.
proof fn lemma_second_coefficients(warp: WarpCoefficients, first: int, second: int, free: int)
    requires
        warp.wf(),
        0 <= first < 3,
        0 <= second < 3,
        0 <= free < 3,
        first != second,
        first != free,
        second != free,
        warp.minor(first, second).n != 0,
    ensures
        forall|k: int|
            0 <= k < 4 ==> eqv(
                #[trigger] coefficient(
                    warp.line_coefficients(
                        warp.second_offset_formula(first, second),
                        warp.second_slope_formula(first, second, free),
                        free,
                    ),
                    k,
                ),
                coefficient(unit(second, frac_int(1)), k),
            ),
        warp.second_offset_formula(first, second).0.d > 0,
        warp.second_offset_formula(first, second).1.d > 0,
        warp.second_offset_formula(first, second).2.d > 0,
        warp.second_slope_formula(first, second, free).d > 0,
{
    warp.lemma_coefficients_positive();
    let det = warp.minor(first, second);
    let (s0, s1) = (warp.screen_row(0).2, warp.screen_row(1).2);
    let (cf0, cf1) = warp.column(first);
    let (cs0, cs1) = warp.column(second);
    let (cfr0, cfr1) = warp.column(free);
    let base = frac_sub(frac_mul(s0, cf1), frac_mul(cf0, s1));
    let (a, b) = (frac_neg(cf1), cf0);
    let slope = frac_add(frac_mul(frac_neg(cf0), cfr1), frac_mul(cfr0, cf1));
    lemma_positive(cf0, cs1);
    lemma_positive(cs0, cf1);
    lemma_positive(frac_mul(cf0, cs1), frac_mul(cs0, cf1));
    assert(warp.screen_row(0).2.d > 0 && warp.screen_row(1).2.d > 0) by {
        assert(coefficients_positive(warp.screen_coefficients(0)));
        assert(coefficients_positive(warp.screen_coefficients(1)));
    }
    lemma_positive(s0, cf1);
    lemma_positive(cf0, s1);
    lemma_positive(frac_mul(s0, cf1), frac_mul(cf0, s1));
    lemma_positive(cf0, cfr1);
    lemma_positive(frac_neg(cf0), cfr1);
    lemma_positive(cfr0, cf1);
    lemma_positive(frac_mul(frac_neg(cf0), cfr1), frac_mul(cfr0, cf1));
    lemma_positive(cf1, cf1);
    lemma_div_mul_cancel(base, det);
    lemma_div_mul_cancel(a, det);
    lemma_div_mul_cancel(b, det);
    lemma_div_mul_cancel(slope, det);
    assert forall|k: int| 0 <= k < 4 implies eqv(
        #[trigger] coefficient(
            warp.line_coefficients(
                warp.second_offset_formula(first, second),
                warp.second_slope_formula(first, second, free),
                free,
            ),
            k,
        ),
        coefficient(unit(second, frac_int(1)), k),
    ) by {
        lemma_line_coefficient(warp, base, a, b, slope, det, free, k);
        let n = line_numerator(warp, base, a, b, slope, free, k);
        let zero = frac_int(0);
        if k == second {
            let (pa, pb) = (frac_mul(a, cs0), frac_mul(cf0, cs1));
            assert(n == frac_add(frac_add(frac_add(zero, pa), pb), zero));
            lemma_positive(a, cs0);
            lemma_zero_ends(pa, pb);
            lemma_neg_product(cf1, cs0);
            lemma_eqv_reflexive(pb);
            lemma_eqv_congruent(pa, frac_neg(frac_mul(cs0, cf1)), pb, pb);
            lemma_eqv_transitive(n, frac_add(pa, pb), frac_add(frac_neg(frac_mul(cs0, cf1)), pb));
            lemma_add_commutative(frac_neg(frac_mul(cs0, cf1)), pb);
            lemma_eqv_transitive(
                n,
                frac_add(frac_neg(frac_mul(cs0, cf1)), pb),
                frac_add(pb, frac_neg(frac_mul(cs0, cf1))),
            );
            lemma_sub_is_add_neg(pb, frac_mul(cs0, cf1));
            lemma_eqv_symmetric(det, frac_add(pb, frac_neg(frac_mul(cs0, cf1))));
            lemma_eqv_transitive(n, frac_add(pb, frac_neg(frac_mul(cs0, cf1))), det);
        } else if k == first {
            let (pa, pb) = (frac_mul(a, cf0), frac_mul(cf0, cf1));
            assert(n == frac_add(frac_add(frac_add(zero, pa), pb), zero));
            lemma_positive(a, cf0);
            lemma_positive(cf0, cf1);
            lemma_zero_ends(pa, pb);
            lemma_neg_product(cf1, cf0);
            lemma_neg_congruent(pa, frac_neg(pb));
            assert(frac_neg(frac_neg(pb)) == pb);
            lemma_eqv_symmetric(frac_neg(pa), pb);
            lemma_cancel_pair(pa, pb);
            lemma_eqv_transitive(n, frac_add(pa, pb), zero);
        } else if k == free {
            let (pa, pb, pc, pd) = (frac_mul(a, cfr0), frac_mul(cf0, cfr1), frac_mul(frac_neg(cf0), cfr1), frac_mul(cfr0, cf1));
            assert(n == frac_add(frac_add(frac_add(zero, pa), pb), frac_add(pc, pd)));
            lemma_positive(a, cfr0);
            lemma_add_zero(pa);
            lemma_eqv_reflexive(pb);
            lemma_eqv_congruent(frac_add(zero, pa), pa, pb, pb);
            lemma_eqv_reflexive(frac_add(pc, pd));
            lemma_eqv_congruent(frac_add(frac_add(zero, pa), pb), frac_add(pa, pb), frac_add(pc, pd), frac_add(pc, pd));
            lemma_neg_product(cf1, cfr0);
            lemma_neg_congruent(pa, frac_neg(pd));
            assert(frac_neg(frac_neg(pd)) == pd);
            lemma_eqv_symmetric(frac_neg(pa), pd);
            lemma_mul_neg(cf0, cfr1);
            lemma_positive(pc, pd);
            lemma_add_commutative(pa, pb);
            lemma_eqv_congruent(frac_add(pa, pb), frac_add(pb, pa), frac_add(pc, pd), frac_add(pc, pd));
            lemma_eqv_transitive(n, frac_add(frac_add(pa, pb), frac_add(pc, pd)), frac_add(frac_add(pb, pa), frac_add(pc, pd)));
            lemma_cancel_four(pb, pa, pc, pd);
            lemma_eqv_transitive(n, frac_add(frac_add(pb, pa), frac_add(pc, pd)), zero);
        } else {
            let (p, q, r, t) = (frac_mul(s0, cf1), frac_mul(cf0, s1), frac_mul(a, s0), frac_mul(cf0, s1));
            assert(n == frac_add(frac_add(frac_add(base, r), t), zero));
            lemma_positive(a, s0);
            lemma_positive(base, r);
            lemma_positive(frac_add(base, r), t);
            lemma_add_zero(frac_add(frac_add(base, r), t));
            lemma_neg_product(cf1, s0);
            lemma_eqv_reflexive(q);
            lemma_difference_cancels(p, q, r, t);
            lemma_eqv_transitive(n, frac_add(frac_add(base, r), t), zero);
        }
        lemma_div_trivial(n, det);
        if k == second {
            lemma_eqv_transitive(
                coefficient(
                    warp.line_coefficients(
                        warp.second_offset_formula(first, second),
                        warp.second_slope_formula(first, second, free),
                        free,
                    ),
                    k,
                ),
                frac_div(n, det),
                frac_int(1),
            );
        } else {
            lemma_eqv_transitive(
                coefficient(
                    warp.line_coefficients(
                        warp.second_offset_formula(first, second),
                        warp.second_slope_formula(first, second, free),
                        free,
                    ),
                    k,
                ),
                frac_div(n, det),
                zero,
            );
        }
    }
}


/// The candidate picked is one with a nonzero minor.
proof fn lemma_best_candidate_nonzero(warp: WarpCoefficients, count: int)
    requires
        warp.best_candidate(count) is Some,
    ensures
        0 <= warp.best_candidate(count)->0 < count,
        warp.minor(candidate(warp.best_candidate(count)->0).0, candidate(warp.best_candidate(count)->0).1).n != 0,
    decreases count,
{
    if count > 0 && warp.best_candidate(count - 1) is Some {
        lemma_best_candidate_nonzero(warp, count - 1);
    }
}

/// The line of one variable keeps its value when its offset and slope are
/// replaced by equal values.
proof fn lemma_line_congruent(
    offset: (Frac, Frac, Frac),
    other: (Frac, Frac, Frac),
    slope: Frac,
    other_slope: Frac,
    sx: Frac,
    sy: Frac,
    t: Frac,
)
    requires
        eqv(offset.0, other.0),
        eqv(offset.1, other.1),
        eqv(offset.2, other.2),
        eqv(slope, other_slope),
        sx.d > 0,
        sy.d > 0,
        t.d > 0,
    ensures
        eqv(
            frac_add(affine(offset.0, offset.1, offset.2, sx, sy), frac_mul(slope, t)),
            frac_add(affine(other.0, other.1, other.2, sx, sy), frac_mul(other_slope, t)),
        ),
{
    lemma_eqv_reflexive(sx);
    lemma_eqv_reflexive(sy);
    lemma_eqv_reflexive(t);
    lemma_eqv_congruent(offset.1, other.1, sx, sx);
    lemma_eqv_congruent(offset.2, other.2, sy, sy);
    lemma_eqv_congruent(slope, other_slope, t, t);
    lemma_eqv_congruent(offset.0, other.0, frac_mul(offset.1, sx), frac_mul(other.1, sx));
    lemma_eqv_congruent(
        frac_add(offset.0, frac_mul(offset.1, sx)),
        frac_add(other.0, frac_mul(other.1, sx)),
        frac_mul(offset.2, sy),
        frac_mul(other.2, sy),
    );
    lemma_eqv_congruent(
        affine(offset.0, offset.1, offset.2, sx, sy),
        affine(other.0, other.1, other.2, sx, sy),
        frac_mul(slope, t),
        frac_mul(other_slope, t),
    );
}

/// The free variable's line, a zero offset and a unit slope, is the
/// parameter itself.
proof fn lemma_free_line(sx: Frac, sy: Frac, t: Frac)
    requires
        sx.d > 0,
        sy.d > 0,
        t.d > 0,
    ensures
        eqv(
            frac_add(affine(frac_int(0), frac_int(0), frac_int(0), sx, sy), frac_mul(frac_int(1), t)),
            t,
        ),
{
    let zero = frac_int(0);
    lemma_mul_zero_one(sx);
    lemma_mul_zero_one(sy);
    lemma_mul_zero_one(t);
    lemma_add_zero(zero);
    lemma_eqv_reflexive(zero);
    lemma_eqv_congruent(zero, zero, frac_mul(zero, sx), zero);
    lemma_eqv_transitive(frac_add(zero, frac_mul(zero, sx)), frac_add(zero, zero), zero);
    lemma_eqv_congruent(frac_add(zero, frac_mul(zero, sx)), zero, frac_mul(zero, sy), zero);
    lemma_eqv_transitive(affine(zero, zero, zero, sx, sy), frac_add(zero, zero), zero);
    lemma_eqv_congruent(affine(zero, zero, zero, sx, sy), zero, frac_mul(frac_int(1), t), t);
    lemma_add_zero(t);
    lemma_eqv_transitive(
        frac_add(affine(zero, zero, zero, sx, sy), frac_mul(frac_int(1), t)),
        frac_add(zero, t),
        t,
    );
}

/// The inverse line recovers every preimage. Where the warp sends source
/// point `(x, y)` with relief `r`, each of source x, source y and relief is
/// its offset at that screen point plus its slope times the value the
/// preimage gives the free variable.
pub proof fn lemma_inverse_recovers_preimage(
    warp: WarpCoefficients,
    prepared: PreparedInverse,
    index: int,
    x: Frac,
    y: Frac,
    r: Frac,
    variable: int,
)
    requires
        warp.wf(),
        warp.best_candidate(3) == Some(index),
        prepared_matches(warp, prepared, index),
        x.d > 0,
        y.d > 0,
        r.d > 0,
        0 <= variable < 3,
    ensures
        same_value(
            frac_add(
                affine(
                    prepared.offset_of(variable).0,
                    prepared.offset_of(variable).1,
                    prepared.offset_of(variable).2,
                    warp.screen_value(0, x, y, r),
                    warp.screen_value(1, x, y, r),
                ),
                frac_mul(prepared.slope_of(variable), source_value(prepared.pivot().2, x, y, r)),
            ),
            source_value(variable, x, y, r),
        ),
{
    lemma_best_candidate_nonzero(warp, 3);
    let (first, second, free) = candidate(index);
    let det = warp.minor(first, second);
    warp.lemma_coefficients_positive();
    lemma_terms_linear(warp.screen_row(0), warp.parallax_of(0), x, y, r);
    lemma_terms_linear(warp.screen_row(1), warp.parallax_of(1), x, y, r);
    let (sx, sy) = (warp.screen_value(0, x, y, r), warp.screen_value(1, x, y, r));
    let t = source_value(free, x, y, r);
    let v = source_value(variable, x, y, r);
    let line = frac_add(
        affine(prepared.offset_of(variable).0, prepared.offset_of(variable).1, prepared.offset_of(variable).2, sx, sy),
        frac_mul(prepared.slope_of(variable), t),
    );
    assert(prepared.first_offset[0].wf() && prepared.first_offset[1].wf() && prepared.first_offset[2].wf());
    assert(prepared.second_offset[0].wf() && prepared.second_offset[1].wf() && prepared.second_offset[2].wf());
    if variable == free {
        lemma_free_line(sx, sy, t);
    } else {
        let (formula, slope) = if variable == first {
            (warp.first_offset_formula(first, second), warp.first_slope_formula(first, second, free))
        } else {
            (warp.second_offset_formula(first, second), warp.second_slope_formula(first, second, free))
        };
        if variable == first {
            lemma_first_coefficients(warp, first, second, free);
        } else {
            lemma_second_coefficients(warp, first, second, free);
        }
        lemma_line_recovers(warp, formula, slope, variable, free, x, y, r);
        lemma_line_congruent(prepared.offset_of(variable), formula, prepared.slope_of(variable), slope, sx, sy, t);
        lemma_eqv_transitive(line, frac_add(affine(formula.0, formula.1, formula.2, sx, sy), frac_mul(slope, t)), v);
    }
}


impl PreparedInverse {
    /// The offset of variable `variable` at screen point `(sx, sy)`: its
    /// value where the line meets parameter zero.
    pub open spec fn offset_at_screen(&self, variable: int, sx: Frac, sy: Frac) -> Frac {
        let offset = self.offset_of(variable);
        affine(offset.0, offset.1, offset.2, sx, sy)
    }
}

/// `d * (o + s * t)` splits into `d * o` and `(d * s) * t`.
proof fn lemma_term_split(d: Frac, o: Frac, s: Frac, t: Frac)
    requires
        d.d > 0,
        o.d > 0,
        s.d > 0,
        t.d > 0,
    ensures
        eqv(
            frac_mul(d, frac_add(o, frac_mul(s, t))),
            frac_add(frac_mul(d, o), frac_mul(frac_mul(d, s), t)),
        ),
{
    lemma_positive(s, t);
    lemma_positive(d, o);
    lemma_positive(d, s);
    lemma_positive(d, frac_mul(s, t));
    lemma_distributive(d, o, frac_mul(s, t));
    lemma_mul_associative(d, s, t);
    lemma_eqv_symmetric(frac_mul(frac_mul(d, s), t), frac_mul(d, frac_mul(s, t)));
    lemma_eqv_reflexive(frac_mul(d, o));
    lemma_eqv_congruent(frac_mul(d, o), frac_mul(d, o), frac_mul(d, frac_mul(s, t)), frac_mul(frac_mul(d, s), t));
    lemma_eqv_transitive(
        frac_mul(d, frac_add(o, frac_mul(s, t))),
        frac_add(frac_mul(d, o), frac_mul(d, frac_mul(s, t))),
        frac_add(frac_mul(d, o), frac_mul(frac_mul(d, s), t)),
    );
}

/// `(p + q) * t` has the value of `p * t + q * t`.
proof fn lemma_distributive_right(p: Frac, q: Frac, t: Frac)
    requires
        p.d > 0,
        q.d > 0,
        t.d > 0,
    ensures
        eqv(frac_mul(frac_add(p, q), t), frac_add(frac_mul(p, t), frac_mul(q, t))),
{
    lemma_positive(p, q);
    lemma_positive(t, p);
    lemma_positive(t, q);
    lemma_mul_commutative(frac_add(p, q), t);
    lemma_distributive(t, p, q);
    lemma_mul_commutative(t, p);
    lemma_mul_commutative(t, q);
    lemma_eqv_congruent(frac_mul(t, p), frac_mul(p, t), frac_mul(t, q), frac_mul(q, t));
    lemma_eqv_transitive(frac_mul(frac_add(p, q), t), frac_mul(t, frac_add(p, q)), frac_add(frac_mul(t, p), frac_mul(t, q)));
    lemma_eqv_transitive(
        frac_mul(frac_add(p, q), t),
        frac_add(frac_mul(t, p), frac_mul(t, q)),
        frac_add(frac_mul(p, t), frac_mul(q, t)),
    );
}

/// The camera depth of points `o + s * t` on a line is the depth of `o`
/// plus the depth's own slope times `t`.
proof fn lemma_depth_split(
    plane: (Frac, Frac, Frac),
    relief: Frac,
    o0: Frac,
    o1: Frac,
    o2: Frac,
    s0: Frac,
    s1: Frac,
    s2: Frac,
    t: Frac,
)
    requires
        plane.0.d > 0,
        plane.1.d > 0,
        plane.2.d > 0,
        relief.d > 0,
        o0.d > 0,
        o1.d > 0,
        o2.d > 0,
        s0.d > 0,
        s1.d > 0,
        s2.d > 0,
        t.d > 0,
    ensures
        eqv(
            depth_value(plane, relief, frac_add(o0, frac_mul(s0, t)), frac_add(o1, frac_mul(s1, t)), frac_add(o2, frac_mul(s2, t))),
            frac_add(
                depth_value(plane, relief, o0, o1, o2),
                frac_mul(frac_add(frac_add(frac_mul(plane.0, s0), frac_mul(plane.1, s1)), frac_mul(relief, s2)), t),
            ),
        ),
{
    let (d0, d1, d2) = plane;
    let (a0, a1, a2) = (frac_mul(d0, o0), frac_mul(d1, o1), frac_mul(relief, o2));
    let (p0, p1, p2) = (frac_mul(d0, s0), frac_mul(d1, s1), frac_mul(relief, s2));
    let (b0, b1, b2) = (frac_mul(p0, t), frac_mul(p1, t), frac_mul(p2, t));
    lemma_positive(d0, o0);
    lemma_positive(d1, o1);
    lemma_positive(relief, o2);
    lemma_positive(d0, s0);
    lemma_positive(d1, s1);
    lemma_positive(relief, s2);
    lemma_positive(p0, t);
    lemma_positive(p1, t);
    lemma_positive(p2, t);
    lemma_term_split(d0, o0, s0, t);
    lemma_term_split(d1, o1, s1, t);
    lemma_term_split(relief, o2, s2, t);
    let (l0, l1, l2) = (frac_add(o0, frac_mul(s0, t)), frac_add(o1, frac_mul(s1, t)), frac_add(o2, frac_mul(s2, t)));
    lemma_positive(s0, t);
    lemma_positive(s1, t);
    lemma_positive(s2, t);
    lemma_positive(a0, b0);
    lemma_positive(a1, b1);
    lemma_positive(a2, b2);
    lemma_positive(a0, a1);
    lemma_positive(b0, b1);
    lemma_positive(frac_add(a0, a1), d2);
    lemma_positive(frac_add(frac_add(a0, a1), d2), a2);
    lemma_positive(frac_add(b0, b1), b2);
    // The left side has the value of (((a0 + b0) + (a1 + b1)) + d2) + (a2 + b2).
    let m = frac_add(frac_add(a0, b0), frac_add(a1, b1));
    lemma_eqv_congruent(frac_mul(d0, l0), frac_add(a0, b0), frac_mul(d1, l1), frac_add(a1, b1));
    lemma_eqv_reflexive(d2);
    lemma_eqv_congruent(frac_add(frac_mul(d0, l0), frac_mul(d1, l1)), m, d2, d2);
    lemma_eqv_congruent(
        frac_add(frac_add(frac_mul(d0, l0), frac_mul(d1, l1)), d2),
        frac_add(m, d2),
        frac_mul(relief, l2),
        frac_add(a2, b2),
    );
    // ... == (((a0 + a1) + (b0 + b1)) + d2) + (a2 + b2)
    lemma_interchange(a0, b0, a1, b1);
    lemma_eqv_congruent(m, frac_add(frac_add(a0, a1), frac_add(b0, b1)), d2, d2);
    // ... == (((a0 + a1) + d2) + (b0 + b1)) + (a2 + b2)
    lemma_positive(frac_add(a0, a1), frac_add(b0, b1));
    lemma_swap_last(frac_add(a0, a1), frac_add(b0, b1), d2);
    lemma_positive(frac_add(frac_add(a0, a1), frac_add(b0, b1)), d2);
    lemma_positive(frac_add(frac_add(a0, a1), d2), frac_add(b0, b1));
    lemma_eqv_transitive(
        frac_add(m, d2),
        frac_add(frac_add(frac_add(a0, a1), frac_add(b0, b1)), d2),
        frac_add(frac_add(frac_add(a0, a1), d2), frac_add(b0, b1)),
    );
    let (xx, yy) = (frac_add(frac_add(a0, a1), d2), frac_add(b0, b1));
    lemma_eqv_reflexive(frac_add(a2, b2));
    lemma_eqv_congruent(frac_add(m, d2), frac_add(xx, yy), frac_add(a2, b2), frac_add(a2, b2));
    // ... == (xx + a2) + (yy + b2)
    lemma_interchange(xx, yy, a2, b2);
    let left = depth_value(plane, relief, l0, l1, l2);
    lemma_positive(m, d2);
    lemma_positive(xx, yy);
    lemma_eqv_transitive(left, frac_add(frac_add(m, d2), frac_add(a2, b2)), frac_add(frac_add(xx, yy), frac_add(a2, b2)));
    lemma_eqv_transitive(left, frac_add(frac_add(xx, yy), frac_add(a2, b2)), frac_add(frac_add(xx, a2), frac_add(yy, b2)));
    // (yy + b2) is the depth slope times t.
    lemma_positive(p0, p1);
    lemma_distributive_right(frac_add(p0, p1), p2, t);
    lemma_distributive_right(p0, p1, t);
    lemma_eqv_reflexive(b2);
    lemma_eqv_congruent(frac_mul(frac_add(p0, p1), t), yy, b2, b2);
    let slope = frac_add(frac_add(p0, p1), p2);
    lemma_positive(frac_add(p0, p1), t);
    lemma_eqv_transitive(
        frac_mul(slope, t),
        frac_add(frac_mul(frac_add(p0, p1), t), b2),
        frac_add(yy, b2),
    );
    lemma_eqv_symmetric(frac_mul(slope, t), frac_add(yy, b2));
    lemma_eqv_reflexive(frac_add(xx, a2));
    lemma_eqv_congruent(frac_add(xx, a2), frac_add(xx, a2), frac_add(yy, b2), frac_mul(slope, t));
    lemma_eqv_transitive(left, frac_add(frac_add(xx, a2), frac_add(yy, b2)), frac_add(frac_add(xx, a2), frac_mul(slope, t)));
}


/// The camera depth formula and the warp's depth output agree.
proof fn lemma_depth_terms(plane: (Frac, Frac, Frac), relief: Frac, x: Frac, y: Frac, r: Frac)
    requires
        plane.0.d > 0,
        plane.1.d > 0,
        plane.2.d > 0,
        relief.d > 0,
        x.d > 0,
        y.d > 0,
        r.d > 0,
    ensures
        eqv(depth_value(plane, relief, x, y, r), products_value(warp_terms(plane, relief, x, y, r))),
{
    let (d0, d1, d2) = plane;
    lemma_terms_linear(plane, relief, x, y, r);
    lemma_mul_commutative(d0, x);
    lemma_mul_commutative(d1, y);
    lemma_mul_commutative(relief, r);
    lemma_positive(d0, x);
    lemma_positive(d1, y);
    lemma_positive(x, d0);
    lemma_positive(y, d1);
    lemma_positive(r, relief);
    let (xd, yd, rr) = (frac_mul(x, d0), frac_mul(y, d1), frac_mul(r, relief));
    lemma_eqv_congruent(frac_mul(d0, x), xd, frac_mul(d1, y), yd);
    lemma_eqv_reflexive(d2);
    lemma_eqv_congruent(frac_add(frac_mul(d0, x), frac_mul(d1, y)), frac_add(xd, yd), d2, d2);
    lemma_eqv_congruent(
        frac_add(frac_add(frac_mul(d0, x), frac_mul(d1, y)), d2),
        frac_add(frac_add(xd, yd), d2),
        frac_mul(relief, r),
        rr,
    );
    lemma_positive(xd, yd);
    lemma_positive(frac_add(xd, yd), d2);
    lemma_positive(frac_add(xd, yd), rr);
    lemma_positive(frac_add(frac_add(xd, yd), d2), rr);
    lemma_positive(frac_add(frac_add(xd, yd), rr), d2);
    lemma_swap_last(frac_add(xd, yd), d2, rr);
    lemma_eqv_transitive(
        depth_value(plane, relief, x, y, r),
        frac_add(frac_add(frac_add(xd, yd), d2), rr),
        frac_add(frac_add(frac_add(xd, yd), rr), d2),
    );
    lemma_eqv_symmetric(
        products_value(warp_terms(plane, relief, x, y, r)),
        linear((plane.0, plane.1, relief, plane.2), x, y, r),
    );
    lemma_eqv_transitive(
        depth_value(plane, relief, x, y, r),
        linear((plane.0, plane.1, relief, plane.2), x, y, r),
        products_value(warp_terms(plane, relief, x, y, r)),
    );
}

/// Along the inverse line, the camera depth at the parameter a preimage
/// gives the free variable is the depth the warp gives that preimage.
pub proof fn lemma_inverse_depth_recovers(
    warp: WarpCoefficients,
    prepared: PreparedInverse,
    index: int,
    x: Frac,
    y: Frac,
    r: Frac,
)
    requires
        warp.wf(),
        warp.best_candidate(3) == Some(index),
        prepared_matches(warp, prepared, index),
        x.d > 0,
        y.d > 0,
        r.d > 0,
    ensures
        same_value(
            frac_add(
                depth_value(
                    prepared.depth_of().0,
                    prepared.depth_of().1,
                    prepared.offset_at_screen(0, warp.screen_value(0, x, y, r), warp.screen_value(1, x, y, r)),
                    prepared.offset_at_screen(1, warp.screen_value(0, x, y, r), warp.screen_value(1, x, y, r)),
                    prepared.offset_at_screen(2, warp.screen_value(0, x, y, r), warp.screen_value(1, x, y, r)),
                ),
                frac_mul(prepared.depth_of().2, source_value(prepared.pivot().2, x, y, r)),
            ),
            products_value(warp_terms(warp.depth_row(), warp.depth_relief_of(), x, y, r)),
        ),
{
    lemma_best_candidate_nonzero(warp, 3);
    let (first, second, free) = candidate(index);
    warp.lemma_coefficients_positive();
    lemma_first_coefficients(warp, first, second, free);
    lemma_second_coefficients(warp, first, second, free);
    lemma_terms_linear(warp.screen_row(0), warp.parallax_of(0), x, y, r);
    lemma_terms_linear(warp.screen_row(1), warp.parallax_of(1), x, y, r);
    let (sx, sy) = (warp.screen_value(0, x, y, r), warp.screen_value(1, x, y, r));
    let t = source_value(free, x, y, r);
    let (plane, relief, depth_slope) = prepared.depth_of();
    assert(plane.0.d > 0 && plane.1.d > 0 && plane.2.d > 0 && relief.d > 0 && depth_slope.d > 0) by {
        assert(prepared.depth_plane[0].wf() && prepared.depth_plane[1].wf() && prepared.depth_plane[2].wf());
    }
    assert(prepared.first_offset[0].wf() && prepared.first_offset[1].wf() && prepared.first_offset[2].wf());
    assert(prepared.second_offset[0].wf() && prepared.second_offset[1].wf() && prepared.second_offset[2].wf());
    let (o0, o1, o2) = (prepared.offset_at_screen(0, sx, sy), prepared.offset_at_screen(1, sx, sy), prepared.offset_at_screen(2, sx, sy));
    let (s0, s1, s2) = (prepared.slope_of(0), prepared.slope_of(1), prepared.slope_of(2));
    assert forall|v: int| 0 <= v < 3 implies (#[trigger] prepared.offset_at_screen(v, sx, sy)).d > 0 && prepared.slope_of(v).d > 0 by {
        let offset = prepared.offset_of(v);
        lemma_positive(offset.1, sx);
        lemma_positive(offset.0, frac_mul(offset.1, sx));
        lemma_positive(offset.2, sy);
        lemma_positive(frac_add(offset.0, frac_mul(offset.1, sx)), frac_mul(offset.2, sy));
    }
    assert(o0.d > 0 && o1.d > 0 && o2.d > 0);
    // Each variable's line gives back the preimage.
    lemma_inverse_recovers_preimage(warp, prepared, index, x, y, r, 0);
    lemma_inverse_recovers_preimage(warp, prepared, index, x, y, r, 1);
    lemma_inverse_recovers_preimage(warp, prepared, index, x, y, r, 2);
    let (l0, l1, l2) = (frac_add(o0, frac_mul(s0, t)), frac_add(o1, frac_mul(s1, t)), frac_add(o2, frac_mul(s2, t)));
    lemma_positive(s0, t);
    lemma_positive(s1, t);
    lemma_positive(s2, t);
    lemma_positive(o0, frac_mul(s0, t));
    lemma_positive(o1, frac_mul(s1, t));
    lemma_positive(o2, frac_mul(s2, t));
    lemma_depth_congruent(plane, relief, l0, x, l1, y, l2, r);
    lemma_depth_split(plane, relief, o0, o1, o2, s0, s1, s2, t);
    lemma_depth_terms(plane, relief, x, y, r);
    // The line's depth slope is the prepared depth slope.
    let formula = warp.depth_slope_formula(first, second, free);
    let (f0, f1, f2) = (
        warp.slope_formula(first, second, free, 0),
        warp.slope_formula(first, second, free, 1),
        warp.slope_formula(first, second, free, 2),
    );
    assert(eqv(s0, f0) && eqv(s1, f1) && eqv(s2, f2));
    lemma_eqv_reflexive(plane.0);
    lemma_eqv_reflexive(plane.1);
    lemma_eqv_reflexive(relief);
    lemma_eqv_congruent(plane.0, plane.0, s0, f0);
    lemma_eqv_congruent(plane.1, plane.1, s1, f1);
    lemma_eqv_congruent(relief, relief, s2, f2);
    lemma_eqv_congruent(frac_mul(plane.0, s0), frac_mul(plane.0, f0), frac_mul(plane.1, s1), frac_mul(plane.1, f1));
    lemma_eqv_congruent(
        frac_add(frac_mul(plane.0, s0), frac_mul(plane.1, s1)),
        frac_add(frac_mul(plane.0, f0), frac_mul(plane.1, f1)),
        frac_mul(relief, s2),
        frac_mul(relief, f2),
    );
    let line_slope = frac_add(frac_add(frac_mul(plane.0, s0), frac_mul(plane.1, s1)), frac_mul(relief, s2));
    lemma_eqv_symmetric(depth_slope, formula);
    lemma_eqv_transitive(line_slope, formula, depth_slope);
    // depth(o) + depth_slope * t == depth(o) + line_slope * t == depth(line) == depth(preimage).
    let at_origin = depth_value(plane, relief, o0, o1, o2);
    lemma_eqv_reflexive(at_origin);
    lemma_eqv_reflexive(t);
    lemma_eqv_symmetric(line_slope, depth_slope);
    lemma_eqv_congruent(depth_slope, line_slope, t, t);
    lemma_eqv_congruent(at_origin, at_origin, frac_mul(depth_slope, t), frac_mul(line_slope, t));
    let on_line = depth_value(plane, relief, l0, l1, l2);
    lemma_eqv_symmetric(on_line, frac_add(at_origin, frac_mul(line_slope, t)));
    lemma_eqv_transitive(frac_add(at_origin, frac_mul(depth_slope, t)), frac_add(at_origin, frac_mul(line_slope, t)), on_line);
    lemma_eqv_transitive(frac_add(at_origin, frac_mul(depth_slope, t)), on_line, depth_value(plane, relief, x, y, r));
    lemma_eqv_transitive(
        frac_add(at_origin, frac_mul(depth_slope, t)),
        depth_value(plane, relief, x, y, r),
        products_value(warp_terms(plane, relief, x, y, r)),
    );
}


/// Whether every step of `base + dx * u + dy * v` on values in lowest terms
/// fits `i64`.
fn affine_fits_now(base: Rational, dx: Rational, dy: Rational, u: Rational, v: Rational) -> (fits: bool)
    requires
        base.wf(),
        dx.wf(),
        dy.wf(),
        u.wf(),
        v.wf(),
    ensures
        fits == affine_fits(base@, dx@, dy@, u@, v@),
{
    let first = match dx.checked_mul(u) {
        Some(first) => first,
        None => {
            return false;
        },
    };
    let partial = match base.checked_add(first) {
        Some(partial) => partial,
        None => {
            return false;
        },
    };
    let second = match dy.checked_mul(v) {
        Some(second) => second,
        None => {
            return false;
        },
    };
    partial.checked_add(second).is_some()
}

/// Whether every step of the camera depth on values in lowest terms fits
/// `i64`.
fn depth_fits_now(plane: [Rational; 3], relief: Rational, v0: Rational, v1: Rational, v2: Rational) -> (fits: bool)
    requires
        plane[0].wf(),
        plane[1].wf(),
        plane[2].wf(),
        relief.wf(),
        v0.wf(),
        v1.wf(),
        v2.wf(),
    ensures
        fits == depth_fits((plane[0]@, plane[1]@, plane[2]@), relief@, v0@, v1@, v2@),
{
    let a = match plane[0].checked_mul(v0) {
        Some(a) => a,
        None => {
            return false;
        },
    };
    let b = match plane[1].checked_mul(v1) {
        Some(b) => b,
        None => {
            return false;
        },
    };
    let ab = match a.checked_add(b) {
        Some(ab) => ab,
        None => {
            return false;
        },
    };
    let with_constant = match ab.checked_add(plane[2]) {
        Some(with_constant) => with_constant,
        None => {
            return false;
        },
    };
    let c = match relief.checked_mul(v2) {
        Some(c) => c,
        None => {
            return false;
        },
    };
    with_constant.checked_add(c).is_some()
}

impl FrameInverse {
    /// Whether evaluating every offset at pixel `(x, y)` stays in `i64`.
    pub fn pixel_fits_now(&self, x: u32, y: u32) -> (fits: bool)
        requires
            self.wf(),
        ensures
            fits == self.pixel_fits(x as int, y as int),
    {
        let column = Rational::from_integer(x as i64);
        let row = Rational::from_integer(y as i64);
        let mut variable: usize = 0;
        while variable < 3
            invariant
                self.wf(),
                column.wf() && column@ == frac_int(x as int),
                row.wf() && row@ == frac_int(y as int),
                variable <= 3,
                forall|done: int|
                    0 <= done < variable ==> {
                        let offset = #[trigger] self.offset_at(done);
                        affine_fits(offset.0, offset.1, offset.2, frac_int(x as int), frac_int(y as int))
                    },
            decreases 3 - variable,
        {
            let offset = self.var_offset[variable];
            proof {
                assert(self.offset_at(variable as int) == (offset[0]@, offset[1]@, offset[2]@));
                assert(offset[0].wf() && offset[1].wf() && offset[2].wf());
            }
            if !affine_fits_now(offset[0], offset[1], offset[2], column, row) {
                return false;
            }
            variable += 1;
        }
        true
    }

    /// The exact camera depth at `parameter` along the line at pixel
    /// `(x, y)`; none when a step of its evaluation leaves `i64`.
    pub fn checked_depth_at(&self, x: u32, y: u32, parameter: Rational) -> (depth: Option<Rational>)
        requires
            self.wf(),
            parameter.wf(),
        ensures
            match depth {
                Some(value) => {
                    &&& self.pixel_fits(x as int, y as int)
                    &&& self.depth_fits_at(x as int, y as int)
                    &&& self.depth_at_fits(x as int, y as int, parameter@)
                    &&& value.wf()
                    &&& same_value(
                        value@,
                        frac_add(self.depth_offset_value(x as int, y as int), frac_mul(self.depth_of().2, parameter@)),
                    )
                },
                None => !(self.pixel_fits(x as int, y as int) && self.depth_fits_at(x as int, y as int)
                    && self.depth_at_fits(x as int, y as int, parameter@)),
            },
    {
        if !self.pixel_fits_now(x, y) {
            return None;
        }
        let variables = self.variable_coefficients_exact(x, y);
        proof {
            assert(variables[0][0].wf() && variables[1][0].wf() && variables[2][0].wf());
            lemma_lowest(variables[0][0]@, self.offset_value(0, x as int, y as int));
            lemma_lowest(variables[1][0]@, self.offset_value(1, x as int, y as int));
            lemma_lowest(variables[2][0]@, self.offset_value(2, x as int, y as int));
            assert(self.depth_plane[0].wf() && self.depth_plane[1].wf() && self.depth_plane[2].wf());
        }
        if !depth_fits_now(self.depth_plane, self.depth_relief, variables[0][0], variables[1][0], variables[2][0]) {
            return None;
        }
        let constant = self.depth_offset(x, y);
        proof {
            lemma_lowest(constant@, self.depth_offset_value(x as int, y as int));
        }
        let moved = match self.depth_slope.checked_mul(parameter) {
            Some(moved) => moved,
            None => {
                return None;
            },
        };
        if constant.checked_add(moved).is_none() {
            return None;
        }
        Some(self.depth_at(x, y, parameter))
    }
}

// ---------------------------------------------------------------------------
// Checking a frame before fixing it.
// ---------------------------------------------------------------------------

/// The greatest common divisor of two naturals, not both zero, is positive
/// and divides both.
pub(crate) proof fn lemma_gcd_divides(a: nat, b: nat)
    requires
        a > 0 || b > 0,
    ensures
        gcd(a, b) > 0,
        a % gcd(a, b) == 0,
        b % gcd(a, b) == 0,
    decreases b,
{
    if b > 0 {
        let r = a % b;
        lemma_gcd_divides(b, r);
        let g = gcd(b, r);
        assert(gcd(a, b) == g);
        vstd::arithmetic::div_mod::lemma_fundamental_div_mod(a as int, b as int);
        vstd::arithmetic::div_mod::lemma_fundamental_div_mod(b as int, g as int);
        vstd::arithmetic::div_mod::lemma_fundamental_div_mod(r as int, g as int);
        let k = (a as int / b as int) * (b as int / g as int) + (r as int / g as int);
        assert(a as int == k * g) by (nonlinear_arith)
            requires
                a as int == b as int * (a as int / b as int) + r as int,
                b as int == g as int * (b as int / g as int),
                r as int == g as int * (r as int / g as int),
                k == (a as int / b as int) * (b as int / g as int) + (r as int / g as int),
        ;
        vstd::arithmetic::div_mod::lemma_mod_multiples_basic(k, g as int);
    }
}

/// The least common multiple of two positive naturals is their product over
/// their greatest common divisor, and at least either of them.
pub(crate) proof fn lemma_lcm_bounds(a: nat, b: nat)
    requires
        a > 0,
        b > 0,
    ensures
        gcd(a, b) > 0,
        lcm(a, b) == a * b / gcd(a, b),
        lcm(a, b) >= a,
        lcm(a, b) >= b,
{
    lemma_gcd_divides(a, b);
    let g = gcd(a, b);
    vstd::arithmetic::div_mod::lemma_fundamental_div_mod(b as int, g as int);
    vstd::arithmetic::div_mod::lemma_fundamental_div_mod(a as int, g as int);
    assert(g <= b && g <= a) by (nonlinear_arith)
        requires
            b as int == g as int * (b as int / g as int),
            a as int == g as int * (a as int / g as int),
            a > 0,
            b > 0,
            g > 0,
    ;
    vstd::arithmetic::div_mod::lemma_fundamental_div_mod((a * b) as int, g as int);
    let q = (a * b) as int / g as int;
    let r = (a * b) as int % g as int;
    vstd::arithmetic::div_mod::lemma_mod_pos_bound((a * b) as int, g as int);
    assert(q >= a && q >= b) by (nonlinear_arith)
        requires
            (a * b) as int == g as int * q + r,
            0 <= r < g,
            0 < g <= a,
            g <= b,
            a > 0,
            b > 0,
    ;
}

/// Euclid's greatest common divisor is an integer combination of its
/// arguments.
proof fn lemma_gcd_combination(a: nat, b: nat) -> (coefficients: (int, int))
    ensures
        coefficients.0 * a + coefficients.1 * b == gcd(a, b),
    decreases b,
{
    if b == 0 {
        (1, 0)
    } else {
        let (s, t) = lemma_gcd_combination(b, a % b);
        vstd::arithmetic::div_mod::lemma_fundamental_div_mod(a as int, b as int);
        let q = a as int / b as int;
        assert(t * a + (s - t * q) * b == s * b + t * (a % b)) by (nonlinear_arith)
            requires
                a as int == b as int * q + (a % b) as int,
        ;
        (t, s - t * q)
    }
}

/// The least common multiple of two positive naturals divides each of their
/// positive common multiples, so it is the least of them.
pub(crate) proof fn lemma_lcm_divides(a: nat, b: nat, multiple: int)
    requires
        a > 0,
        b > 0,
        multiple > 0,
        multiple % (a as int) == 0,
        multiple % (b as int) == 0,
    ensures
        multiple % (lcm(a, b) as int) == 0,
        lcm(a, b) <= multiple,
{
    lemma_lcm_bounds(a, b);
    lemma_gcd_divides(a, b);
    let g = gcd(a, b) as int;
    let (s, t) = lemma_gcd_combination(a, b);
    vstd::arithmetic::div_mod::lemma_fundamental_div_mod(multiple, a as int);
    vstd::arithmetic::div_mod::lemma_fundamental_div_mod(multiple, b as int);
    vstd::arithmetic::div_mod::lemma_fundamental_div_mod(a as int, g);
    let (k1, k2) = (multiple / (a as int), multiple / (b as int));
    let a1 = a as int / g;
    let l = a1 * b;
    let q = s * k2 + t * k1;
    let (ai, bi) = (a as int, b as int);
    assert(g * multiple == s * (ai * multiple) + t * (bi * multiple)) by (nonlinear_arith)
        requires
            s * ai + t * bi == g,
    ;
    let ab = ai * bi;
    assert(s * (ai * (bi * k2)) == ab * (s * k2)) by {
        vstd::arithmetic::mul::lemma_mul_is_associative(ai, bi, k2);
        vstd::arithmetic::mul::lemma_mul_is_associative(s, ab, k2);
        vstd::arithmetic::mul::lemma_mul_is_commutative(s, ab);
        vstd::arithmetic::mul::lemma_mul_is_associative(ab, s, k2);
    }
    assert(t * (bi * (ai * k1)) == ab * (t * k1)) by {
        vstd::arithmetic::mul::lemma_mul_is_associative(bi, ai, k1);
        vstd::arithmetic::mul::lemma_mul_is_commutative(bi, ai);
        vstd::arithmetic::mul::lemma_mul_is_associative(t, ab, k1);
        vstd::arithmetic::mul::lemma_mul_is_commutative(t, ab);
        vstd::arithmetic::mul::lemma_mul_is_associative(ab, t, k1);
    }
    vstd::arithmetic::mul::lemma_mul_is_distributive_add(ab, s * k2, t * k1);
    assert(ai * bi == g * l) by (nonlinear_arith)
        requires
            ai == g * a1,
            l == a1 * bi,
    ;
    assert(ai * multiple == ai * (bi * k2) && bi * multiple == bi * (ai * k1));
    assert(ab * q == g * (l * q)) by {
        vstd::arithmetic::mul::lemma_mul_is_associative(g, l, q);
    }
    assert(g * multiple == g * (l * q));
    assert(multiple == l * q) by (nonlinear_arith)
        requires
            g * multiple == g * (l * q),
            g > 0,
    ;
    assert(a as int * b as int == g * l) by (nonlinear_arith)
        requires
            a == g * a1,
            l == a1 * b,
    ;
    vstd::arithmetic::div_mod::lemma_div_multiples_vanish(l, g);
    assert(lcm(a, b) as int == l) by (nonlinear_arith)
        requires
            lcm(a, b) as int == (a * b) as int / g,
            (g * l) / g == l,
            a as int * b as int == g * l,
    ;
    assert(q >= 1) by (nonlinear_arith)
        requires
            multiple == l * q,
            multiple > 0,
            l > 0,
    ;
    vstd::arithmetic::div_mod::lemma_mod_multiples_basic(q, l);
    assert(l * q == q * l) by (nonlinear_arith);
    assert(l <= multiple) by (nonlinear_arith)
        requires
            multiple == l * q,
            q >= 1,
            l > 0,
    ;
}

/// The least common multiple of two positive naturals is a multiple of each.
pub(crate) proof fn lemma_lcm_multiple(a: nat, b: nat)
    requires
        a > 0,
        b > 0,
    ensures
        lcm(a, b) as int % (a as int) == 0,
        lcm(a, b) as int % (b as int) == 0,
{
    lemma_lcm_bounds(a, b);
    lemma_gcd_divides(a, b);
    let g = gcd(a, b) as int;
    let (ai, bi) = (a as int, b as int);
    vstd::arithmetic::div_mod::lemma_fundamental_div_mod(ai, g);
    vstd::arithmetic::div_mod::lemma_fundamental_div_mod(bi, g);
    let (a1, b1) = (ai / g, bi / g);
    assert(ai * bi == g * (a1 * bi) && ai * bi == g * (ai * b1)) by (nonlinear_arith)
        requires
            ai == g * a1,
            bi == g * b1,
    ;
    vstd::arithmetic::div_mod::lemma_div_multiples_vanish(a1 * bi, g);
    vstd::arithmetic::div_mod::lemma_div_multiples_vanish(ai * b1, g);
    assert(lcm(a, b) as int == a1 * bi && lcm(a, b) as int == ai * b1);
    vstd::arithmetic::div_mod::lemma_mod_multiples_basic(a1, bi);
    vstd::arithmetic::div_mod::lemma_mod_multiples_basic(b1, ai);
    vstd::arithmetic::mul::lemma_mul_is_commutative(a1, bi);
    vstd::arithmetic::mul::lemma_mul_is_commutative(ai, b1);
}

/// The greatest common divisor, by Euclid's algorithm.
fn gcd_of(a: u64, b: u64) -> (g: u64)
    ensures
        g == gcd(a as nat, b as nat),
{
    let mut x = a;
    let mut y = b;
    while y != 0
        invariant
            gcd(x as nat, y as nat) == gcd(a as nat, b as nat),
        decreases y,
    {
        let r = x % y;
        x = y;
        y = r;
    }
    x
}

/// The least common multiple of two positive denominators.
pub(crate) fn lcm_of(a: u64, b: u64) -> (l: u128)
    requires
        a > 0,
        b > 0,
    ensures
        l == lcm(a as nat, b as nat),
{
    let g = gcd_of(a, b);
    proof {
        lemma_lcm_bounds(a as nat, b as nat);
        assert(a as nat * b as nat <= u64::MAX as nat * u64::MAX as nat) by (nonlinear_arith)
            requires
                a <= u64::MAX,
                b <= u64::MAX,
        ;
        assert(u64::MAX as nat * u64::MAX as nat <= u128::MAX);
    }
    (a as u128 * b as u128) / (g as u128)
}

/// The integer numerator, over the common denominator `d`, of the offset
/// `constant + step_x * x + step_y * y`.
pub open spec fn corner_numerator(constant: Frac, step_x: Frac, step_y: Frac, d: int, x: int, y: int) -> int {
    constant.n * (d / constant.d) + step_x.n * (d / step_x.d) * x + step_y.n * (d / step_y.d) * y
}

/// The offset `constant + step_x * x + step_y * y`, over the least common
/// denominator of its parts, has that denominator and its numerators at the
/// four corner pixels `(0 or last_x, 0 or last_y)` within 2^53.
pub open spec fn offset_certified(constant: Frac, step_x: Frac, step_y: Frac, last_x: int, last_y: int) -> bool {
    let d = lcm(lcm(constant.d as nat, step_x.d as nat), step_y.d as nat);
    &&& d <= MAX_F64_EXACT_INT
    &&& forall|x: int, y: int|
        (x == 0 || x == last_x) && (y == 0 || y == last_y) ==> abs(
            #[trigger] corner_numerator(constant, step_x, step_y, d as int, x, y),
        ) <= MAX_F64_EXACT_INT
}

fn magnitude(value: i128) -> (result: i128)
    requires
        value > i128::MIN,
    ensures
        result == abs(value as int),
{
    if value < 0 {
        -value
    } else {
        value
    }
}

/// Whether an offset, in lowest terms, is certified over the frame whose
/// last pixel is `(last_x, last_y)`.
fn offset_certified_now(constant: Rational, step_x: Rational, step_y: Rational, last_x: u32, last_y: u32) -> (certified:
    bool)
    requires
        constant.wf(),
        step_x.wf(),
        step_y.wf(),
    ensures
        certified == offset_certified(constant@, step_x@, step_y@, last_x as int, last_y as int),
{
    let (cn, cd) = (constant.numer(), constant.denom());
    let (xn, xd) = (step_x.numer(), step_x.denom());
    let (yn, yd) = (step_y.numer(), step_y.denom());
    let ghost (c, sx, sy) = (constant@, step_x@, step_y@);
    let bound: i128 = MAX_F64_EXACT_INT;
    let inner = lcm_of(cd as u64, xd as u64);
    proof {
        lemma_lcm_bounds(cd as nat, xd as nat);
    }
    if inner > bound as u128 {
        proof {
            lemma_lcm_bounds(inner as nat, yd as nat);
        }
        return false;
    }
    let whole = lcm_of(inner as u64, yd as u64);
    proof {
        lemma_lcm_bounds(inner as nat, yd as nat);
    }
    if whole > bound as u128 {
        return false;
    }
    let d = whole as i128;
    let ghost dd = d as int;
    proof {
        assert(0 <= dd / (cd as int) <= dd && 0 <= dd / (xd as int) <= dd && 0 <= dd / (yd as int) <= dd) by (
        nonlinear_arith)
            requires
                0 <= dd,
                cd >= 1,
                xd >= 1,
                yd >= 1,
        ;
        assert(abs(cn as int) * (dd / (cd as int)) <= 0x8000_0000_0000_0000 * 0x20_0000_0000_0000)
            by (nonlinear_arith)
            requires
                abs(cn as int) <= 0x8000_0000_0000_0000,
                0 <= dd / (cd as int) <= 0x20_0000_0000_0000,
        ;
        assert(abs(xn as int) * (dd / (xd as int)) <= 0x8000_0000_0000_0000 * 0x20_0000_0000_0000)
            by (nonlinear_arith)
            requires
                abs(xn as int) <= 0x8000_0000_0000_0000,
                0 <= dd / (xd as int) <= 0x20_0000_0000_0000,
        ;
        assert(abs(yn as int) * (dd / (yd as int)) <= 0x8000_0000_0000_0000 * 0x20_0000_0000_0000)
            by (nonlinear_arith)
            requires
                abs(yn as int) <= 0x8000_0000_0000_0000,
                0 <= dd / (yd as int) <= 0x20_0000_0000_0000,
        ;
        assert(abs(cn as int * (dd / (cd as int))) == abs(cn as int) * (dd / (cd as int))) by (nonlinear_arith)
            requires
                0 <= dd / (cd as int),
        ;
        assert(abs(xn as int * (dd / (xd as int))) == abs(xn as int) * (dd / (xd as int))) by (nonlinear_arith)
            requires
                0 <= dd / (xd as int),
        ;
        assert(abs(yn as int * (dd / (yd as int))) == abs(yn as int) * (dd / (yd as int))) by (nonlinear_arith)
            requires
                0 <= dd / (yd as int),
        ;
    }
    let base = cn as i128 * (d / cd as i128);
    let per_x = xn as i128 * (d / xd as i128);
    let per_y = yn as i128 * (d / yd as i128);
    let ghost numerator = |x: int, y: int| corner_numerator(c, sx, sy, dd, x, y);
    proof {
        assert(numerator(0, 0) == base as int + per_x as int * 0 + per_y as int * 0);
    }
    if magnitude(base) > bound {
        proof {
            assert(numerator(0, 0) == base as int) by (nonlinear_arith)
                requires
                    numerator(0, 0) == base as int + per_x as int * 0 + per_y as int * 0,
            ;
        }
        return false;
    }
    if last_x > 0 && magnitude(per_x) > 2 * bound {
        proof {
            let n = numerator(last_x as int, 0);
            assert(n == base as int + per_x as int * last_x as int + per_y as int * 0);
            assert(abs(n) > MAX_F64_EXACT_INT) by (nonlinear_arith)
                requires
                    n == base as int + per_x as int * last_x as int + per_y as int * 0,
                    abs(base as int) <= MAX_F64_EXACT_INT,
                    abs(per_x as int) > 2 * MAX_F64_EXACT_INT,
                    last_x >= 1,
            ;
        }
        return false;
    }
    if last_y > 0 && magnitude(per_y) > 2 * bound {
        proof {
            let n = numerator(0, last_y as int);
            assert(n == base as int + per_x as int * 0 + per_y as int * last_y as int);
            assert(abs(n) > MAX_F64_EXACT_INT) by (nonlinear_arith)
                requires
                    n == base as int + per_x as int * 0 + per_y as int * last_y as int,
                    abs(base as int) <= MAX_F64_EXACT_INT,
                    abs(per_y as int) > 2 * MAX_F64_EXACT_INT,
                    last_y >= 1,
            ;
        }
        return false;
    }
    proof {
        assert(abs(per_x as int * last_x as int) <= 2 * MAX_F64_EXACT_INT * 0xffff_ffff) by (nonlinear_arith)
            requires
                last_x == 0 || abs(per_x as int) <= 2 * MAX_F64_EXACT_INT,
                0 <= last_x <= 0xffff_ffff,
        ;
        assert(abs(per_y as int * last_y as int) <= 2 * MAX_F64_EXACT_INT * 0xffff_ffff) by (nonlinear_arith)
            requires
                last_y == 0 || abs(per_y as int) <= 2 * MAX_F64_EXACT_INT,
                0 <= last_y <= 0xffff_ffff,
        ;
    }
    let along_x = per_x * last_x as i128;
    let along_y = per_y * last_y as i128;
    let corners = [base, base + along_x, base + along_y, base + along_x + along_y];
    let (m1, m2, m3) = (magnitude(corners[1]), magnitude(corners[2]), magnitude(corners[3]));
    let certified = m1 <= bound && m2 <= bound && m3 <= bound;
    proof {
        assert forall|x: int, y: int| (x == 0 || x == last_x) && (y == 0 || y == last_y) implies #[trigger] corner_numerator(
            c,
            sx,
            sy,
            dd,
            x,
            y,
        ) == base as int + (if x == 0 { 0 } else { along_x as int }) + (if y == 0 { 0 } else { along_y as int }) by {
            assert(corner_numerator(c, sx, sy, dd, x, y) == base as int + per_x as int * x + per_y as int * y);
            if x == 0 {
                assert(per_x as int * x == 0);
            }
            if y == 0 {
                assert(per_y as int * y == 0);
            }
        }
        if certified {
            assert forall|x: int, y: int| (x == 0 || x == last_x) && (y == 0 || y == last_y) implies abs(
                #[trigger] corner_numerator(c, sx, sy, dd, x, y),
            ) <= MAX_F64_EXACT_INT by {
                assert(numerator(x, y) == corner_numerator(c, sx, sy, dd, x, y));
            }
        } else {
            if m1 > bound {
                assert(numerator(last_x as int, 0) == corner_numerator(c, sx, sy, dd, last_x as int, 0));
            } else if m2 > bound {
                assert(numerator(0, last_y as int) == corner_numerator(c, sx, sy, dd, 0, last_y as int));
            } else {
                assert(numerator(last_x as int, last_y as int) == corner_numerator(
                    c,
                    sx,
                    sy,
                    dd,
                    last_x as int,
                    last_y as int,
                ));
            }
        }
    }
    certified
}

impl PreparedInverse {
    /// Over the value `constant` of a solved variable's offset at the frame
    /// origin, in lowest terms, its denominator and corner numerators are
    /// those `offset_certified` checks.
    proof fn lemma_offset_terms(&self, variable: int, sx0: Frac, sy0: Frac, constant: Frac)
        requires
            self.wf(),
            variable == self.pivot().0 || variable == self.pivot().1,
            constant.d > 0,
            coprime(constant.n, constant.d),
            ({
                let offset = self.offset_of(variable);
                &&& same_value(constant, affine(offset.0, offset.1, offset.2, sx0, sy0))
                &&& affine(offset.0, offset.1, offset.2, sx0, sy0).d > 0
            }),
        ensures
            ({
                let offset = self.offset_of(variable);
                let d = lcm(lcm(constant.d as nat, offset.1.d as nat), offset.2.d as nat);
                &&& self.pixel_denominator(variable, sx0, sy0) == d
                &&& forall|x: int, y: int|
                    #[trigger] self.pixel_numerator(variable, sx0, sy0, x, y) == corner_numerator(
                        constant,
                        offset.1,
                        offset.2,
                        d as int,
                        x,
                        y,
                    )
            }),
    {
        let offset = self.offset_of(variable);
        assert(self.first_offset[1].wf() && self.first_offset[2].wf());
        assert(self.second_offset[1].wf() && self.second_offset[2].wf());
        lemma_lowest(constant, affine(offset.0, offset.1, offset.2, sx0, sy0));
        lemma_lowest(offset.1, offset.1);
        lemma_lowest(offset.2, offset.2);
    }

    /// Whether `inverse_frame` accepts the frame of `width` by `height`
    /// pixels at screen origin `(sx0, sy0)`: placing the solved offsets
    /// there stays in `i64`, and over the frame every offset converts to
    /// `f64` exactly.
    pub fn frame_accepted(&self, sx0: Rational, sy0: Rational, width: u32, height: u32) -> (accepted: bool)
        requires
            self.wf(),
            sx0.wf(),
            sy0.wf(),
        ensures
            accepted == (self.frame_fits(sx0@, sy0@) && self.frame_certified(
                sx0@,
                sy0@,
                width as int,
                height as int,
            )),
    {
        let ghost (first, second, free) = self.pivot();
        proof {
            assert(self.first_offset[0].wf() && self.first_offset[1].wf() && self.first_offset[2].wf());
            assert(self.second_offset[0].wf() && self.second_offset[1].wf() && self.second_offset[2].wf());
            assert(self.offset_of(first) == self.first_offset_of());
            assert(self.offset_of(second) == self.second_offset_of());
        }
        let (f0, f1, f2) = (self.first_offset[0], self.first_offset[1], self.first_offset[2]);
        let (s0, s1, s2) = (self.second_offset[0], self.second_offset[1], self.second_offset[2]);
        let fits = affine_fits_now(f0, f1, f2, sx0, sy0) && affine_fits_now(s0, s1, s2, sx0, sy0);
        if !fits {
            proof {
                if affine_fits(f0@, f1@, f2@, sx0@, sy0@) {
                    let offset = self.offset_of(second);
                    assert(!affine_fits(offset.0, offset.1, offset.2, sx0@, sy0@));
                } else {
                    let offset = self.offset_of(first);
                    assert(!affine_fits(offset.0, offset.1, offset.2, sx0@, sy0@));
                }
            }
            return false;
        }
        proof {
            assert forall|variable: int| 0 <= variable < 3 && variable != self.pivot().2 implies {
                let offset = #[trigger] self.offset_of(variable);
                affine_fits(offset.0, offset.1, offset.2, sx0@, sy0@)
            } by {
                assert(variable == first || variable == second);
            }
        }
        let first_constant = affine_value(f0, f1, f2, sx0, sy0);
        let second_constant = affine_value(s0, s1, s2, sx0, sy0);
        let last_x = if width > 0 {
            width - 1
        } else {
            0
        };
        let last_y = if height > 0 {
            height - 1
        } else {
            0
        };
        let first_certified = offset_certified_now(first_constant, f1, f2, last_x, last_y);
        let second_certified = offset_certified_now(second_constant, s1, s2, last_x, last_y);
        proof {
            self.lemma_offset_terms(first, sx0@, sy0@, first_constant@);
            self.lemma_offset_terms(second, sx0@, sy0@, second_constant@);
            let certified = self.frame_certified(sx0@, sy0@, width as int, height as int);
            if first_certified && second_certified {
                assert forall|variable: int| 0 <= variable < 3 && variable != self.pivot().2 implies {
                    &&& #[trigger] self.pixel_denominator(variable, sx0@, sy0@) <= MAX_F64_EXACT_INT
                    &&& forall|x: int, y: int|
                        (x == 0 || x == last_x) && (y == 0 || y == last_y) ==> abs(
                            #[trigger] self.pixel_numerator(variable, sx0@, sy0@, x, y),
                        ) <= MAX_F64_EXACT_INT
                } by {
                    assert(variable == first || variable == second);
                }
                assert(certified);
            } else {
                let variable = if first_certified {
                    second
                } else {
                    first
                };
                let constant = if first_certified {
                    second_constant@
                } else {
                    first_constant@
                };
                let offset = self.offset_of(variable);
                assert(!offset_certified(constant, offset.1, offset.2, last_x as int, last_y as int));
                if self.pixel_denominator(variable, sx0@, sy0@) <= MAX_F64_EXACT_INT {
                    let d = lcm(lcm(constant.d as nat, offset.1.d as nat), offset.2.d as nat);
                    let (x, y) = choose|x: int, y: int|
                        (x == 0 || x == last_x) && (y == 0 || y == last_y) && abs(
                            #[trigger] corner_numerator(constant, offset.1, offset.2, d as int, x, y),
                        ) > MAX_F64_EXACT_INT;
                    assert(abs(self.pixel_numerator(variable, sx0@, sy0@, x, y)) > MAX_F64_EXACT_INT);
                }
                assert(!certified);
            }
        }
        first_certified && second_certified
    }

    /// The frame `inverse_frame` fixes, where it accepts the frame; `None`
    /// where placing the offsets would leave `i64` or an offset over the
    /// frame would not convert to `f64` exactly.
    pub fn checked_inverse_frame(&self, sx0: Rational, sy0: Rational, width: u32, height: u32) -> (frame: Option<
        FrameInverse,
    >)
        requires
            self.wf(),
            sx0.wf(),
            sy0.wf(),
        ensures
            frame is None <==> !(self.frame_fits(sx0@, sy0@) && self.frame_certified(
                sx0@,
                sy0@,
                width as int,
                height as int,
            )),
            frame matches Some(f) ==> f.wf() && frames(*self, sx0@, sy0@, f),
    {
        if self.frame_accepted(sx0, sy0, width, height) {
            Some(self.inverse_frame(sx0, sy0, width, height))
        } else {
            None
        }
    }
}

// ---------------------------------------------------------------------------
// Checking the pivot factoring before running it.
// ---------------------------------------------------------------------------

/// A fraction computed naively, its numerator and denominator kept apart.
pub open spec fn raw(pair: (i128, i128)) -> Frac {
    Frac { n: pair.0 as int, d: pair.1 as int }
}

/// Numerator and denominator within `i64`'s magnitudes, the denominator
/// positive.
pub open spec fn small(value: Frac) -> bool {
    &&& abs(value.n) <= 0x8000_0000_0000_0000
    &&& 0 < value.d <= i64::MAX
}

proof fn lemma_small_products(a: Frac, b: Frac)
    requires
        small(a),
        small(b),
    ensures
        abs(a.n * b.d) < 0x4000_0000_0000_0000_0000_0000_0000_0000,
        abs(b.n * a.d) < 0x4000_0000_0000_0000_0000_0000_0000_0000,
        abs(a.n * b.n) <= 0x4000_0000_0000_0000_0000_0000_0000_0000,
        0 < a.d * b.d < 0x4000_0000_0000_0000_0000_0000_0000_0000,
        abs(a.n) * b.d == abs(a.n * b.d),
        abs(b.n) * a.d == abs(b.n * a.d),
{
    assert(abs(a.n * b.d) < 0x4000_0000_0000_0000_0000_0000_0000_0000 && abs(a.n) * b.d == abs(a.n * b.d)) by (
    nonlinear_arith)
        requires
            abs(a.n) <= 0x8000_0000_0000_0000,
            0 < b.d <= i64::MAX,
    ;
    assert(abs(b.n * a.d) < 0x4000_0000_0000_0000_0000_0000_0000_0000 && abs(b.n) * a.d == abs(b.n * a.d)) by (
    nonlinear_arith)
        requires
            abs(b.n) <= 0x8000_0000_0000_0000,
            0 < a.d <= i64::MAX,
    ;
    assert(abs(a.n * b.n) <= 0x4000_0000_0000_0000_0000_0000_0000_0000) by (nonlinear_arith)
        requires
            abs(a.n) <= 0x8000_0000_0000_0000,
            abs(b.n) <= 0x8000_0000_0000_0000,
    ;
    assert(0 < a.d * b.d < 0x4000_0000_0000_0000_0000_0000_0000_0000) by (nonlinear_arith)
        requires
            0 < a.d <= i64::MAX,
            0 < b.d <= i64::MAX,
    ;
}

fn raw_of(value: Rational) -> (pair: (i128, i128))
    requires
        value.wf(),
    ensures
        raw(pair) == value@,
        small(value@),
{
    (value.numer() as i128, value.denom() as i128)
}

fn raw_mul(a: (i128, i128), b: (i128, i128)) -> (product: (i128, i128))
    requires
        small(raw(a)),
        small(raw(b)),
    ensures
        raw(product) == frac_mul(raw(a), raw(b)),
{
    proof {
        lemma_small_products(raw(a), raw(b));
    }
    (a.0 * b.0, a.1 * b.1)
}

fn raw_add(a: (i128, i128), b: (i128, i128)) -> (sum: (i128, i128))
    requires
        small(raw(a)),
        small(raw(b)),
    ensures
        raw(sum) == frac_add(raw(a), raw(b)),
{
    proof {
        lemma_small_products(raw(a), raw(b));
    }
    (a.0 * b.1 + b.0 * a.1, a.1 * b.1)
}

fn raw_sub(a: (i128, i128), b: (i128, i128)) -> (difference: (i128, i128))
    requires
        small(raw(a)),
        small(raw(b)),
    ensures
        raw(difference) == frac_sub(raw(a), raw(b)),
{
    proof {
        lemma_small_products(raw(a), raw(b));
    }
    (a.0 * b.1 - b.0 * a.1, a.1 * b.1)
}

fn raw_neg(a: (i128, i128)) -> (negated: (i128, i128))
    requires
        small(raw(a)),
    ensures
        raw(negated) == frac_neg(raw(a)),
{
    (-a.0, a.1)
}

fn raw_div(a: (i128, i128), b: (i128, i128)) -> (quotient: (i128, i128))
    requires
        small(raw(a)),
        small(raw(b)),
    ensures
        raw(quotient) == frac_div(raw(a), raw(b)),
{
    proof {
        lemma_small_products(raw(a), raw(b));
        assert(abs(a.1 as int * b.0 as int) < 0x4000_0000_0000_0000_0000_0000_0000_0000) by (nonlinear_arith)
            requires
                abs(b.0 as int) <= 0x8000_0000_0000_0000,
                0 < a.1 <= i64::MAX,
        ;
    }
    if b.0 >= 0 {
        (a.0 * b.1, a.1 * b.0)
    } else {
        (-(a.0 * b.1), -(a.1 * b.0))
    }
}

fn raw_magnitude(value: i128) -> (result: i128)
    requires
        abs(value as int) <= 0x4000_0000_0000_0000_0000_0000_0000_0000,
    ensures
        result == abs(value as int),
{
    if value < 0 {
        -value
    } else {
        value
    }
}

fn mul_fits_now(a: (i128, i128), b: (i128, i128)) -> (fits: bool)
    requires
        small(raw(a)),
        small(raw(b)),
    ensures
        fits == mul_fits(raw(a), raw(b)),
        fits ==> small(frac_mul(raw(a), raw(b))),
{
    proof {
        lemma_small_products(raw(a), raw(b));
    }
    raw_magnitude(a.0 * b.0) <= i64::MAX as i128 && a.1 * b.1 <= i64::MAX as i128
}

fn add_fits_now(a: (i128, i128), b: (i128, i128)) -> (fits: bool)
    requires
        small(raw(a)),
        small(raw(b)),
    ensures
        fits == add_fits(raw(a), raw(b)),
        fits ==> small(frac_add(raw(a), raw(b))) && small(frac_sub(raw(a), raw(b))),
{
    proof {
        lemma_small_products(raw(a), raw(b));
    }
    raw_magnitude(a.0) * b.1 + raw_magnitude(b.0) * a.1 <= i64::MAX as i128 && a.1 * b.1 <= i64::MAX as i128
}

fn div_fits_now(a: (i128, i128), b: (i128, i128)) -> (fits: bool)
    requires
        small(raw(a)),
        small(raw(b)),
    ensures
        fits == div_fits(raw(a), raw(b)),
        fits ==> small(frac_div(raw(a), raw(b))),
{
    proof {
        lemma_small_products(raw(a), raw(b));
        assert(abs(b.0 as int) * a.1 as int == abs(b.0 as int * a.1 as int)) by (nonlinear_arith)
            requires
                0 < a.1,
        ;
        assert(b.0 > 0 ==> a.1 as int * b.0 as int == abs(b.0 as int) * a.1 as int && a.1 as int * b.0 as int > 0)
            by (nonlinear_arith)
            requires
                0 < a.1,
        ;
        assert(b.0 < 0 ==> -(a.1 as int * b.0 as int) == abs(b.0 as int) * a.1 as int && -(a.1 as int
            * b.0 as int) > 0) by (nonlinear_arith)
            requires
                0 < a.1,
        ;
        assert(abs(a.0 as int) * b.1 as int == abs(a.0 as int * b.1 as int));
    }
    b.0 != 0 && raw_magnitude(a.0) * b.1 <= i64::MAX as i128 && raw_magnitude(b.0) * a.1 <= i64::MAX as i128 && a.1
        * b.1 <= i64::MAX as i128
}

impl WarpCoefficients {
    fn column_now(&self, variable: usize) -> (column: ((i128, i128), (i128, i128)))
        requires
            self.wf(),
            variable < 3,
        ensures
            raw(column.0) == self.column(variable as int).0,
            raw(column.1) == self.column(variable as int).1,
            small(raw(column.0)),
            small(raw(column.1)),
    {
        proof {
            assert(self.screen[0][0].wf() && self.screen[1][0].wf());
            assert(self.screen[0][1].wf() && self.screen[1][1].wf());
        }
        if variable == 0 {
            (raw_of(self.screen[0][0]), raw_of(self.screen[1][0]))
        } else if variable == 1 {
            (raw_of(self.screen[0][1]), raw_of(self.screen[1][1]))
        } else {
            (raw_of(self.parallax[0]), raw_of(self.parallax[1]))
        }
    }

    /// The minor on `first` and `second`, computed naively, when every step
    /// of it fits `i64`.
    fn minor_now(&self, first: usize, second: usize) -> (minor: Option<(i128, i128)>)
        requires
            self.wf(),
            first < 3,
            second < 3,
        ensures
            match minor {
                Some(det) => self.minor_fits(first as int, second as int) && raw(det) == self.minor(
                    first as int,
                    second as int,
                ) && small(raw(det)),
                None => !self.minor_fits(first as int, second as int),
            },
    {
        let (cf0, cf1) = self.column_now(first);
        let (cs0, cs1) = self.column_now(second);
        if !(mul_fits_now(cf0, cs1) && mul_fits_now(cs0, cf1)) {
            return None;
        }
        let p = raw_mul(cf0, cs1);
        let q = raw_mul(cs0, cf1);
        if !add_fits_now(p, q) {
            return None;
        }
        let det = raw_sub(p, q);
        if raw_magnitude(det.0) > i64::MAX as i128 {
            return None;
        }
        Some(det)
    }

    /// Whether every step of the factoring on this pivot fits `i64`.
    #[verifier::rlimit(60)]
    fn pivot_fits_now(&self, first: usize, second: usize, free: usize, det: (i128, i128)) -> (fits: bool)
        requires
            self.wf(),
            candidate(0) == (first as int, second as int, free as int) || candidate(1) == (
                first as int,
                second as int,
                free as int,
            ) || candidate(2) == (first as int, second as int, free as int),
            raw(det) == self.minor(first as int, second as int),
            small(raw(det)),
        ensures
            fits == self.pivot_fits(first as int, second as int, free as int),
    {
        proof {
            assert(self.screen[0][2].wf() && self.screen[1][2].wf());
            assert(self.depth_plane[0].wf() && self.depth_plane[1].wf() && self.depth_plane[2].wf());
        }
        let s0 = raw_of(self.screen[0][2]);
        let s1 = raw_of(self.screen[1][2]);
        let (cf0, cf1) = self.column_now(first);
        let (cs0, cs1) = self.column_now(second);
        let (cfr0, cfr1) = self.column_now(free);
        let d0 = raw_of(self.depth_plane[0]);
        let d1 = raw_of(self.depth_plane[1]);
        let relief = raw_of(self.depth_relief);
        if !(mul_fits_now(cs0, s1) && mul_fits_now(s0, cs1)) {
            return false;
        }
        let a1 = raw_mul(cs0, s1);
        let b1 = raw_mul(s0, cs1);
        if !add_fits_now(a1, b1) {
            return false;
        }
        if !div_fits_now(raw_sub(a1, b1), det) {
            return false;
        }
        if !div_fits_now(cs1, det) || raw_magnitude(cs0.0) > i64::MAX as i128 {
            return false;
        }
        if !div_fits_now(raw_neg(cs0), det) {
            return false;
        }
        if !(mul_fits_now(s0, cf1) && mul_fits_now(cf0, s1)) {
            return false;
        }
        let a4 = raw_mul(s0, cf1);
        let b4 = raw_mul(cf0, s1);
        if !add_fits_now(a4, b4) {
            return false;
        }
        if !div_fits_now(raw_sub(a4, b4), det) {
            return false;
        }
        if raw_magnitude(cf1.0) > i64::MAX as i128 || !div_fits_now(raw_neg(cf1), det) || !div_fits_now(cf0, det) {
            return false;
        }
        if raw_magnitude(cfr0.0) > i64::MAX as i128 {
            return false;
        }
        let ncfr0 = raw_neg(cfr0);
        if !(mul_fits_now(ncfr0, cs1) && mul_fits_now(cs0, cfr1)) {
            return false;
        }
        let a7 = raw_mul(ncfr0, cs1);
        let b7 = raw_mul(cs0, cfr1);
        if !add_fits_now(a7, b7) {
            return false;
        }
        let e9 = raw_add(a7, b7);
        if !div_fits_now(e9, det) {
            return false;
        }
        let first_slope = raw_div(e9, det);
        if raw_magnitude(cf0.0) > i64::MAX as i128 {
            return false;
        }
        let ncf0 = raw_neg(cf0);
        if !(mul_fits_now(ncf0, cfr1) && mul_fits_now(cfr0, cf1)) {
            return false;
        }
        let a10 = raw_mul(ncf0, cfr1);
        let b10 = raw_mul(cfr0, cf1);
        if !add_fits_now(a10, b10) {
            return false;
        }
        let e12 = raw_add(a10, b10);
        if !div_fits_now(e12, det) {
            return false;
        }
        let second_slope = raw_div(e12, det);
        let ghost slope = |variable: int| self.slope_formula(first as int, second as int, free as int, variable);
        let slope0 = pick_slope(0, first, second, free, first_slope, second_slope);
        let slope1 = pick_slope(1, first, second, free, first_slope, second_slope);
        let slope2 = pick_slope(2, first, second, free, first_slope, second_slope);
        proof {
            assert(raw(slope0) == slope(0) && raw(slope1) == slope(1) && raw(slope2) == slope(2));
        }
        if !(mul_fits_now(d0, slope0) && mul_fits_now(d1, slope1)) {
            return false;
        }
        let a13 = raw_mul(d0, slope0);
        let b13 = raw_mul(d1, slope1);
        if !add_fits_now(a13, b13) {
            return false;
        }
        if !mul_fits_now(relief, slope2) {
            return false;
        }
        add_fits_now(raw_add(a13, b13), raw_mul(relief, slope2))
    }

    /// Whether `prepare_inverse` stays in `i64` at every step: the minors of
    /// all three candidates, and the factoring on the pivot it picks.
    pub fn prepare_accepted(&self) -> (accepted: bool)
        requires
            self.wf(),
        ensures
            accepted == self.prepare_fits(),
    {
        let mut minors: Vec<(i128, i128)> = Vec::new();
        let mut index: usize = 0;
        while index < 3
            invariant
                self.wf(),
                index <= 3,
                minors@.len() == index,
                forall|i: int|
                    0 <= i < index ==> {
                        let (first, second, free) = #[trigger] candidate(i);
                        &&& self.minor_fits(first, second)
                        &&& raw(minors@[i]) == self.minor(first, second)
                        &&& small(raw(minors@[i]))
                    },
            decreases 3 - index,
        {
            let (first, second): (usize, usize) = if index == 0 {
                (0, 1)
            } else if index == 1 {
                (0, 2)
            } else {
                (1, 2)
            };
            assert(candidate(index as int).0 == first as int && candidate(index as int).1 == second as int);
            match self.minor_now(first, second) {
                None => {
                    return false;
                },
                Some(det) => {
                    let ghost before = minors@;
                    minors.push(det);
                    proof {
                        assert forall|i: int| 0 <= i < index + 1 implies {
                            let (f, s, fr) = #[trigger] candidate(i);
                            &&& self.minor_fits(f, s)
                            &&& raw(minors@[i]) == self.minor(f, s)
                            &&& small(raw(minors@[i]))
                        } by {
                            if i < index {
                                assert(minors@[i] == before[i]);
                            } else {
                                assert(minors@[i] == det);
                            }
                        }
                    }
                },
            }
            index += 1;
        }
        let columns = self.columns();
        match self.best_pivot(&columns) {
            None => true,
            Some((chosen, _)) => {
                let (first, second, free): (usize, usize, usize) = if chosen == 0 {
                    (0, 1, 2)
                } else if chosen == 1 {
                    (0, 2, 1)
                } else {
                    (1, 2, 0)
                };
                assert(candidate(chosen as int) == (first as int, second as int, free as int));
                self.pivot_fits_now(first, second, free, minors[chosen])
            },
        }
    }

    /// The factoring `prepare_inverse` computes, where every step of it fits
    /// `i64`; `None` where a step would leave `i64`.
    pub fn checked_prepare_inverse(&self) -> (prepared: Option<Option<PreparedInverse>>)
        requires
            self.wf(),
        ensures
            prepared is None <==> !self.prepare_fits(),
            prepared matches Some(inner) ==> match self.best_candidate(3) {
                None => inner is None,
                Some(index) => inner matches Some(p) && prepared_matches(*self, p, index),
            },
    {
        if self.prepare_accepted() {
            Some(self.prepare_inverse())
        } else {
            None
        }
    }
}

/// The slope of `variable` along the inverse line, from the two solved
/// slopes: one for the free variable.
fn pick_slope(
    variable: usize,
    first: usize,
    second: usize,
    free: usize,
    first_slope: (i128, i128),
    second_slope: (i128, i128),
) -> (slope: (i128, i128))
    requires
        small(raw(first_slope)),
        small(raw(second_slope)),
    ensures
        raw(slope) == if variable == free {
            frac_int(1)
        } else if variable == first {
            raw(first_slope)
        } else {
            raw(second_slope)
        },
        small(raw(slope)),
{
    if variable == free {
        (1, 1)
    } else if variable == first {
        first_slope
    } else {
        second_slope
    }
}

/// A sum of products of fractions with positive denominators has a
/// positive denominator.
proof fn lemma_products_positive(pairs: Seq<(Frac, Frac)>)
    requires
        forall|k: int| 0 <= k < pairs.len() ==> (#[trigger] pairs[k]).0.d > 0 && pairs[k].1.d > 0,
    ensures
        products_value(pairs).d > 0,
    decreases pairs.len(),
{
    if pairs.len() > 0 {
        lemma_products_positive(pairs.drop_last());
        let last = pairs[pairs.len() - 1];
        lemma_positive(last.0, last.1);
        lemma_positive(products_value(pairs.drop_last()), frac_mul(last.0, last.1));
    }
}

/// At the origin pixel of a frame placed on the screen point of a warped
/// preimage, each variable's offset is the prepared offset at that point.
proof fn lemma_origin_offset(
    warp: WarpCoefficients,
    prepared: PreparedInverse,
    index: int,
    x: Frac,
    y: Frac,
    r: Frac,
    sx0: Frac,
    sy0: Frac,
    frame: FrameInverse,
    variable: int,
)
    requires
        warp.wf(),
        prepared_matches(warp, prepared, index),
        x.d > 0,
        y.d > 0,
        r.d > 0,
        sx0.d > 0,
        sy0.d > 0,
        same_value(sx0, warp.screen_value(0, x, y, r)),
        same_value(sy0, warp.screen_value(1, x, y, r)),
        frame.wf(),
        frames(prepared, sx0, sy0, frame),
        0 <= variable < 3,
    ensures
        ({
            let (su, sv) = (warp.screen_value(0, x, y, r), warp.screen_value(1, x, y, r));
            &&& same_value(frame.offset_value(variable, 0, 0), prepared.offset_at_screen(variable, su, sv))
            &&& frame.offset_value(variable, 0, 0).d > 0
            &&& prepared.offset_at_screen(variable, su, sv).d > 0
        }),
{
    let offset = prepared.offset_of(variable);
    assert(prepared.first_offset[0].wf() && prepared.first_offset[1].wf() && prepared.first_offset[2].wf());
    assert(prepared.second_offset[0].wf() && prepared.second_offset[1].wf() && prepared.second_offset[2].wf());
    assert(offset.0.d > 0 && offset.1.d > 0 && offset.2.d > 0);
    assert(warp.screen[0][0].wf() && warp.screen[0][1].wf() && warp.screen[0][2].wf());
    assert(warp.screen[1][0].wf() && warp.screen[1][1].wf() && warp.screen[1][2].wf());
    assert(warp.parallax[0].wf() && warp.parallax[1].wf());
    let (su, sv) = (warp.screen_value(0, x, y, r), warp.screen_value(1, x, y, r));
    lemma_products_positive(warp_terms(warp.screen_row(0), warp.parallax_of(0), x, y, r));
    lemma_products_positive(warp_terms(warp.screen_row(1), warp.parallax_of(1), x, y, r));
    lemma_frame_is_exact(prepared, sx0, sy0, frame, variable, 0, 0);
    let (u0, v0) = (frac_add(sx0, frac_int(0)), frac_add(sy0, frac_int(0)));
    lemma_positive(sx0, frac_int(0));
    lemma_positive(sy0, frac_int(0));
    assert(same_value(u0, su) && same_value(v0, sv)) by (nonlinear_arith)
        requires
            u0 == frac_add(sx0, frac_int(0)),
            v0 == frac_add(sy0, frac_int(0)),
            sx0.n * su.d == su.n * sx0.d,
            sy0.n * sv.d == sv.n * sy0.d,
    ;
    lemma_congruent(offset.1, offset.1, u0, su);
    lemma_positive(offset.1, u0);
    lemma_positive(offset.1, su);
    lemma_congruent(offset.0, offset.0, frac_mul(offset.1, u0), frac_mul(offset.1, su));
    lemma_congruent(offset.2, offset.2, v0, sv);
    lemma_positive(offset.2, v0);
    lemma_positive(offset.2, sv);
    let (p0, p1) = (frac_add(offset.0, frac_mul(offset.1, u0)), frac_add(offset.0, frac_mul(offset.1, su)));
    lemma_congruent(p0, p1, frac_mul(offset.2, v0), frac_mul(offset.2, sv));
    let at_origin = affine(offset.0, offset.1, offset.2, u0, v0);
    let at_screen = affine(offset.0, offset.1, offset.2, su, sv);
    let value = frame.offset_value(variable, 0, 0);
    assert(frame.offset_at(variable).0.d > 0 && frame.offset_at(variable).1.d > 0 && frame.offset_at(variable).2.d > 0)
        by {
        assert(frame.var_offset[variable][0].wf() && frame.var_offset[variable][1].wf() && frame.var_offset[variable][2].wf());
    }
    lemma_positive(frame.offset_at(variable).1, frac_int(0));
    lemma_positive(frame.offset_at(variable).0, frac_mul(frame.offset_at(variable).1, frac_int(0)));
    lemma_positive(frame.offset_at(variable).2, frac_int(0));
    lemma_positive(
        frac_add(frame.offset_at(variable).0, frac_mul(frame.offset_at(variable).1, frac_int(0))),
        frac_mul(frame.offset_at(variable).2, frac_int(0)),
    );
    lemma_same_value_transitive(value, at_origin, at_screen);
}

/// The inverse line fixed on a frame whose origin is the screen point of a
/// warped preimage gives back that preimage at the origin pixel: the value
/// of each variable there, `offset + slope * t` with `t` the preimage's
/// free variable, is the preimage's source x, source y or relief.
pub proof fn lemma_frame_recovers_preimage(
    warp: WarpCoefficients,
    prepared: PreparedInverse,
    index: int,
    x: Frac,
    y: Frac,
    r: Frac,
    sx0: Frac,
    sy0: Frac,
    frame: FrameInverse,
    variable: int,
)
    requires
        warp.wf(),
        warp.best_candidate(3) == Some(index),
        prepared_matches(warp, prepared, index),
        x.d > 0,
        y.d > 0,
        r.d > 0,
        sx0.d > 0,
        sy0.d > 0,
        same_value(sx0, warp.screen_value(0, x, y, r)),
        same_value(sy0, warp.screen_value(1, x, y, r)),
        frame.wf(),
        frames(prepared, sx0, sy0, frame),
        0 <= variable < 3,
    ensures
        same_value(
            frac_add(
                frame.offset_value(variable, 0, 0),
                frac_mul(frame.slope_at(variable), source_value(prepared.pivot().2, x, y, r)),
            ),
            source_value(variable, x, y, r),
        ),
{
    assert(prepared.first_slope.wf() && prepared.second_slope.wf());
    let (su, sv) = (warp.screen_value(0, x, y, r), warp.screen_value(1, x, y, r));
    lemma_origin_offset(warp, prepared, index, x, y, r, sx0, sy0, frame, variable);
    let value = frame.offset_value(variable, 0, 0);
    let at_screen = prepared.offset_at_screen(variable, su, sv);
    let t = source_value(prepared.pivot().2, x, y, r);
    let slope = prepared.slope_of(variable);
    assert(slope.d > 0);
    assert(frame.slope_at(variable) == slope);
    lemma_positive(slope, t);
    lemma_congruent(value, at_screen, frac_mul(slope, t), frac_mul(slope, t));
    lemma_inverse_recovers_preimage(warp, prepared, index, x, y, r, variable);
    lemma_same_value_transitive(
        frac_add(value, frac_mul(slope, t)),
        frac_add(at_screen, frac_mul(slope, t)),
        source_value(variable, x, y, r),
    );
}

/// The same frame gives back the preimage's camera depth at the origin
/// pixel: `depth offset + depth slope * t` is the depth of the warp at the
/// preimage.
pub proof fn lemma_frame_recovers_depth(
    warp: WarpCoefficients,
    prepared: PreparedInverse,
    index: int,
    x: Frac,
    y: Frac,
    r: Frac,
    sx0: Frac,
    sy0: Frac,
    frame: FrameInverse,
)
    requires
        warp.wf(),
        warp.best_candidate(3) == Some(index),
        prepared_matches(warp, prepared, index),
        x.d > 0,
        y.d > 0,
        r.d > 0,
        sx0.d > 0,
        sy0.d > 0,
        same_value(sx0, warp.screen_value(0, x, y, r)),
        same_value(sy0, warp.screen_value(1, x, y, r)),
        frame.wf(),
        frames(prepared, sx0, sy0, frame),
    ensures
        same_value(
            frac_add(
                frame.depth_offset_value(0, 0),
                frac_mul(frame.depth_of().2, source_value(prepared.pivot().2, x, y, r)),
            ),
            products_value(warp_terms(warp.depth_row(), warp.depth_relief_of(), x, y, r)),
        ),
{
    let (su, sv) = (warp.screen_value(0, x, y, r), warp.screen_value(1, x, y, r));
    lemma_origin_offset(warp, prepared, index, x, y, r, sx0, sy0, frame, 0);
    lemma_origin_offset(warp, prepared, index, x, y, r, sx0, sy0, frame, 1);
    lemma_origin_offset(warp, prepared, index, x, y, r, sx0, sy0, frame, 2);
    let (a0, a1, a2) = (frame.offset_value(0, 0, 0), frame.offset_value(1, 0, 0), frame.offset_value(2, 0, 0));
    let (b0, b1, b2) = (
        prepared.offset_at_screen(0, su, sv),
        prepared.offset_at_screen(1, su, sv),
        prepared.offset_at_screen(2, su, sv),
    );
    assert(prepared.depth_plane[0].wf() && prepared.depth_plane[1].wf() && prepared.depth_plane[2].wf());
    assert(prepared.depth_relief.wf() && prepared.depth_slope.wf());
    let (plane, relief, slope) = prepared.depth_of();
    assert(frame.depth_of() == prepared.depth_of());
    assert(plane.0.d > 0 && plane.1.d > 0 && plane.2.d > 0 && relief.d > 0 && slope.d > 0);
    lemma_congruent(plane.0, plane.0, a0, b0);
    lemma_congruent(plane.1, plane.1, a1, b1);
    lemma_congruent(relief, relief, a2, b2);
    lemma_positive(plane.0, a0);
    lemma_positive(plane.0, b0);
    lemma_positive(plane.1, a1);
    lemma_positive(plane.1, b1);
    lemma_positive(relief, a2);
    lemma_positive(relief, b2);
    let (m0, n0) = (frac_add(frac_mul(plane.0, a0), frac_mul(plane.1, a1)), frac_add(frac_mul(plane.0, b0), frac_mul(plane.1, b1)));
    lemma_congruent(frac_mul(plane.0, a0), frac_mul(plane.0, b0), frac_mul(plane.1, a1), frac_mul(plane.1, b1));
    lemma_congruent(m0, n0, plane.2, plane.2);
    lemma_congruent(frac_add(m0, plane.2), frac_add(n0, plane.2), frac_mul(relief, a2), frac_mul(relief, b2));
    let (da, db) = (depth_value(plane, relief, a0, a1, a2), depth_value(plane, relief, b0, b1, b2));
    let t = source_value(prepared.pivot().2, x, y, r);
    lemma_positive(slope, t);
    lemma_congruent(da, db, frac_mul(slope, t), frac_mul(slope, t));
    lemma_inverse_depth_recovers(warp, prepared, index, x, y, r);
    lemma_same_value_transitive(
        frac_add(da, frac_mul(slope, t)),
        frac_add(db, frac_mul(slope, t)),
        products_value(warp_terms(warp.depth_row(), warp.depth_relief_of(), x, y, r)),
    );
}

} // verus!
