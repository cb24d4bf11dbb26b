use vstd::prelude::*;

use crate::alpha::{spec_decode, DecodedTexel};
use crate::chart::{in_image, Chart, ChartModel};
use crate::component::{adjacent, connected, foreground, ComponentId, ComponentMap};
use crate::grid::{lemma_row_major_bound, row_major};
use crate::rational::{
    abs, abs_ratio, add_over, div_over, lemma_less_than_over, mul_over, ratio_less_than, ratio_to_integer,
    same_value, sub_over, trunc_div, Frac, Rational,
};
use crate::warp::SourcePoint;

verus! {

/// The abstract content of a relief field.
pub struct ReliefModel {
    pub width: u32,
    pub height: u32,
    pub rgb: Seq<Option<[u8; 3]>>,
    pub relief: Seq<Option<u8>>,
    pub labels: Seq<Option<ComponentId>>,
}

impl ReliefModel {
    pub open spec fn label_at(self, x: int, y: int) -> Option<ComponentId> {
        self.labels[row_major(self.width as int, x, y)]
    }

    pub open spec fn relief_at(self, x: int, y: int) -> Option<u8> {
        self.relief[row_major(self.width as int, x, y)]
    }

    pub open spec fn wf(self) -> bool {
        &&& self.width as int * self.height as int <= u32::MAX
        &&& self.rgb.len() == self.width as int * self.height as int
        &&& self.relief.len() == self.width as int * self.height as int
        &&& self.labels.len() == self.width as int * self.height as int
        &&& forall|index: int| 0 <= index < self.labels.len() && (#[trigger] self.labels[index]) is Some
            ==> self.relief[index] is Some
    }
}

/// `max(0, 1 - |v - (cell + 1/2)|)`, the tent weight of the texel `cell`
/// at coordinate `v`, as a numerator over `2 * v.d`.
pub open spec fn tent_over(v: Frac, cell: int) -> int {
    let distance = abs(2 * v.n - (2 * cell + 1) * v.d);
    if distance < 2 * v.d {
        2 * v.d - distance
    } else {
        0
    }
}

/// The common denominator of every weight of a sample at `(x, y)`.
pub open spec fn sample_scale(x: Frac, y: Frac) -> int {
    4 * x.d * y.d
}

/// What texel `(sx, sy)` adds to a sample of `component` at `(x, y)`:
/// relief times weight, and weight, both over `sample_scale(x, y)`.
pub open spec fn contribution(field: ReliefModel, x: Frac, y: Frac, component: ComponentId, sx: int, sy: int) -> (
    int,
    int,
) {
    if field.label_at(sx, sy) == Some(component) {
        let weight = tent_over(x, sx) * tent_over(y, sy);
        (field.relief_at(sx, sy).unwrap() as int * weight, weight)
    } else {
        (0, 0)
    }
}

/// Contributions of texels `first..end` of row `sy`.
pub open spec fn row_sums(
    field: ReliefModel,
    x: Frac,
    y: Frac,
    component: ComponentId,
    sy: int,
    first: int,
    end: int,
) -> (int, int)
    decreases end - first,
{
    if end <= first {
        (0, 0)
    } else {
        let before = row_sums(field, x, y, component, sy, first, end - 1);
        let term = contribution(field, x, y, component, end - 1, sy);
        (before.0 + term.0, before.1 + term.1)
    }
}

/// Contributions of texels `first_x..end_x` of rows `first_y..end_y`.
pub open spec fn window_sums(
    field: ReliefModel,
    x: Frac,
    y: Frac,
    component: ComponentId,
    first_x: int,
    end_x: int,
    first_y: int,
    end_y: int,
) -> (int, int)
    decreases end_y - first_y,
{
    if end_y <= first_y {
        (0, 0)
    } else {
        let before = window_sums(field, x, y, component, first_x, end_x, first_y, end_y - 1);
        let row = row_sums(field, x, y, component, end_y - 1, first_x, end_x);
        (before.0 + row.0, before.1 + row.1)
    }
}

pub open spec fn window_first(cell: int) -> int {
    if cell - 1 > 0 {
        cell - 1
    } else {
        0
    }
}

pub open spec fn window_end(cell: int, extent: int) -> int {
    if cell + 1 < extent - 1 {
        cell + 2
    } else {
        extent
    }
}

/// The relief of `component` at `(x, y)`: the tent-weighted mean of the
/// reliefs of its texels among the three-by-three texels around the one
/// containing the point, weights `max(0, 1 - |dx|) * max(0, 1 - |dy|)` from
/// texel centers; none when no weight remains.
pub open spec fn component_sample(field: ReliefModel, x: Frac, y: Frac, component: ComponentId) -> Option<Frac> {
    let cell_x = trunc_div(x.n, x.d);
    let cell_y = trunc_div(y.n, y.d);
    let sums = window_sums(
        field,
        x,
        y,
        component,
        window_first(cell_x),
        window_end(cell_x, field.width as int),
        window_first(cell_y),
        window_end(cell_y, field.height as int),
    );
    if sums.1 == 0 {
        None
    } else {
        Some(Frac { n: sums.0, d: sums.1 })
    }
}

/// The tent-weighted sums behind a sample of `component` at `(x, y)`:
/// relief times weight, and weight, both over `sample_scale(x, y)`.
pub open spec fn component_terms(field: ReliefModel, x: Frac, y: Frac, component: ComponentId) -> (int, int) {
    let cell_x = trunc_div(x.n, x.d);
    let cell_y = trunc_div(y.n, y.d);
    window_sums(
        field,
        x,
        y,
        component,
        window_first(cell_x),
        window_end(cell_x, field.width as int),
        window_first(cell_y),
        window_end(cell_y, field.height as int),
    )
}

/// The relief at `(x, y)`: none off the image or on background, otherwise the
/// sample of the component of the texel containing the point.
pub open spec fn field_sample(field: ReliefModel, x: Frac, y: Frac) -> Option<Frac> {
    if x.n < 0 || y.n < 0 {
        None
    } else {
        let cell_x = x.n / x.d;
        let cell_y = y.n / y.d;
        if cell_x >= field.width || cell_y >= field.height {
            None
        } else {
            match field.label_at(cell_x, cell_y) {
                None => None,
                Some(component) => component_sample(field, x, y, component),
            }
        }
    }
}

/// Denominators small enough that no intermediate of a sample leaves `i64`.
pub open spec fn sample_denominators_fit(x: Frac, y: Frac) -> bool {
    &&& 0 < x.d <= 0x1000_0000
    &&& 0 < y.d <= 0x1000_0000
    &&& x.d * y.d <= 0x1_0000_0000_0000
}

/// A `Rational` holds the value `sample` denotes, or both are none.
pub open spec fn sample_matches(result: Option<Rational>, sample: Option<Frac>) -> bool {
    match sample {
        None => result is None,
        Some(value) => result matches Some(r) && r.wf() && same_value(r@, value),
    }
}

/// Exact tent-interpolated relief over a chart's foreground, never blending
/// distinct connected components.
#[derive(Clone, Debug, PartialEq, Eq)]
pub struct ReliefField {
    width: u32,
    height: u32,
    rgb: Vec<Option<[u8; 3]>>,
    relief: Vec<Option<u8>>,
    components: ComponentMap,
}

/// A foreground texel of a field, with its component.
#[derive(Clone, Copy, Debug)]
pub struct ForegroundCell<'a> {
    field: &'a ReliefField,
    x: u32,
    y: u32,
    component: ComponentId,
}

proof fn lemma_tent_bounds(v: Frac, cell: int)
    requires
        v.d > 0,
    ensures
        0 <= tent_over(v, cell) <= 2 * v.d,
{
}

proof fn lemma_weight_bounds(x: Frac, y: Frac, sx: int, sy: int)
    requires
        x.d > 0,
        y.d > 0,
    ensures
        0 <= tent_over(x, sx) * tent_over(y, sy) <= sample_scale(x, y),
{
    lemma_tent_bounds(x, sx);
    lemma_tent_bounds(y, sy);
    let tx = tent_over(x, sx);
    let ty = tent_over(y, sy);
    assert(0 <= tx * ty <= (2 * x.d) * (2 * y.d)) by (nonlinear_arith)
        requires
            0 <= tx <= 2 * x.d,
            0 <= ty <= 2 * y.d,
    ;
    assert((2 * x.d) * (2 * y.d) == 4 * x.d * y.d) by (nonlinear_arith);
}

proof fn lemma_contribution_bounds(field: ReliefModel, x: Frac, y: Frac, component: ComponentId, sx: int, sy: int)
    requires
        x.d > 0,
        y.d > 0,
        field.wf(),
        in_image(field.width, field.height, sx, sy),
    ensures
        0 <= contribution(field, x, y, component, sx, sy).1 <= sample_scale(x, y),
        0 <= contribution(field, x, y, component, sx, sy).0 <= 255 * contribution(
            field,
            x,
            y,
            component,
            sx,
            sy,
        ).1,
{
    lemma_weight_bounds(x, y, sx, sy);
    if field.label_at(sx, sy) == Some(component) {
        lemma_row_major_bound(field.width as int, field.height as int, sx, sy);
        let index = row_major(field.width as int, sx, sy);
        assert(field.labels[index] is Some);
        let weight = tent_over(x, sx) * tent_over(y, sy);
        let relief = field.relief_at(sx, sy).unwrap() as int;
        assert(0 <= relief * weight <= 255 * weight) by (nonlinear_arith)
            requires
                0 <= relief <= 255,
                0 <= weight,
        ;
    }
}

proof fn lemma_row_sums_bounds(
    field: ReliefModel,
    x: Frac,
    y: Frac,
    component: ComponentId,
    sy: int,
    first: int,
    end: int,
)
    requires
        x.d > 0,
        y.d > 0,
        field.wf(),
        0 <= first,
        end <= field.width,
        0 <= sy < field.height,
    ensures
        0 <= row_sums(field, x, y, component, sy, first, end).1,
        end >= first ==> row_sums(field, x, y, component, sy, first, end).1 <= (end - first) * sample_scale(
            x,
            y,
        ),
        0 <= row_sums(field, x, y, component, sy, first, end).0 <= 255 * row_sums(
            field,
            x,
            y,
            component,
            sy,
            first,
            end,
        ).1,
    decreases end - first,
{
    if end > first {
        lemma_row_sums_bounds(field, x, y, component, sy, first, end - 1);
        lemma_contribution_bounds(field, x, y, component, end - 1, sy);
        let scale = sample_scale(x, y);
        assert((end - 1 - first) * scale + scale == (end - first) * scale) by (nonlinear_arith);
    }
}

proof fn lemma_window_sums_bounds(
    field: ReliefModel,
    x: Frac,
    y: Frac,
    component: ComponentId,
    first_x: int,
    end_x: int,
    first_y: int,
    end_y: int,
)
    requires
        x.d > 0,
        y.d > 0,
        field.wf(),
        0 <= first_x <= end_x <= field.width,
        end_x - first_x <= 3,
        0 <= first_y,
        end_y <= field.height,
    ensures
        0 <= window_sums(field, x, y, component, first_x, end_x, first_y, end_y).1,
        end_y >= first_y ==> window_sums(field, x, y, component, first_x, end_x, first_y, end_y).1 <= 3 * (end_y
            - first_y) * sample_scale(x, y),
        0 <= window_sums(field, x, y, component, first_x, end_x, first_y, end_y).0 <= 255 * window_sums(
            field,
            x,
            y,
            component,
            first_x,
            end_x,
            first_y,
            end_y,
        ).1,
    decreases end_y - first_y,
{
    if end_y > first_y {
        lemma_window_sums_bounds(field, x, y, component, first_x, end_x, first_y, end_y - 1);
        lemma_row_sums_bounds(field, x, y, component, end_y - 1, first_x, end_x);
        let scale = sample_scale(x, y);
        assert((end_x - first_x) * scale <= 3 * scale) by (nonlinear_arith)
            requires
                end_x - first_x <= 3,
                scale >= 0,
        ;
        assert(3 * (end_y - 1 - first_y) * scale + 3 * scale == 3 * (end_y - first_y) * scale) by (
        nonlinear_arith);
    }
}

proof fn lemma_tent_precondition(v: Frac, cell: int, extent: int)
    requires
        0 <= v.n <= extent * v.d,
        0 <= cell,
        cell + 1 <= extent,
        extent <= 0xffff_ffff,
        0 < v.d <= 0x1000_0000,
    ensures
        2 * v.n + (2 * cell + 3) * v.d <= i64::MAX,
        2 * v.d <= i64::MAX,
{
    assert(2 * v.n + (2 * cell + 3) * v.d <= (4 * extent + 1) * v.d) by (nonlinear_arith)
        requires
            0 <= v.n <= extent * v.d,
            0 <= cell,
            cell + 1 <= extent,
            v.d > 0,
    ;
    assert((4 * extent + 1) * v.d <= (4 * 0xffff_ffff + 1) * 0x1000_0000) by (nonlinear_arith)
        requires
            0 <= extent <= 0xffff_ffff,
            0 < v.d <= 0x1000_0000,
    ;
}

/// `max(0, 1 - |v - (cell + 1/2)|)`, exactly.
fn tent_weight(v: Rational, cell: i64) -> (weight: Rational)
    requires
        v.wf(),
        0 <= v@.n,
        0 <= cell,
        2 * v@.d <= i64::MAX,
        2 * v@.n + (2 * cell + 3) * v@.d <= i64::MAX,
    ensures
        weight.wf(),
        same_value(weight@, Frac { n: tent_over(v@, cell as int), d: 2 * v@.d }),
{
    let ghost scale = 2 * v@.d;
    let ghost v_over = 2 * v@.n;
    let ghost center_over = (2 * cell + 1) * v@.d;
    assert(0 <= center_over <= (2 * cell + 3) * v@.d) by (nonlinear_arith)
        requires
            center_over == (2 * cell + 1) * v@.d,
            v@.d > 0,
            cell >= 0,
    ;
    assert(2 * cell + 1 <= i64::MAX) by (nonlinear_arith)
        requires
            (2 * cell + 3) * v@.d <= i64::MAX,
            v@.d >= 1,
            cell >= 0,
    ;
    let center = Rational::new(2 * cell + 1, 2);
    proof {
        assert(same_value(Frac { n: 2 * cell + 1, d: 2 }, Frac { n: center_over, d: scale })) by (nonlinear_arith)
            requires
                center_over == (2 * cell + 1) * v@.d,
                scale == 2 * v@.d,
        ;
        assert(same_value(v@, Frac { n: v_over, d: scale })) by (nonlinear_arith)
            requires
                v_over == 2 * v@.n,
                scale == 2 * v@.d,
        ;
        crate::rational::lemma_same_value_transitive(
            center@,
            Frac { n: 2 * cell + 1, d: 2 },
            Frac { n: center_over, d: scale },
        );
    }
    let offset = sub_over(v, center, Ghost(v_over), Ghost(center_over), Ghost(scale));
    proof {
        crate::rational::lemma_lowest_terms(offset@, Frac { n: v_over - center_over, d: scale });
    }
    let distance = abs_ratio(offset);
    let ghost distance_over = abs(v_over - center_over);
    proof {
        assert(same_value(distance@, Frac { n: distance_over, d: scale })) by (nonlinear_arith)
            requires
                offset@.n * scale == (v_over - center_over) * offset@.d,
                distance@.d == offset@.d,
                distance@.n == abs(offset@.n),
                distance_over == abs(v_over - center_over),
                scale > 0,
                offset@.d > 0,
        ;
    }
    let one = Rational::from_integer(1);
    assert(abs(scale) + abs(distance_over) <= i64::MAX) by {
        assert(0 <= distance_over <= v_over + center_over);
        assert(center_over + scale == (2 * cell + 3) * v@.d) by (nonlinear_arith)
            requires
                center_over == (2 * cell + 1) * v@.d,
                scale == 2 * v@.d,
        ;
    }
    let remaining = sub_over(one, distance, Ghost(scale), Ghost(distance_over), Ghost(scale));
    let zero = Rational::from_integer(0);
    proof {
        lemma_less_than_over(zero@, remaining@, 0, scale - distance_over, scale);
    }
    if ratio_less_than(zero, remaining) {
        remaining
    } else {
        zero
    }
}

/// `field` is the relief field of `chart`: it has the chart's size, each
/// texel decoded into its relief and color, and the foreground labelled by
/// edge-connected regions: a texel is labelled exactly when it is
/// foreground, edge neighbors share a label, and two texels share a label
/// only when a foreground walk joins them, so regions never mix.
pub open spec fn field_of(field: ReliefModel, chart: ChartModel) -> bool {
    &&& field.width == chart.width
    &&& field.height == chart.height
    &&& forall|index: int|
        0 <= index < chart.rgba.len() ==> (#[trigger] field.relief[index]) == (match spec_decode(chart.rgba[index]) {
            DecodedTexel::Background => None,
            DecodedTexel::Relief { rgb, eighths } => Some(eighths),
        })
    &&& forall|index: int|
        0 <= index < chart.rgba.len() ==> (#[trigger] field.rgb[index]) == (match spec_decode(chart.rgba[index]) {
            DecodedTexel::Background => None,
            DecodedTexel::Relief { rgb, eighths } => Some(rgb),
        })
    &&& forall|x: int, y: int|
        in_image(chart.width, chart.height, x, y) ==> ((#[trigger] field.label_at(x, y)) is Some <==> foreground(
            chart,
            x,
            y,
        ))
    &&& forall|ax: int, ay: int, bx: int, by: int|
        foreground(chart, ax, ay) && foreground(chart, bx, by) && adjacent(ax, ay, bx, by) ==> #[trigger] field.label_at(
            ax,
            ay,
        ) == #[trigger] field.label_at(bx, by)
    &&& forall|ax: int, ay: int, bx: int, by: int|
        in_image(chart.width, chart.height, ax, ay) && in_image(chart.width, chart.height, bx, by) && (
        #[trigger] field.label_at(ax, ay)) is Some && field.label_at(ax, ay) == #[trigger] field.label_at(bx, by)
            ==> connected(chart, ax, ay, bx, by)
}

impl ReliefField {
    pub closed spec fn model(&self) -> ReliefModel {
        ReliefModel {
            width: self.width,
            height: self.height,
            rgb: self.rgb@,
            relief: self.relief@,
            labels: self.components.model().labels,
        }
    }

    pub closed spec fn wf(&self) -> bool {
        &&& self.model().wf()
        &&& self.components.wf()
        &&& self.components.model().width == self.width
        &&& self.components.model().height == self.height
    }

    /// Decodes every texel of `chart` and labels its foreground components.
    pub fn new(chart: &Chart) -> (field: Self)
        requires
            chart.wf(),
            chart.model().width as int * chart.model().height as int <= u32::MAX,
        ensures
            field.wf(),
            field.model().width == chart.model().width,
            field.model().height == chart.model().height,
            forall|index: int|
                0 <= index < chart.model().rgba.len() ==> (#[trigger] field.model().relief[index]) == (
                match spec_decode(chart.model().rgba[index]) {
                    DecodedTexel::Background => None,
                    DecodedTexel::Relief { rgb, eighths } => Some(eighths),
                }),
            forall|index: int|
                0 <= index < chart.model().rgba.len() ==> (#[trigger] field.model().rgb[index]) == (
                match spec_decode(chart.model().rgba[index]) {
                    DecodedTexel::Background => None,
                    DecodedTexel::Relief { rgb, eighths } => Some(rgb),
                }),
            forall|x: int, y: int|
                in_image(chart.model().width, chart.model().height, x, y) ==> ((#[trigger] field.model().label_at(
                    x,
                    y,
                )) is Some <==> foreground(chart.model(), x, y)),
            forall|ax: int, ay: int, bx: int, by: int|
                foreground(chart.model(), ax, ay) && foreground(chart.model(), bx, by) && adjacent(ax, ay, bx, by)
                    ==> #[trigger] field.model().label_at(ax, ay) == #[trigger] field.model().label_at(bx, by),
            field_of(field.model(), chart.model()),
    {
        let (width, height) = chart.dimensions();
        let texels = chart.texels();
        let mut rgb: Vec<Option<[u8; 3]>> = Vec::new();
        let mut relief: Vec<Option<u8>> = Vec::new();
        let mut index: usize = 0;
        while index < texels.len()
            invariant
                index <= texels@.len(),
                texels@ == chart.model().rgba.map_values(|pixel: [u8; 4]| spec_decode(pixel)),
                rgb@.len() == index,
                relief@.len() == index,
                forall|i: int|
                    0 <= i < index ==> (#[trigger] relief@[i]) == (match texels@[i] {
                        DecodedTexel::Background => None,
                        DecodedTexel::Relief { rgb, eighths } => Some(eighths),
                    }),
                forall|i: int|
                    0 <= i < index ==> (#[trigger] rgb@[i]) == (match texels@[i] {
                        DecodedTexel::Background => None,
                        DecodedTexel::Relief { rgb, eighths } => Some(rgb),
                    }),
            decreases texels@.len() - index,
        {
            match texels[index] {
                DecodedTexel::Background => {
                    rgb.push(None);
                    relief.push(None);
                },
                DecodedTexel::Relief { rgb: color, eighths } => {
                    rgb.push(Some(color));
                    relief.push(Some(eighths));
                },
            }
            index += 1;
        }
        let components = ComponentMap::label(chart);
        let ghost labels = components.model();
        let field = Self { width, height, rgb, relief, components };
        proof {
            let c = chart.model();
            assert forall|x: int, y: int| in_image(c.width, c.height, x, y) implies ((#[trigger] field.model().label_at(
                x,
                y,
            )) is Some <==> foreground(c, x, y)) by {
                assert(labels.label_at(x, y) == field.model().label_at(x, y));
            }
            assert forall|ax: int, ay: int, bx: int, by: int|
                foreground(c, ax, ay) && foreground(c, bx, by) && adjacent(ax, ay, bx, by) implies #[trigger] field.model().label_at(
                ax,
                ay,
            ) == #[trigger] field.model().label_at(bx, by) by {
                assert(labels.label_at(ax, ay) == field.model().label_at(ax, ay));
                assert(labels.label_at(bx, by) == field.model().label_at(bx, by));
            }
            assert forall|ax: int, ay: int, bx: int, by: int|
                in_image(c.width, c.height, ax, ay) && in_image(c.width, c.height, bx, by) && (
                #[trigger] field.model().label_at(ax, ay)) is Some && field.model().label_at(ax, ay)
                    == #[trigger] field.model().label_at(bx, by) implies connected(c, ax, ay, bx, by) by {
                assert(labels.label_at(ax, ay) == field.model().label_at(ax, ay));
                assert(labels.label_at(bx, by) == field.model().label_at(bx, by));
            }
            assert forall|i: int| 0 <= i < field.model().labels.len() && (#[trigger] field.model().labels[i]) is Some
                implies field.model().relief[i] is Some by {
                let x = i % (width as int);
                let y = i / (width as int);
                assert(height > 0 && width > 0) by (nonlinear_arith)
                    requires
                        0 <= i < width as int * height as int,
                ;
                crate::grid::lemma_row_major_inverse(width as int, height as int, i);
                assert(field.model().label_at(x, y) is Some);
                assert(foreground(c, x, y));
                assert(c.pixel(x, y) == c.rgba[i]);
            }
        }
        field
    }

    /// The relief at `(x, y)`; none off the chart or on background.
    pub fn sample(&self, x: Rational, y: Rational) -> (relief: Option<Rational>)
        requires
            self.wf(),
            x.wf(),
            y.wf(),
            sample_denominators_fit(x@, y@),
        ensures
            sample_matches(relief, field_sample(self.model(), x@, y@)),
    {
        let zero = Rational::from_integer(0);
        if ratio_less_than(x, zero) || ratio_less_than(y, zero) {
            return None;
        }
        let cell_x = ratio_to_integer(x);
        let cell_y = ratio_to_integer(y);
        if cell_x < 0 || cell_y < 0 || cell_x >= self.width as i64 || cell_y >= self.height as i64 {
            return None;
        }
        proof {
            vstd::arithmetic::div_mod::lemma_fundamental_div_mod(x@.n, x@.d);
            vstd::arithmetic::div_mod::lemma_fundamental_div_mod(y@.n, y@.d);
            assert(x@.n <= self.model().width as int * x@.d) by (nonlinear_arith)
                requires
                    x@.n == x@.d * (x@.n / x@.d) + x@.n % x@.d,
                    0 <= x@.n % x@.d < x@.d,
                    x@.n / x@.d < self.model().width,
            ;
            assert(y@.n <= self.model().height as int * y@.d) by (nonlinear_arith)
                requires
                    y@.n == y@.d * (y@.n / y@.d) + y@.n % y@.d,
                    0 <= y@.n % y@.d < y@.d,
                    y@.n / y@.d < self.model().height,
            ;
            lemma_row_major_bound(self.width as int, self.height as int, cell_x as int, cell_y as int);
        }
        match self.components.at(cell_x as u32, cell_y as u32) {
            None => None,
            Some(component) => self.sample_component(SourcePoint::new(x, y), component),
        }
    }

    /// The foreground texel at `(x, y)` with its component; none off the
    /// chart or on background.
    pub fn foreground_cell(&self, x: u32, y: u32) -> (cell: Option<ForegroundCell<'_>>)
        requires
            self.wf(),
        ensures
            cell is Some <==> in_image(self.model().width, self.model().height, x as int, y as int)
                && self.model().label_at(x as int, y as int) is Some,
            cell matches Some(c) ==> c.wf() && c.field_model() == self.model() && c.position() == (x, y)
                && Some(c.component()) == self.model().label_at(x as int, y as int),
    {
        match self.components.at(x, y) {
            None => None,
            Some(component) => Some(ForegroundCell { field: self, x, y, component }),
        }
    }

    fn sample_component(&self, point: SourcePoint, component: ComponentId) -> (relief: Option<Rational>)
        requires
            self.wf(),
            point.x.wf(),
            point.y.wf(),
            sample_denominators_fit(point.x@, point.y@),
            0 <= point.x@.n <= self.model().width as int * point.x@.d,
            0 <= point.y@.n <= self.model().height as int * point.y@.d,
        ensures
            sample_matches(relief, component_sample(self.model(), point.x@, point.y@, component)),
    {
        let (weighted, total) = self.component_terms(point, component);
        let ghost sums = component_terms(self.model(), point.x@, point.y@, component);
        let ghost scale = sample_scale(point.x@, point.y@);
        if total.is_zero() {
            proof {
                assert(sums.1 == 0) by (nonlinear_arith)
                    requires
                        total@.n * scale == sums.1 * total@.d,
                        total@.n == 0,
                        total@.d > 0,
                ;
            }
            None
        } else {
            proof {
                assert(sums.1 != 0) by (nonlinear_arith)
                    requires
                        total@.n * scale == sums.1 * total@.d,
                        total@.n != 0,
                        scale > 0,
                ;
            }
            Some(div_over(weighted, total, Ghost(sums.0), Ghost(sums.1), Ghost(scale)))
        }
    }

    fn component_terms(&self, point: SourcePoint, component: ComponentId) -> (terms: (Rational, Rational))
        requires
            self.wf(),
            point.x.wf(),
            point.y.wf(),
            sample_denominators_fit(point.x@, point.y@),
            0 <= point.x@.n <= self.model().width as int * point.x@.d,
            0 <= point.y@.n <= self.model().height as int * point.y@.d,
        ensures
            ({
                let sums = component_terms(self.model(), point.x@, point.y@, component);
                let scale = sample_scale(point.x@, point.y@);
                &&& terms.0.wf()
                &&& terms.1.wf()
                &&& 0 < scale <= i64::MAX
                &&& same_value(terms.0@, Frac { n: sums.0, d: scale })
                &&& same_value(terms.1@, Frac { n: sums.1, d: scale })
                &&& abs(sums.0) <= i64::MAX
                &&& abs(sums.1) <= i64::MAX
                &&& 0 <= sums.1
            }),
    {
        let ghost field = self.model();
        let x = point.x;
        let y = point.y;
        let ghost scale = sample_scale(x@, y@);
        let cell_x = ratio_to_integer(x);
        let cell_y = ratio_to_integer(y);
        proof {
            assert(0 <= x@.n / x@.d <= field.width) by (nonlinear_arith)
                requires
                    0 <= x@.n <= field.width * x@.d,
                    x@.d > 0,
            {
                vstd::arithmetic::div_mod::lemma_div_is_ordered(x@.n, field.width * x@.d, x@.d);
                vstd::arithmetic::div_mod::lemma_div_multiples_vanish(field.width as int, x@.d);
            }
            assert(0 <= y@.n / y@.d <= field.height) by (nonlinear_arith)
                requires
                    0 <= y@.n <= field.height * y@.d,
                    y@.d > 0,
            {
                vstd::arithmetic::div_mod::lemma_div_is_ordered(y@.n, field.height * y@.d, y@.d);
                vstd::arithmetic::div_mod::lemma_div_multiples_vanish(field.height as int, y@.d);
            }
            assert(scale == 4 * x@.d * y@.d);
            assert(0 < scale <= 0x4_0000_0000_0000) by (nonlinear_arith)
                requires
                    scale == 4 * x@.d * y@.d,
                    x@.d * y@.d <= 0x1_0000_0000_0000,
                    x@.d > 0,
                    y@.d > 0,
            ;
        }
        let width = self.width as i64;
        let height = self.height as i64;
        let first_x = if cell_x - 1 > 0 {
            cell_x - 1
        } else {
            0
        };
        let last_x = if cell_x + 1 < width - 1 {
            cell_x + 1
        } else {
            width - 1
        };
        let first_y = if cell_y - 1 > 0 {
            cell_y - 1
        } else {
            0
        };
        let last_y = if cell_y + 1 < height - 1 {
            cell_y + 1
        } else {
            height - 1
        };
        let mut weighted = Rational::from_integer(0);
        let mut total = Rational::from_integer(0);
        let mut sample_y = first_y;
        while sample_y <= last_y
            invariant
                self.wf(),
                field == self.model(),
                x == point.x,
                y == point.y,
                x.wf(),
                y.wf(),
                sample_denominators_fit(x@, y@),
                0 <= x@.n <= field.width as int * x@.d,
                0 <= y@.n <= field.height as int * y@.d,
                scale == sample_scale(x@, y@),
                0 < scale <= 0x4_0000_0000_0000,
                width == field.width,
                height == field.height,
                first_x == window_first(cell_x as int),
                last_x + 1 == window_end(cell_x as int, width as int),
                first_y == window_first(cell_y as int),
                last_y + 1 == window_end(cell_y as int, height as int),
                cell_x == trunc_div(x@.n, x@.d),
                cell_y == trunc_div(y@.n, y@.d),
                0 <= cell_x <= width,
                0 <= cell_y <= height,
                first_y <= sample_y <= last_y + 1,
                weighted.wf(),
                total.wf(),
                same_value(
                    weighted@,
                    Frac {
                        n: window_sums(field, x@, y@, component, first_x as int, last_x + 1, first_y as int, sample_y as int).0,
                        d: scale,
                    },
                ),
                same_value(
                    total@,
                    Frac {
                        n: window_sums(field, x@, y@, component, first_x as int, last_x + 1, first_y as int, sample_y as int).1,
                        d: scale,
                    },
                ),
            decreases last_y + 1 - sample_y,
        {
            let mut sample_x = first_x;
            let ghost before = window_sums(
                field,
                x@,
                y@,
                component,
                first_x as int,
                last_x + 1,
                first_y as int,
                sample_y as int,
            );
            proof {
                lemma_window_sums_bounds(
                    field,
                    x@,
                    y@,
                    component,
                    first_x as int,
                    last_x + 1,
                    first_y as int,
                    sample_y as int,
                );
            }
            while sample_x <= last_x
                invariant
                    self.wf(),
                    field == self.model(),
                    x == point.x,
                    y == point.y,
                    x.wf(),
                    y.wf(),
                    sample_denominators_fit(x@, y@),
                    0 <= x@.n <= field.width as int * x@.d,
                    0 <= y@.n <= field.height as int * y@.d,
                    scale == sample_scale(x@, y@),
                    0 < scale <= 0x4_0000_0000_0000,
                    width == field.width,
                    height == field.height,
                    first_x == window_first(cell_x as int),
                    last_x + 1 == window_end(cell_x as int, width as int),
                    first_y == window_first(cell_y as int),
                    last_y + 1 == window_end(cell_y as int, height as int),
                    0 <= cell_x <= width,
                    0 <= cell_y <= height,
                    first_y <= sample_y <= last_y,
                    first_x <= sample_x <= last_x + 1,
                    before == window_sums(
                        field,
                        x@,
                        y@,
                        component,
                        first_x as int,
                        last_x + 1,
                        first_y as int,
                        sample_y as int,
                    ),
                    0 <= before.1 <= 3 * (sample_y - first_y) * scale,
                    0 <= before.0 <= 255 * before.1,
                    weighted.wf(),
                    total.wf(),
                    same_value(
                        weighted@,
                        Frac {
                            n: before.0 + row_sums(field, x@, y@, component, sample_y as int, first_x as int, sample_x as int).0,
                            d: scale,
                        },
                    ),
                    same_value(
                        total@,
                        Frac {
                            n: before.1 + row_sums(field, x@, y@, component, sample_y as int, first_x as int, sample_x as int).1,
                            d: scale,
                        },
                    ),
                decreases last_x + 1 - sample_x,
            {
                let ghost row_before = row_sums(
                    field,
                    x@,
                    y@,
                    component,
                    sample_y as int,
                    first_x as int,
                    sample_x as int,
                );
                let ghost row_after = row_sums(
                    field,
                    x@,
                    y@,
                    component,
                    sample_y as int,
                    first_x as int,
                    sample_x + 1,
                );
                proof {
                    lemma_row_sums_bounds(field, x@, y@, component, sample_y as int, first_x as int, sample_x + 1);
                    lemma_contribution_bounds(field, x@, y@, component, sample_x as int, sample_y as int);
                    lemma_row_major_bound(self.width as int, self.height as int, sample_x as int, sample_y as int);
                    assert(3 * (sample_y - first_y) * scale + (sample_x + 1 - first_x) * scale <= 9 * scale) by (
                    nonlinear_arith)
                        requires
                            sample_y - first_y <= 2,
                            sample_x + 1 - first_x <= 3,
                            scale > 0,
                    ;
                }
                let label = self.components.at(sample_x as u32, sample_y as u32);
                let matches = match label {
                    Some(found) => found == component,
                    None => false,
                };
                if matches {
                    proof {
                        assert(field.label_at(sample_x as int, sample_y as int) == Some(component));
                        assert(field.labels[row_major(field.width as int, sample_x as int, sample_y as int)] is Some);
                    }
                    let index = (sample_y as u32 * self.width + sample_x as u32) as usize;
                    let eighths = match self.relief[index] {
                        Some(eighths) => eighths,
                        None => {
                            return (weighted, total);
                        },
                    };
                    proof {
                        lemma_tent_precondition(x@, sample_x as int, field.width as int);
                        lemma_tent_precondition(y@, sample_y as int, field.height as int);
                    }
                    let weight_x = tent_weight(x, sample_x);
                    let weight_y = tent_weight(y, sample_y);
                    let ghost tx = tent_over(x@, sample_x as int);
                    let ghost ty = tent_over(y@, sample_y as int);
                    proof {
                        lemma_weight_bounds(x@, y@, sample_x as int, sample_y as int);
                        assert((2 * x@.d) * (2 * y@.d) == scale) by (nonlinear_arith)
                            requires
                                scale == 4 * x@.d * y@.d,
                        ;
                    }
                    let weight = mul_over(weight_x, weight_y, Ghost(tx), Ghost(2 * x@.d), Ghost(ty), Ghost(2 * y@.d));
                    let relief_value = Rational::from_integer(eighths as i64);
                    proof {
                        assert(0 <= (eighths as int) * (tx * ty) <= 255 * scale) by (nonlinear_arith)
                            requires
                                0 <= eighths <= 255,
                                0 <= tx * ty <= scale,
                        ;
                        assert(1 * scale == scale);
                    }
                    let contribution = mul_over(
                        relief_value,
                        weight,
                        Ghost(eighths as int),
                        Ghost(1),
                        Ghost(tx * ty),
                        Ghost(scale),
                    );
                    weighted =
                    add_over(
                        weighted,
                        contribution,
                        Ghost(before.0 + row_before.0),
                        Ghost((eighths as int) * (tx * ty)),
                        Ghost(scale),
                    );
                    total = add_over(total, weight, Ghost(before.1 + row_before.1), Ghost(tx * ty), Ghost(scale));
                } else {
                    proof {
                        assert(field.label_at(sample_x as int, sample_y as int) != Some(component));
                    }
                }
                sample_x += 1;
            }
            sample_y += 1;
        }
        proof {
            lemma_window_sums_bounds(
                field,
                x@,
                y@,
                component,
                first_x as int,
                last_x + 1,
                first_y as int,
                last_y + 1,
            );
            assert(3 * (last_y + 1 - first_y) * scale <= 9 * scale) by (nonlinear_arith)
                requires
                    last_y + 1 - first_y <= 3,
                    scale > 0,
            ;
        }
        let ghost sums = window_sums(
            field,
            x@,
            y@,
            component,
            first_x as int,
            last_x + 1,
            first_y as int,
            last_y + 1,
        );
        assert(sums == component_terms(field, x@, y@, component));
        (weighted, total)
    }
}

impl<'a> ForegroundCell<'a> {
    pub closed spec fn field_model(&self) -> ReliefModel {
        self.field.model()
    }

    pub closed spec fn position(&self) -> (u32, u32) {
        (self.x, self.y)
    }

    pub closed spec fn component(&self) -> ComponentId {
        self.component
    }

    pub closed spec fn wf(&self) -> bool {
        &&& self.field.wf()
        &&& in_image(self.field.model().width, self.field.model().height, self.x as int, self.y as int)
    }

    /// The relief of this cell's component at `point`, allowed anywhere on
    /// the closed texel square (its far edges included); none outside it.
    pub fn sample_closure(&self, point: SourcePoint) -> (relief: Option<Rational>)
        requires
            self.wf(),
            point.x.wf(),
            point.y.wf(),
            sample_denominators_fit(point.x@, point.y@),
        ensures
            ({
                let (x, y) = self.position();
                let inside = x * point.x@.d <= point.x@.n <= (x + 1) * point.x@.d && y * point.y@.d
                    <= point.y@.n <= (y + 1) * point.y@.d;
                &&& !inside ==> relief is None
                &&& inside ==> sample_matches(
                    relief,
                    component_sample(self.field_model(), point.x@, point.y@, self.component()),
                )
            }),
    {
        let left = Rational::from_integer(self.x as i64);
        let right = Rational::from_integer(self.x as i64 + 1);
        let top = Rational::from_integer(self.y as i64);
        let bottom = Rational::from_integer(self.y as i64 + 1);
        if ratio_less_than(point.x, left) || ratio_less_than(right, point.x) || ratio_less_than(point.y, top)
            || ratio_less_than(bottom, point.y) {
            return None;
        }
        proof {
            let field = self.field.model();
            assert(point.x@.n <= field.width as int * point.x@.d) by (nonlinear_arith)
                requires
                    point.x@.n <= (self.x + 1) * point.x@.d,
                    self.x + 1 <= field.width,
                    point.x@.d > 0,
            ;
            assert(point.y@.n <= field.height as int * point.y@.d) by (nonlinear_arith)
                requires
                    point.y@.n <= (self.y + 1) * point.y@.d,
                    self.y + 1 <= field.height,
                    point.y@.d > 0,
            ;
            assert(0 <= point.x@.n) by (nonlinear_arith)
                requires
                    self.x * point.x@.d <= point.x@.n,
                    self.x >= 0,
                    point.x@.d > 0,
            ;
            assert(0 <= point.y@.n) by (nonlinear_arith)
                requires
                    self.y * point.y@.d <= point.y@.n,
                    self.y >= 0,
                    point.y@.d > 0,
            ;
        }
        self.field.sample_component(point, self.component)
    }

    /// The tent-weighted sums behind this cell's sample at `point` — relief
    /// times weight, and weight, over its component — on the closed texel
    /// square; none outside it.
    pub fn sample_terms_closure(&self, point: SourcePoint) -> (terms: Option<(Rational, Rational)>)
        requires
            self.wf(),
            point.x.wf(),
            point.y.wf(),
            sample_denominators_fit(point.x@, point.y@),
        ensures
            ({
                let (x, y) = self.position();
                let inside = x * point.x@.d <= point.x@.n <= (x + 1) * point.x@.d && y * point.y@.d
                    <= point.y@.n <= (y + 1) * point.y@.d;
                let sums = component_terms(self.field_model(), point.x@, point.y@, self.component());
                let scale = sample_scale(point.x@, point.y@);
                &&& !inside ==> terms is None
                &&& inside ==> (terms matches Some((weighted, total)) && weighted.wf() && total.wf()
                    && same_value(weighted@, Frac { n: sums.0, d: scale })
                    && same_value(total@, Frac { n: sums.1, d: scale }) && scale > 0)
            }),
    {
        let left = Rational::from_integer(self.x as i64);
        let right = Rational::from_integer(self.x as i64 + 1);
        let top = Rational::from_integer(self.y as i64);
        let bottom = Rational::from_integer(self.y as i64 + 1);
        if ratio_less_than(point.x, left) || ratio_less_than(right, point.x) || ratio_less_than(point.y, top)
            || ratio_less_than(bottom, point.y) {
            return None;
        }
        proof {
            let field = self.field.model();
            assert(point.x@.n <= field.width as int * point.x@.d) by (nonlinear_arith)
                requires
                    point.x@.n <= (self.x + 1) * point.x@.d,
                    self.x + 1 <= field.width,
                    point.x@.d > 0,
            ;
            assert(point.y@.n <= field.height as int * point.y@.d) by (nonlinear_arith)
                requires
                    point.y@.n <= (self.y + 1) * point.y@.d,
                    self.y + 1 <= field.height,
                    point.y@.d > 0,
            ;
            assert(0 <= point.x@.n) by (nonlinear_arith)
                requires
                    self.x * point.x@.d <= point.x@.n,
                    self.x >= 0,
                    point.x@.d > 0,
            ;
            assert(0 <= point.y@.n) by (nonlinear_arith)
                requires
                    self.y * point.y@.d <= point.y@.n,
                    self.y >= 0,
                    point.y@.d > 0,
            ;
        }
        Some(self.field.component_terms(point, self.component))
    }
}

// ---------------------------------------------------------------------------
// A sample weighs every texel of its component.
// ---------------------------------------------------------------------------

/// Relief times tent weight at `(x, y)`, and tent weight, summed over the
/// texels of `component` among the first `count` texels in storage order.
pub open spec fn image_terms(field: ReliefModel, x: Frac, y: Frac, component: ComponentId, count: int) -> (int, int)
    decreases count,
{
    if count <= 0 {
        (0, 0)
    } else {
        let before = image_terms(field, x, y, component, count - 1);
        let k = count - 1;
        let (tx, ty) = (k % (field.width as int), k / (field.width as int));
        if field.labels[k] == Some(component) {
            let weight = tent_over(x, tx) * tent_over(y, ty);
            (before.0 + field.relief[k].unwrap() as int * weight, before.1 + weight)
        } else {
            before
        }
    }
}

/// The tent weight of texel `t` at `v` vanishes two texels or more from the
/// texel `cell` that contains `v`.
proof fn lemma_tent_vanishes(v: Frac, cell: int, t: int)
    requires
        v.d > 0,
        v.n >= 0,
        cell == v.n / v.d,
        t < cell - 1 || t > cell + 1,
    ensures
        tent_over(v, t) == 0,
{
    vstd::arithmetic::div_mod::lemma_fundamental_div_mod(v.n, v.d);
    vstd::arithmetic::div_mod::lemma_mod_pos_bound(v.n, v.d);
    let r = v.n % v.d;
    assert(abs(2 * v.n - (2 * t + 1) * v.d) >= 2 * v.d) by (nonlinear_arith)
        requires
            v.n == v.d * cell + r,
            0 <= r < v.d,
            v.d > 0,
            t < cell - 1 || t > cell + 1,
    ;
}

/// Splitting a row at `middle` splits its sums.
proof fn lemma_row_split(
    field: ReliefModel,
    x: Frac,
    y: Frac,
    component: ComponentId,
    sy: int,
    first: int,
    middle: int,
    end: int,
)
    requires
        first <= middle <= end,
    ensures
        row_sums(field, x, y, component, sy, first, end) == ({
            let a = row_sums(field, x, y, component, sy, first, middle);
            let b = row_sums(field, x, y, component, sy, middle, end);
            (a.0 + b.0, a.1 + b.1)
        }),
    decreases end - middle,
{
    if middle < end {
        lemma_row_split(field, x, y, component, sy, first, middle, end - 1);
    }
}

/// Texels whose tent weight vanishes add nothing to a row.
proof fn lemma_row_vanishes(field: ReliefModel, x: Frac, y: Frac, component: ComponentId, sy: int, first: int, end: int)
    requires
        forall|sx: int| first <= sx < end ==> #[trigger] tent_over(x, sx) * tent_over(y, sy) == 0,
    ensures
        row_sums(field, x, y, component, sy, first, end) == (0int, 0int),
    decreases end - first,
{
    if first < end {
        lemma_row_vanishes(field, x, y, component, sy, first, end - 1);
        assert(tent_over(x, end - 1) * tent_over(y, sy) == 0);
    }
}

/// Splitting the rows of a window at `middle` splits its sums.
proof fn lemma_window_split(
    field: ReliefModel,
    x: Frac,
    y: Frac,
    component: ComponentId,
    first_x: int,
    end_x: int,
    first_y: int,
    middle: int,
    end_y: int,
)
    requires
        first_y <= middle <= end_y,
    ensures
        window_sums(field, x, y, component, first_x, end_x, first_y, end_y) == ({
            let a = window_sums(field, x, y, component, first_x, end_x, first_y, middle);
            let b = window_sums(field, x, y, component, first_x, end_x, middle, end_y);
            (a.0 + b.0, a.1 + b.1)
        }),
    decreases end_y - middle,
{
    if middle < end_y {
        lemma_window_split(field, x, y, component, first_x, end_x, first_y, middle, end_y - 1);
    }
}

/// Rows whose tent weight vanishes add nothing to a window.
proof fn lemma_window_vanishes(
    field: ReliefModel,
    x: Frac,
    y: Frac,
    component: ComponentId,
    first_x: int,
    end_x: int,
    first_y: int,
    end_y: int,
)
    requires
        forall|sy: int| first_y <= sy < end_y ==> #[trigger] tent_over(y, sy) == 0,
    ensures
        window_sums(field, x, y, component, first_x, end_x, first_y, end_y) == (0int, 0int),
    decreases end_y - first_y,
{
    if first_y < end_y {
        lemma_window_vanishes(field, x, y, component, first_x, end_x, first_y, end_y - 1);
        assert(tent_over(y, end_y - 1) == 0);
        assert forall|sx: int| first_x <= sx < end_x implies #[trigger] tent_over(x, sx) * tent_over(y, end_y - 1)
            == 0 by {
            vstd::arithmetic::mul::lemma_mul_by_zero_is_zero(tent_over(x, sx));
        }
        lemma_row_vanishes(field, x, y, component, end_y - 1, first_x, end_x);
    }
}

/// Widening every row of a window from `first_x..end_x` to the whole row
/// adds nothing when the texels outside weigh nothing.
proof fn lemma_window_widens(
    field: ReliefModel,
    x: Frac,
    y: Frac,
    component: ComponentId,
    first_x: int,
    end_x: int,
    first_y: int,
    end_y: int,
)
    requires
        0 <= first_x <= end_x <= field.width,
        forall|sx: int|
            0 <= sx < field.width && !(first_x <= sx < end_x) ==> #[trigger] tent_over(x, sx) == 0,
    ensures
        window_sums(field, x, y, component, first_x, end_x, first_y, end_y) == window_sums(
            field,
            x,
            y,
            component,
            0,
            field.width as int,
            first_y,
            end_y,
        ),
    decreases end_y - first_y,
{
    if first_y < end_y {
        lemma_window_widens(field, x, y, component, first_x, end_x, first_y, end_y - 1);
        let sy = end_y - 1;
        assert forall|sx: int| 0 <= sx < first_x implies #[trigger] tent_over(x, sx) * tent_over(y, sy) == 0 by {
            assert(tent_over(x, sx) == 0);
        }
        assert forall|sx: int| end_x <= sx < field.width implies #[trigger] tent_over(x, sx) * tent_over(y, sy)
            == 0 by {
            assert(tent_over(x, sx) == 0);
        }
        lemma_row_vanishes(field, x, y, component, sy, 0, first_x);
        lemma_row_vanishes(field, x, y, component, sy, end_x, field.width as int);
        lemma_row_split(field, x, y, component, sy, 0, first_x, field.width as int);
        lemma_row_split(field, x, y, component, sy, first_x, end_x, field.width as int);
    }
}

/// The texels in storage order, row by row, sum as the rows do.
proof fn lemma_image_rows(field: ReliefModel, x: Frac, y: Frac, component: ComponentId, row: int, column: int)
    requires
        field.wf(),
        field.width > 0,
        0 <= row < field.height,
        0 <= column <= field.width,
    ensures
        image_terms(field, x, y, component, row * field.width + column) == ({
            let a = window_sums(field, x, y, component, 0, field.width as int, 0, row);
            let b = row_sums(field, x, y, component, row, 0, column);
            (a.0 + b.0, a.1 + b.1)
        }),
    decreases row, column,
{
    let w = field.width as int;
    if column > 0 {
        lemma_image_rows(field, x, y, component, row, column - 1);
        let k = row * w + column - 1;
        crate::grid::lemma_row_major(w, column - 1, row);
        assert(row_major(w, column - 1, row) == k);
        assert(k % w == column - 1 && k / w == row);
        assert(k + 1 == row * w + column);
        let before = image_terms(field, x, y, component, k);
        assert(image_terms(field, x, y, component, k + 1) == if field.labels[k] == Some(component) {
            let weight = tent_over(x, column - 1) * tent_over(y, row);
            (before.0 + field.relief[k].unwrap() as int * weight, before.1 + weight)
        } else {
            before
        });
        assert(field.label_at(column - 1, row) == field.labels[k]);
        assert(field.relief_at(column - 1, row) == field.relief[k]);
    } else if row > 0 {
        lemma_image_rows(field, x, y, component, row - 1, w);
        assert((row - 1) * w + w == row * w) by (nonlinear_arith);
        assert(row_sums(field, x, y, component, row, 0, 0) == (0int, 0int));
    } else {
        assert(row * w + column == 0) by (nonlinear_arith)
            requires
                row == 0,
                column == 0,
        ;
        assert(window_sums(field, x, y, component, 0, w, 0, 0) == (0int, 0int));
        assert(row_sums(field, x, y, component, row, 0, 0) == (0int, 0int));
    }
}

/// The window sums over the whole image are the sums in storage order.
proof fn lemma_image_window(field: ReliefModel, x: Frac, y: Frac, component: ComponentId)
    requires
        field.wf(),
    ensures
        window_sums(field, x, y, component, 0, field.width as int, 0, field.height as int) == image_terms(
            field,
            x,
            y,
            component,
            field.width as int * field.height as int,
        ),
{
    let (w, h) = (field.width as int, field.height as int);
    if w == 0 {
        assert(w * h == 0) by (nonlinear_arith)
            requires
                w == 0,
        ;
        lemma_window_zero_width(field, x, y, component, h);
    } else if h > 0 {
        lemma_image_rows(field, x, y, component, h - 1, w);
        assert((h - 1) * w + w == w * h) by (nonlinear_arith);
    } else {
        assert(w * h == 0) by (nonlinear_arith)
            requires
                h == 0,
        ;
    }
}

proof fn lemma_window_zero_width(field: ReliefModel, x: Frac, y: Frac, component: ComponentId, end_y: int)
    ensures
        window_sums(field, x, y, component, 0, 0, 0, end_y) == (0int, 0int),
    decreases end_y,
{
    if end_y > 0 {
        lemma_window_zero_width(field, x, y, component, end_y - 1);
    }
}

/// Between the centers of texels `cell` and `cell + 1`, their two tent
/// weights share the whole weight: they sum to one (`2 * v.d` over
/// `2 * v.d`), and each falls linearly with the distance from its center.
pub proof fn lemma_tent_partition(v: Frac, cell: int)
    requires
        v.d > 0,
        (2 * cell + 1) * v.d <= 2 * v.n <= (2 * cell + 3) * v.d,
    ensures
        tent_over(v, cell) + tent_over(v, cell + 1) == 2 * v.d,
        tent_over(v, cell) == 2 * v.d - (2 * v.n - (2 * cell + 1) * v.d),
        tent_over(v, cell + 1) == 2 * v.d - ((2 * cell + 3) * v.d - 2 * v.n),
{
    assert((2 * (cell + 1) + 1) * v.d == (2 * cell + 3) * v.d) by (nonlinear_arith);
    assert((2 * cell + 3) * v.d == (2 * cell + 1) * v.d + 2 * v.d) by (nonlinear_arith);
}

/// A sample at a point of the image weighs every texel of its component by
/// its tent weight there: the sums behind it are those over all texels of
/// the component, in storage order, so no texel with weight at the point is
/// left out, and the sample is the tent-weighted mean of their reliefs.
pub proof fn lemma_sample_weighs_every_texel(field: ReliefModel, x: Frac, y: Frac, component: ComponentId)
    requires
        field.wf(),
        x.d > 0,
        y.d > 0,
        x.n >= 0,
        y.n >= 0,
        x.n / x.d < field.width,
        y.n / y.d < field.height,
    ensures
        component_terms(field, x, y, component) == image_terms(
            field,
            x,
            y,
            component,
            field.width as int * field.height as int,
        ),
        component_sample(field, x, y, component) == ({
            let terms = image_terms(field, x, y, component, field.width as int * field.height as int);
            if terms.1 == 0 {
                None
            } else {
                Some(Frac { n: terms.0, d: terms.1 })
            }
        }),
{
    let (w, h) = (field.width as int, field.height as int);
    let (cell_x, cell_y) = (x.n / x.d, y.n / y.d);
    let (fx, ex) = (window_first(cell_x), window_end(cell_x, w));
    let (fy, ey) = (window_first(cell_y), window_end(cell_y, h));
    assert(trunc_div(x.n, x.d) == cell_x && trunc_div(y.n, y.d) == cell_y);
    vstd::arithmetic::div_mod::lemma_div_pos_is_pos(x.n, x.d);
    vstd::arithmetic::div_mod::lemma_div_pos_is_pos(y.n, y.d);
    assert forall|sx: int| 0 <= sx < w && !(fx <= sx < ex) implies #[trigger] tent_over(x, sx) == 0 by {
        lemma_tent_vanishes(x, cell_x, sx);
    }
    assert forall|sy: int| 0 <= sy < fy implies #[trigger] tent_over(y, sy) == 0 by {
        lemma_tent_vanishes(y, cell_y, sy);
    }
    assert forall|sy: int| ey <= sy < h implies #[trigger] tent_over(y, sy) == 0 by {
        lemma_tent_vanishes(y, cell_y, sy);
    }
    lemma_window_widens(field, x, y, component, fx, ex, fy, ey);
    lemma_window_vanishes(field, x, y, component, 0, w, 0, fy);
    lemma_window_vanishes(field, x, y, component, 0, w, ey, h);
    lemma_window_split(field, x, y, component, 0, w, 0, fy, h);
    lemma_window_split(field, x, y, component, 0, w, fy, ey, h);
    lemma_image_window(field, x, y, component);
}

} // verus!
