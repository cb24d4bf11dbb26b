//! A gyroscope: three nested rings, each observed on all six sides as an
//! elliptical band whose relief ripples along its arc.

use vstd::prelude::*;

use crate::chart::{lemma_bounds_extents, Bounds, CanonicalView, Chart, ChartModel, EMPTY_RGBA};
use crate::fixture::pixel::{
    directional_light, fill_pixels, magnitude, rem_euclid, rgba, shade, spec_directional_light, spec_rgba, spec_shade,
};
use crate::fixture::{assemble, generated_chart, lemma_generated_within, texels_within};
use crate::model::{chart_fits, models, rank_of, AuthoredModel, ModelError, ModelView};

verus! {

pub const SIZE: i32 = 48;

/// Colors of the outer, middle and inner ring.
pub const RING_BASES: [[u8; 3]; 3] = [[188, 64, 58], [58, 168, 88], [58, 96, 196]];

/// How one ring appears from one side: an ellipse with radii `radius_u` and
/// `radius_v` along a major axis pointing along `(direction_u, direction_v)`,
/// a band `thickness` source pixels wide, the arc position where its relief
/// ripple starts, and its place in the drawing order.
#[derive(Clone, Copy, Debug, PartialEq, Eq)]
pub struct Projection {
    pub radius_u: i32,
    pub radius_v: i32,
    pub direction_u: i32,
    pub direction_v: i32,
    pub thickness: i32,
    pub phase: i32,
    pub draw_order: i32,
}

/// The projection with the given fields.
pub open spec fn projection(
    radius_u: i32,
    radius_v: i32,
    direction_u: i32,
    direction_v: i32,
    thickness: i32,
    phase: i32,
    draw_order: i32,
) -> Projection {
    Projection { radius_u, radius_v, direction_u, direction_v, thickness, phase, draw_order }
}

fn p(
    radius_u: i32,
    radius_v: i32,
    direction_u: i32,
    direction_v: i32,
    thickness: i32,
    phase: i32,
    draw_order: i32,
) -> (record: Projection)
    ensures
        record == projection(radius_u, radius_v, direction_u, direction_v, thickness, phase, draw_order),
{
    Projection { radius_u, radius_v, direction_u, direction_v, thickness, phase, draw_order }
}

/// The approved projection table: for each side, the outer red, middle green
/// and inner blue ring.
pub open spec fn spec_projections(view: CanonicalView) -> Seq<Projection> {
    match view {
        CanonicalView::Front => seq![
            projection(21, 15, 4, 1, 2, 1, 0),
            projection(16, 10, 3, -2i32, 2, 5, 2),
            projection(10, 6, 1, 0, 2, 9, 1),
        ],
        CanonicalView::Back => seq![
            projection(20, 14, 3, -2i32, 2, 7, 2),
            projection(16, 11, 4, 1, 2, 2, 0),
            projection(9, 6, 1, 1, 2, 11, 1),
        ],
        CanonicalView::Left => seq![
            projection(21, 13, 2, 3, 2, 4, 1),
            projection(15, 11, 1, -3i32, 2, 8, 0),
            projection(10, 5, 1, 0, 2, 12, 2),
        ],
        CanonicalView::Right => seq![
            projection(20, 15, 1, -3i32, 2, 10, 0),
            projection(16, 9, 2, 3, 2, 3, 2),
            projection(9, 6, 0, 1, 2, 14, 1),
        ],
        CanonicalView::Top => seq![
            projection(19, 16, 3, 1, 2, 6, 2),
            projection(16, 10, 1, 3, 2, 12, 1),
            projection(10, 6, 2, -1i32, 2, 1, 0),
        ],
        CanonicalView::Bottom => seq![
            projection(21, 14, 1, 3, 2, 13, 1),
            projection(15, 11, 3, -1i32, 2, 4, 0),
            projection(9, 5, 1, 2, 2, 7, 2),
        ],
    }
}

fn projections(view: CanonicalView) -> (table: [Projection; 3])
    ensures
        table@ == spec_projections(view),
{
    match view {
        CanonicalView::Front => [p(21, 15, 4, 1, 2, 1, 0), p(16, 10, 3, -2, 2, 5, 2), p(10, 6, 1, 0, 2, 9, 1)],
        CanonicalView::Back => [p(20, 14, 3, -2, 2, 7, 2), p(16, 11, 4, 1, 2, 2, 0), p(9, 6, 1, 1, 2, 11, 1)],
        CanonicalView::Left => [p(21, 13, 2, 3, 2, 4, 1), p(15, 11, 1, -3, 2, 8, 0), p(10, 5, 1, 0, 2, 12, 2)],
        CanonicalView::Right => [p(20, 15, 1, -3, 2, 10, 0), p(16, 9, 2, 3, 2, 3, 2), p(9, 6, 0, 1, 2, 14, 1)],
        CanonicalView::Top => [p(19, 16, 3, 1, 2, 6, 2), p(16, 10, 1, 3, 2, 12, 1), p(10, 6, 2, -1, 2, 1, 0)],
        CanonicalView::Bottom => [p(21, 14, 1, 3, 2, 13, 1), p(15, 11, 3, -1, 2, 4, 0), p(9, 5, 1, 2, 2, 7, 2)],
    }
}

/// The ranges the table's fields lie in.
pub open spec fn projection_wf(projection: Projection) -> bool {
    &&& 1 <= projection.radius_u <= 30
    &&& 1 <= projection.radius_v <= 30
    &&& -4 <= projection.direction_u <= 4
    &&& -4 <= projection.direction_v <= 4
    &&& 1 <= projection.direction_u * projection.direction_u + projection.direction_v * projection.direction_v
    &&& 1 <= projection.thickness <= 4
    &&& 0 <= projection.phase <= 15
}

/// Every record of a table lies in range.
pub open spec fn table_wf(table: Seq<Projection>) -> bool {
    &&& table.len() == 3
    &&& projection_wf(table[0])
    &&& projection_wf(table[1])
    &&& projection_wf(table[2])
}

proof fn lemma_projections_wf(view: CanonicalView)
    ensures
        spec_projections(view).len() == 3,
        forall|ring: int| 0 <= ring < 3 ==> projection_wf(#[trigger] spec_projections(view)[ring]),
{
    match view {
        CanonicalView::Front => assert(table_wf(spec_projections(CanonicalView::Front))),
        CanonicalView::Back => assert(table_wf(spec_projections(CanonicalView::Back))),
        CanonicalView::Left => assert(table_wf(spec_projections(CanonicalView::Left))),
        CanonicalView::Right => assert(table_wf(spec_projections(CanonicalView::Right))),
        CanonicalView::Top => assert(table_wf(spec_projections(CanonicalView::Top))),
        CanonicalView::Bottom => assert(table_wf(spec_projections(CanonicalView::Bottom))),
    }
    let table = spec_projections(view);
    assert forall|ring: int| 0 <= ring < 3 implies projection_wf(#[trigger] table[ring]) by {
        if ring == 0 {
        } else if ring == 1 {
        } else {
        }
    }
}

/// Twice the offset of a texel center from the middle of the image.
pub open spec fn spec_centered_doubled(coordinate: int) -> int {
    2 * coordinate + 1 - SIZE
}

/// Half-width of a ring's band in metric units: the band is `thickness`
/// source pixels wide across the ring's minor radius.
pub open spec fn spec_band(projection: Projection) -> int {
    let minor = if projection.radius_u < projection.radius_v {
        projection.radius_u
    } else {
        projection.radius_v
    };
    8192 * projection.thickness / (minor as int)
}

fn band(projection: Projection) -> (band: i64)
    requires
        projection_wf(projection),
    ensures
        band == spec_band(projection),
        1 <= band <= 8192 * 4,
{
    let minor = if projection.radius_u < projection.radius_v {
        projection.radius_u
    } else {
        projection.radius_v
    };
    assert(1 <= 8192 * projection.thickness / (minor as int) <= 8192 * 4) by (nonlinear_arith)
        requires
            1 <= minor <= 30,
            1 <= projection.thickness <= 4,
    ;
    8192 * projection.thickness as i64 / minor as i64
}

/// The texel at `(x, y)` in the frame of `projection`'s ellipse: the squared
/// elliptic radius scaled so the ellipse itself is at 4096, and the rotated
/// coordinates; present only within the ring's band.
pub open spec fn spec_projection_sample(x: int, y: int, projection: Projection) -> Option<(int, int, int)> {
    let cx = spec_centered_doubled(x);
    let cy = spec_centered_doubled(y);
    let u = projection.direction_u * cx + projection.direction_v * cy;
    let v = projection.direction_u * cy - projection.direction_v * cx;
    let norm = projection.direction_u * projection.direction_u + projection.direction_v * projection.direction_v;
    let radius_u = 2 * projection.radius_u;
    let radius_v = 2 * projection.radius_v;
    let metric = u * u * 4096 / (norm * (radius_u * radius_u)) + v * v * 4096 / (norm * (radius_v * radius_v));
    if magnitude(metric - 4096) <= spec_band(projection) {
        Some((metric, u, v))
    } else {
        None
    }
}

/// Bounds on a product of bounded factors.
proof fn lemma_product_bound(a: int, a_bound: int, b: int, b_bound: int)
    requires
        -a_bound <= a <= a_bound,
        -b_bound <= b <= b_bound,
    ensures
        -(a_bound * b_bound) <= a * b <= a_bound * b_bound,
{
    assert(-(a_bound * b_bound) <= a * b <= a_bound * b_bound) by (nonlinear_arith)
        requires
            -a_bound <= a <= a_bound,
            -b_bound <= b <= b_bound,
    ;
}

/// A scaled square divided by a positive weight is nonnegative and bounded.
proof fn lemma_scaled_square(value: int, weight: int)
    requires
        -400 <= value <= 400,
        1 <= weight,
    ensures
        0 <= value * value <= 160_000,
        0 <= value * value * 4096 <= 160_000 * 4096,
        0 <= value * value * 4096 / weight <= 160_000 * 4096,
{
    assert(0 <= value * value <= 160_000) by (nonlinear_arith)
        requires
            -400 <= value <= 400,
    ;
    let scaled = value * value * 4096;
    assert(0 <= scaled / weight <= scaled) by (nonlinear_arith)
        requires
            0 <= scaled,
            1 <= weight,
    ;
}

fn projection_sample(x: i32, y: i32, projection: Projection) -> (sample: Option<(i64, i64, i64)>)
    requires
        0 <= x < 48,
        0 <= y < 48,
        projection_wf(projection),
    ensures
        match sample {
            Some((metric, u, v)) => {
                &&& spec_projection_sample(x as int, y as int, projection) == Some((metric as int, u as int, v as int))
                &&& -400 <= u <= 400
                &&& -400 <= v <= 400
                &&& magnitude(metric - 4096) <= spec_band(projection)
            },
            None => spec_projection_sample(x as int, y as int, projection) is None,
        },
{
    let cx = 2 * x + 1 - SIZE;
    let cy = 2 * y + 1 - SIZE;
    proof {
        lemma_product_bound(projection.direction_u as int, 4, cx as int, 47);
        lemma_product_bound(projection.direction_v as int, 4, cy as int, 47);
        lemma_product_bound(projection.direction_v as int, 4, cx as int, 47);
        lemma_product_bound(projection.direction_u as int, 4, cy as int, 47);
        lemma_product_bound(projection.direction_u as int, 4, projection.direction_u as int, 4);
        lemma_product_bound(projection.direction_v as int, 4, projection.direction_v as int, 4);
    }
    let u = (projection.direction_u * cx + projection.direction_v * cy) as i64;
    let v = (projection.direction_u * cy - projection.direction_v * cx) as i64;
    let norm = (projection.direction_u * projection.direction_u + projection.direction_v * projection.direction_v)
        as i64;
    let radius_u = 2 * projection.radius_u as i64;
    let radius_v = 2 * projection.radius_v as i64;
    assert(4 <= radius_u * radius_u <= 3600 && 4 <= radius_v * radius_v <= 3600 && 1 <= norm * (radius_u * radius_u)
        <= 32 * 3600 && 1 <= norm * (radius_v * radius_v) <= 32 * 3600) by (nonlinear_arith)
        requires
            1 <= norm <= 32,
            2 <= radius_u <= 60,
            2 <= radius_v <= 60,
    ;
    proof {
        lemma_scaled_square(u as int, (norm * (radius_u * radius_u)) as int);
        lemma_scaled_square(v as int, (norm * (radius_v * radius_v)) as int);
    }
    let metric = u * u * 4096 / (norm * (radius_u * radius_u)) + v * v * 4096 / (norm * (radius_v * radius_v));
    let band = band(projection);
    let distance = if metric < 4096 {
        4096 - metric
    } else {
        metric - 4096
    };
    if distance <= band {
        Some((metric, u, v))
    } else {
        None
    }
}

/// Position along the arc in sixteenths of a turn, counterclockwise from
/// the positive `u` axis, in quarter-quadrant steps.
pub open spec fn spec_arc_step(u: int, v: int) -> int {
    let abs_u = magnitude(u);
    let abs_v = magnitude(v);
    let sum = if abs_u + abs_v > 1 {
        abs_u + abs_v
    } else {
        1
    };
    let raw = 4 * abs_v / sum;
    let fraction = if raw < 3 {
        raw
    } else {
        3
    };
    if u >= 0 && v >= 0 {
        fraction
    } else if u < 0 && v >= 0 {
        7 - fraction
    } else if u < 0 && v < 0 {
        8 + fraction
    } else {
        15 - fraction
    }
}

fn arc_step(u: i64, v: i64) -> (step: i32)
    requires
        -400 <= u <= 400,
        -400 <= v <= 400,
    ensures
        step == spec_arc_step(u as int, v as int),
        0 <= step <= 15,
{
    let abs_u = if u < 0 {
        -u
    } else {
        u
    };
    let abs_v = if v < 0 {
        -v
    } else {
        v
    };
    let sum = if abs_u + abs_v > 1 {
        abs_u + abs_v
    } else {
        1
    };
    let raw = 4 * abs_v / sum;
    assert(0 <= raw) by (nonlinear_arith)
        requires
            raw == 4 * abs_v / (sum as int),
            0 <= abs_v,
            1 <= sum,
    ;
    let fraction = (if raw < 3 {
        raw
    } else {
        3
    }) as i32;
    if u >= 0 && v >= 0 {
        fraction
    } else if u < 0 && v >= 0 {
        7 - fraction
    } else if u < 0 && v < 0 {
        8 + fraction
    } else {
        15 - fraction
    }
}

/// The ring sampled at `(x, y)` among rings `0..count` of `projections`:
/// the one latest in drawing order, the later ring on a tie.
pub open spec fn spec_selected(projections: Seq<Projection>, count: int, x: int, y: int) -> Option<(int, (int, int, int))>
    decreases count,
{
    if count <= 0 {
        None
    } else {
        let ring = count - 1;
        let earlier = spec_selected(projections, ring, x, y);
        match spec_projection_sample(x, y, projections[ring]) {
            None => earlier,
            Some(sample) => match earlier {
                Some((best, _)) => if projections[ring].draw_order >= projections[best].draw_order {
                    Some((ring, sample))
                } else {
                    earlier
                },
                None => Some((ring, sample)),
            },
        }
    }
}

/// The light each side of the gyroscope receives.
pub open spec fn spec_face_light(view: CanonicalView) -> int {
    match view {
        CanonicalView::Top => 18,
        CanonicalView::Front => 12,
        CanonicalView::Left => 7,
        CanonicalView::Right => 1,
        CanonicalView::Back => -5,
        CanonicalView::Bottom => -10,
    }
}

/// The observation texel of `view` at `(x, y)`: the selected ring's color,
/// with relief rising across the band and rippling along the arc.
pub open spec fn spec_observation_texel(view: CanonicalView, x: int, y: int) -> [u8; 4] {
    let projections = spec_projections(view);
    match spec_selected(projections, 3, x, y) {
        None => EMPTY_RGBA,
        Some((ring, (metric, u, v))) => {
            let projection = projections[ring];
            let across_band = magnitude(metric - 4096) * 88 / spec_band(projection);
            let phased_arc = (spec_arc_step(u, v) + projection.phase) % 16;
            let relief = (8 + across_band + 5 * phased_arc) as u8;
            let directional = spec_directional_light(view, SIZE as int, SIZE as int, x, y);
            spec_rgba(spec_shade(RING_BASES[ring], spec_face_light(view) + directional, relief), relief)
        },
    }
}

/// The observation texels of `view`.
pub open spec fn observation_texels(view: CanonicalView) -> spec_fn(int, int) -> [u8; 4] {
    |x: int, y: int| spec_observation_texel(view, x, y)
}

fn face_light(view: CanonicalView) -> (light: i32)
    ensures
        light == spec_face_light(view),
{
    match view {
        CanonicalView::Top => 18,
        CanonicalView::Front => 12,
        CanonicalView::Left => 7,
        CanonicalView::Right => 1,
        CanonicalView::Back => -5,
        CanonicalView::Bottom => -10,
    }
}

/// Bounds on the relief of a selected sample.
proof fn lemma_relief_bounds(metric: int, band: int, phased_arc: int)
    requires
        1 <= band,
        magnitude(metric - 4096) <= band,
        0 <= phased_arc <= 15,
    ensures
        0 <= magnitude(metric - 4096) * 88 / band <= 88,
        8 <= 8 + magnitude(metric - 4096) * 88 / band + 5 * phased_arc <= 171,
{
    let distance = magnitude(metric - 4096);
    assert(0 <= distance * 88 / band <= 88) by (nonlinear_arith)
        requires
            0 <= distance <= band,
            1 <= band,
    ;
}

fn observation_texel(view: CanonicalView, x: i32, y: i32) -> (pixel: [u8; 4])
    requires
        0 <= x < 48,
        0 <= y < 48,
    ensures
        pixel == spec_observation_texel(view, x as int, y as int),
{
    let projections = projections(view);
    proof {
        lemma_projections_wf(view);
    }
    let mut selected: Option<(usize, i64, i64, i64)> = None;
    let mut ring: usize = 0;
    while ring < 3
        invariant
            0 <= x < 48,
            0 <= y < 48,
            ring <= 3,
            projections@ == spec_projections(view),
            forall|r: int| 0 <= r < 3 ==> projection_wf(#[trigger] projections@[r]),
            match selected {
                Some((best, metric, u, v)) => {
                    &&& spec_selected(projections@, ring as int, x as int, y as int) == Some(
                        (best as int, (metric as int, u as int, v as int)),
                    )
                    &&& best < ring
                    &&& -400 <= u <= 400
                    &&& -400 <= v <= 400
                    &&& magnitude(metric - 4096) <= spec_band(projections@[best as int])
                },
                None => spec_selected(projections@, ring as int, x as int, y as int) is None,
            },
        decreases 3 - ring,
    {
        let projection = projections[ring];
        match projection_sample(x, y, projection) {
            Some((metric, u, v)) => {
                let replace = match selected {
                    Some((best, _, _, _)) => projection.draw_order >= projections[best].draw_order,
                    None => true,
                };
                if replace {
                    selected = Some((ring, metric, u, v));
                }
            },
            None => {},
        }
        ring += 1;
    }
    let (ring, metric, u, v) = match selected {
        Some(sample) => sample,
        None => {
            return EMPTY_RGBA;
        },
    };
    let projection = projections[ring];
    let band = band(projection);
    let distance = if metric < 4096 {
        4096 - metric
    } else {
        metric - 4096
    };
    let phased = rem_euclid(arc_step(u, v) + projection.phase, 16);
    proof {
        lemma_relief_bounds(metric as int, band as int, phased as int);
    }
    let across_band = (distance * 88 / band) as u8;
    let phased_arc = phased as u8;
    let relief = 8 + across_band + 5 * phased_arc;
    let directional = directional_light(view, SIZE, SIZE, x, y);
    rgba(shade(RING_BASES[ring], face_light(view) + directional, relief), relief)
}

/// The observation chart of `view`.
pub open spec fn observation_chart(view: CanonicalView) -> ChartModel {
    generated_chart(view, false, false, 48, 48, observation_texels(view))
}

fn observation(bounds: Bounds, view: CanonicalView) -> (result: Result<Chart, ModelError>)
    requires
        bounds == gyroscope_bounds(),
    ensures
        result matches Ok(chart) && chart.wf() && chart.model() == observation_chart(view),
{
    let pixels = fill_pixels(view, 48, 48, observation_texel, Ghost(observation_texels(view)));
    match Chart::from_rgba(view, 48, 48, pixels) {
        Ok(chart) => Ok(chart),
        Err(error) => Err(ModelError::Chart(error)),
    }
}

/// The gyroscope's bounds: a 48 pixel cube.
pub open spec fn gyroscope_bounds() -> Bounds {
    Bounds::spec_from_extents(48, 48, 48)
}

/// The gyroscope's charts, one observation per side in canonical order.
pub open spec fn gyroscope_charts() -> Seq<ChartModel> {
    seq![
        observation_chart(CanonicalView::Front),
        observation_chart(CanonicalView::Right),
        observation_chart(CanonicalView::Back),
        observation_chart(CanonicalView::Left),
        observation_chart(CanonicalView::Top),
        observation_chart(CanonicalView::Bottom),
    ]
}

/// A selection among rings is one of them, and its sample is in its band.
proof fn lemma_selected(projections: Seq<Projection>, count: int, x: int, y: int)
    requires
        0 <= count <= projections.len(),
    ensures
        spec_selected(projections, count, x, y) matches Some((ring, sample)) ==> 0 <= ring < count
            && spec_projection_sample(x, y, projections[ring]) == Some(sample),
    decreases count,
{
    if count > 0 {
        lemma_selected(projections, count - 1, x, y);
    }
}

proof fn lemma_observation_within(view: CanonicalView)
    ensures
        observation_chart(view).wf(),
        forall|index: int|
            0 <= index < observation_chart(view).rgba.len() ==> crate::model::pixel_within(
                #[trigger] observation_chart(view).rgba[index],
                192,
            ),
{
    lemma_projections_wf(view);
    assert forall|x: int, y: int| 0 <= x < 48 && 0 <= y < 48 implies crate::model::pixel_within(
        #[trigger] observation_texels(view)(x, y),
        192,
    ) by {
        let projections = spec_projections(view);
        lemma_selected(projections, 3, x, y);
        if let Some((ring, (metric, u, v))) = spec_selected(projections, 3, x, y) {
            let projection = projections[ring];
            let minor = if projection.radius_u < projection.radius_v {
                projection.radius_u
            } else {
                projection.radius_v
            };
            assert(1 <= spec_band(projection)) by (nonlinear_arith)
                requires
                    1 <= minor <= 30,
                    1 <= projection.thickness <= 4,
                    spec_band(projection) == 8192 * projection.thickness / (minor as int),
            ;
            let phased_arc = (spec_arc_step(u, v) + projection.phase) % 16;
            lemma_relief_bounds(metric, spec_band(projection), phased_arc);
        }
    }
    assert(texels_within(48, 48, observation_texels(view), 192));
    lemma_generated_within(observation_chart(view), observation_texels(view), 192);
}

/// The gyroscope example: a 48 pixel cube observed on all six sides.
pub fn gyroscope_model() -> (result: Result<AuthoredModel, ModelError>)
    ensures
        result matches Ok(model) && model.wf() && model.model() == (ModelView {
            bounds: gyroscope_bounds(),
            charts: gyroscope_charts(),
        }),
{
    let bounds = match Bounds::new(48, 48, 48) {
        Ok(bounds) => bounds,
        Err(error) => {
            return Err(ModelError::Chart(error));
        },
    };
    // The sides are observed in canonical order, the order the model keeps.
    let views: [CanonicalView; 6] = [
        CanonicalView::Front,
        CanonicalView::Right,
        CanonicalView::Back,
        CanonicalView::Left,
        CanonicalView::Top,
        CanonicalView::Bottom,
    ];
    let mut charts: Vec<Chart> = Vec::new();
    let mut index: usize = 0;
    while index < 6
        invariant
            index <= 6,
            bounds == gyroscope_bounds(),
            views@ == seq![
                CanonicalView::Front,
                CanonicalView::Right,
                CanonicalView::Back,
                CanonicalView::Left,
                CanonicalView::Top,
                CanonicalView::Bottom,
            ],
            charts@.len() == index,
            forall|i: int| 0 <= i < index ==> (#[trigger] charts@[i]).wf(),
            forall|i: int| 0 <= i < index ==> (#[trigger] charts@[i]).model() == observation_chart(views@[i]),
        decreases 6 - index,
    {
        match observation(bounds, views[index]) {
            Ok(chart) => charts.push(chart),
            Err(error) => {
                return Err(error);
            },
        }
        index += 1;
    }
    proof {
        lemma_bounds_extents(48, 48, 48);
        assert(models(charts@) =~= gyroscope_charts());
        lemma_observation_within(CanonicalView::Front);
        lemma_observation_within(CanonicalView::Right);
        lemma_observation_within(CanonicalView::Back);
        lemma_observation_within(CanonicalView::Left);
        lemma_observation_within(CanonicalView::Top);
        lemma_observation_within(CanonicalView::Bottom);
        let charts = gyroscope_charts();
        assert forall|i: int| 0 <= i < 6 implies #[trigger] rank_of(charts[i]) == i by {
            assert(charts[i].view == views@[i]);
        }
        assert forall|i: int| 0 <= i < 6 implies chart_fits(bounds, #[trigger] charts[i]) by {
            assert(charts[i] == observation_chart(views@[i]));
        }
    }
    assemble(bounds, charts)
}

} // verus!
