//! A ridge tent: a striped canvas front with an entrance flap, a sagging
//! side wall and a pitched roof, the front and side supplying their
//! opposites.

use vstd::prelude::*;

use crate::chart::{lemma_bounds_extents, Bounds, CanonicalView, Chart, ChartModel, EMPTY_RGBA};
use crate::fixture::pixel::{
    directional_light, fill_pixels, magnitude, rem_euclid, rgba, shade, spec_directional_light, spec_rgba, spec_shade,
};
use crate::fixture::{assemble, generated_chart, lemma_generated_within, texels_within};
use crate::model::{models, AuthoredModel, ModelError, ModelView};

verus! {

pub const WIDTH: i32 = 48;

pub const HEIGHT: i32 = 28;

pub const DEPTH: i32 = 36;

pub const RIDGE_X: i32 = 24;

pub const EAVE_Y: i32 = 13;

pub const FABRIC: [u8; 3] = [174, 112, 64];

pub const STRIPE: [u8; 3] = [198, 142, 78];

pub const SEAM: [u8; 3] = [116, 72, 44];

pub const FLAP: [u8; 3] = [154, 78, 48];

/// Twice the offset of a texel center from the middle of an extent.
pub open spec fn spec_centered_doubled(coordinate: int, extent: int) -> int {
    2 * coordinate + 1 - extent
}

/// The magnitude of the doubled offset of `coordinate` within `extent`.
fn centered_distance(coordinate: i32, extent: i32) -> (distance: i32)
    requires
        0 <= coordinate <= 100,
        0 <= extent <= 100,
    ensures
        distance == magnitude(spec_centered_doubled(coordinate as int, extent as int)),
        0 <= distance <= 201,
{
    let doubled = 2 * coordinate + 1 - extent;
    if doubled < 0 {
        -doubled
    } else {
        doubled
    }
}

/// Canvas sag: proportional to the distance from the ridge and a periodic
/// position along the fold.
pub open spec fn spec_fold(amplitude: int, distance_from_ridge: int, periodic_position: int, denominator: int) -> int {
    amplitude * distance_from_ridge * periodic_position / denominator
}

/// Folds of small nonnegative factors are small and nonnegative.
proof fn lemma_fold_bounds(amplitude: int, distance_from_ridge: int, periodic_position: int, denominator: int)
    requires
        0 <= amplitude <= 10,
        0 <= distance_from_ridge <= 100,
        0 <= periodic_position <= 10,
        1 <= denominator,
    ensures
        0 <= amplitude * distance_from_ridge <= 1_000,
        0 <= amplitude * distance_from_ridge * periodic_position <= 10_000,
        0 <= spec_fold(amplitude, distance_from_ridge, periodic_position, denominator) <= 10_000,
{
    assert(0 <= amplitude * distance_from_ridge <= 1_000) by (nonlinear_arith)
        requires
            0 <= amplitude <= 10,
            0 <= distance_from_ridge <= 100,
    ;
    assert(0 <= amplitude * distance_from_ridge * periodic_position <= 10_000) by (nonlinear_arith)
        requires
            0 <= amplitude <= 10,
            0 <= distance_from_ridge <= 100,
            0 <= periodic_position <= 10,
    ;
    let product = amplitude * distance_from_ridge * periodic_position;
    assert(0 <= product / denominator <= product) by (nonlinear_arith)
        requires
            0 <= product,
            1 <= denominator,
    ;
}

fn fold(amplitude: i32, distance_from_ridge: i32, periodic_position: i32, denominator: i32) -> (sag: i32)
    requires
        0 <= amplitude <= 10,
        0 <= distance_from_ridge <= 100,
        0 <= periodic_position <= 10,
        1 <= denominator,
    ensures
        sag == spec_fold(amplitude as int, distance_from_ridge as int, periodic_position as int, denominator as int),
        0 <= sag <= 10_000,
{
    proof {
        lemma_fold_bounds(amplitude as int, distance_from_ridge as int, periodic_position as int, denominator as int);
    }
    amplitude * distance_from_ridge * periodic_position / denominator
}

/// The front roof line: row where column `x` meets the sloping roof.
pub open spec fn spec_front_roof_line(x: int) -> int {
    magnitude(spec_centered_doubled(x, WIDTH as int)) * EAVE_Y / (WIDTH as int)
}

/// The doorway at the bottom middle of the front.
pub open spec fn spec_entrance(x: int, y: int) -> bool {
    y >= 18 && magnitude(spec_centered_doubled(x, WIDTH as int)) <= 11
}

/// The flap folded back across the doorway.
pub open spec fn spec_flap(x: int, y: int) -> bool {
    19 <= x <= 22 && y >= 18 + (x - 19)
}

/// Caps `value` at `maximum`.
pub open spec fn capped(value: int, maximum: int) -> int {
    if value < maximum {
        value
    } else {
        maximum
    }
}

/// The front texel at `(x, y)`: canvas below the roof line except the open
/// doorway, with seams, stripes and the raised flap.
pub open spec fn spec_front_texel(x: int, y: int) -> [u8; 4] {
    if y < spec_front_roof_line(x) || (spec_entrance(x, y) && !spec_flap(x, y)) {
        EMPTY_RGBA
    } else {
        let distance = magnitude(spec_centered_doubled(x, WIDTH as int));
        let periodic = (y + 2 * x) % 8;
        let sag = spec_fold(5, distance, periodic, WIDTH * 7);
        let flap_lift: int = if spec_flap(x, y) {
            14
        } else {
            0
        };
        let relief = capped(6 + sag + flap_lift, 144) as u8;
        let seam = x == RIDGE_X || y == EAVE_Y || x % 12 == 0;
        let striped = (x / 4 + y / 5) % 4 == 0;
        let base = if spec_flap(x, y) {
            FLAP
        } else if seam {
            SEAM
        } else if striped {
            STRIPE
        } else {
            FABRIC
        };
        let directional = spec_directional_light(CanonicalView::Front, WIDTH as int, HEIGHT as int, x, y);
        spec_rgba(spec_shade(base, 16 + directional, relief), relief)
    }
}

/// The front texels.
pub open spec fn front_texels() -> spec_fn(int, int) -> [u8; 4] {
    |x: int, y: int| spec_front_texel(x, y)
}

fn flap(x: i32, y: i32) -> (lifted: bool)
    requires
        0 <= x < 48,
        0 <= y < 28,
    ensures
        lifted == spec_flap(x as int, y as int),
{
    19 <= x && x <= 22 && y >= 18 + (x - 19)
}

fn front_texel(view: CanonicalView, x: i32, y: i32) -> (pixel: [u8; 4])
    requires
        view == CanonicalView::Front,
        0 <= x < 48,
        0 <= y < 28,
    ensures
        pixel == spec_front_texel(x as int, y as int),
{
    let distance = centered_distance(x, WIDTH);
    let roof_line = distance * EAVE_Y / WIDTH;
    let entrance = y >= 18 && distance <= 11;
    if y < roof_line || (entrance && !flap(x, y)) {
        return EMPTY_RGBA;
    }
    let periodic = rem_euclid(y + 2 * x, 8);
    let sag = fold(5, distance, periodic, WIDTH * 7);
    let flap_lift: i32 = if flap(x, y) {
        14
    } else {
        0
    };
    let raised = 6 + sag + flap_lift;
    let relief = (if raised < 144 {
        raised
    } else {
        144
    }) as u8;
    let seam = x == RIDGE_X || y == EAVE_Y || rem_euclid(x, 12) == 0;
    let striped = rem_euclid(x / 4 + y / 5, 4) == 0;
    let base = if flap(x, y) {
        FLAP
    } else if seam {
        SEAM
    } else if striped {
        STRIPE
    } else {
        FABRIC
    };
    let directional = directional_light(view, WIDTH, HEIGHT, x, y);
    rgba(shade(base, 16 + directional, relief), relief)
}

/// The side roof line: the eave sags toward both ends of the tent.
pub open spec fn spec_right_roof_line(z: int) -> int {
    let distance = magnitude(spec_centered_doubled(z, DEPTH as int));
    3 + distance * distance * 8 / ((DEPTH - 1) * (DEPTH - 1))
}

/// The side texel at `(z, y)`: canvas below the sagging roof line, deeper
/// toward the ground and the ends, with seams and stripes.
pub open spec fn spec_right_texel(z: int, y: int) -> [u8; 4] {
    if y < spec_right_roof_line(z) {
        EMPTY_RGBA
    } else {
        let distance = magnitude(spec_centered_doubled(z, DEPTH as int));
        let periodic = (3 * z + y) % 10;
        let sag = spec_fold(7, distance, periodic, DEPTH * 9);
        let wall_curve = distance * distance * 26 / ((DEPTH - 1) * (DEPTH - 1));
        let relief = capped(10 + 2 * (HEIGHT - 1 - y) + wall_curve + sag, 192) as u8;
        let seam = y == EAVE_Y || z % 9 == 0;
        let striped = (z / 4 + y / 6) % 3 == 0;
        let base = if seam {
            SEAM
        } else if striped {
            STRIPE
        } else {
            FABRIC
        };
        let directional = spec_directional_light(CanonicalView::Right, DEPTH as int, HEIGHT as int, z, y);
        spec_rgba(spec_shade(base, 4 + directional, relief), relief)
    }
}

/// The side texels.
pub open spec fn right_texels() -> spec_fn(int, int) -> [u8; 4] {
    |z: int, y: int| spec_right_texel(z, y)
}

fn right_texel(view: CanonicalView, z: i32, y: i32) -> (pixel: [u8; 4])
    requires
        view == CanonicalView::Right,
        0 <= z < 36,
        0 <= y < 28,
    ensures
        pixel == spec_right_texel(z as int, y as int),
{
    let distance = centered_distance(z, DEPTH);
    assert(distance * distance <= 35 * 35) by (nonlinear_arith)
        requires
            0 <= distance <= 35,
    ;
    let roof_line = 3 + distance * distance * 8 / ((DEPTH - 1) * (DEPTH - 1));
    if y < roof_line {
        return EMPTY_RGBA;
    }
    let periodic = rem_euclid(3 * z + y, 10);
    let sag = fold(7, distance, periodic, DEPTH * 9);
    let wall_curve = distance * distance * 26 / ((DEPTH - 1) * (DEPTH - 1));
    let raised = 10 + 2 * (HEIGHT - 1 - y) + wall_curve + sag;
    let relief = (if raised < 192 {
        raised
    } else {
        192
    }) as u8;
    let seam = y == EAVE_Y || rem_euclid(z, 9) == 0;
    let striped = rem_euclid(z / 4 + y / 6, 3) == 0;
    let base = if seam {
        SEAM
    } else if striped {
        STRIPE
    } else {
        FABRIC
    };
    let directional = directional_light(view, DEPTH, HEIGHT, z, y);
    rgba(shade(base, 4 + directional, relief), relief)
}

/// The roof texel at `(x, z)`: the roof slopes down from the ridge, sags
/// along its folds, and is seamed along the ridge, the eaves and across.
pub open spec fn spec_top_texel(x: int, z: int) -> [u8; 4] {
    let distance = magnitude(spec_centered_doubled(x, WIDTH as int));
    let periodic = (z + x / 3) % 9;
    let sag = spec_fold(6, distance, periodic, WIDTH * 8);
    let roof_plane = 104 * distance / (WIDTH as int);
    let relief = capped(roof_plane + sag, 112) as u8;
    let ridge = magnitude(x - RIDGE_X) <= 1;
    let eave = x == 0 || x == WIDTH - 1;
    let seam = ridge || eave || z % 9 == 0;
    let striped = (x / 5 + z / 6) % 3 == 0;
    let base = if seam {
        SEAM
    } else if striped {
        STRIPE
    } else {
        FABRIC
    };
    let directional = spec_directional_light(CanonicalView::Top, WIDTH as int, DEPTH as int, x, z);
    spec_rgba(spec_shade(base, 22 + directional, relief), relief)
}

/// The roof texels.
pub open spec fn top_texels() -> spec_fn(int, int) -> [u8; 4] {
    |x: int, z: int| spec_top_texel(x, z)
}

fn top_texel(view: CanonicalView, x: i32, z: i32) -> (pixel: [u8; 4])
    requires
        view == CanonicalView::Top,
        0 <= x < 48,
        0 <= z < 36,
    ensures
        pixel == spec_top_texel(x as int, z as int),
{
    let distance = centered_distance(x, WIDTH);
    let periodic = rem_euclid(z + x / 3, 9);
    let sag = fold(6, distance, periodic, WIDTH * 8);
    let roof_plane = 104 * distance / WIDTH;
    let raised = roof_plane + sag;
    let relief = (if raised < 112 {
        raised
    } else {
        112
    }) as u8;
    // The x=23/24 ridge and x=0/47 eaves use the same landmark indices as the
    // front peak and eaves; the crosswise seams repeat those of the side.
    let ridge = x - RIDGE_X <= 1 && RIDGE_X - x <= 1;
    let eave = x == 0 || x == WIDTH - 1;
    let seam = ridge || eave || rem_euclid(z, 9) == 0;
    let striped = rem_euclid(x / 5 + z / 6, 3) == 0;
    let base = if seam {
        SEAM
    } else if striped {
        STRIPE
    } else {
        FABRIC
    };
    let directional = directional_light(view, WIDTH, DEPTH, x, z);
    rgba(shade(base, 22 + directional, relief), relief)
}

/// The tent's bounds: 48 wide, 28 high, 36 deep.
pub open spec fn tent_bounds() -> Bounds {
    Bounds::spec_from_extents(48, 28, 36)
}

/// The tent's charts: the front and the side, each supplying its opposite,
/// then the roof.
pub open spec fn tent_charts() -> Seq<ChartModel> {
    seq![
        generated_chart(CanonicalView::Front, true, false, 48, 28, front_texels()),
        generated_chart(CanonicalView::Right, true, false, 36, 28, right_texels()),
        generated_chart(CanonicalView::Top, false, false, 48, 36, top_texels()),
    ]
}

proof fn lemma_texels_within()
    ensures
        texels_within(48, 28, front_texels(), 144),
        texels_within(36, 28, right_texels(), 192),
        texels_within(48, 36, top_texels(), 112),
{
    assert forall|x: int, y: int| 0 <= x < 48 && 0 <= y < 28 implies crate::model::pixel_within(
        #[trigger] front_texels()(x, y),
        144,
    ) by {
        let distance = magnitude(spec_centered_doubled(x, WIDTH as int));
        lemma_fold_bounds(5, distance, (y + 2 * x) % 8, WIDTH * 7);
    }
    assert forall|z: int, y: int| 0 <= z < 36 && 0 <= y < 28 implies crate::model::pixel_within(
        #[trigger] right_texels()(z, y),
        192,
    ) by {
        let distance = magnitude(spec_centered_doubled(z, DEPTH as int));
        lemma_fold_bounds(7, distance, (3 * z + y) % 10, DEPTH * 9);
        assert(0 <= distance * distance * 26) by (nonlinear_arith);
    }
    assert forall|x: int, z: int| 0 <= x < 48 && 0 <= z < 36 implies crate::model::pixel_within(
        #[trigger] top_texels()(x, z),
        112,
    ) by {
        let distance = magnitude(spec_centered_doubled(x, WIDTH as int));
        lemma_fold_bounds(6, distance, (z + x / 3) % 9, WIDTH * 8);
    }
}

/// The tent example: a 48 by 28 by 36 model whose front and side supply
/// their opposites, with a roof seen from above.
pub fn tent_model() -> (result: Result<AuthoredModel, ModelError>)
    ensures
        result matches Ok(model) && model.wf() && model.model() == (ModelView {
            bounds: tent_bounds(),
            charts: tent_charts(),
        }),
{
    let bounds = match Bounds::new(48, 28, 36) {
        Ok(bounds) => bounds,
        Err(error) => {
            return Err(ModelError::Chart(error));
        },
    };
    let front_pixels = fill_pixels(CanonicalView::Front, 48, 28, front_texel, Ghost(front_texels()));
    let front = match Chart::from_rgba(CanonicalView::Front, 48, 28, front_pixels) {
        Ok(chart) => chart.with_opposite_assignment(),
        Err(error) => {
            return Err(ModelError::Chart(error));
        },
    };
    let right_pixels = fill_pixels(CanonicalView::Right, 36, 28, right_texel, Ghost(right_texels()));
    let right = match Chart::from_rgba(CanonicalView::Right, 36, 28, right_pixels) {
        Ok(chart) => chart.with_opposite_assignment(),
        Err(error) => {
            return Err(ModelError::Chart(error));
        },
    };
    let top_pixels = fill_pixels(CanonicalView::Top, 48, 36, top_texel, Ghost(top_texels()));
    let top = match Chart::from_rgba(CanonicalView::Top, 48, 36, top_pixels) {
        Ok(chart) => chart,
        Err(error) => {
            return Err(ModelError::Chart(error));
        },
    };
    let charts = vec![front, right, top];
    proof {
        lemma_bounds_extents(48, 28, 36);
        lemma_texels_within();
        let charts = models(charts@);
        assert(charts =~= tent_charts());
        lemma_generated_within(charts[0], front_texels(), 144);
        lemma_generated_within(charts[1], right_texels(), 192);
        lemma_generated_within(charts[2], top_texels(), 112);
        assert(!crate::model::has_view(charts, CanonicalView::Back));
        assert(!crate::model::has_view(charts, CanonicalView::Left));
    }
    assemble(bounds, charts)
}

} // verus!
