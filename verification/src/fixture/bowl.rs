//! A shallow bowl: a lower half-ellipsoid seen from the front, mirrored onto
//! the back, and a circular basin seen from above.

use vstd::prelude::*;

use crate::chart::{Bounds, CanonicalView, Chart, EMPTY_RGBA};
use crate::fixture::pixel::{
    directional_light, fill_pixels, floor_sqrt, integer_sqrt, lemma_floor_sqrt_exists, lemma_root_at_most,
    lemma_square_bound, magnitude, mask_boundary, rgba, shade, spec_directional_light, spec_mask_boundary, spec_rgba,
    spec_shade,
};
use crate::fixture::{assemble, generated_chart, lemma_generated_within, texels_within};
use crate::model::{models, AuthoredModel, ModelError, ModelView};

verus! {

pub const DIAMETER: i32 = 32;

pub const RADIUS_DOUBLED: i32 = 32;

pub const HEIGHT_INTERVALS: u32 = 11;

pub const BASIN_DEPTH_EIGHTHS: u32 = 48;

pub const MAX_FRONT_RELIEF: u32 = 128;

pub const TOP_BASE: [u8; 3] = [190, 126, 62];

pub const FRONT_BASE: [u8; 3] = [142, 72, 44];

/// Twice the offset of a texel center from the middle of the diameter.
pub open spec fn spec_centered_doubled(coordinate: int) -> int {
    2 * coordinate + 1 - DIAMETER
}

fn centered_doubled(coordinate: i32) -> (doubled: i32)
    requires
        -1001 <= coordinate <= 1001,
    ensures
        doubled == spec_centered_doubled(coordinate as int),
{
    2 * coordinate + 1 - DIAMETER
}

/// Half the chord of a circle of radius `radius` at squared offset
/// `squared_offset` from its center (zero outside the circle).
pub open spec fn spec_circular_span(radius: int, squared_offset: int) -> int {
    floor_sqrt(if radius * radius > squared_offset {
        radius * radius - squared_offset
    } else {
        0
    })
}

fn circular_span_from_squared_offset(radius: u32, squared_offset: u32) -> (span: u32)
    requires
        radius <= 0xffff,
    ensures
        span == spec_circular_span(radius as int, squared_offset as int),
        span <= radius,
{
    assert(radius * radius <= 0xffff * 0xffff) by (nonlinear_arith)
        requires
            radius <= 0xffff,
    ;
    let remaining = (radius * radius).saturating_sub(squared_offset);
    let span = integer_sqrt(remaining);
    proof {
        lemma_root_at_most(remaining as int, span as int, radius as int);
    }
    span
}

/// The circular rim of the basin seen from above.
pub open spec fn spec_top_foreground(x: int, y: int) -> bool {
    let dx = spec_centered_doubled(x);
    let dy = spec_centered_doubled(y);
    dx * dx + dy * dy <= RADIUS_DOUBLED * RADIUS_DOUBLED
}

/// The top silhouette as a predicate on positions.
pub open spec fn top_foreground_predicate() -> spec_fn(i32, i32) -> bool {
    |x: i32, y: i32| spec_top_foreground(x as int, y as int)
}

fn top_foreground(x: i32, y: i32) -> (inside: bool)
    requires
        -1001 <= x <= 1001,
        -1001 <= y <= 1001,
    ensures
        inside == spec_top_foreground(x as int, y as int),
{
    let dx = centered_doubled(x);
    let dy = centered_doubled(y);
    proof {
        lemma_square_bound(dx as int, 2100);
        lemma_square_bound(dy as int, 2100);
    }
    dx * dx + dy * dy <= RADIUS_DOUBLED * RADIUS_DOUBLED
}

/// The top texel at `(x, y)`: the basin sinks to 48 eighths at its center
/// and meets the exterior at zero relief on the rim, which is lit.
pub open spec fn spec_top_texel(x: int, y: int) -> [u8; 4] {
    if !spec_top_foreground(x, y) {
        EMPTY_RGBA
    } else {
        let dx = spec_centered_doubled(x);
        let dy = spec_centered_doubled(y);
        let span = spec_circular_span(RADIUS_DOUBLED as int, dx * dx + dy * dy);
        let boundary = spec_mask_boundary(top_foreground_predicate(), x as i32, y as i32);
        let relief: u8 = if boundary {
            0
        } else {
            (BASIN_DEPTH_EIGHTHS * span / (RADIUS_DOUBLED as int)) as u8
        };
        let directional = spec_directional_light(CanonicalView::Top, 32, 32, x, y);
        let rim_highlight: int = if boundary {
            14
        } else {
            0
        };
        spec_rgba(spec_shade(TOP_BASE, 18 + directional + rim_highlight, relief), relief)
    }
}

fn top_texel(view: CanonicalView, x: i32, y: i32) -> (pixel: [u8; 4])
    requires
        view == CanonicalView::Top,
        0 <= x < 32,
        0 <= y < 32,
    ensures
        pixel == spec_top_texel(x as int, y as int),
{
    if !top_foreground(x, y) {
        return EMPTY_RGBA;
    }
    let dx = centered_doubled(x);
    let dy = centered_doubled(y);
    proof {
        lemma_square_bound(dx as int, 31);
        lemma_square_bound(dy as int, 31);
    }
    let squared_radius = (dx * dx + dy * dy) as u32;
    let basin_span = circular_span_from_squared_offset(RADIUS_DOUBLED as u32, squared_radius);
    let boundary = mask_boundary(x, y, top_foreground, Ghost(top_foreground_predicate()));
    let relief: u8 = if boundary {
        0
    } else {
        (BASIN_DEPTH_EIGHTHS * basin_span / RADIUS_DOUBLED as u32) as u8
    };
    let directional = directional_light(view, 32, 32, x, y);
    let rim_highlight: i32 = if boundary {
        14
    } else {
        0
    };
    rgba(shade(TOP_BASE, 18 + directional + rim_highlight, relief), relief)
}

/// The top texels as a function of position.
pub open spec fn top_texels() -> spec_fn(int, int) -> [u8; 4] {
    |x: int, y: int| spec_top_texel(x, y)
}

fn top_pixels() -> (pixels: Vec<[u8; 4]>)
    ensures
        pixels@ == generated_chart(CanonicalView::Top, false, false, 32, 32, top_texels()).rgba,
{
    fill_pixels(CanonicalView::Top, 32, 32, top_texel, Ghost(top_texels()))
}

/// Twice the half-width of front row `y`: the circle's chord at the row's
/// sampled height, at least one.
pub open spec fn spec_half_width_doubled(y: int) -> int {
    let vertical_offset = RADIUS_DOUBLED * y / (HEIGHT_INTERVALS as int);
    let span = spec_circular_span(RADIUS_DOUBLED as int, vertical_offset * vertical_offset);
    if span > 1 {
        span
    } else {
        1
    }
}

fn half_width_doubled(y: u32) -> (half_width: u32)
    requires
        y < 12,
    ensures
        half_width == spec_half_width_doubled(y as int),
        1 <= half_width <= 32,
{
    let vertical_offset = 32 * y / HEIGHT_INTERVALS;
    proof {
        lemma_square_bound(vertical_offset as int, 32);
    }
    let span = circular_span_from_squared_offset(RADIUS_DOUBLED as u32, vertical_offset * vertical_offset);
    if span > 1 {
        span
    } else {
        1
    }
}

/// How far inside the front silhouette a texel at doubled offset `offset`
/// of a row with doubled half-width `half_width` lies.
pub open spec fn spec_row_front_distance(offset: int, half_width: int) -> int {
    RADIUS_DOUBLED - spec_circular_span(half_width, offset * offset)
}

fn row_front_distance(offset: u32, half_width: u32) -> (distance: u32)
    requires
        offset <= 32,
        half_width <= 32,
    ensures
        distance == spec_row_front_distance(offset as int, half_width as int),
        distance <= 32,
{
    proof {
        lemma_square_bound(offset as int, 32);
    }
    32 - circular_span_from_squared_offset(half_width, offset * offset)
}

/// The outermost two doubled units of each row form the silhouette.
pub open spec fn spec_horizontal_silhouette(offset: int, half_width: int) -> bool {
    offset + 2 > half_width
}

fn horizontal_silhouette(offset: u32, half_width: u32) -> (silhouette: bool)
    requires
        offset <= 32,
    ensures
        silhouette == spec_horizontal_silhouette(offset as int, half_width as int),
{
    offset + 2 > half_width
}

/// The front texel at `(x, y)`: row `y` samples the ellipsoid's cross-section,
/// relief rising to the full 128 eighths on the silhouette; the rim row is lit.
pub open spec fn spec_front_texel(x: int, y: int) -> [u8; 4] {
    let half_width = spec_half_width_doubled(y);
    let offset = magnitude(spec_centered_doubled(x));
    if offset > half_width {
        EMPTY_RGBA
    } else {
        let relief = (if spec_horizontal_silhouette(offset, half_width) {
            MAX_FRONT_RELIEF as int
        } else {
            4 * spec_row_front_distance(offset, half_width)
        }) as u8;
        let directional = spec_directional_light(CanonicalView::Front, 32, 12, x, y);
        let rim_highlight: int = if y == 0 {
            14
        } else {
            0
        };
        spec_rgba(spec_shade(FRONT_BASE, 16 + directional + rim_highlight, relief), relief)
    }
}

fn front_texel(view: CanonicalView, x: i32, y: i32) -> (pixel: [u8; 4])
    requires
        view == CanonicalView::Front,
        0 <= x < 32,
        0 <= y < 12,
    ensures
        pixel == spec_front_texel(x as int, y as int),
{
    let half_width = half_width_doubled(y as u32);
    let doubled = centered_doubled(x);
    let offset: u32 = if doubled < 0 {
        (-doubled) as u32
    } else {
        doubled as u32
    };
    if offset > half_width {
        return EMPTY_RGBA;
    }
    let relief = (if horizontal_silhouette(offset, half_width) {
        MAX_FRONT_RELIEF
    } else {
        4 * row_front_distance(offset, half_width)
    }) as u8;
    let directional = directional_light(view, 32, 12, x, y);
    let rim_highlight: i32 = if y == 0 {
        14
    } else {
        0
    };
    rgba(shade(FRONT_BASE, 16 + directional + rim_highlight, relief), relief)
}

/// The front texels as a function of position.
pub open spec fn front_texels() -> spec_fn(int, int) -> [u8; 4] {
    |x: int, y: int| spec_front_texel(x, y)
}

fn front_pixels() -> (pixels: Vec<[u8; 4]>)
    ensures
        pixels@ == generated_chart(CanonicalView::Front, true, true, 32, 12, front_texels()).rgba,
{
    fill_pixels(CanonicalView::Front, 32, 12, front_texel, Ghost(front_texels()))
}

/// The bowl's bounds: 32 wide, 12 high, 32 deep.
pub open spec fn bowl_bounds() -> Bounds {
    Bounds::spec_from_extents(32, 12, 32)
}

/// The bowl's charts: the front, also supplying the mirrored back, then the top.
pub open spec fn bowl_charts() -> Seq<crate::chart::ChartModel> {
    seq![
        generated_chart(CanonicalView::Front, true, true, 32, 12, front_texels()),
        generated_chart(CanonicalView::Top, false, false, 32, 32, top_texels()),
    ]
}

proof fn lemma_front_texels_within()
    ensures
        texels_within(32, 12, front_texels(), 128),
{
    assert forall|x: int, y: int| 0 <= x < 32 && 0 <= y < 12 implies crate::model::pixel_within(
        #[trigger] front_texels()(x, y),
        128,
    ) by {
        let vertical_offset = RADIUS_DOUBLED * y / (HEIGHT_INTERVALS as int);
        let squared = vertical_offset * vertical_offset;
        let vertical_remaining = if 32 * 32 > squared {
            32 * 32 - squared
        } else {
            0
        };
        lemma_floor_sqrt_exists(vertical_remaining);
        lemma_root_at_most(vertical_remaining, floor_sqrt(vertical_remaining), 32);
        let half_width = spec_half_width_doubled(y);
        let offset = magnitude(spec_centered_doubled(x));
        let remaining = if half_width * half_width > offset * offset {
            half_width * half_width - offset * offset
        } else {
            0
        };
        lemma_floor_sqrt_exists(remaining);
        lemma_root_at_most(remaining, floor_sqrt(remaining), half_width);
    }
}

proof fn lemma_top_texels_within()
    ensures
        texels_within(32, 32, top_texels(), 48),
{
    assert forall|x: int, y: int| 0 <= x < 32 && 0 <= y < 32 implies crate::model::pixel_within(
        #[trigger] top_texels()(x, y),
        48,
    ) by {
        let dx = spec_centered_doubled(x);
        let dy = spec_centered_doubled(y);
        lemma_square_bound(dx, 31);
        lemma_square_bound(dy, 31);
        let squared = dx * dx + dy * dy;
        let remaining = if 32 * 32 > squared {
            32 * 32 - squared
        } else {
            0
        };
        lemma_floor_sqrt_exists(remaining);
        lemma_root_at_most(remaining, floor_sqrt(remaining), 32);
    }
}

/// The bowl example: a 32 by 12 by 32 model with a front chart that also
/// supplies the mirrored back, and a top chart.
pub fn bowl_model() -> (result: Result<AuthoredModel, ModelError>)
    ensures
        result matches Ok(model) && model.wf() && model.model() == (ModelView {
            bounds: bowl_bounds(),
            charts: bowl_charts(),
        }),
{
    let bounds = match Bounds::new(32, 12, 32) {
        Ok(bounds) => bounds,
        Err(error) => {
            return Err(ModelError::Chart(error));
        },
    };
    let top = match Chart::from_rgba(CanonicalView::Top, 32, 32, top_pixels()) {
        Ok(chart) => chart,
        Err(error) => {
            return Err(ModelError::Chart(error));
        },
    };
    let front = match Chart::from_rgba(CanonicalView::Front, 32, 12, front_pixels()) {
        Ok(chart) => chart.with_opposite_assignment().with_mirrored_opposite(),
        Err(error) => {
            return Err(ModelError::Chart(error));
        },
    };
    let charts = vec![front, top];
    proof {
        let front_model = charts@[0].model();
        let top_model = charts@[1].model();
        lemma_front_texels_within();
        lemma_top_texels_within();
        lemma_generated_within(front_model, front_texels(), 128);
        lemma_generated_within(top_model, top_texels(), 48);
        assert(models(charts@) =~= bowl_charts());
        assert(!crate::model::has_view(models(charts@), CanonicalView::Back));
    }
    assemble(bounds, charts)
}

} // verus!
