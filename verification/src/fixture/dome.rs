//! A domed rotunda: an elliptical dome on a windowed drum, seen from the
//! front and the right (each supplying its opposite), and from above.

use vstd::prelude::*;

use crate::chart::{lemma_bounds_extents, Bounds, CanonicalView, Chart, ChartModel, EMPTY_RGBA};
use crate::fixture::pixel::{
    directional_light, fill_pixels, floor_sqrt, integer_sqrt, lemma_floor_sqrt_exists, lemma_root_at_most,
    lemma_square_bound, magnitude, rem_euclid, rgba, shade, spec_directional_light, spec_rgba, spec_shade, toward_zero,
};
use crate::fixture::{assemble, generated_chart, lemma_generated_within, texels_within};
use crate::model::{models, AuthoredModel, ModelError, ModelView};

verus! {

pub const WIDTH: i32 = 48;

pub const HEIGHT: i32 = 32;

pub const DEPTH: i32 = 48;

pub const DOME_EAVE_Y: i32 = 20;

pub const HORIZONTAL_RADIUS: i32 = 48;

pub const VERTICAL_RADIUS: i32 = 40;

pub const STONE: [u8; 3] = [132, 142, 150];

pub const DRUM_STONE: [u8; 3] = [118, 128, 138];

pub const RIB: [u8; 3] = [188, 152, 78];

pub const WINDOW: [u8; 3] = [42, 58, 74];

/// Twice the offset of a texel center from the middle of an extent.
pub open spec fn spec_centered_doubled(coordinate: int, extent: int) -> int {
    2 * coordinate + 1 - extent
}

fn centered_doubled(coordinate: i32, extent: i32) -> (doubled: i32)
    requires
        0 <= coordinate <= 100,
        0 <= extent <= 100,
    ensures
        doubled == spec_centered_doubled(coordinate as int, extent as int),
{
    2 * coordinate + 1 - extent
}

/// Twice the height of row `y` above the dome's eave.
pub open spec fn spec_dome_doubled_height(y: int) -> int {
    2 * y + 1 - 2 * DOME_EAVE_Y
}

/// The squared horizontal half-chord of the dome's elliptical cross-section
/// at row `y` (negative above the dome).
pub open spec fn spec_half_span_squared(y: int) -> int {
    let dy = spec_dome_doubled_height(y);
    HORIZONTAL_RADIUS * HORIZONTAL_RADIUS - dy * dy * (HORIZONTAL_RADIUS * HORIZONTAL_RADIUS) / (VERTICAL_RADIUS
        * VERTICAL_RADIUS)
}

/// How far inside the dome's cross-section doubled column offset `dx` of row
/// `y` lies, squared (negative outside).
pub open spec fn spec_cross_section_remaining(dx: int, y: int) -> int {
    let dy = spec_dome_doubled_height(y);
    HORIZONTAL_RADIUS * HORIZONTAL_RADIUS - dx * dx - dy * dy * (HORIZONTAL_RADIUS * HORIZONTAL_RADIUS) / (
    VERTICAL_RADIUS * VERTICAL_RADIUS)
}

/// Bounds on the cross-section at rows of the chart.
proof fn lemma_cross_section_bounds(dx: int, y: int)
    requires
        -47 <= dx <= 47,
        0 <= y < 32,
    ensures
        0 <= dx * dx <= 47 * 47,
        0 <= spec_dome_doubled_height(y) * spec_dome_doubled_height(y) <= 39 * 39,
        0 <= spec_dome_doubled_height(y) * spec_dome_doubled_height(y) * 2304 <= 39 * 39 * 2304,
        spec_cross_section_remaining(dx, y) <= 2304,
        spec_half_span_squared(y) <= 2304,
        spec_cross_section_remaining(dx, y) == spec_half_span_squared(y) - dx * dx,
{
    let dy = spec_dome_doubled_height(y);
    lemma_square_bound(dx, 47);
    lemma_square_bound(dy, 39);
    assert(0 <= dy * dy * 2304 <= 39 * 39 * 2304) by (nonlinear_arith)
        requires
            0 <= dy * dy <= 39 * 39,
    ;
}

fn dome_cross_section_remaining(dx: i32, y: i32) -> (remaining: i32)
    requires
        -47 <= dx <= 47,
        0 <= y < 32,
    ensures
        remaining == spec_cross_section_remaining(dx as int, y as int),
{
    proof {
        lemma_cross_section_bounds(dx as int, y as int);
    }
    let dy = 2 * y + 1 - 2 * DOME_EAVE_Y;
    HORIZONTAL_RADIUS * HORIZONTAL_RADIUS - dx * dx - dy * dy * (HORIZONTAL_RADIUS * HORIZONTAL_RADIUS) / (
    VERTICAL_RADIUS * VERTICAL_RADIUS)
}

/// The side silhouette: the dome above its eave, the drum below it.
pub open spec fn spec_side_foreground(x: int, y: int) -> bool {
    let dx = spec_centered_doubled(x, WIDTH as int);
    if y < DOME_EAVE_Y {
        spec_cross_section_remaining(dx, y) >= 0
    } else {
        magnitude(dx) <= 43
    }
}

/// Whether the dome texel at doubled offset `dx` of row `y` lies on one of
/// the ribs, spaced evenly in angle, or on the lantern ring at the top.
pub open spec fn spec_dome_rib(dx: int, y: int) -> bool {
    let half_span_squared = spec_half_span_squared(y);
    if half_span_squared <= 0 {
        true
    } else {
        let root = floor_sqrt(half_span_squared);
        let half_span = if root > 1 {
            root
        } else {
            1
        };
        let angular_index = toward_zero(dx * 24, half_span);
        angular_index % 8 <= 1 || y <= 1
    }
}

fn dome_rib(dx: i32, y: i32) -> (rib: bool)
    requires
        -47 <= dx <= 47,
        0 <= y < 32,
    ensures
        rib == spec_dome_rib(dx as int, y as int),
{
    proof {
        lemma_cross_section_bounds(dx as int, y as int);
    }
    let dy = 2 * y + 1 - 2 * DOME_EAVE_Y;
    let half_span_squared = HORIZONTAL_RADIUS * HORIZONTAL_RADIUS - dy * dy * (HORIZONTAL_RADIUS * HORIZONTAL_RADIUS)
        / (VERTICAL_RADIUS * VERTICAL_RADIUS);
    if half_span_squared <= 0 {
        return true;
    }
    let root = integer_sqrt(half_span_squared as u32);
    proof {
        lemma_root_at_most(half_span_squared as int, root as int, 48);
    }
    let half_span: i32 = if root > 1 {
        root as i32
    } else {
        1
    };
    let angular_index = dx * 24 / half_span;
    rem_euclid(angular_index, 8) <= 1 || y <= 1
}

/// The drum's windows: four texels of every twelve, shifted by `phase`, in
/// rows 24 to 28.
pub open spec fn spec_drum_window(x: int, y: int, phase: int) -> bool {
    24 <= y <= 28 && 4 <= (x + phase) % 12 <= 7
}

fn drum_window(x: i32, y: i32, phase: i32) -> (window: bool)
    requires
        0 <= x < 48,
        0 <= phase <= 3,
    ensures
        window == spec_drum_window(x as int, y as int, phase as int),
{
    if !(24 <= y && y <= 28) {
        return false;
    }
    let bay = rem_euclid(x + phase, 12);
    4 <= bay && bay <= 7
}

/// The window phase of a side.
pub open spec fn spec_phase(view: CanonicalView) -> int {
    if view == CanonicalView::Front {
        0
    } else {
        3
    }
}

/// The face light of a side.
pub open spec fn spec_side_light(view: CanonicalView) -> int {
    if view == CanonicalView::Front {
        14
    } else {
        3
    }
}

/// Whether row `y` carries a molding around the drum.
pub open spec fn spec_molding_row(y: int) -> bool {
    y == 20 || y == 22 || y == 30
}

/// The side texel of `view` at `(x, y)`: relief follows the dome's shell or
/// the drum's cylinder, with raised moldings; ribs and drum pilasters are
/// gilded and the drum is pierced by windows.
pub open spec fn spec_side_texel(view: CanonicalView, x: int, y: int) -> [u8; 4] {
    if !spec_side_foreground(x, y) {
        EMPTY_RGBA
    } else {
        let dx = spec_centered_doubled(x, WIDTH as int);
        let dome = y < DOME_EAVE_Y;
        let span = if dome {
            floor_sqrt(spec_cross_section_remaining(dx, y))
        } else {
            floor_sqrt(HORIZONTAL_RADIUS * HORIZONTAL_RADIUS - dx * dx)
        };
        let shell_relief = 2 * (HORIZONTAL_RADIUS - span);
        let molding: int = if !dome && spec_molding_row(y) {
            8
        } else {
            0
        };
        let raised = shell_relief + molding;
        let relief = (if raised < 192 {
            raised
        } else {
            192
        }) as u8;
        let rib = if dome {
            spec_dome_rib(dx, y)
        } else {
            x % 8 <= 1 || spec_molding_row(y)
        };
        let window = !rib && spec_drum_window(x, y, spec_phase(view));
        let base = if window {
            WINDOW
        } else if rib {
            RIB
        } else if dome {
            STONE
        } else {
            DRUM_STONE
        };
        let directional = spec_directional_light(view, WIDTH as int, HEIGHT as int, x, y);
        spec_rgba(spec_shade(base, spec_side_light(view) + directional, relief), relief)
    }
}

/// The side texels of `view`.
pub open spec fn side_texels(view: CanonicalView) -> spec_fn(int, int) -> [u8; 4] {
    |x: int, y: int| spec_side_texel(view, x, y)
}

fn side_texel(view: CanonicalView, x: i32, y: i32) -> (pixel: [u8; 4])
    requires
        view == CanonicalView::Front || view == CanonicalView::Right,
        0 <= x < 48,
        0 <= y < 32,
    ensures
        pixel == spec_side_texel(view, x as int, y as int),
{
    let phase: i32 = match view {
        CanonicalView::Front => 0,
        _ => 3,
    };
    let face_light: i32 = match view {
        CanonicalView::Front => 14,
        _ => 3,
    };
    let dx = centered_doubled(x, WIDTH);
    proof {
        lemma_cross_section_bounds(dx as int, y as int);
    }
    let dome = y < DOME_EAVE_Y;
    let magnitude_x: i32 = if dx < 0 {
        -dx
    } else {
        dx
    };
    let inside = if dome {
        dome_cross_section_remaining(dx, y) >= 0
    } else {
        magnitude_x <= 43
    };
    if !inside {
        return EMPTY_RGBA;
    }
    let remaining = if dome {
        dome_cross_section_remaining(dx, y)
    } else {
        proof {
            lemma_square_bound(dx as int, 43);
        }
        HORIZONTAL_RADIUS * HORIZONTAL_RADIUS - dx * dx
    };
    let root = integer_sqrt(remaining as u32);
    proof {
        lemma_root_at_most(remaining as int, root as int, 48);
    }
    let span = root as i32;
    let shell_relief = 2 * (HORIZONTAL_RADIUS - span);
    let molding_row = y == 20 || y == 22 || y == 30;
    let molding: i32 = if !dome && molding_row {
        8
    } else {
        0
    };
    let raised = shell_relief + molding;
    let relief = (if raised < 192 {
        raised
    } else {
        192
    }) as u8;
    let rib = if dome {
        dome_rib(dx, y)
    } else {
        rem_euclid(x, 8) <= 1 || molding_row
    };
    let window = !rib && drum_window(x, y, phase);
    let base = if window {
        WINDOW
    } else if rib {
        RIB
    } else if dome {
        STONE
    } else {
        DRUM_STONE
    };
    let directional = directional_light(view, WIDTH, HEIGHT, x, y);
    rgba(shade(base, face_light + directional, relief), relief)
}

/// The dome's disc seen from above.
pub open spec fn spec_top_foreground(x: int, z: int) -> bool {
    let dx = spec_centered_doubled(x, WIDTH as int);
    let dz = spec_centered_doubled(z, DEPTH as int);
    dx * dx + dz * dz <= HORIZONTAL_RADIUS * HORIZONTAL_RADIUS
}

/// The eight gilded ribs radiating from the lantern, seen from above.
pub open spec fn spec_radial_rib(dx: int, dz: int) -> bool {
    ||| magnitude(dx) <= 1
    ||| magnitude(dz) <= 1
    ||| magnitude(dx - dz) <= 2
    ||| magnitude(dx + dz) <= 2
    ||| magnitude(2 * dx - dz) <= 2
    ||| magnitude(2 * dx + dz) <= 2
    ||| magnitude(dx - 2 * dz) <= 2
    ||| magnitude(dx + 2 * dz) <= 2
}

/// Whether `value` lies within `limit` of zero.
fn within(value: i32, limit: i32) -> (near: bool)
    requires
        -1000 <= value <= 1000,
        0 <= limit <= 1000,
    ensures
        near == (magnitude(value as int) <= limit),
{
    -limit <= value && value <= limit
}

fn radial_rib(dx: i32, dz: i32) -> (rib: bool)
    requires
        -47 <= dx <= 47,
        -47 <= dz <= 47,
    ensures
        rib == spec_radial_rib(dx as int, dz as int),
{
    within(dx, 1) || within(dz, 1) || within(dx - dz, 2) || within(dx + dz, 2) || within(2 * dx - dz, 2) || within(
        2 * dx + dz,
        2,
    ) || within(dx - 2 * dz, 2) || within(dx + 2 * dz, 2)
}

/// The top texel at `(x, z)`: relief follows the elliptical dome, ribs and
/// the lantern are gilded.
pub open spec fn spec_top_texel(x: int, z: int) -> [u8; 4] {
    if !spec_top_foreground(x, z) {
        EMPTY_RGBA
    } else {
        let dx = spec_centered_doubled(x, WIDTH as int);
        let dz = spec_centered_doubled(z, DEPTH as int);
        let radial_remaining = HORIZONTAL_RADIUS * HORIZONTAL_RADIUS - dx * dx - dz * dz;
        let vertical_span = floor_sqrt(
            radial_remaining * (VERTICAL_RADIUS * VERTICAL_RADIUS) / (HORIZONTAL_RADIUS * HORIZONTAL_RADIUS),
        );
        let raised = 2 * (VERTICAL_RADIUS - vertical_span);
        let relief = (if raised < 128 {
            raised
        } else {
            128
        }) as u8;
        let rib = spec_radial_rib(dx, dz) || dx * dx + dz * dz <= 9;
        let base = if rib {
            RIB
        } else {
            STONE
        };
        let directional = spec_directional_light(CanonicalView::Top, WIDTH as int, DEPTH as int, x, z);
        spec_rgba(spec_shade(base, 24 + directional, relief), relief)
    }
}

/// The top texels.
pub open spec fn top_texels() -> spec_fn(int, int) -> [u8; 4] {
    |x: int, z: int| spec_top_texel(x, z)
}

fn top_texel(view: CanonicalView, x: i32, z: i32) -> (pixel: [u8; 4])
    requires
        view == CanonicalView::Top,
        0 <= x < 48,
        0 <= z < 48,
    ensures
        pixel == spec_top_texel(x as int, z as int),
{
    let dx = centered_doubled(x, WIDTH);
    let dz = centered_doubled(z, DEPTH);
    proof {
        lemma_square_bound(dx as int, 47);
        lemma_square_bound(dz as int, 47);
    }
    if dx * dx + dz * dz > HORIZONTAL_RADIUS * HORIZONTAL_RADIUS {
        return EMPTY_RGBA;
    }
    let radial_remaining = HORIZONTAL_RADIUS * HORIZONTAL_RADIUS - dx * dx - dz * dz;
    assert(0 <= radial_remaining * 1600 <= 2304 * 1600) by (nonlinear_arith)
        requires
            0 <= radial_remaining <= 2304,
    ;
    let scaled = radial_remaining * (VERTICAL_RADIUS * VERTICAL_RADIUS) / (HORIZONTAL_RADIUS * HORIZONTAL_RADIUS);
    let root = integer_sqrt(scaled as u32);
    proof {
        lemma_root_at_most(scaled as int, root as int, 40);
    }
    let vertical_span = root as i32;
    let raised = 2 * (VERTICAL_RADIUS - vertical_span);
    let relief = (if raised < 128 {
        raised
    } else {
        128
    }) as u8;
    let rib = radial_rib(dx, dz) || dx * dx + dz * dz <= 9;
    let base = if rib {
        RIB
    } else {
        STONE
    };
    let directional = directional_light(view, WIDTH, DEPTH, x, z);
    rgba(shade(base, 24 + directional, relief), relief)
}

/// The dome's bounds: 48 wide, 32 high, 48 deep.
pub open spec fn dome_bounds() -> Bounds {
    Bounds::spec_from_extents(48, 32, 48)
}

/// The dome's charts: the front and the right side, each supplying its
/// opposite, then the top.
pub open spec fn dome_charts() -> Seq<ChartModel> {
    seq![
        generated_chart(CanonicalView::Front, true, false, 48, 32, side_texels(CanonicalView::Front)),
        generated_chart(CanonicalView::Right, true, false, 48, 32, side_texels(CanonicalView::Right)),
        generated_chart(CanonicalView::Top, false, false, 48, 48, top_texels()),
    ]
}

proof fn lemma_side_within(view: CanonicalView)
    ensures
        texels_within(48, 32, side_texels(view), 192),
{
    assert forall|x: int, y: int| 0 <= x < 48 && 0 <= y < 32 implies crate::model::pixel_within(
        #[trigger] side_texels(view)(x, y),
        192,
    ) by {
        let dx = spec_centered_doubled(x, WIDTH as int);
        lemma_cross_section_bounds(dx, y);
        if spec_side_foreground(x, y) {
            let remaining = if y < DOME_EAVE_Y {
                spec_cross_section_remaining(dx, y)
            } else {
                HORIZONTAL_RADIUS * HORIZONTAL_RADIUS - dx * dx
            };
            lemma_floor_sqrt_exists(remaining);
            lemma_root_at_most(remaining, floor_sqrt(remaining), 48);
        }
    }
}

proof fn lemma_top_within()
    ensures
        texels_within(48, 48, top_texels(), 128),
{
    assert forall|x: int, z: int| 0 <= x < 48 && 0 <= z < 48 implies crate::model::pixel_within(
        #[trigger] top_texels()(x, z),
        128,
    ) by {
        let dx = spec_centered_doubled(x, WIDTH as int);
        let dz = spec_centered_doubled(z, DEPTH as int);
        lemma_square_bound(dx, 47);
        lemma_square_bound(dz, 47);
        if spec_top_foreground(x, z) {
            let radial_remaining = HORIZONTAL_RADIUS * HORIZONTAL_RADIUS - dx * dx - dz * dz;
            assert(0 <= radial_remaining * 1600 <= 2304 * 1600) by (nonlinear_arith)
                requires
                    0 <= radial_remaining <= 2304,
            ;
            let scaled = radial_remaining * 1600 / 2304;
            lemma_floor_sqrt_exists(scaled);
            lemma_root_at_most(scaled, floor_sqrt(scaled), 40);
        }
    }
}

/// The dome example: a 48 by 32 by 48 model whose front and right side
/// supply their opposites, with the dome seen from above.
pub fn dome_model() -> (result: Result<AuthoredModel, ModelError>)
    ensures
        result matches Ok(model) && model.wf() && model.model() == (ModelView {
            bounds: dome_bounds(),
            charts: dome_charts(),
        }),
{
    let bounds = match Bounds::new(48, 32, 48) {
        Ok(bounds) => bounds,
        Err(error) => {
            return Err(ModelError::Chart(error));
        },
    };
    let front_pixels = fill_pixels(
        CanonicalView::Front,
        48,
        32,
        side_texel,
        Ghost(side_texels(CanonicalView::Front)),
    );
    let front = match Chart::from_rgba(CanonicalView::Front, 48, 32, front_pixels) {
        Ok(chart) => chart.with_opposite_assignment(),
        Err(error) => {
            return Err(ModelError::Chart(error));
        },
    };
    let right_pixels = fill_pixels(
        CanonicalView::Right,
        48,
        32,
        side_texel,
        Ghost(side_texels(CanonicalView::Right)),
    );
    let right = match Chart::from_rgba(CanonicalView::Right, 48, 32, right_pixels) {
        Ok(chart) => chart.with_opposite_assignment(),
        Err(error) => {
            return Err(ModelError::Chart(error));
        },
    };
    let top_pixels = fill_pixels(CanonicalView::Top, 48, 48, top_texel, Ghost(top_texels()));
    let top = match Chart::from_rgba(CanonicalView::Top, 48, 48, top_pixels) {
        Ok(chart) => chart,
        Err(error) => {
            return Err(ModelError::Chart(error));
        },
    };
    let charts = vec![front, right, top];
    proof {
        lemma_bounds_extents(48, 32, 48);
        lemma_side_within(CanonicalView::Front);
        lemma_side_within(CanonicalView::Right);
        lemma_top_within();
        let charts = models(charts@);
        assert(charts =~= dome_charts());
        lemma_generated_within(charts[0], side_texels(CanonicalView::Front), 192);
        lemma_generated_within(charts[1], side_texels(CanonicalView::Right), 192);
        lemma_generated_within(charts[2], top_texels(), 128);
        assert(!crate::model::has_view(charts, CanonicalView::Back));
        assert(!crate::model::has_view(charts, CanonicalView::Left));
    }
    assemble(bounds, charts)
}

} // verus!
