//! A globe: front and back hemispheres of a 48 pixel sphere, with oceans,
//! banded continents and a lit graticule.

use vstd::prelude::*;

use crate::chart::{lemma_bounds_extents, Bounds, CanonicalView, Chart, ChartModel, EMPTY_RGBA};
use crate::fixture::pixel::{
    div_euclid, fill_pixels, floor_sqrt, integer_sqrt, lemma_floor_sqrt_exists, lemma_root_at_most, lemma_square_bound,
    magnitude, mask_boundary, rem_euclid, rgba, shade, spec_mask_boundary, spec_rgba, spec_shade, toward_zero,
};
use crate::fixture::{assemble, generated_chart, lemma_generated_within, texels_within};
use crate::model::{models, AuthoredModel, ModelError, ModelView};

verus! {

pub const SIZE: i32 = 48;

pub const RADIUS: i32 = 48;

pub const FRONT_OCEAN: [u8; 3] = [38, 108, 166];

pub const FRONT_LAND: [u8; 3] = [80, 142, 74];

pub const BACK_OCEAN: [u8; 3] = [34, 88, 148];

pub const BACK_LAND: [u8; 3] = [156, 118, 64];

/// Twice the offset of a texel center from the middle of the image.
pub open spec fn spec_doubled_center(coordinate: int) -> int {
    2 * coordinate + 1 - SIZE
}

fn doubled_center(coordinate: i32) -> (doubled: i32)
    requires
        -1001 <= coordinate <= 1001,
    ensures
        doubled == spec_doubled_center(coordinate as int),
{
    2 * coordinate + 1 - SIZE
}

/// The sphere's disc.
pub open spec fn spec_foreground(x: int, y: int) -> bool {
    let dx = spec_doubled_center(x);
    let dy = spec_doubled_center(y);
    dx * dx + dy * dy <= RADIUS * RADIUS
}

/// The disc as a predicate on positions.
pub open spec fn foreground_predicate() -> spec_fn(i32, i32) -> bool {
    |x: i32, y: i32| spec_foreground(x as int, y as int)
}

fn foreground(x: i32, y: i32) -> (inside: bool)
    requires
        -1001 <= x <= 1001,
        -1001 <= y <= 1001,
    ensures
        inside == spec_foreground(x as int, y as int),
{
    let dx = doubled_center(x);
    let dy = doubled_center(y);
    proof {
        lemma_square_bound(dx as int, 2100);
        lemma_square_bound(dy as int, 2100);
    }
    dx * dx + dy * dy <= RADIUS * RADIUS
}

/// Whether the hemisphere of `view` shows land at doubled offset `(dx, dy)`:
/// sheared bands of latitude and longitude, cut off toward one pole.
pub open spec fn spec_continent(view: CanonicalView, dx: int, dy: int) -> bool {
    let longitude = if view == CanonicalView::Front {
        dx + toward_zero(dy, 3) + 11
    } else {
        dx - toward_zero(dy, 4) - 7
    };
    let latitude_band = (dy + 48) / 12;
    let longitude_band = (longitude + 96) / 14;
    if view == CanonicalView::Front {
        (latitude_band + 2 * longitude_band) % 5 <= 1 && (dy < 31 || longitude < 9)
    } else {
        (2 * latitude_band + longitude_band) % 7 <= 2 && (dy > -33 || longitude > -18)
    }
}

fn continent(view: CanonicalView, dx: i32, dy: i32) -> (land: bool)
    requires
        view == CanonicalView::Front || view == CanonicalView::Back,
        -100 <= dx <= 100,
        -100 <= dy <= 100,
    ensures
        land == spec_continent(view, dx as int, dy as int),
{
    let longitude = match view {
        CanonicalView::Front => dx + dy / 3 + 11,
        _ => dx - dy / 4 - 7,
    };
    let latitude_band = div_euclid(dy + 48, 12);
    let longitude_band = div_euclid(longitude + 96, 14);
    match view {
        CanonicalView::Front => rem_euclid(latitude_band + 2 * longitude_band, 5) <= 1 && (dy < 31 || longitude < 9),
        _ => rem_euclid(2 * latitude_band + longitude_band, 7) <= 2 && (dy > -33 || longitude > -18),
    }
}

/// The hemisphere texel of `view` at `(x, y)`: relief follows the sphere and
/// is full on the rim; inside the rim, land and a twelve-unit graticule
/// (lit) are drawn over the ocean.
pub open spec fn spec_hemisphere_texel(view: CanonicalView, x: int, y: int) -> [u8; 4] {
    if !spec_foreground(x, y) {
        EMPTY_RGBA
    } else {
        let dx = spec_doubled_center(x);
        let dy = spec_doubled_center(y);
        let remaining = RADIUS * RADIUS - dx * dx - dy * dy;
        let sphere = 4 * (RADIUS - floor_sqrt(remaining));
        let relief: u8 = if spec_mask_boundary(foreground_predicate(), x as i32, y as i32) {
            192
        } else if sphere < 192 {
            sphere as u8
        } else {
            192
        };
        let inset = relief <= 184;
        let grid = inset && (magnitude(dx) % 12 == 1 || magnitude(dy) % 12 == 1);
        let land = inset && spec_continent(view, dx, dy);
        let base = if view == CanonicalView::Front {
            if land {
                FRONT_LAND
            } else {
                FRONT_OCEAN
            }
        } else {
            if land {
                BACK_LAND
            } else {
                BACK_OCEAN
            }
        };
        let directional = (48 - x + 48 - y) / 6;
        let grid_light: int = if grid {
            18
        } else {
            0
        };
        spec_rgba(spec_shade(base, 12 + directional + grid_light, relief), relief)
    }
}

/// The hemisphere texels of `view`.
pub open spec fn hemisphere_texels(view: CanonicalView) -> spec_fn(int, int) -> [u8; 4] {
    |x: int, y: int| spec_hemisphere_texel(view, x, y)
}

fn hemisphere_texel(view: CanonicalView, x: i32, y: i32) -> (pixel: [u8; 4])
    requires
        view == CanonicalView::Front || view == CanonicalView::Back,
        0 <= x < 48,
        0 <= y < 48,
    ensures
        pixel == spec_hemisphere_texel(view, x as int, y as int),
{
    if !foreground(x, y) {
        return EMPTY_RGBA;
    }
    let dx = doubled_center(x);
    let dy = doubled_center(y);
    proof {
        lemma_square_bound(dx as int, 47);
        lemma_square_bound(dy as int, 47);
    }
    let remaining = (RADIUS * RADIUS - dx * dx - dy * dy) as u32;
    let root = integer_sqrt(remaining);
    proof {
        lemma_root_at_most(remaining as int, root as int, 48);
    }
    let sphere = 4 * (RADIUS as u32 - root);
    let mut relief: u8 = if sphere < 192 {
        sphere as u8
    } else {
        192
    };
    if mask_boundary(x, y, foreground, Ghost(foreground_predicate())) {
        relief = 192;
    }
    let inset = relief <= 184;
    let magnitude_x: i32 = if dx < 0 {
        -dx
    } else {
        dx
    };
    let magnitude_y: i32 = if dy < 0 {
        -dy
    } else {
        dy
    };
    let grid = inset && (magnitude_x % 12 == 1 || magnitude_y % 12 == 1);
    let land = inset && continent(view, dx, dy);
    let base = match view {
        CanonicalView::Front => if land {
            FRONT_LAND
        } else {
            FRONT_OCEAN
        },
        _ => if land {
            BACK_LAND
        } else {
            BACK_OCEAN
        },
    };
    let directional = (48 - x + 48 - y) / 6;
    let grid_light: i32 = if grid {
        18
    } else {
        0
    };
    rgba(shade(base, 12 + directional + grid_light, relief), relief)
}

/// The hemisphere chart of `view`.
pub open spec fn hemisphere_chart(view: CanonicalView) -> ChartModel {
    generated_chart(view, false, false, 48, 48, hemisphere_texels(view))
}

fn hemisphere(bounds: Bounds, view: CanonicalView) -> (result: Result<Chart, ModelError>)
    requires
        bounds == globe_bounds(),
        view == CanonicalView::Front || view == CanonicalView::Back,
    ensures
        result matches Ok(chart) && chart.wf() && chart.model() == hemisphere_chart(view),
{
    let pixels = fill_pixels(view, 48, 48, hemisphere_texel, Ghost(hemisphere_texels(view)));
    match Chart::from_rgba(view, 48, 48, pixels) {
        Ok(chart) => Ok(chart),
        Err(error) => Err(ModelError::Chart(error)),
    }
}

/// The globe's bounds: a 48 pixel cube.
pub open spec fn globe_bounds() -> Bounds {
    Bounds::spec_from_extents(48, 48, 48)
}

/// The globe's charts: the front and the back hemisphere.
pub open spec fn globe_charts() -> Seq<ChartModel> {
    seq![hemisphere_chart(CanonicalView::Front), hemisphere_chart(CanonicalView::Back)]
}

proof fn lemma_hemisphere_within(view: CanonicalView)
    ensures
        hemisphere_chart(view).wf(),
        forall|index: int|
            0 <= index < hemisphere_chart(view).rgba.len() ==> crate::model::pixel_within(
                #[trigger] hemisphere_chart(view).rgba[index],
                192,
            ),
{
    assert forall|x: int, y: int| 0 <= x < 48 && 0 <= y < 48 implies crate::model::pixel_within(
        #[trigger] hemisphere_texels(view)(x, y),
        192,
    ) by {
        let dx = spec_doubled_center(x);
        let dy = spec_doubled_center(y);
        lemma_square_bound(dx, 47);
        lemma_square_bound(dy, 47);
        if spec_foreground(x, y) {
            let remaining = RADIUS * RADIUS - dx * dx - dy * dy;
            lemma_floor_sqrt_exists(remaining);
            lemma_root_at_most(remaining, floor_sqrt(remaining), 48);
        }
    }
    assert(texels_within(48, 48, hemisphere_texels(view), 192));
    lemma_generated_within(hemisphere_chart(view), hemisphere_texels(view), 192);
}

/// The globe example: a 48 pixel cube authored as two hemispheres.
pub fn globe_model() -> (result: Result<AuthoredModel, ModelError>)
    ensures
        result matches Ok(model) && model.wf() && model.model() == (ModelView {
            bounds: globe_bounds(),
            charts: globe_charts(),
        }),
{
    let bounds = match Bounds::new(48, 48, 48) {
        Ok(bounds) => bounds,
        Err(error) => {
            return Err(ModelError::Chart(error));
        },
    };
    let front = match hemisphere(bounds, CanonicalView::Front) {
        Ok(chart) => chart,
        Err(error) => {
            return Err(error);
        },
    };
    let back = match hemisphere(bounds, CanonicalView::Back) {
        Ok(chart) => chart,
        Err(error) => {
            return Err(error);
        },
    };
    let charts = vec![front, back];
    proof {
        lemma_bounds_extents(48, 48, 48);
        lemma_hemisphere_within(CanonicalView::Front);
        lemma_hemisphere_within(CanonicalView::Back);
        assert(models(charts@) =~= globe_charts());
    }
    assemble(bounds, charts)
}

} // verus!
