use vstd::prelude::*;

use crate::chart::Bounds;
use crate::presets::{CameraBasis, TargetView};
use crate::rational::{frac_int, frac_mul, frac_neg, mul_exact, neg_exact, same_value, Frac, Rational};

verus! {

/// Deepest relief a texel can carry, in eighth-pixel units.
pub const MAX_RELIEF_EIGHTHS: u32 = 254;

/// Transparent margin around a rendered frame: the deepest relief, in whole pixels.
pub const RELIEF_MARGIN_PIXELS: u32 = (MAX_RELIEF_EIGHTHS + 7) / 8;

/// How many horizontal directions a sprite sheet holds.
#[derive(Clone, Copy, Debug, PartialEq, Eq, Structural)]
pub enum DirectionCount {
    Eight,
    Sixteen,
}

impl DirectionCount {
    pub open spec fn spec_frame_count(self) -> int {
        match self {
            DirectionCount::Eight => 8,
            DirectionCount::Sixteen => 16,
        }
    }

    pub fn frame_count(self) -> (count: usize)
        ensures
            count == self.spec_frame_count(),
    {
        match self {
            DirectionCount::Eight => 8,
            DirectionCount::Sixteen => 16,
        }
    }
}

#[derive(Clone, Copy, Debug, PartialEq, Eq)]
pub enum RenderError {
    FrameBufferTooLarge,
}

#[derive(Clone, Copy, Debug, PartialEq, Eq)]
pub enum SheetError {
    ZeroScale,
    UnsupportedElevation(u8),
    MixedBounds { expected: Bounds, actual: Bounds },
    FrameBufferTooLarge,
    Render(RenderError),
}

/// What to render into a sprite sheet.
#[derive(Clone, Copy, Debug, PartialEq, Eq)]
pub struct SheetRequest {
    direction_count: DirectionCount,
    integer_scale: u32,
    padding: u32,
    elevation_index: u8,
}

/// Version 1 horizontal directions, clockwise around Y-down from Front (+Z)
/// toward Right (-X): `(sin, cos)` over the denominator 256.
pub open spec fn horizontal_v1(index: int) -> (int, int) {
    let table = seq![
        (0int, 256int),
        (98, 237),
        (181, 181),
        (237, 98),
        (256, 0),
        (237, -98),
        (181, -181),
        (98, -237),
        (0, -256),
        (-98, -237),
        (-181, -181),
        (-237, -98),
        (-256, 0),
        (-237, 98),
        (-181, 181),
        (-98, 237),
    ];
    table[index]
}

fn horizontal_entry(index: usize) -> (entry: (i64, i64))
    requires
        index < 16,
    ensures
        (entry.0 as int, entry.1 as int) == horizontal_v1(index as int),
        -256 <= entry.0 <= 256,
        -256 <= entry.1 <= 256,
{
    match index {
        0 => (0, 256),
        1 => (98, 237),
        2 => (181, 181),
        3 => (237, 98),
        4 => (256, 0),
        5 => (237, -98),
        6 => (181, -181),
        7 => (98, -237),
        8 => (0, -256),
        9 => (-98, -237),
        10 => (-181, -181),
        11 => (-237, -98),
        12 => (-256, 0),
        13 => (-237, 98),
        14 => (-181, 181),
        _ => (-98, 237),
    }
}

/// The version 1 camera at horizontal angle `(sin, cos) / 256`: a fixed
/// elevation, screen right along the horizon, depth and screen down tilted.
pub open spec fn v1_rows(sin: int, cos: int) -> ((Frac, Frac, Frac), (Frac, Frac, Frac), (Frac, Frac, Frac)) {
    let s = Frac { n: sin, d: 256 };
    let c = Frac { n: cos, d: 256 };
    let screen_scale = Frac { n: 128, d: 181 };
    let down_scale = Frac { n: 64, d: 181 };
    let depth_scale = Frac { n: 256, d: 543 };
    (
        (frac_mul(c, screen_scale), frac_int(0), frac_mul(s, screen_scale)),
        (frac_mul(s, down_scale), Frac { n: 1, d: 2 }, frac_mul(frac_neg(c), down_scale)),
        (frac_mul(frac_neg(s), depth_scale), Frac { n: 1, d: 3 }, frac_mul(c, depth_scale)),
    )
}

pub open spec fn same_row(a: (Frac, Frac, Frac), b: (Frac, Frac, Frac)) -> bool {
    same_value(a.0, b.0) && same_value(a.1, b.1) && same_value(a.2, b.2)
}

/// `camera` is the version 1 camera at `(sin, cos) / 256`.
pub open spec fn is_v1_camera(camera: CameraBasis, sin: int, cos: int) -> bool {
    let (right, down, depth) = v1_rows(sin, cos);
    &&& camera.wf()
    &&& same_row(camera.right_row(), right)
    &&& same_row(camera.down_row(), down)
    &&& same_row(camera.depth_row(), depth)
}

fn target_v1(sin_numerator: i64, cos_numerator: i64) -> (target: TargetView)
    requires
        -256 <= sin_numerator <= 256,
        -256 <= cos_numerator <= 256,
    ensures
        is_v1_camera(target.camera(), sin_numerator as int, cos_numerator as int),
        target.camera().fits(),
{
    let ghost s = Frac { n: sin_numerator as int, d: 256 };
    let ghost c = Frac { n: cos_numerator as int, d: 256 };
    let ghost screen_frac = Frac { n: 128, d: 181 };
    let ghost down_frac = Frac { n: 64, d: 181 };
    let ghost depth_frac = Frac { n: 256, d: 543 };
    let sin = Rational::new(sin_numerator, 256);
    let cos = Rational::new(cos_numerator, 256);
    let screen_scale = Rational::new(128, 181);
    let down_horizontal_scale = Rational::new(64, 181);
    let depth_horizontal_scale = Rational::new(256, 543);
    let negated_cos = neg_exact(cos, Ghost(c));
    let negated_sin = neg_exact(sin, Ghost(s));
    let right = [
        mul_exact(cos, screen_scale, Ghost(c), Ghost(screen_frac)),
        Rational::from_integer(0),
        mul_exact(sin, screen_scale, Ghost(s), Ghost(screen_frac)),
    ];
    let down = [
        mul_exact(sin, down_horizontal_scale, Ghost(s), Ghost(down_frac)),
        Rational::new(1, 2),
        mul_exact(negated_cos, down_horizontal_scale, Ghost(frac_neg(c)), Ghost(down_frac)),
    ];
    let depth = [
        mul_exact(negated_sin, depth_horizontal_scale, Ghost(frac_neg(s)), Ghost(depth_frac)),
        Rational::new(1, 3),
        mul_exact(cos, depth_horizontal_scale, Ghost(c), Ghost(depth_frac)),
    ];
    let target = TargetView::from_camera(CameraBasis::new(right, down, depth));
    proof {
        let (sin, cos) = (sin_numerator as int, cos_numerator as int);
        crate::presets::lemma_same_value_rescaled(target.camera().down_row().1, 1, 2, 23168);
        crate::presets::lemma_same_value_rescaled(target.camera().depth_row().1, 1, 3, 46336);
        target.camera().lemma_fits_over(
            (cos * 128, 0, sin * 128),
            46336,
            (sin * 64, 23168, -cos * 64),
            46336,
            (-sin * 256, 46336, cos * 256),
            139008,
        );
    }
    target
}

impl SheetRequest {
    pub closed spec fn spec_direction_count(&self) -> DirectionCount {
        self.direction_count
    }

    pub closed spec fn spec_integer_scale(&self) -> u32 {
        self.integer_scale
    }

    pub closed spec fn spec_padding(&self) -> u32 {
        self.padding
    }

    pub closed spec fn spec_elevation_index(&self) -> u8 {
        self.elevation_index
    }

    /// Rejects a zero scale, then any elevation but the version 1 preset.
    pub fn new(direction_count: DirectionCount, integer_scale: u32, padding: u32, elevation_index: u8) -> (result:
        Result<Self, SheetError>)
        ensures
            integer_scale == 0 ==> result == Err::<Self, SheetError>(SheetError::ZeroScale),
            integer_scale != 0 && elevation_index != 1 ==> result == Err::<Self, SheetError>(
                SheetError::UnsupportedElevation(elevation_index),
            ),
            integer_scale != 0 && elevation_index == 1 ==> (result matches Ok(request) && request.spec_direction_count()
                == direction_count && request.spec_integer_scale() == integer_scale && request.spec_padding() == padding
                && request.spec_elevation_index() == elevation_index),
    {
        if integer_scale == 0 {
            return Err(SheetError::ZeroScale);
        }
        if elevation_index != 1 {
            return Err(SheetError::UnsupportedElevation(elevation_index));
        }
        Ok(Self { direction_count, integer_scale, padding, elevation_index })
    }

    pub fn direction_count(&self) -> (count: DirectionCount)
        ensures
            count == self.spec_direction_count(),
    {
        self.direction_count
    }

    pub fn integer_scale(&self) -> (scale: u32)
        ensures
            scale == self.spec_integer_scale(),
    {
        self.integer_scale
    }

    pub fn padding(&self) -> (padding: u32)
        ensures
            padding == self.spec_padding(),
    {
        self.padding
    }

    pub fn elevation_index(&self) -> (elevation: u8)
        ensures
            elevation == self.spec_elevation_index(),
    {
        self.elevation_index
    }

    /// The version 1 camera of direction `index`: with sixteen directions
    /// entry `index` of the table, with eight every second entry; none past
    /// the last direction.
    pub fn target_view(&self, index: usize) -> (target: Option<TargetView>)
        ensures
            index >= self.spec_direction_count().spec_frame_count() ==> target is None,
            index < self.spec_direction_count().spec_frame_count() ==> ({
                let table_index = match self.spec_direction_count() {
                    DirectionCount::Eight => 2 * index,
                    DirectionCount::Sixteen => index as int,
                };
                let (sin, cos) = horizontal_v1(table_index);
                target matches Some(view) && is_v1_camera(view.camera(), sin, cos) && view.camera().fits()
            }),
    {
        if index >= self.direction_count.frame_count() {
            return None;
        }
        let table_index = match self.direction_count {
            DirectionCount::Eight => index * 2,
            DirectionCount::Sixteen => index,
        };
        let (sin, cos) = horizontal_entry(table_index);
        Some(target_v1(sin, cos))
    }
}

/// Sizes of a sprite sheet: the square frame rendered per direction, the
/// padded and scaled cell it is placed in, and the sheet width.
#[derive(Clone, Copy, Debug, PartialEq, Eq)]
pub struct SheetLayout {
    pub frame_side: u32,
    pub cell_side: u32,
    pub sheet_width: u32,
}

/// The sheet sizes as integers, before any limit.
pub open spec fn layout_sizes(bounds: Bounds, request: SheetRequest) -> (int, int, int) {
    let longest = if bounds.spec_width() >= bounds.spec_height() && bounds.spec_width() >= bounds.spec_depth() {
        bounds.spec_width()
    } else if bounds.spec_height() >= bounds.spec_depth() {
        bounds.spec_height()
    } else {
        bounds.spec_depth()
    };
    let frame_side = longest + 2 * RELIEF_MARGIN_PIXELS;
    let cell_side = frame_side * request.spec_integer_scale() + 2 * request.spec_padding();
    let sheet_width = cell_side * request.spec_direction_count().spec_frame_count();
    (frame_side, cell_side, sheet_width)
}

/// The sizes fit `u32`, and the sheet's pixel count fits `isize`.
pub open spec fn layout_fits(bounds: Bounds, request: SheetRequest) -> bool {
    let (frame_side, cell_side, sheet_width) = layout_sizes(bounds, request);
    &&& frame_side * request.spec_integer_scale() <= u32::MAX
    &&& 2 * request.spec_padding() <= u32::MAX
    &&& cell_side <= u32::MAX
    &&& sheet_width <= u32::MAX
    &&& sheet_width * cell_side <= isize::MAX
}

/// A sheet's frame holds the model seen from any side: less the relief
/// margin on both sides, the frame side is at least the model's width,
/// height and depth, and equals the longest of them.
pub proof fn lemma_frame_holds_every_extent(bounds: Bounds, request: SheetRequest)
    ensures
        ({
            let inner = layout_sizes(bounds, request).0 - 2 * RELIEF_MARGIN_PIXELS;
            &&& inner >= bounds.spec_width()
            &&& inner >= bounds.spec_height()
            &&& inner >= bounds.spec_depth()
            &&& (inner == bounds.spec_width() || inner == bounds.spec_height() || inner == bounds.spec_depth())
        }),
        layout_sizes(bounds, request).1 == layout_sizes(bounds, request).0 * request.spec_integer_scale() + 2
            * request.spec_padding(),
        layout_sizes(bounds, request).2 == layout_sizes(bounds, request).1
            * request.spec_direction_count().spec_frame_count(),
{
}

/// Lays out a sheet for models within `bounds`: a frame wide enough for the
/// longest extent plus the relief margin on both sides, scaled and padded
/// into one cell per direction.
pub fn sheet_layout(bounds: Bounds, request: &SheetRequest) -> (result: Result<SheetLayout, SheetError>)
    requires
        bounds.wf(),
    ensures
        layout_fits(bounds, *request) ==> (result matches Ok(layout) && layout.frame_side == layout_sizes(
            bounds,
            *request,
        ).0 && layout.cell_side == layout_sizes(bounds, *request).1 && layout.sheet_width == layout_sizes(
            bounds,
            *request,
        ).2),
        !layout_fits(bounds, *request) ==> result == Err::<SheetLayout, SheetError>(SheetError::FrameBufferTooLarge),
        result matches Ok(layout) ==> {
            &&& layout.frame_side >= bounds.spec_width() + 2 * RELIEF_MARGIN_PIXELS
            &&& layout.frame_side >= bounds.spec_height() + 2 * RELIEF_MARGIN_PIXELS
            &&& layout.frame_side >= bounds.spec_depth() + 2 * RELIEF_MARGIN_PIXELS
            &&& (layout.frame_side == bounds.spec_width() + 2 * RELIEF_MARGIN_PIXELS || layout.frame_side
                == bounds.spec_height() + 2 * RELIEF_MARGIN_PIXELS || layout.frame_side == bounds.spec_depth() + 2
                * RELIEF_MARGIN_PIXELS)
            &&& layout.cell_side == layout.frame_side * request.spec_integer_scale() + 2 * request.spec_padding()
            &&& layout.sheet_width == layout.cell_side * request.spec_direction_count().spec_frame_count()
        },
{
    let width = bounds.width();
    let height = bounds.height();
    let depth = bounds.depth();
    let longest = if width >= height && width >= depth {
        width
    } else if height >= depth {
        height
    } else {
        depth
    };
    let frame_side = longest + 2 * RELIEF_MARGIN_PIXELS;
    let scaled_side = match frame_side.checked_mul(request.integer_scale) {
        Some(value) => value,
        None => {
            return Err(SheetError::FrameBufferTooLarge);
        },
    };
    let padding_twice = match request.padding.checked_mul(2) {
        Some(value) => value,
        None => {
            return Err(SheetError::FrameBufferTooLarge);
        },
    };
    let cell_side = match scaled_side.checked_add(padding_twice) {
        Some(value) => value,
        None => {
            return Err(SheetError::FrameBufferTooLarge);
        },
    };
    let count = request.direction_count.frame_count() as u32;
    let sheet_width = match cell_side.checked_mul(count) {
        Some(value) => value,
        None => {
            return Err(SheetError::FrameBufferTooLarge);
        },
    };
    let pixel_count = match (sheet_width as usize).checked_mul(cell_side as usize) {
        Some(value) => value,
        None => {
            return Err(SheetError::FrameBufferTooLarge);
        },
    };
    if pixel_count > isize::MAX as usize {
        return Err(SheetError::FrameBufferTooLarge);
    }
    Ok(SheetLayout { frame_side, cell_side, sheet_width })
}

} // verus!
