use vstd::prelude::*;

use crate::chart::CanonicalView;

verus! {

/// A texel of color `rgb` carrying `relief` eighths of inward relief.
pub open spec fn spec_rgba(rgb: [u8; 3], relief: u8) -> [u8; 4] {
    [rgb[0], rgb[1], rgb[2], (255 - relief) as u8]
}

pub fn rgba(rgb: [u8; 3], relief: u8) -> (pixel: [u8; 4])
    ensures
        pixel == spec_rgba(rgb, relief),
{
    [rgb[0], rgb[1], rgb[2], 255 - relief]
}

/// `root` is the integer square root of `value`.
pub open spec fn is_floor_sqrt(value: int, root: int) -> bool {
    0 <= root && root * root <= value < (root + 1) * (root + 1)
}

/// The largest integer whose square is at most `value`.
pub open spec fn floor_sqrt(value: int) -> int {
    choose|root: int| is_floor_sqrt(value, root)
}

/// The integer square root is unique.
pub proof fn lemma_floor_sqrt_unique(value: int, root: int)
    requires
        is_floor_sqrt(value, root),
    ensures
        floor_sqrt(value) == root,
{
    let other = floor_sqrt(value);
    assert(is_floor_sqrt(value, other));
    if other < root {
        assert((other + 1) * (other + 1) <= root * root) by (nonlinear_arith)
            requires
                0 <= other + 1 <= root,
        ;
    } else if other > root {
        assert((root + 1) * (root + 1) <= other * other) by (nonlinear_arith)
            requires
                0 <= root + 1 <= other,
        ;
    }
}

/// The integer square root of `value`, by bisection.
pub fn integer_sqrt(value: u32) -> (root: u32)
    ensures
        is_floor_sqrt(value as int, root as int),
        root == floor_sqrt(value as int),
        root <= 0xffff,
{
    let mut low: u32 = 0;
    let mut high: u32 = if value < 0xffff {
        value + 1
    } else {
        0x1_0000
    };
    proof {
        if value < 0xffff {
            assert(value < (value + 1) * (value + 1)) by (nonlinear_arith);
        } else {
            assert(0x1_0000 * 0x1_0000 > u32::MAX) by (nonlinear_arith);
        }
    }
    while low + 1 < high
        invariant
            low < high <= 0x1_0000,
            low * low <= value,
            value < high * high,
        decreases high - low,
    {
        let midpoint = (low + high) / 2;
        assert(midpoint * midpoint <= 0xffff * 0xffff) by (nonlinear_arith)
            requires
                midpoint <= 0xffff,
        ;
        if midpoint * midpoint <= value {
            low = midpoint;
        } else {
            high = midpoint;
        }
    }
    proof {
        assert(high == low + 1);
        lemma_floor_sqrt_unique(value as int, low as int);
    }
    low
}

/// The square of a value of magnitude at most `bound` is at most `bound * bound`.
pub proof fn lemma_square_bound(value: int, bound: int)
    requires
        -bound <= value <= bound,
    ensures
        0 <= value * value <= bound * bound,
{
    assert(0 <= value * value <= bound * bound) by (nonlinear_arith)
        requires
            -bound <= value <= bound,
    ;
}

/// A root of a value at most `bound * bound` is at most `bound`.
pub proof fn lemma_root_at_most(value: int, root: int, bound: int)
    requires
        is_floor_sqrt(value, root),
        0 <= bound,
        value <= bound * bound,
    ensures
        root <= bound,
{
    if root > bound {
        assert((bound + 1) * (bound + 1) <= root * root) by (nonlinear_arith)
            requires
                0 <= bound + 1 <= root,
        ;
        assert(bound * bound < (bound + 1) * (bound + 1)) by (nonlinear_arith)
            requires
                0 <= bound,
        ;
    }
}

/// The absolute value of an integer.
pub open spec fn magnitude(value: int) -> int {
    if value < 0 {
        -value
    } else {
        value
    }
}

pub open spec fn clamp(value: int, low: int, high: int) -> int {
    if value < low {
        low
    } else if value > high {
        high
    } else {
        value
    }
}

/// Cartoon shading: the light minus a sixth of the relief, tripled and
/// capped at 144 either way, added to every channel and clamped.
pub open spec fn spec_shade(base: [u8; 3], light: int, relief: u8) -> [u8; 3] {
    let exposure = light - relief / 6;
    let offset = clamp(3 * exposure, -144, 144);
    [
        clamp(base[0] + offset, 0, 255) as u8,
        clamp(base[1] + offset, 0, 255) as u8,
        clamp(base[2] + offset, 0, 255) as u8,
    ]
}

/// `value.div_euclid(divisor)` for a positive divisor.
pub fn div_euclid(value: i32, divisor: i32) -> (quotient: i32)
    requires
        divisor > 0,
    ensures
        quotient == value as int / divisor as int,
{
    assert(i32::MIN <= value as int / divisor as int <= i32::MAX) by (nonlinear_arith)
        requires
            divisor > 0,
            i32::MIN <= value <= i32::MAX,
    ;
    value.checked_div_euclid(divisor).unwrap()
}

/// `value.rem_euclid(divisor)` for a positive divisor.
pub fn rem_euclid(value: i32, divisor: i32) -> (remainder: i32)
    requires
        divisor > 0,
    ensures
        remainder == value as int % divisor as int,
        0 <= remainder < divisor,
{
    value.checked_rem_euclid(divisor).unwrap()
}

fn clamp_i32(value: i32, low: i32, high: i32) -> (clamped: i32)
    requires
        low <= high,
    ensures
        clamped == clamp(value as int, low as int, high as int),
{
    if value < low {
        low
    } else if value > high {
        high
    } else {
        value
    }
}

pub fn shade(base: [u8; 3], light: i32, relief: u8) -> (color: [u8; 3])
    requires
        -1_000_000 <= light <= 1_000_000,
    ensures
        color == spec_shade(base, light as int, relief),
{
    let exposure = light - relief as i32 / 6;
    let cartoon_offset = clamp_i32(3 * exposure, -144, 144);
    [
        clamp_i32(base[0] as i32 + cartoon_offset, 0, 255) as u8,
        clamp_i32(base[1] as i32 + cartoon_offset, 0, 255) as u8,
        clamp_i32(base[2] as i32 + cartoon_offset, 0, 255) as u8,
    ]
}

/// `numerator / denominator` rounded towards zero, for a positive denominator.
pub open spec fn toward_zero(numerator: int, denominator: int) -> int {
    if numerator >= 0 {
        numerator / denominator
    } else {
        -((-numerator) / denominator)
    }
}

/// Baked light from the upper left of the view as seen: 36 at the lit
/// corner falling linearly to -36 at the far one.
pub open spec fn spec_directional_light(view: CanonicalView, width: int, height: int, x: int, y: int) -> int {
    let horizontal_sign = if view == CanonicalView::Back || view == CanonicalView::Right {
        -1int
    } else {
        1
    };
    let vertical_sign = if view == CanonicalView::Bottom {
        -1int
    } else {
        1
    };
    let horizontal = horizontal_sign * (width - 1 - 2 * x);
    let vertical = vertical_sign * (height - 1 - 2 * y);
    let span = if width + height - 2 > 1 {
        width + height - 2
    } else {
        1
    };
    toward_zero(36 * (horizontal + vertical), span)
}

pub fn directional_light(view: CanonicalView, width: i32, height: i32, x: i32, y: i32) -> (light: i32)
    requires
        0 <= width <= 1000,
        0 <= height <= 1000,
        -1000 <= x <= 1000,
        -1000 <= y <= 1000,
    ensures
        light == spec_directional_light(view, width as int, height as int, x as int, y as int),
        -250_000 <= light <= 250_000,
{
    let horizontal_sign: i32 = match view {
        CanonicalView::Back | CanonicalView::Right => -1,
        _ => 1,
    };
    let vertical_sign: i32 = match view {
        CanonicalView::Bottom => -1,
        _ => 1,
    };
    let raw_horizontal = width - 1 - 2 * x;
    let raw_vertical = height - 1 - 2 * y;
    assert(-3001 <= horizontal_sign * raw_horizontal <= 3001 && -3001 <= vertical_sign * raw_vertical <= 3001) by (
    nonlinear_arith)
        requires
            horizontal_sign == 1 || horizontal_sign == -1,
            vertical_sign == 1 || vertical_sign == -1,
            -3001 <= raw_horizontal <= 3001,
            -3001 <= raw_vertical <= 3001,
    ;
    let horizontal = horizontal_sign * raw_horizontal;
    let vertical = vertical_sign * raw_vertical;
    let span = if width + height - 2 > 1 {
        width + height - 2
    } else {
        1
    };
    let light = 36 * (horizontal + vertical) / span;
    proof {
        let n = 36 * (horizontal + vertical);
        if n >= 0 {
            vstd::arithmetic::div_mod::lemma_div_is_ordered_by_denominator(n as int, 1, span as int);
            vstd::arithmetic::div_mod::lemma_div_pos_is_pos(n as int, span as int);
        } else {
            vstd::arithmetic::div_mod::lemma_div_is_ordered_by_denominator(-n as int, 1, span as int);
            vstd::arithmetic::div_mod::lemma_div_pos_is_pos(-n as int, span as int);
        }
    }
    light
}

/// The neighbor of `(x, y)` at offset `(dx, dy)` is background.
pub open spec fn background_at_offset(foreground: spec_fn(i32, i32) -> bool, x: i32, y: i32, dx: i32, dy: i32) -> bool {
    (dx != 0 || dy != 0) && !foreground((x + dx) as i32, (y + dy) as i32)
}

/// A foreground position with a background position among its eight neighbors.
pub open spec fn spec_mask_boundary(foreground: spec_fn(i32, i32) -> bool, x: i32, y: i32) -> bool {
    &&& foreground(x, y)
    &&& exists|dx: i32, dy: i32| -1 <= dx <= 1 && -1 <= dy <= 1 && #[trigger] background_at_offset(foreground, x, y, dx, dy)
}

/// Whether `(x, y)` is a foreground position touching background, under
/// the predicate `foreground`.
pub fn mask_boundary<F: Fn(i32, i32) -> bool>(
    x: i32,
    y: i32,
    foreground: F,
    Ghost(predicate): Ghost<spec_fn(i32, i32) -> bool>,
) -> (boundary: bool)
    requires
        -1000 <= x <= 1000,
        -1000 <= y <= 1000,
        forall|a: i32, b: i32| -1001 <= a <= 1001 && -1001 <= b <= 1001 ==> #[trigger] foreground.requires((a, b)),
        forall|a: i32, b: i32, found: bool| #[trigger] foreground.ensures((a, b), found) ==> found == predicate(a, b),
    ensures
        boundary == spec_mask_boundary(predicate, x, y),
{
    if !foreground(x, y) {
        return false;
    }
    let mut dy: i32 = -1;
    while dy <= 1
        invariant
            -1 <= dy <= 2,
            -1000 <= x <= 1000,
            -1000 <= y <= 1000,
            predicate(x, y),
            forall|a: i32, b: i32| -1001 <= a <= 1001 && -1001 <= b <= 1001 ==> #[trigger] foreground.requires((a, b)),
            forall|a: i32, b: i32, found: bool| #[trigger] foreground.ensures((a, b), found) ==> found == predicate(a, b),
            forall|ddx: i32, ddy: i32|
                -1 <= ddx <= 1 && -1 <= ddy < dy ==> !#[trigger] background_at_offset(predicate, x, y, ddx, ddy),
        decreases 2 - dy,
    {
        let mut dx: i32 = -1;
        while dx <= 1
            invariant
                -1 <= dx <= 2,
                -1 <= dy <= 1,
                -1000 <= x <= 1000,
                -1000 <= y <= 1000,
                predicate(x, y),
                forall|a: i32, b: i32| -1001 <= a <= 1001 && -1001 <= b <= 1001 ==> #[trigger] foreground.requires((a, b)),
                forall|a: i32, b: i32, found: bool| #[trigger] foreground.ensures((a, b), found) ==> found == predicate(a, b),
                forall|ddx: i32, ddy: i32|
                    -1 <= ddx <= 1 && -1 <= ddy < dy ==> !#[trigger] background_at_offset(predicate, x, y, ddx, ddy),
                forall|ddx: i32| -1 <= ddx < dx ==> !#[trigger] background_at_offset(predicate, x, y, ddx, dy),
            decreases 2 - dx,
        {
            if (dx != 0 || dy != 0) && !foreground(x + dx, y + dy) {
                proof {
                    assert(background_at_offset(predicate, x, y, dx, dy));
                }
                return true;
            }
            dx += 1;
        }
        dy += 1;
    }
    false
}

/// `value` has an integer square root.
pub proof fn lemma_floor_sqrt_exists(value: int)
    requires
        value >= 0,
    ensures
        is_floor_sqrt(value, floor_sqrt(value)),
        0 <= floor_sqrt(value) <= value,
    decreases value,
{
    if value == 0 {
        assert(is_floor_sqrt(0, 0));
        lemma_floor_sqrt_unique(0, 0);
    } else {
        lemma_floor_sqrt_exists(value - 1);
        let below = floor_sqrt(value - 1);
        if (below + 1) * (below + 1) <= value {
            assert(value < (below + 2) * (below + 2)) by (nonlinear_arith)
                requires
                    value - 1 < (below + 1) * (below + 1),
                    below >= 0,
            ;
            assert(is_floor_sqrt(value, below + 1));
            lemma_floor_sqrt_unique(value, below + 1);
            assert(below + 1 <= value) by (nonlinear_arith)
                requires
                    (below + 1) * (below + 1) <= value,
                    below >= 0,
            ;
        } else {
            assert(is_floor_sqrt(value, below));
            lemma_floor_sqrt_unique(value, below);
        }
    }
}

/// The texels of the `width` by `height` chart of `view` in row-major
/// order, texel `(x, y)` given by `pixel(view, x, y)`.
pub fn fill_pixels<F: Fn(CanonicalView, i32, i32) -> [u8; 4]>(
    view: CanonicalView,
    width: i32,
    height: i32,
    pixel: F,
    Ghost(texel): Ghost<spec_fn(int, int) -> [u8; 4]>,
) -> (pixels: Vec<[u8; 4]>)
    requires
        0 < width <= 64,
        0 <= height <= 64,
        forall|a: i32, b: i32| 0 <= a < width && 0 <= b < height ==> #[trigger] pixel.requires((view, a, b)),
        forall|a: i32, b: i32, found: [u8; 4]| #[trigger] pixel.ensures((view, a, b), found) ==> found == texel(a as int, b as int),
    ensures
        pixels@ == Seq::new((width * height) as nat, |index: int| texel(index % (width as int), index / (width as int))),
{
    let mut pixels: Vec<[u8; 4]> = Vec::new();
    let mut y: i32 = 0;
    while y < height
        invariant
            0 < width <= 64,
            0 <= height <= 64,
            0 <= y <= height,
            pixels@.len() == y * width,
            forall|a: i32, b: i32| 0 <= a < width && 0 <= b < height ==> #[trigger] pixel.requires((view, a, b)),
            forall|a: i32, b: i32, found: [u8; 4]| #[trigger] pixel.ensures((view, a, b), found) ==> found == texel(a as int, b as int),
            forall|index: int| 0 <= index < pixels@.len() ==> #[trigger] pixels@[index] == texel(index % (width as int), index / (width as int)),
        decreases height - y,
    {
        let mut x: i32 = 0;
        while x < width
            invariant
                0 < width <= 64,
                0 <= height <= 64,
                0 <= y < height,
                0 <= x <= width,
                pixels@.len() == y * width + x,
                forall|a: i32, b: i32| 0 <= a < width && 0 <= b < height ==> #[trigger] pixel.requires((view, a, b)),
                forall|a: i32, b: i32, found: [u8; 4]| #[trigger] pixel.ensures((view, a, b), found) ==> found == texel(a as int, b as int),
                forall|index: int| 0 <= index < pixels@.len() ==> #[trigger] pixels@[index] == texel(index % (width as int), index / (width as int)),
            decreases width - x,
        {
            let value = pixel(view, x, y);
            proof {
                crate::grid::lemma_row_major(width as int, x as int, y as int);
            }
            pixels.push(value);
            x += 1;
        }
        proof {
            crate::grid::lemma_next_row(width as int, y as int);
        }
        y += 1;
    }
    proof {
        vstd::arithmetic::mul::lemma_mul_is_commutative(width as int, height as int);
        assert(pixels@ =~= Seq::new((width * height) as nat, |index: int| texel(index % (width as int), index / (width as int))));
    }
    pixels
}
} // verus!
