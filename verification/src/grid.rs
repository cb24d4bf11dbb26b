use vstd::arithmetic::div_mod::*;
use vstd::arithmetic::mul::*;
use vstd::prelude::*;

verus! {

/// Row-major addressing: the texel at column `x`, row `y` of an image `width`
/// texels wide is stored at `y * width + x`.
pub open spec fn row_major(width: int, x: int, y: int) -> int {
    y * width + x
}

/// Row-major indices round-trip through division and remainder by the width.
pub proof fn lemma_row_major(width: int, x: int, y: int)
    requires
        0 <= x < width,
        0 <= y,
    ensures
        row_major(width, x, y) % width == x,
        row_major(width, x, y) / width == y,
        0 <= row_major(width, x, y),
{
    lemma_fundamental_div_mod_converse(row_major(width, x, y), width, y, x);
    lemma_mul_nonnegative(y, width);
}

/// Distinct in-range positions have distinct row-major indices.
pub proof fn lemma_row_major_injective(width: int, ax: int, ay: int, bx: int, by: int)
    requires
        0 <= ax < width,
        0 <= ay,
        0 <= bx < width,
        0 <= by,
    ensures
        (row_major(width, ax, ay) == row_major(width, bx, by)) == (ax == bx && ay == by),
{
    lemma_row_major(width, ax, ay);
    lemma_row_major(width, bx, by);
}

/// Every in-range row-major index lies below `width * height`.
pub proof fn lemma_row_major_bound(width: int, height: int, x: int, y: int)
    requires
        0 <= x < width,
        0 <= y < height,
    ensures
        0 <= row_major(width, x, y) < width * height,
        row_major(width, x, y) < height * width,
        row_major(width, x, y) + 1 <= y * width + width,
{
    lemma_mul_is_commutative(width, height);
    lemma_mul_nonnegative(y, width);
    lemma_mul_inequality(y + 1, height, width);
    lemma_mul_is_distributive_add_other_way(width, y, 1);
}

/// Every index below `width * height` is the row-major index of the texel at
/// `(index % width, index / width)`.
pub proof fn lemma_row_major_inverse(width: int, height: int, index: int)
    requires
        0 < width,
        0 < height,
        0 <= index < width * height,
    ensures
        0 <= index % width < width,
        0 <= index / width < height,
        row_major(width, index % width, index / width) == index,
{
    lemma_fundamental_div_mod(index, width);
    lemma_mod_pos_bound(index, width);
    lemma_div_pos_is_pos(index, width);
    lemma_mul_is_commutative(width, height);
    lemma_div_by_multiple_is_strongly_ordered(index, height * width, height, width);
    lemma_div_by_multiple(height, width);
    lemma_mul_is_commutative(width, index / width);
}

/// Two `u32` extents multiply without overflowing `u64`.
pub proof fn lemma_u32_product(a: u32, b: u32)
    ensures
        0 <= a as int * b as int <= u64::MAX,
        a as int * b as int == b as int * a as int,
{
    assert(0 <= a as int * b as int <= u64::MAX) by (nonlinear_arith);
    lemma_mul_is_commutative(a as int, b as int);
}

/// The next row starts `width` texels after the current one.
pub proof fn lemma_next_row(width: int, y: int)
    ensures
        (y + 1) * width == y * width + width,
{
    lemma_mul_is_distributive_add_other_way(width, y, 1);
}


/// Row-major indices order positions row by row, then by column.
pub proof fn lemma_row_major_order(width: int, ax: int, ay: int, bx: int, by: int)
    requires
        0 <= ax < width,
        0 <= ay,
        0 <= bx < width,
        0 <= by,
    ensures
        (row_major(width, ax, ay) < row_major(width, bx, by)) == (ay < by || (ay == by && ax < bx)),
{
    if ay < by {
        lemma_mul_inequality(ay + 1, by, width);
        lemma_mul_is_distributive_add_other_way(width, ay, 1);
    } else if by < ay {
        lemma_mul_inequality(by + 1, ay, width);
        lemma_mul_is_distributive_add_other_way(width, by, 1);
    }
}

} // verus!
