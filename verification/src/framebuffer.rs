use vstd::prelude::*;

use core::cmp::Ordering;

use crate::chart::CanonicalView;
use crate::grid::{lemma_row_major_bound, row_major};
use crate::rational::{frac_lt, Rational};

verus! {

/// What decides which fragment a pixel shows: the nearer depth, then the
/// lower chart rank, source row and source column.
#[derive(Clone, Copy, Debug, PartialEq, Eq)]
pub struct FragmentKey {
    pub depth: Rational,
    pub chart_rank: u8,
    pub source_y: u32,
    pub source_x: u32,
}

/// The order of fragment keys: depth by value, then rank, row and column.
pub open spec fn key_order(a: FragmentKey, b: FragmentKey) -> Ordering {
    if frac_lt(a.depth@, b.depth@) {
        Ordering::Less
    } else if frac_lt(b.depth@, a.depth@) {
        Ordering::Greater
    } else if a.chart_rank < b.chart_rank {
        Ordering::Less
    } else if a.chart_rank > b.chart_rank {
        Ordering::Greater
    } else if a.source_y < b.source_y {
        Ordering::Less
    } else if a.source_y > b.source_y {
        Ordering::Greater
    } else if a.source_x < b.source_x {
        Ordering::Less
    } else if a.source_x > b.source_x {
        Ordering::Greater
    } else {
        Ordering::Equal
    }
}

/// `a` wins a pixel over `b`.
pub open spec fn key_before(a: FragmentKey, b: FragmentKey) -> bool {
    key_order(a, b) == Ordering::Less
}

/// `(a.depth.n * b.depth.d, b.depth.n * a.depth.d)`: comparing them compares
/// the depths by value, for positive denominators.
fn depth_cross_products(a: &FragmentKey, b: &FragmentKey) -> (products: (i128, i128))
    ensures
        products.0 == a.depth@.n * b.depth@.d,
        products.1 == b.depth@.n * a.depth@.d,
{
    let (an, ad, bn, bd) = (a.depth.numer(), a.depth.denom(), b.depth.numer(), b.depth.denom());
    proof {
        lemma_i64_product_fits_i128(an as int, bd as int);
        lemma_i64_product_fits_i128(bn as int, ad as int);
    }
    let left = an as i128 * bd as i128;
    let right = bn as i128 * ad as i128;
    (left, right)
}

proof fn lemma_i64_product_fits_i128(a: int, b: int)
    requires
        i64::MIN <= a <= i64::MAX,
        i64::MIN <= b <= i64::MAX,
    ensures
        i128::MIN <= a * b <= i128::MAX,
{
    assert(-0x8000_0000_0000_0000 * 0x8000_0000_0000_0000 <= a * b <= 0x8000_0000_0000_0000 * 0x8000_0000_0000_0000)
        by (nonlinear_arith)
        requires
            -0x8000_0000_0000_0000 <= a <= 0x7fff_ffff_ffff_ffff,
            -0x8000_0000_0000_0000 <= b <= 0x7fff_ffff_ffff_ffff,
    ;
}

impl PartialOrd for FragmentKey {
    fn partial_cmp(&self, other: &Self) -> (order: Option<Ordering>) {
        let (left, right) = depth_cross_products(self, other);
        let order = if left < right {
            Ordering::Less
        } else if right < left {
            Ordering::Greater
        } else if self.chart_rank < other.chart_rank {
            Ordering::Less
        } else if self.chart_rank > other.chart_rank {
            Ordering::Greater
        } else if self.source_y < other.source_y {
            Ordering::Less
        } else if self.source_y > other.source_y {
            Ordering::Greater
        } else if self.source_x < other.source_x {
            Ordering::Less
        } else if self.source_x > other.source_x {
            Ordering::Greater
        } else {
            Ordering::Equal
        };
        Some(order)
    }
}

impl vstd::std_specs::cmp::PartialOrdSpecImpl for FragmentKey {
    open spec fn obeys_partial_cmp_spec() -> bool {
        true
    }

    open spec fn partial_cmp_spec(&self, other: &Self) -> Option<Ordering> {
        Some(key_order(*self, *other))
    }
}

/// Who owns a pixel: the chart's view, the fragment's depth and its source texel.
#[derive(Clone, Copy, Debug, PartialEq, Eq)]
pub struct FragmentOwner {
    pub view: CanonicalView,
    pub depth: Rational,
    pub source_y: u32,
    pub source_x: u32,
}

/// The abstract content of a frame buffer.
pub struct FrameModel {
    pub width: u32,
    pub height: u32,
    pub keys: Seq<Option<FragmentKey>>,
    pub rgba: Seq<[u8; 4]>,
}

impl FrameModel {
    pub open spec fn wf(self) -> bool {
        &&& self.keys.len() == self.width as int * self.height as int
        &&& self.rgba.len() == self.width as int * self.height as int
        &&& self.width as int * self.height as int <= u32::MAX
        &&& forall|index: int|
            0 <= index < self.keys.len() && (#[trigger] self.keys[index]) is Some ==> self.keys[index].unwrap().chart_rank
                < 6
    }
}

/// Rendered RGBA pixels with the key of the fragment each pixel shows.
#[derive(Clone, Debug, PartialEq, Eq)]
pub struct FrameBuffer {
    width: u32,
    height: u32,
    keys: Vec<Option<FragmentKey>>,
    rgba: Vec<[u8; 4]>,
}

impl FrameBuffer {
    pub closed spec fn model(&self) -> FrameModel {
        FrameModel { width: self.width, height: self.height, keys: self.keys@, rgba: self.rgba@ }
    }

    /// A `width` by `height` frame with no fragment and every pixel transparent.
    pub fn transparent(width: u32, height: u32) -> (frame: Self)
        requires
            width as int * height as int <= u32::MAX,
        ensures
            frame.model().wf(),
            frame.model().width == width,
            frame.model().height == height,
            forall|index: int| 0 <= index < frame.model().keys.len() ==> (#[trigger] frame.model().keys[index]) is None,
            forall|index: int| 0 <= index < frame.model().rgba.len() ==> #[trigger] frame.model().rgba[index] == [
                0u8,
                0u8,
                0u8,
                0u8,
            ],
    {
        let count = width as usize * height as usize;
        let mut keys: Vec<Option<FragmentKey>> = Vec::new();
        let mut rgba: Vec<[u8; 4]> = Vec::new();
        let mut index: usize = 0;
        while index < count
            invariant
                count == width as int * height as int,
                index <= count,
                keys@.len() == index,
                rgba@.len() == index,
                forall|i: int| 0 <= i < index ==> (#[trigger] keys@[i]) is None,
                forall|i: int| 0 <= i < index ==> #[trigger] rgba@[i] == [0u8, 0u8, 0u8, 0u8],
            decreases count - index,
        {
            keys.push(None);
            rgba.push([0, 0, 0, 0]);
            index += 1;
        }
        Self { width, height, keys, rgba }
    }

    pub fn width(&self) -> (width: u32)
        ensures
            width == self.model().width,
    {
        self.width
    }

    pub fn height(&self) -> (height: u32)
        ensures
            height == self.model().height,
    {
        self.height
    }

    pub fn pixels(&self) -> (pixels: &[[u8; 4]])
        ensures
            pixels@ == self.model().rgba,
    {
        self.rgba.as_slice()
    }

    pub fn rgba_at(&self, x: u32, y: u32) -> (pixel: [u8; 4])
        requires
            self.model().wf(),
            x < self.model().width,
            y < self.model().height,
        ensures
            pixel == self.model().rgba[row_major(self.model().width as int, x as int, y as int)],
    {
        proof {
            lemma_row_major_bound(self.width as int, self.height as int, x as int, y as int);
        }
        self.rgba[(y * self.width + x) as usize]
    }

    /// The fragment shown at `(x, y)`; none off the frame or where no
    /// fragment was committed.
    pub fn owner_at(&self, x: u32, y: u32) -> (owner: Option<FragmentOwner>)
        requires
            self.model().wf(),
        ensures
            !(x < self.model().width && y < self.model().height) ==> owner is None,
            x < self.model().width && y < self.model().height ==> match self.model().keys[row_major(
                self.model().width as int,
                x as int,
                y as int,
            )] {
                None => owner is None,
                Some(key) => owner == Some(
                    FragmentOwner {
                        view: CanonicalView::spec_from_rank(key.chart_rank).unwrap(),
                        depth: key.depth,
                        source_y: key.source_y,
                        source_x: key.source_x,
                    },
                ),
            },
    {
        if x >= self.width || y >= self.height {
            return None;
        }
        proof {
            lemma_row_major_bound(self.width as int, self.height as int, x as int, y as int);
        }
        match self.keys[(y * self.width + x) as usize] {
            None => None,
            Some(key) => match CanonicalView::from_rank(key.chart_rank) {
                Some(view) => Some(
                    FragmentOwner { view, depth: key.depth, source_y: key.source_y, source_x: key.source_x },
                ),
                None => None,
            },
        }
    }
}

/// Shows the fragment `key` with color `rgb` at `(x, y)` unless the pixel
/// already shows a fragment whose key comes first.
pub fn commit_fragment(frame: &mut FrameBuffer, x: u32, y: u32, key: FragmentKey, rgb: [u8; 3])
    requires
        old(frame).model().wf(),
        x < old(frame).model().width,
        y < old(frame).model().height,
        key.chart_rank < 6,
    ensures
        final(frame).model().wf(),
        final(frame).model().width == old(frame).model().width,
        final(frame).model().height == old(frame).model().height,
        ({
            let index = row_major(old(frame).model().width as int, x as int, y as int);
            let wins = match old(frame).model().keys[index] {
                None => true,
                Some(current) => key_before(key, current),
            };
            &&& wins ==> final(frame).model().keys == old(frame).model().keys.update(index, Some(key))
                && final(frame).model().rgba == old(frame).model().rgba.update(index, [rgb[0], rgb[1], rgb[2], 255u8])
            &&& !wins ==> final(frame).model() == old(frame).model()
        }),
{
    proof {
        lemma_row_major_bound(frame.width as int, frame.height as int, x as int, y as int);
    }
    let index = (y * frame.width + x) as usize;
    let wins = match frame.keys[index] {
        None => true,
        Some(current) => key < current,
    };
    if wins {
        frame.keys.set(index, Some(key));
        frame.rgba.set(index, [rgb[0], rgb[1], rgb[2], 255]);
    }
}

/// `(x, y)` lies in the `scale`-times enlarged copy of a `width` by `height`
/// frame placed at `(left, top)`.
pub open spec fn in_block(left: int, top: int, width: int, height: int, scale: int, x: int, y: int) -> bool {
    left <= x < left + width * scale && top <= y < top + height * scale
}

/// Copies `source`, each pixel enlarged to a `scale` by `scale` block, into
/// `destination` with its top-left corner at `(destination_x, destination_y)`;
/// pixels and fragment keys outside that block are kept.
pub fn blit_nearest(
    source: &FrameBuffer,
    destination: &mut FrameBuffer,
    destination_x: u32,
    destination_y: u32,
    scale: u32,
)
    requires
        source.model().wf(),
        old(destination).model().wf(),
        destination_x + source.model().width * scale <= old(destination).model().width,
        destination_y + source.model().height * scale <= old(destination).model().height,
    ensures
        final(destination).model().wf(),
        final(destination).model().width == old(destination).model().width,
        final(destination).model().height == old(destination).model().height,
        forall|x: int, y: int|
            #![trigger row_major(old(destination).model().width as int, x, y)]
            0 <= x < old(destination).model().width && 0 <= y < old(destination).model().height ==> {
                let index = row_major(old(destination).model().width as int, x, y);
                if in_block(
                    destination_x as int,
                    destination_y as int,
                    source.model().width as int,
                    source.model().height as int,
                    scale as int,
                    x,
                    y,
                ) {
                    let from = row_major(
                        source.model().width as int,
                        (x - destination_x) / (scale as int),
                        (y - destination_y) / (scale as int),
                    );
                    final(destination).model().rgba[index] == source.model().rgba[from]
                        && final(destination).model().keys[index] == source.model().keys[from]
                } else {
                    final(destination).model().rgba[index] == old(destination).model().rgba[index]
                        && final(destination).model().keys[index] == old(destination).model().keys[index]
                }
            },
{
    let ghost start = destination.model();
    let width = destination.width;
    let source_width = source.width;
    let block_width = source.width * scale;
    let block_height = source.height * scale;
    let mut y: u32 = 0;
    while y < block_height
        invariant
            source.model().wf(),
            destination.model().wf(),
            destination.model().width == start.width,
            destination.model().height == start.height,
            width == start.width,
            source_width == source.model().width,
            block_width == source.model().width * scale,
            block_height == source.model().height * scale,
            destination_x + block_width <= start.width,
            destination_y + block_height <= start.height,
            y <= block_height,
            forall|xx: int, yy: int|
                #![trigger row_major(start.width as int, xx, yy)]
                0 <= xx < start.width && 0 <= yy < start.height ==> {
                    let index = row_major(start.width as int, xx, yy);
                    if in_block(
                        destination_x as int,
                        destination_y as int,
                        source.model().width as int,
                        source.model().height as int,
                        scale as int,
                        xx,
                        yy,
                    ) && yy - destination_y < y {
                        let from = row_major(
                            source.model().width as int,
                            (xx - destination_x) / (scale as int),
                            (yy - destination_y) / (scale as int),
                        );
                        destination.model().rgba[index] == source.model().rgba[from]
                            && destination.model().keys[index] == source.model().keys[from]
                    } else {
                        destination.model().rgba[index] == start.rgba[index] && destination.model().keys[index]
                            == start.keys[index]
                    }
                },
        decreases block_height - y,
    {
        let mut x: u32 = 0;
        while x < block_width
            invariant
                source.model().wf(),
                destination.model().wf(),
                destination.model().width == start.width,
                destination.model().height == start.height,
                width == start.width,
                source_width == source.model().width,
                block_width == source.model().width * scale,
                block_height == source.model().height * scale,
                destination_x + block_width <= start.width,
                destination_y + block_height <= start.height,
                y < block_height,
                x <= block_width,
                forall|xx: int, yy: int|
                    #![trigger row_major(start.width as int, xx, yy)]
                    0 <= xx < start.width && 0 <= yy < start.height ==> {
                        let index = row_major(start.width as int, xx, yy);
                        if in_block(
                            destination_x as int,
                            destination_y as int,
                            source.model().width as int,
                            source.model().height as int,
                            scale as int,
                            xx,
                            yy,
                        ) && (yy - destination_y < y || (yy - destination_y == y && xx - destination_x < x)) {
                            let from = row_major(
                                source.model().width as int,
                                (xx - destination_x) / (scale as int),
                                (yy - destination_y) / (scale as int),
                            );
                            destination.model().rgba[index] == source.model().rgba[from]
                                && destination.model().keys[index] == source.model().keys[from]
                        } else {
                            destination.model().rgba[index] == start.rgba[index] && destination.model().keys[index]
                                == start.keys[index]
                        }
                    },
            decreases block_width - x,
        {
            let target_x = destination_x + x;
            let target_y = destination_y + y;
            proof {
                assert(scale > 0) by (nonlinear_arith)
                    requires
                        y < block_height,
                        block_height == source.model().height * scale,
                ;
                lemma_block_source(x as int, y as int, scale as int, source.model().width as int, source.model().height as int);
                lemma_row_major_bound(start.width as int, start.height as int, target_x as int, target_y as int);
            }
            let from = ((y / scale) * source_width + x / scale) as usize;
            let to = (target_y * width + target_x) as usize;
            let pixel = source.rgba[from];
            let key = source.keys[from];
            let ghost before = destination.model();
            destination.rgba.set(to, pixel);
            destination.keys.set(to, key);
            proof {
                assert(from as int == row_major(
                    source.model().width as int,
                    (target_x - destination_x) / (scale as int),
                    (target_y - destination_y) / (scale as int),
                ));
                assert(to as int == row_major(start.width as int, target_x as int, target_y as int));
                assert forall|xx: int, yy: int|
                    #![trigger row_major(start.width as int, xx, yy)]
                    0 <= xx < start.width && 0 <= yy < start.height implies {
                        let index = row_major(start.width as int, xx, yy);
                        if in_block(
                            destination_x as int,
                            destination_y as int,
                            source.model().width as int,
                            source.model().height as int,
                            scale as int,
                            xx,
                            yy,
                        ) && (yy - destination_y < y || (yy - destination_y == y && xx - destination_x < x + 1)) {
                            let from = row_major(
                                source.model().width as int,
                                (xx - destination_x) / (scale as int),
                                (yy - destination_y) / (scale as int),
                            );
                            destination.model().rgba[index] == source.model().rgba[from]
                                && destination.model().keys[index] == source.model().keys[from]
                        } else {
                            destination.model().rgba[index] == start.rgba[index] && destination.model().keys[index]
                                == start.keys[index]
                        }
                    } by {
                    lemma_row_major_bound(start.width as int, start.height as int, xx, yy);
                    if xx != target_x || yy != target_y {
                        crate::grid::lemma_row_major_injective(
                            start.width as int,
                            xx,
                            yy,
                            target_x as int,
                            target_y as int,
                        );
                    }
                }
                assert forall|xx: int, yy: int|
                    0 <= xx < start.width && 0 <= yy < start.height && (xx != target_x || yy != target_y) implies #[trigger] row_major(
                        start.width as int,
                        xx,
                        yy,
                    ) != to by {
                    crate::grid::lemma_row_major_injective(
                        start.width as int,
                        xx,
                        yy,
                        target_x as int,
                        target_y as int,
                    );
                }
                assert(destination.model().wf()) by {
                    assert forall|index: int|
                        0 <= index < destination.model().keys.len() && (#[trigger] destination.model().keys[index]) is Some
                            implies destination.model().keys[index].unwrap().chart_rank < 6 by {
                        if index == to as int {
                            assert(source.model().keys[from as int] is Some);
                        }
                    }
                }
            }
            x += 1;
        }
        y += 1;
    }
}

/// The source pixel of block position `(x, y)` lies inside the source frame.
proof fn lemma_block_source(x: int, y: int, scale: int, width: int, height: int)
    requires
        scale > 0,
        0 <= x < width * scale,
        0 <= y < height * scale,
    ensures
        0 <= x / scale < width,
        0 <= y / scale < height,
        0 <= row_major(width, x / scale, y / scale) < width * height,
{
    vstd::arithmetic::div_mod::lemma_div_pos_is_pos(x, scale);
    vstd::arithmetic::div_mod::lemma_div_pos_is_pos(y, scale);
    vstd::arithmetic::mul::lemma_mul_is_commutative(width, scale);
    vstd::arithmetic::mul::lemma_mul_is_commutative(height, scale);
    vstd::arithmetic::div_mod::lemma_multiply_divide_lt(x, scale, width);
    vstd::arithmetic::div_mod::lemma_multiply_divide_lt(y, scale, height);
    lemma_row_major_bound(width, height, x / scale, y / scale);
}
} // verus!
