use vstd::prelude::*;

use crate::alpha::{decode_rgba, spec_decode, DecodedTexel};
use crate::grid::{
    lemma_next_row, lemma_row_major, lemma_row_major_bound, lemma_row_major_inverse, lemma_u32_product,
    row_major,
};
use crate::resize::{ImageEdge, ResizeDelta};

verus! {

/// The visible magenta sentinel stored in texels that carry no relief.
pub const EMPTY_RGBA: [u8; 4] = [255, 0, 255, 0];

/// Largest model extent along any axis, in model pixels.
pub const MAX_BOUND: u32 = 63;

/// Validated fixed-scale model dimensions.
#[derive(Clone, Copy, Debug, PartialEq, Eq)]
pub struct Bounds {
    width: u32,
    height: u32,
    depth: u32,
}

#[derive(Clone, Copy, Debug, PartialEq, Eq)]
pub enum ChartError {
    BoundsOutOfRange { width: u32, height: u32, depth: u32 },
    ZeroBounds,
    PixelCount,
    DimensionMismatch { expected: (u32, u32), actual: (u32, u32) },
}

impl Bounds {
    pub closed spec fn spec_width(self) -> u32 {
        self.width
    }

    pub closed spec fn spec_height(self) -> u32 {
        self.height
    }

    pub closed spec fn spec_depth(self) -> u32 {
        self.depth
    }

    /// The bounds with the given extents.
    pub closed spec fn spec_from_extents(width: u32, height: u32, depth: u32) -> Bounds {
        Bounds { width, height, depth }
    }

    /// Every extent lies in `1..=63`.
    pub open spec fn wf(self) -> bool {
        &&& 1 <= self.spec_width() <= MAX_BOUND
        &&& 1 <= self.spec_height() <= MAX_BOUND
        &&& 1 <= self.spec_depth() <= MAX_BOUND
    }

    /// The error `new` reports for the given extents, if any.
    pub open spec fn spec_new_error(width: u32, height: u32, depth: u32) -> Option<ChartError> {
        if width == 0 || height == 0 || depth == 0 {
            Some(ChartError::ZeroBounds)
        } else if width > MAX_BOUND || height > MAX_BOUND || depth > MAX_BOUND {
            Some(ChartError::BoundsOutOfRange { width, height, depth })
        } else {
            None
        }
    }

    pub fn new(width: u32, height: u32, depth: u32) -> (result: Result<Self, ChartError>)
        ensures
            match Self::spec_new_error(width, height, depth) {
                Some(error) => result == Err::<Self, ChartError>(error),
                None => result matches Ok(bounds) && bounds.wf() && bounds.spec_width() == width
                    && bounds.spec_height() == height && bounds.spec_depth() == depth
                    && bounds == Self::spec_from_extents(width, height, depth),
            },
    {
        if width == 0 || height == 0 || depth == 0 {
            return Err(ChartError::ZeroBounds);
        }
        if width > MAX_BOUND || height > MAX_BOUND || depth > MAX_BOUND {
            return Err(ChartError::BoundsOutOfRange { width, height, depth });
        }
        Ok(Self { width, height, depth })
    }

    #[verifier::when_used_as_spec(spec_width)]
    pub fn width(self) -> (width: u32)
        ensures
            width == self.spec_width(),
    {
        self.width
    }

    #[verifier::when_used_as_spec(spec_height)]
    pub fn height(self) -> (height: u32)
        ensures
            height == self.spec_height(),
    {
        self.height
    }

    #[verifier::when_used_as_spec(spec_depth)]
    pub fn depth(self) -> (depth: u32)
        ensures
            depth == self.spec_depth(),
    {
        self.depth
    }
}

/// The six axis-aligned observation directions of a model.
#[derive(Clone, Copy, Debug, PartialEq, Eq, Hash, Ord, PartialOrd, Structural)]
pub enum CanonicalView {
    Front,
    Back,
    Left,
    Right,
    Top,
    Bottom,
}

impl CanonicalView {
    /// Canonical order: Front, Right, Back, Left, Top, Bottom.
    pub open spec fn spec_rank(self) -> u8 {
        match self {
            CanonicalView::Front => 0,
            CanonicalView::Right => 1,
            CanonicalView::Back => 2,
            CanonicalView::Left => 3,
            CanonicalView::Top => 4,
            CanonicalView::Bottom => 5,
        }
    }

    pub open spec fn spec_from_rank(rank: u8) -> Option<Self> {
        match rank {
            0 => Some(CanonicalView::Front),
            1 => Some(CanonicalView::Right),
            2 => Some(CanonicalView::Back),
            3 => Some(CanonicalView::Left),
            4 => Some(CanonicalView::Top),
            5 => Some(CanonicalView::Bottom),
            _ => None,
        }
    }

    #[verifier::when_used_as_spec(spec_from_rank)]
    pub fn from_rank(rank: u8) -> (view: Option<Self>)
        ensures
            view == Self::spec_from_rank(rank),
    {
        match rank {
            0 => Some(CanonicalView::Front),
            1 => Some(CanonicalView::Right),
            2 => Some(CanonicalView::Back),
            3 => Some(CanonicalView::Left),
            4 => Some(CanonicalView::Top),
            5 => Some(CanonicalView::Bottom),
            _ => None,
        }
    }

    #[verifier::when_used_as_spec(spec_rank)]
    pub fn rank(self) -> (rank: u8)
        ensures
            rank == self.spec_rank(),
    {
        match self {
            CanonicalView::Front => 0,
            CanonicalView::Right => 1,
            CanonicalView::Back => 2,
            CanonicalView::Left => 3,
            CanonicalView::Top => 4,
            CanonicalView::Bottom => 5,
        }
    }

    /// Image `(width, height)` of this view's chart for the given bounds.
    pub open spec fn spec_dimensions(self, bounds: Bounds) -> (u32, u32) {
        match self {
            CanonicalView::Front | CanonicalView::Back => (bounds.spec_width(), bounds.spec_height()),
            CanonicalView::Left | CanonicalView::Right => (bounds.spec_depth(), bounds.spec_height()),
            CanonicalView::Top | CanonicalView::Bottom => (bounds.spec_width(), bounds.spec_depth()),
        }
    }

    #[verifier::when_used_as_spec(spec_dimensions)]
    pub fn dimensions(self, bounds: Bounds) -> (dimensions: (u32, u32))
        ensures
            dimensions == self.spec_dimensions(bounds),
    {
        match self {
            CanonicalView::Front | CanonicalView::Back => (bounds.width(), bounds.height()),
            CanonicalView::Left | CanonicalView::Right => (bounds.depth(), bounds.height()),
            CanonicalView::Top | CanonicalView::Bottom => (bounds.width(), bounds.depth()),
        }
    }
}

/// The extents of bounds built from extents are those extents.
pub proof fn lemma_bounds_extents(width: u32, height: u32, depth: u32)
    ensures
        Bounds::spec_from_extents(width, height, depth).spec_width() == width,
        Bounds::spec_from_extents(width, height, depth).spec_height() == height,
        Bounds::spec_from_extents(width, height, depth).spec_depth() == depth,
{
}

/// Rank and view determine each other.
pub proof fn lemma_rank_round_trip(view: CanonicalView)
    ensures
        CanonicalView::spec_from_rank(view.spec_rank()) == Some(view),
        view.spec_rank() < 6,
{
}

/// Distinct views have distinct ranks.
pub proof fn lemma_rank_injective(a: CanonicalView, b: CanonicalView)
    ensures
        a.spec_rank() == b.spec_rank() <==> a == b,
{
}

/// The abstract content of a chart.
pub struct ChartModel {
    pub view: CanonicalView,
    pub supplies_opposite: bool,
    pub mirrors_opposite: bool,
    pub width: u32,
    pub height: u32,
    pub rgba: Seq<[u8; 4]>,
}

impl ChartModel {
    /// The stored texel at column `x`, row `y`.
    pub open spec fn pixel(self, x: int, y: int) -> [u8; 4] {
        self.rgba[row_major(self.width as int, x, y)]
    }

    /// Exactly one stored texel per image position.
    pub open spec fn wf(self) -> bool {
        self.rgba.len() == self.width as int * self.height as int
    }
}

/// One oriented RGBA image of a model, with its opposite-side assignment flags.
#[derive(Clone, Debug, PartialEq, Eq)]
pub struct Chart {
    view: CanonicalView,
    supplies_opposite: bool,
    mirrors_opposite: bool,
    width: u32,
    height: u32,
    rgba: Vec<[u8; 4]>,
}

impl Chart {
    /// The chart's abstract content.
    pub closed spec fn model(&self) -> ChartModel {
        ChartModel {
            view: self.view,
            supplies_opposite: self.supplies_opposite,
            mirrors_opposite: self.mirrors_opposite,
            width: self.width,
            height: self.height,
            rgba: self.rgba@,
        }
    }
}

/// Whether an image position lies inside a `width` by `height` image.
pub open spec fn in_image(width: u32, height: u32, x: int, y: int) -> bool {
    0 <= x < width && 0 <= y < height
}

/// The source texel that `resized` copies into position `(x, y)`, if any.
pub open spec fn resize_source(edge: ImageEdge, delta: ResizeDelta, x: int, y: int) -> Option<(int, int)> {
    match (edge, delta) {
        (ImageEdge::Left, ResizeDelta::Add) => if x >= 1 { Some((x - 1, y)) } else { None },
        (ImageEdge::Right, ResizeDelta::Add) => Some((x, y)),
        (ImageEdge::Top, ResizeDelta::Add) => if y >= 1 { Some((x, y - 1)) } else { None },
        (ImageEdge::Bottom, ResizeDelta::Add) => Some((x, y)),
        (ImageEdge::Left, ResizeDelta::Remove) => Some((x + 1, y)),
        (ImageEdge::Right, ResizeDelta::Remove) => Some((x, y)),
        (ImageEdge::Top, ResizeDelta::Remove) => Some((x, y + 1)),
        (ImageEdge::Bottom, ResizeDelta::Remove) => Some((x, y)),
    }
}

/// Image dimensions after adding or removing one column or row at `edge`.
pub open spec fn resized_dimensions(width: u32, height: u32, edge: ImageEdge, delta: ResizeDelta) -> (int, int) {
    match (edge, delta) {
        (ImageEdge::Left, ResizeDelta::Add) | (ImageEdge::Right, ResizeDelta::Add) => (width + 1, height as int),
        (ImageEdge::Left, ResizeDelta::Remove) | (ImageEdge::Right, ResizeDelta::Remove) => (width - 1, height as int),
        (ImageEdge::Top, ResizeDelta::Add) | (ImageEdge::Bottom, ResizeDelta::Add) => (width as int, height + 1),
        (ImageEdge::Top, ResizeDelta::Remove) | (ImageEdge::Bottom, ResizeDelta::Remove) => (width as int, height - 1),
    }
}

/// The texel of `chart` that `resized` stores at `(x, y)`: the copied source
/// texel, or the empty sentinel on a new column or row.
pub open spec fn resized_pixel(chart: ChartModel, edge: ImageEdge, delta: ResizeDelta, x: int, y: int) -> [u8; 4] {
    match resize_source(edge, delta, x, y) {
        Some((sx, sy)) => if in_image(chart.width, chart.height, sx, sy) {
            chart.pixel(sx, sy)
        } else {
            EMPTY_RGBA
        },
        None => EMPTY_RGBA,
    }
}

/// The whole chart `resized` produces.
pub open spec fn resized_model(chart: ChartModel, edge: ImageEdge, delta: ResizeDelta) -> ChartModel {
    let (width, height) = resized_dimensions(chart.width, chart.height, edge, delta);
    ChartModel {
        view: chart.view,
        supplies_opposite: chart.supplies_opposite,
        mirrors_opposite: chart.mirrors_opposite,
        width: width as u32,
        height: height as u32,
        rgba: Seq::new(
            (width * height) as nat,
            |index: int| resized_pixel(chart, edge, delta, index % width, index / width),
        ),
    }
}

/// Whether the opposite of `view` is reflected left-to-right (side views)
/// rather than top-to-bottom (Top and Bottom) when a chart is mirrored onto it.
pub open spec fn mirrors_horizontally(view: CanonicalView) -> bool {
    !(view is Top || view is Bottom)
}

/// The texel at `(x, y)` of `chart` reflected through its image midline.
pub open spec fn mirrored_pixel(chart: ChartModel, horizontal: bool, x: int, y: int) -> [u8; 4] {
    if horizontal {
        chart.pixel(chart.width - 1 - x, y)
    } else {
        chart.pixel(x, chart.height - 1 - y)
    }
}

/// The image of `chart` registered as `view`, reflected when `mirror` is
/// set, with both assignment flags off.
pub open spec fn observed_as(chart: ChartModel, view: CanonicalView, mirror: bool) -> ChartModel {
    ChartModel {
        view,
        supplies_opposite: false,
        mirrors_opposite: false,
        width: chart.width,
        height: chart.height,
        rgba: if mirror {
            Seq::new(
                chart.rgba.len(),
                |index: int|
                    mirrored_pixel(
                        chart,
                        mirrors_horizontally(chart.view),
                        index % (chart.width as int),
                        index / (chart.width as int),
                    ),
            )
        } else {
            chart.rgba
        },
    }
}

/// The texels along one image edge.
pub open spec fn on_edge(width: u32, height: u32, edge: ImageEdge, x: int, y: int) -> bool {
    &&& in_image(width, height, x, y)
    &&& match edge {
        ImageEdge::Left => x == 0,
        ImageEdge::Right => x == width - 1,
        ImageEdge::Top => y == 0,
        ImageEdge::Bottom => y == height - 1,
    }
}

/// Some texel on `edge` holds something other than the empty sentinel.
pub open spec fn edge_authored(chart: ChartModel, edge: ImageEdge) -> bool {
    exists|x: int, y: int| on_edge(chart.width, chart.height, edge, x, y) && #[trigger] chart.pixel(x, y) != EMPTY_RGBA
}

/// Whether a texel is exactly the empty sentinel.
pub fn is_empty_rgba(pixel: [u8; 4]) -> (empty: bool)
    ensures
        empty == (pixel == EMPTY_RGBA),
{
    let empty = pixel[0] == 255 && pixel[1] == 0 && pixel[2] == 255 && pixel[3] == 0;
    proof {
        if empty {
            assert(pixel =~= EMPTY_RGBA);
        }
    }
    empty
}

impl Chart {
    pub open spec fn wf(&self) -> bool {
        self.model().wf()
    }

    /// Wraps raw RGBA texels as a chart for `view`; the texel count must be
    /// exactly `width * height`. Both assignment flags start off.
    pub fn from_rgba(view: CanonicalView, width: u32, height: u32, rgba: Vec<[u8; 4]>) -> (result: Result<
        Self,
        ChartError,
    >)
        ensures
            rgba@.len() != width as int * height as int ==> result == Err::<Self, ChartError>(ChartError::PixelCount),
            rgba@.len() == width as int * height as int ==> (result matches Ok(chart) && chart.wf()
                && chart.model() == (ChartModel {
                view,
                supplies_opposite: false,
                mirrors_opposite: false,
                width,
                height,
                rgba: rgba@,
            })),
    {
        proof {
            lemma_u32_product(width, height);
        }
        if rgba.len() as u64 != width as u64 * height as u64 {
            return Err(ChartError::PixelCount);
        }
        Ok(Self { view, supplies_opposite: false, mirrors_opposite: false, width, height, rgba })
    }

    /// As `from_rgba`, additionally rejecting image dimensions other than the
    /// ones `view` has in `bounds`.
    pub fn from_rgba_in_bounds(
        bounds: Bounds,
        view: CanonicalView,
        width: u32,
        height: u32,
        rgba: Vec<[u8; 4]>,
    ) -> (result: Result<Self, ChartError>)
        ensures
            (width, height) != view.spec_dimensions(bounds) ==> result == Err::<Self, ChartError>(
                ChartError::DimensionMismatch { expected: view.spec_dimensions(bounds), actual: (width, height) },
            ),
            (width, height) == view.spec_dimensions(bounds) && rgba@.len() != width as int * height as int
                ==> result == Err::<Self, ChartError>(ChartError::PixelCount),
            (width, height) == view.spec_dimensions(bounds) && rgba@.len() == width as int * height as int
                ==> (result matches Ok(chart) && chart.wf() && chart.model() == (ChartModel {
                view,
                supplies_opposite: false,
                mirrors_opposite: false,
                width,
                height,
                rgba: rgba@,
            })),
    {
        let expected = view.dimensions(bounds);
        if expected.0 != width || expected.1 != height {
            return Err(ChartError::DimensionMismatch { expected, actual: (width, height) });
        }
        Self::from_rgba(view, width, height, rgba)
    }

    pub fn view(&self) -> (view: CanonicalView)
        ensures
            view == self.model().view,
    {
        self.view
    }

    pub fn with_opposite_assignment(self) -> (chart: Self)
        ensures
            chart.model() == (ChartModel { supplies_opposite: true, ..self.model() }),
    {
        let mut chart = self;
        chart.supplies_opposite = true;
        chart
    }

    pub fn without_opposite_assignment(self) -> (chart: Self)
        ensures
            chart.model() == (ChartModel { supplies_opposite: false, ..self.model() }),
    {
        let mut chart = self;
        chart.supplies_opposite = false;
        chart
    }

    pub fn supplies_opposite(&self) -> (supplies: bool)
        ensures
            supplies == self.model().supplies_opposite,
    {
        self.supplies_opposite
    }

    pub fn with_mirrored_opposite(self) -> (chart: Self)
        ensures
            chart.model() == (ChartModel { mirrors_opposite: true, ..self.model() }),
    {
        let mut chart = self;
        chart.mirrors_opposite = true;
        chart
    }

    pub fn without_mirrored_opposite(self) -> (chart: Self)
        ensures
            chart.model() == (ChartModel { mirrors_opposite: false, ..self.model() }),
    {
        let mut chart = self;
        chart.mirrors_opposite = false;
        chart
    }

    pub fn mirrors_opposite(&self) -> (mirrors: bool)
        ensures
            mirrors == self.model().mirrors_opposite,
    {
        self.mirrors_opposite
    }

    /// Copies both assignment flags of `source` onto this chart.
    pub fn with_assignments_from(self, source: &Self) -> (chart: Self)
        ensures
            chart.model() == (ChartModel {
                supplies_opposite: source.model().supplies_opposite,
                mirrors_opposite: source.model().mirrors_opposite,
                ..self.model()
            }),
    {
        let mut chart = self;
        chart.supplies_opposite = source.supplies_opposite;
        chart.mirrors_opposite = source.mirrors_opposite;
        chart
    }

    /// The views this chart supplies: its own, then its opposite when assigned.
    pub fn assigned_views(&self) -> (views: Vec<CanonicalView>)
        ensures
            views@ == (if self.model().supplies_opposite {
                seq![self.model().view, self.model().view.spec_opposite()]
            } else {
                seq![self.model().view]
            }),
    {
        let mut views = Vec::new();
        views.push(self.view);
        if self.supplies_opposite {
            views.push(self.view.opposite());
        }
        views
    }

    pub fn dimensions(&self) -> (dimensions: (u32, u32))
        ensures
            dimensions == (self.model().width, self.model().height),
    {
        (self.width, self.height)
    }

    pub fn rgba(&self) -> (rgba: &[[u8; 4]])
        ensures
            rgba@ == self.model().rgba,
    {
        self.rgba.as_slice()
    }

    pub fn rgba_at(&self, x: u32, y: u32) -> (pixel: Option<[u8; 4]>)
        requires
            self.wf(),
        ensures
            in_image(self.model().width, self.model().height, x as int, y as int) ==> pixel == Some(self.model().pixel(x as int, y as int)),
            !in_image(self.model().width, self.model().height, x as int, y as int) ==> pixel is None,
    {
        if x < self.width && y < self.height {
            proof {
                lemma_row_major_bound(self.width as int, self.height as int, x as int, y as int);
            }
            let len = self.rgba.len();
            let index = y as usize * self.width as usize + x as usize;
            Some(self.rgba[index])
        } else {
            None
        }
    }

    pub fn texel_at(&self, x: u32, y: u32) -> (texel: Option<DecodedTexel>)
        requires
            self.wf(),
        ensures
            in_image(self.model().width, self.model().height, x as int, y as int) ==> texel == Some(
                spec_decode(self.model().pixel(x as int, y as int)),
            ),
            !in_image(self.model().width, self.model().height, x as int, y as int) ==> texel is None,
    {
        match self.rgba_at(x, y) {
            Some(pixel) => Some(decode_rgba(pixel)),
            None => None,
        }
    }

    /// Every texel decoded, in storage order.
    pub fn texels(&self) -> (texels: Vec<DecodedTexel>)
        ensures
            texels@ == self.model().rgba.map_values(|pixel: [u8; 4]| spec_decode(pixel)),
    {
        let mut texels = Vec::new();
        let mut index: usize = 0;
        while index < self.rgba.len()
            invariant
                index <= self.rgba@.len(),
                texels@ =~= self.rgba@.take(index as int).map_values(|pixel: [u8; 4]| spec_decode(pixel)),
            decreases self.rgba@.len() - index,
        {
            texels.push(decode_rgba(self.rgba[index]));
            index += 1;
        }
        texels
    }

    /// Whether any texel on `edge` differs from the empty sentinel.
    pub fn edge_contains_authored_pixel(&self, edge: ImageEdge) -> (authored: bool)
        requires
            self.wf(),
        ensures
            authored == edge_authored(self.model(), edge),
    {
        let (limit, horizontal) = match edge {
            ImageEdge::Left | ImageEdge::Right => (self.height, false),
            ImageEdge::Top | ImageEdge::Bottom => (self.width, true),
        };
        if self.width == 0 || self.height == 0 {
            return false;
        }
        let mut step: u32 = 0;
        while step < limit
            invariant
                self.wf(),
                self.width > 0,
                self.height > 0,
                limit == (if horizontal { self.width } else { self.height }),
                horizontal == (edge is Top || edge is Bottom),
                step <= limit,
                forall|x: int, y: int|
                    on_edge(self.model().width, self.model().height, edge, x, y) && (if horizontal { x < step } else { y < step })
                        ==> #[trigger] self.model().pixel(x, y) == EMPTY_RGBA,
            decreases limit - step,
        {
            let (x, y) = match edge {
                ImageEdge::Left => (0, step),
                ImageEdge::Right => (self.width - 1, step),
                ImageEdge::Top => (step, 0),
                ImageEdge::Bottom => (step, self.height - 1),
            };
            match self.rgba_at(x, y) {
                Some(pixel) => {
                    if !is_empty_rgba(pixel) {
                        assert(on_edge(self.model().width, self.model().height, edge, x as int, y as int));
                        return true;
                    }
                },
                None => {},
            }
            step += 1;
        }
        false
    }

    /// A copy with one column or row added (empty) or removed at `edge`,
    /// keeping view and assignment flags.
    pub fn resized(&self, edge: ImageEdge, delta: ResizeDelta) -> (chart: Self)
        requires
            self.wf(),
            resized_dimensions(self.model().width, self.model().height, edge, delta).0 >= 0,
            resized_dimensions(self.model().width, self.model().height, edge, delta).1 >= 0,
            resized_dimensions(self.model().width, self.model().height, edge, delta).0 <= u32::MAX,
            resized_dimensions(self.model().width, self.model().height, edge, delta).1 <= u32::MAX,
        ensures
            chart.wf(),
            chart.model().view == self.model().view,
            chart.model().supplies_opposite == self.model().supplies_opposite,
            chart.model().mirrors_opposite == self.model().mirrors_opposite,
            (chart.model().width as int, chart.model().height as int) == resized_dimensions(self.model().width, self.model().height, edge, delta),
            forall|x: int, y: int|
                in_image(chart.model().width, chart.model().height, x, y) ==> #[trigger] chart.model().pixel(x, y) == resized_pixel(
                    self.model(),
                    edge,
                    delta,
                    x,
                    y,
                ),
            chart.model() == resized_model(self.model(), edge, delta),
    {
        let (width, height): (u32, u32) = match (edge, delta) {
            (ImageEdge::Left, ResizeDelta::Add) | (ImageEdge::Right, ResizeDelta::Add) => (self.width + 1, self.height),
            (ImageEdge::Left, ResizeDelta::Remove) | (ImageEdge::Right, ResizeDelta::Remove) => (
                self.width - 1,
                self.height,
            ),
            (ImageEdge::Top, ResizeDelta::Add) | (ImageEdge::Bottom, ResizeDelta::Add) => (self.width, self.height + 1),
            (ImageEdge::Top, ResizeDelta::Remove) | (ImageEdge::Bottom, ResizeDelta::Remove) => (
                self.width,
                self.height - 1,
            ),
        };
        let mut rgba: Vec<[u8; 4]> = Vec::new();
        let mut y: u32 = 0;
        while y < height
            invariant
                self.wf(),
                (width as int, height as int) == resized_dimensions(self.model().width, self.model().height, edge, delta),
                y <= height,
                rgba@.len() == y as int * width as int,
                forall|xx: int, yy: int|
                    0 <= xx < width && 0 <= yy < y ==> #[trigger] rgba@[row_major(width as int, xx, yy)]
                        == resized_pixel(self.model(), edge, delta, xx, yy),
            decreases height - y,
        {
            let mut x: u32 = 0;
            while x < width
                invariant
                    self.wf(),
                    (width as int, height as int) == resized_dimensions(self.model().width, self.model().height, edge, delta),
                    y < height,
                    x <= width,
                    rgba@.len() == y as int * width as int + x,
                    forall|xx: int, yy: int|
                        0 <= xx < width && 0 <= yy < y ==> #[trigger] rgba@[row_major(width as int, xx, yy)]
                            == resized_pixel(self.model(), edge, delta, xx, yy),
                    forall|xx: int| 0 <= xx < x ==> #[trigger] rgba@[row_major(width as int, xx, y as int)]
                        == resized_pixel(self.model(), edge, delta, xx, y as int),
                decreases width - x,
            {
                let source: Option<(u32, u32)> = match (edge, delta) {
                    (ImageEdge::Left, ResizeDelta::Add) => if x >= 1 { Some((x - 1, y)) } else { None },
                    (ImageEdge::Right, ResizeDelta::Add) => Some((x, y)),
                    (ImageEdge::Top, ResizeDelta::Add) => if y >= 1 { Some((x, y - 1)) } else { None },
                    (ImageEdge::Bottom, ResizeDelta::Add) => Some((x, y)),
                    (ImageEdge::Left, ResizeDelta::Remove) => if x < u32::MAX { Some((x + 1, y)) } else { None },
                    (ImageEdge::Right, ResizeDelta::Remove) => Some((x, y)),
                    (ImageEdge::Top, ResizeDelta::Remove) => if y < u32::MAX { Some((x, y + 1)) } else { None },
                    (ImageEdge::Bottom, ResizeDelta::Remove) => Some((x, y)),
                };
                let pixel = match source {
                    Some((sx, sy)) => match self.rgba_at(sx, sy) {
                        Some(pixel) => pixel,
                        None => EMPTY_RGBA,
                    },
                    None => EMPTY_RGBA,
                };
                assert(pixel == resized_pixel(self.model(), edge, delta, x as int, y as int));
                proof {
                    lemma_row_major(width as int, x as int, y as int);
                }
                rgba.push(pixel);
                proof {
                    assert forall|xx: int, yy: int|
                        0 <= xx < width && 0 <= yy < y implies #[trigger] rgba@[row_major(width as int, xx, yy)]
                            == resized_pixel(self.model(), edge, delta, xx, yy) by {
                        lemma_row_major_bound(width as int, y as int, xx, yy);
                    }
                    assert forall|xx: int| 0 <= xx < x + 1 implies #[trigger] rgba@[row_major(
                        width as int,
                        xx,
                        y as int,
                    )] == resized_pixel(self.model(), edge, delta, xx, y as int) by {
                        if xx < x {
                            assert(row_major(width as int, xx, y as int) < rgba@.len() - 1);
                        }
                    }
                }
                x += 1;
            }
            proof {
                lemma_next_row(width as int, y as int);
            }
            y += 1;
        }
        proof {
            lemma_u32_product(width, height);
            let expected = resized_model(self.model(), edge, delta).rgba;
            assert forall|index: int| 0 <= index < rgba@.len() implies rgba@[index] == expected[index] by {
                lemma_row_major_inverse(width as int, height as int, index);
            }
            assert(rgba@ =~= expected);
        }
        Self {
            view: self.view,
            supplies_opposite: self.supplies_opposite,
            mirrors_opposite: self.mirrors_opposite,
            width,
            height,
            rgba,
        }
    }

    /// An exact copy of this chart.
    pub fn duplicate(&self) -> (chart: Self)
        ensures
            chart.model() == self.model(),
    {
        Self {
            view: self.view,
            supplies_opposite: self.supplies_opposite,
            mirrors_opposite: self.mirrors_opposite,
            width: self.width,
            height: self.height,
            rgba: copy_rgba(&self.rgba),
        }
    }

    /// This chart's image registered as `view` (reflected through its image
    /// midline when `mirror` is set), with both assignment flags off.
    pub fn observed_as(&self, view: CanonicalView, mirror: bool) -> (chart: Self)
        requires
            self.wf(),
        ensures
            chart.wf(),
            chart.model() == observed_as(self.model(), view, mirror),
    {
        if !mirror {
            return Self {
                view,
                supplies_opposite: false,
                mirrors_opposite: false,
                width: self.width,
                height: self.height,
                rgba: copy_rgba(&self.rgba),
            };
        }
        let horizontal = !(self.view == CanonicalView::Top || self.view == CanonicalView::Bottom);
        let width = self.width;
        let height = self.height;
        let mut rgba: Vec<[u8; 4]> = Vec::new();
        let mut y: u32 = 0;
        while y < height
            invariant
                self.wf(),
                width == self.model().width,
                height == self.model().height,
                horizontal == mirrors_horizontally(self.model().view),
                y <= height,
                rgba@.len() == y as int * width as int,
                forall|xx: int, yy: int|
                    0 <= xx < width && 0 <= yy < y ==> #[trigger] rgba@[row_major(width as int, xx, yy)]
                        == mirrored_pixel(self.model(), horizontal, xx, yy),
            decreases height - y,
        {
            let mut x: u32 = 0;
            while x < width
                invariant
                    self.wf(),
                    width == self.model().width,
                    height == self.model().height,
                    horizontal == mirrors_horizontally(self.model().view),
                    y < height,
                    x <= width,
                    rgba@.len() == y as int * width as int + x,
                    forall|xx: int, yy: int|
                        0 <= xx < width && 0 <= yy < y ==> #[trigger] rgba@[row_major(width as int, xx, yy)]
                            == mirrored_pixel(self.model(), horizontal, xx, yy),
                    forall|xx: int| 0 <= xx < x ==> #[trigger] rgba@[row_major(width as int, xx, y as int)]
                        == mirrored_pixel(self.model(), horizontal, xx, y as int),
                decreases width - x,
            {
                let (sx, sy) = if horizontal {
                    (width - 1 - x, y)
                } else {
                    (x, height - 1 - y)
                };
                let pixel = match self.rgba_at(sx, sy) {
                    Some(pixel) => pixel,
                    None => EMPTY_RGBA,
                };
                proof {
                    lemma_row_major(width as int, x as int, y as int);
                }
                rgba.push(pixel);
                proof {
                    assert forall|xx: int, yy: int|
                        0 <= xx < width && 0 <= yy < y implies #[trigger] rgba@[row_major(width as int, xx, yy)]
                            == mirrored_pixel(self.model(), horizontal, xx, yy) by {
                        lemma_row_major_bound(width as int, y as int, xx, yy);
                    }
                    assert forall|xx: int| 0 <= xx < x + 1 implies #[trigger] rgba@[row_major(
                        width as int,
                        xx,
                        y as int,
                    )] == mirrored_pixel(self.model(), horizontal, xx, y as int) by {
                        if xx < x {
                            assert(row_major(width as int, xx, y as int) < rgba@.len() - 1);
                        }
                    }
                }
                x += 1;
            }
            proof {
                lemma_next_row(width as int, y as int);
            }
            y += 1;
        }
        proof {
            lemma_u32_product(width, height);
            let expected = observed_as(self.model(), view, mirror).rgba;
            assert forall|index: int| 0 <= index < rgba@.len() implies rgba@[index] == expected[index] by {
                lemma_row_major_inverse(width as int, height as int, index);
                let xx = index % (width as int);
                let yy = index / (width as int);
                assert(rgba@[row_major(width as int, xx, yy)] == mirrored_pixel(self.model(), horizontal, xx, yy));
                assert(expected[index] == mirrored_pixel(self.model(), horizontal, xx, yy));
            }
            assert(rgba@ =~= expected);
        }
        Self { view, supplies_opposite: false, mirrors_opposite: false, width, height, rgba }
    }
}

/// An exact copy of a texel buffer.
pub fn copy_rgba(rgba: &Vec<[u8; 4]>) -> (copy: Vec<[u8; 4]>)
    ensures
        copy@ == rgba@,
{
    let mut copy = Vec::new();
    let mut index: usize = 0;
    while index < rgba.len()
        invariant
            index <= rgba@.len(),
            copy@ =~= rgba@.take(index as int),
        decreases rgba@.len() - index,
    {
        copy.push(rgba[index]);
        index += 1;
    }
    assert(copy@ =~= rgba@);
    copy
}

/// Bounds rebuilt from their own extents are the same bounds.
pub proof fn lemma_bounds_from_own_extents(bounds: Bounds)
    ensures
        Bounds::spec_from_extents(bounds.spec_width(), bounds.spec_height(), bounds.spec_depth()) == bounds,
{
}

/// The texel a resized chart stores at an in-image position is the texel
/// `resized_pixel` names there.
proof fn lemma_resized_pixel_at(chart: ChartModel, edge: ImageEdge, delta: ResizeDelta, x: int, y: int)
    requires
        ({
            let (width, height) = resized_dimensions(chart.width, chart.height, edge, delta);
            &&& 0 <= width <= u32::MAX
            &&& 0 <= height <= u32::MAX
            &&& 0 <= x < width
            &&& 0 <= y < height
        }),
    ensures
        resized_model(chart, edge, delta).pixel(x, y) == resized_pixel(chart, edge, delta, x, y),
{
    let (width, height) = resized_dimensions(chart.width, chart.height, edge, delta);
    lemma_row_major(width, x, y);
    lemma_row_major_bound(width, height, x, y);
}

/// A column or row added at an image edge holds only the empty sentinel,
/// and removing it again gives back the chart as it was.
pub proof fn lemma_added_edge_removes_cleanly(chart: ChartModel, edge: ImageEdge)
    requires
        chart.wf(),
        1 <= chart.width < u32::MAX,
        1 <= chart.height < u32::MAX,
    ensures
        !edge_authored(resized_model(chart, edge, ResizeDelta::Add), edge),
        resized_model(resized_model(chart, edge, ResizeDelta::Add), edge, ResizeDelta::Remove) == chart,
{
    let grown = resized_model(chart, edge, ResizeDelta::Add);
    let back = resized_model(grown, edge, ResizeDelta::Remove);
    let (gw, gh) = resized_dimensions(chart.width, chart.height, edge, ResizeDelta::Add);
    assert(grown.width == gw && grown.height == gh);
    if edge_authored(grown, edge) {
        let (x, y) = choose|x: int, y: int|
            on_edge(grown.width, grown.height, edge, x, y) && #[trigger] grown.pixel(x, y) != EMPTY_RGBA;
        lemma_resized_pixel_at(chart, edge, ResizeDelta::Add, x, y);
    }
    let (w, h) = (chart.width as int, chart.height as int);
    assert(resized_dimensions(grown.width, grown.height, edge, ResizeDelta::Remove) == (w, h));
    assert(back.rgba.len() == chart.rgba.len()) by {
        assert(back.rgba.len() == w * h);
    }
    assert forall|k: int| 0 <= k < back.rgba.len() implies back.rgba[k] == chart.rgba[k] by {
        lemma_row_major_inverse(w, h, k);
        let (x, y) = (k % w, k / w);
        assert(back.rgba[k] == resized_pixel(grown, edge, ResizeDelta::Remove, x, y));
        let (sx, sy) = resize_source(edge, ResizeDelta::Remove, x, y).unwrap();
        assert(in_image(grown.width, grown.height, sx, sy));
        lemma_resized_pixel_at(chart, edge, ResizeDelta::Add, sx, sy);
        assert(resize_source(edge, ResizeDelta::Add, sx, sy) == Some((x, y)));
    }
    assert(back.rgba =~= chart.rgba);
}

} // verus!
