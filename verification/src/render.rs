//! The exact decisions of rendering a model: the frame, its framing, and
//! which fragment each pixel shows once the preimages of its center along
//! every chart's inverse line are known.

use vstd::prelude::*;

use crate::alpha::{spec_decode, DecodedTexel};
use crate::chart::{in_image, Bounds, Chart, ChartModel};
use crate::framebuffer::{commit_fragment, key_before, FragmentKey, FrameBuffer, FrameModel};
use crate::grid::row_major;
use crate::model::{models, ResolvedCharts};
use crate::presets::{TargetExtents, TargetView};
use crate::rational::{
    add_fits, frac_add, frac_int, frac_mul, frac_sub, combination, lemma_congruent, lemma_lowest, lemma_lowest_terms_unique, lemma_rational_of,
    lemma_same_value_transitive, lowest, mul_fits, rational_of, same_value, Frac, Rational,
};
use crate::relief::{field_of, ReliefField};
use crate::sheet::RenderError;
use crate::warp::FrameInverse;

verus! {

/// A render of `width` by `height` pixels through `target`.
#[derive(Clone, Debug, PartialEq, Eq)]
pub struct RenderRequest {
    width: u32,
    height: u32,
    target: TargetView,
}

impl RenderRequest {
    pub closed spec fn spec_width(&self) -> u32 {
        self.width
    }

    pub closed spec fn spec_height(&self) -> u32 {
        self.height
    }

    pub closed spec fn spec_target(&self) -> TargetView {
        self.target
    }

    pub fn new(width: u32, height: u32, target: TargetView) -> (request: Self)
        ensures
            request.spec_width() == width,
            request.spec_height() == height,
            request.spec_target() == target,
    {
        Self { width, height, target }
    }

    pub fn width(&self) -> (width: u32)
        ensures
            width == self.spec_width(),
    {
        self.width
    }

    pub fn height(&self) -> (height: u32)
        ensures
            height == self.spec_height(),
    {
        self.height
    }

    pub fn target(&self) -> (target: TargetView)
        ensures
            target == self.spec_target(),
    {
        self.target
    }
}

/// The frame a render starts from: no fragment, every pixel transparent.
/// A frame whose pixel count overflows `usize` is refused; frames whose
/// pixels a `u32` index cannot address are not accepted at all.
pub fn new_frame(width: u32, height: u32) -> (result: Result<FrameBuffer, RenderError>)
    requires
        width as int * height as int <= u32::MAX || width as int * height as int > usize::MAX,
    ensures
        width as int * height as int > usize::MAX <==> result == Err::<FrameBuffer, RenderError>(
            RenderError::FrameBufferTooLarge,
        ),
        result matches Ok(frame) ==> {
            &&& frame.model().wf()
            &&& frame.model().width == width
            &&& frame.model().height == height
            &&& forall|index: int| 0 <= index < frame.model().keys.len() ==> (#[trigger] frame.model().keys[index]) is None
            &&& forall|index: int|
                0 <= index < frame.model().rgba.len() ==> #[trigger] frame.model().rgba[index] == [0u8, 0u8, 0u8, 0u8]
        },
{
    proof {
        crate::grid::lemma_u32_product(width, height);
    }
    if width as u64 * height as u64 > usize::MAX as u64 {
        return Err(RenderError::FrameBufferTooLarge);
    }
    Ok(FrameBuffer::transparent(width, height))
}

/// The offset that centers the screen interval `[low, high]` in `length`
/// pixels: `length / 2 - (low + high) / 2`.
pub open spec fn centering_offset(length: int, low: Frac, high: Frac) -> Frac {
    frac_sub(Frac { n: length, d: 2 }, frac_mul(frac_add(low, high), Frac { n: 1, d: 2 }))
}

/// Each step of the centering offset, taken on values in lowest terms,
/// fits `i64`.
pub open spec fn centering_fits(length: int, low: Frac, high: Frac) -> bool {
    let sum = lowest(frac_add(low, high));
    let middle = lowest(frac_mul(sum, Frac { n: 1, d: 2 }));
    let half = lowest(Frac { n: length, d: 2 });
    &&& add_fits(low, high)
    &&& mul_fits(sum, Frac { n: 1, d: 2 })
    &&& add_fits(half, middle)
}

fn centering(length: u32, low: Rational, high: Rational) -> (offset: Option<Rational>)
    requires
        low.wf(),
        high.wf(),
    ensures
        match offset {
            Some(value) => centering_fits(length as int, low@, high@) && value.wf() && same_value(
                value@,
                centering_offset(length as int, low@, high@),
            ),
            None => !centering_fits(length as int, low@, high@),
        },
{
    let half = Rational::new(length as i64, 2);
    let one_half = Rational::new(1, 2);
    proof {
        lemma_lowest(half@, Frac { n: length as int, d: 2 });
        assert(combination(1, 2, 1, 0) == 1);
        lemma_lowest_terms_unique(one_half@, Frac { n: 1, d: 2 });
    }
    let sum = match low.checked_add(high) {
        Some(sum) => sum,
        None => {
            return None;
        },
    };
    let middle = match sum.checked_mul(one_half) {
        Some(middle) => middle,
        None => {
            return None;
        },
    };
    let offset = match half.checked_sub(middle) {
        Some(offset) => offset,
        None => {
            return None;
        },
    };
    proof {
        let exact_sum = frac_add(low@, high@);
        let exact_middle = frac_mul(exact_sum, Frac { n: 1, d: 2 });
        assert(same_value(frac_mul(sum@, one_half@), exact_middle)) by (nonlinear_arith)
            requires
                sum@.n * exact_sum.d == exact_sum.n * sum@.d,
                one_half@ == (Frac { n: 1, d: 2 }),
                exact_middle == frac_mul(exact_sum, Frac { n: 1, d: 2 }),
        ;
        assert(exact_middle.d > 0) by (nonlinear_arith)
            requires
                exact_sum.d > 0,
                exact_middle.d == exact_sum.d * 2,
        ;
        lemma_same_value_transitive(middle@, frac_mul(sum@, one_half@), exact_middle);
        lemma_congruent(half@, Frac { n: length as int, d: 2 }, middle@, exact_middle);
        lemma_same_value_transitive(
            offset@,
            frac_sub(half@, middle@),
            centering_offset(length as int, low@, high@),
        );
    }
    Some(offset)
}

/// The screen offsets that center `extents` in a `width` by `height` frame;
/// none when a step leaves `i64`.
pub fn screen_offsets(width: u32, height: u32, extents: &TargetExtents) -> (offsets: Option<(Rational, Rational)>)
    requires
        extents.min_x.wf(),
        extents.max_x.wf(),
        extents.min_y.wf(),
        extents.max_y.wf(),
    ensures
        match offsets {
            Some((x, y)) => {
                &&& centering_fits(width as int, extents.min_x@, extents.max_x@)
                &&& centering_fits(height as int, extents.min_y@, extents.max_y@)
                &&& x.wf() && y.wf()
                &&& same_value(x@, centering_offset(width as int, extents.min_x@, extents.max_x@))
                &&& same_value(y@, centering_offset(height as int, extents.min_y@, extents.max_y@))
            },
            None => !centering_fits(width as int, extents.min_x@, extents.max_x@) || !centering_fits(
                height as int,
                extents.min_y@,
                extents.max_y@,
            ),
        },
{
    let x = match centering(width, extents.min_x, extents.max_x) {
        Some(x) => x,
        None => {
            return None;
        },
    };
    let y = match centering(height, extents.min_y, extents.max_y) {
        Some(y) => y,
        None => {
            return None;
        },
    };
    Some((x, y))
}

/// The screen coordinate of the center of pixel `index` on an axis shifted
/// by `offset`: `(2 * index + 1) / 2 - offset`.
pub open spec fn pixel_center_value(index: int, offset: Frac) -> Frac {
    frac_sub(Frac { n: 2 * index + 1, d: 2 }, offset)
}

/// The center of pixel `index` shifted by `offset`; none when the
/// difference leaves `i64`.
pub fn pixel_center(index: u32, offset: Rational) -> (center: Option<Rational>)
    requires
        offset.wf(),
    ensures
        match center {
            Some(value) => value.wf() && same_value(value@, pixel_center_value(index as int, offset@)),
            None => !add_fits(lowest(Frac { n: 2 * index + 1, d: 2 }), offset@),
        },
{
    let doubled = 2 * index as i64 + 1;
    let position = Rational::new(doubled, 2);
    proof {
        lemma_lowest(position@, Frac { n: 2 * index + 1, d: 2 });
    }
    match position.checked_sub(offset) {
        Some(value) => {
            proof {
                lemma_congruent(position@, Frac { n: 2 * index + 1, d: 2 }, offset@, offset@);
                lemma_same_value_transitive(
                    value@,
                    frac_sub(position@, offset@),
                    pixel_center_value(index as int, offset@),
                );
            }
            Some(value)
        },
        None => None,
    }
}

/// A frame with fragment `key` in color `rgb` committed at `(x, y)`: it
/// shows the fragment unless the pixel already shows one whose key comes
/// first.
pub open spec fn committed(frame: FrameModel, x: int, y: int, key: FragmentKey, rgb: [u8; 3]) -> FrameModel {
    let index = row_major(frame.width as int, x, y);
    let wins = match frame.keys[index] {
        None => true,
        Some(current) => key_before(key, current),
    };
    if wins {
        FrameModel {
            keys: frame.keys.update(index, Some(key)),
            rgba: frame.rgba.update(index, [rgb[0], rgb[1], rgb[2], 255u8]),
            ..frame
        }
    } else {
        frame
    }
}

/// The key of the fragment that preimage `(parameter, source_x, source_y)`
/// of pixel `(x, y)` on `line` contributes from `chart`: the exact depth at
/// the parameter, the chart's rank, then the source row and column.
pub open spec fn preimage_key(
    chart: ChartModel,
    line: FrameInverse,
    x: int,
    y: int,
    preimage: (Rational, u32, u32),
) -> FragmentKey {
    FragmentKey {
        depth: rational_of(
            frac_add(line.depth_offset_value(x, y), frac_mul(line.depth_of().2, preimage.0@)),
        ),
        chart_rank: chart.view.spec_rank(),
        source_y: preimage.2,
        source_x: preimage.1,
    }
}

/// `frame` after committing, in order, the fragment of every preimage of
/// pixel `(x, y)` whose texel carries relief; preimages on background or
/// off the chart contribute nothing.
pub open spec fn committed_preimages(
    frame: FrameModel,
    x: int,
    y: int,
    chart: ChartModel,
    line: FrameInverse,
    preimages: Seq<(Rational, u32, u32)>,
) -> FrameModel
    decreases preimages.len(),
{
    if preimages.len() == 0 {
        frame
    } else {
        let before = committed_preimages(frame, x, y, chart, line, preimages.drop_last());
        let preimage = preimages.last();
        let (sx, sy) = (preimage.1 as int, preimage.2 as int);
        if in_image(chart.width, chart.height, sx, sy) {
            match spec_decode(chart.pixel(sx, sy)) {
                DecodedTexel::Relief { rgb, eighths } => committed(
                    before,
                    x,
                    y,
                    preimage_key(chart, line, x, y, preimage),
                    rgb,
                ),
                DecodedTexel::Background => before,
            }
        } else {
            before
        }
    }
}

/// The depth along `line` is computable at pixel `(x, y)` for every
/// preimage parameter.
pub open spec fn depths_fit(line: FrameInverse, x: int, y: int, preimages: Seq<(Rational, u32, u32)>) -> bool {
    &&& line.wf()
    &&& line.pixel_fits(x, y)
    &&& line.depth_fits_at(x, y)
    &&& forall|k: int|
        0 <= k < preimages.len() ==> (#[trigger] preimages[k]).0.wf() && line.depth_at_fits(x, y, preimages[k].0@)
}

/// Commits the fragment of every preimage of pixel `(x, y)` on `chart`'s
/// inverse `line` whose texel carries relief, keyed by its exact depth at
/// the preimage's parameter, the chart's rank and its source texel.
pub fn commit_preimages(
    frame: &mut FrameBuffer,
    x: u32,
    y: u32,
    chart: &Chart,
    line: &FrameInverse,
    preimages: &[(Rational, u32, u32)],
)
    requires
        old(frame).model().wf(),
        x < old(frame).model().width,
        y < old(frame).model().height,
        chart.wf(),
        depths_fit(*line, x as int, y as int, preimages@),
    ensures
        final(frame).model() == committed_preimages(
            old(frame).model(),
            x as int,
            y as int,
            chart.model(),
            *line,
            preimages@,
        ),
{
    let ghost initial = frame.model();
    let rank = chart.view().rank();
    let mut k: usize = 0;
    while k < preimages.len()
        invariant
            k <= preimages@.len(),
            chart.wf(),
            rank == chart.model().view.spec_rank(),
            depths_fit(*line, x as int, y as int, preimages@),
            frame.model().wf(),
            frame.model().width == initial.width,
            frame.model().height == initial.height,
            x < initial.width,
            y < initial.height,
            frame.model() == committed_preimages(initial, x as int, y as int, chart.model(), *line, preimages@.take(k as int)),
        decreases preimages@.len() - k,
    {
        let (parameter, source_x, source_y) = preimages[k];
        proof {
            assert(preimages@.take(k as int + 1).drop_last() =~= preimages@.take(k as int));
            assert(preimages@.take(k as int + 1).last() == preimages@[k as int]);
            assert(preimages@[k as int].0.wf());
        }
        let ghost before = frame.model();
        match chart.texel_at(source_x, source_y) {
            Some(DecodedTexel::Relief { rgb, .. }) => {
                let depth = line.depth_at(x, y, parameter);
                proof {
                    lemma_rational_of(
                        depth,
                        frac_add(line.depth_offset_value(x as int, y as int), frac_mul(line.depth_of().2, parameter@)),
                    );
                    assert(rank < 6);
                }
                let key = FragmentKey { depth, chart_rank: rank, source_y, source_x };
                commit_fragment(frame, x, y, key, rgb);
                proof {
                    assert(frame.model() =~= committed(before, x as int, y as int, key, rgb));
                }
            },
            _ => {},
        }
        k += 1;
    }
    proof {
        assert(preimages@.take(preimages@.len() as int) =~= preimages@);
    }
}

/// The charts of a resolved model with their relief fields and the maximum
/// inward relief each may reach, fixed once for every render of the model.
#[derive(Clone, Debug)]
pub struct PreparedModel {
    charts: ResolvedCharts,
    reliefs: Vec<ReliefField>,
    maximum_relief: Vec<u8>,
}

impl PreparedModel {
    pub closed spec fn spec_charts(&self) -> ResolvedCharts {
        self.charts
    }

    pub closed spec fn spec_reliefs(&self) -> Seq<ReliefField> {
        self.reliefs@
    }

    pub closed spec fn spec_maximum_relief(&self) -> Seq<u8> {
        self.maximum_relief@
    }

    /// Prepares every chart of `charts`: its relief field (texels decoded,
    /// foreground regions labelled so that sampling never mixes two regions),
    /// and the maximum inward relief of its view within the model's bounds.
    pub fn new(charts: &ResolvedCharts) -> (prepared: Self)
        requires
            charts.model().bounds.wf(),
            forall|i: int|
                0 <= i < charts.model().charts.len() ==> (#[trigger] charts.model().charts[i]).wf()
                    && charts.model().charts[i].width as int * charts.model().charts[i].height as int <= u32::MAX,
        ensures
            prepared.spec_charts().model() == charts.model(),
            prepared.spec_reliefs().len() == charts.model().charts.len(),
            prepared.spec_maximum_relief().len() == charts.model().charts.len(),
            forall|i: int|
                0 <= i < charts.model().charts.len() ==> {
                    let chart = #[trigger] charts.model().charts[i];
                    &&& prepared.spec_reliefs()[i].wf()
                    &&& prepared.spec_reliefs()[i].model().width == chart.width
                    &&& prepared.spec_reliefs()[i].model().height == chart.height
                    &&& forall|index: int|
                        0 <= index < chart.rgba.len() ==> (#[trigger] prepared.spec_reliefs()[i].model().relief[index])
                            == (match spec_decode(chart.rgba[index]) {
                            DecodedTexel::Background => None,
                            DecodedTexel::Relief { rgb, eighths } => Some(eighths),
                        })
                    &&& field_of(prepared.spec_reliefs()[i].model(), chart)
                    &&& prepared.spec_maximum_relief()[i] as int == chart.view.spec_maximum_inward_depth(
                        charts.model().bounds,
                    )
                },
    {
        let bounds = charts.bounds();
        let list = charts.charts();
        let mut reliefs: Vec<ReliefField> = Vec::new();
        let mut maximum_relief: Vec<u8> = Vec::new();
        let mut i: usize = 0;
        while i < list.len()
            invariant
                bounds == charts.model().bounds,
                bounds.wf(),
                models(list@) == charts.model().charts,
                i <= list@.len(),
                reliefs@.len() == i,
                maximum_relief@.len() == i,
                forall|j: int|
                    0 <= j < charts.model().charts.len() ==> (#[trigger] charts.model().charts[j]).wf()
                        && charts.model().charts[j].width as int * charts.model().charts[j].height as int <= u32::MAX,
                forall|j: int|
                    0 <= j < i ==> {
                        let chart = #[trigger] charts.model().charts[j];
                        &&& reliefs@[j].wf()
                        &&& reliefs@[j].model().width == chart.width
                        &&& reliefs@[j].model().height == chart.height
                        &&& forall|index: int|
                            0 <= index < chart.rgba.len() ==> (#[trigger] reliefs@[j].model().relief[index]) == (
                            match spec_decode(chart.rgba[index]) {
                                DecodedTexel::Background => None,
                                DecodedTexel::Relief { rgb, eighths } => Some(eighths),
                            })
                        &&& field_of(reliefs@[j].model(), chart)
                        &&& maximum_relief@[j] as int == chart.view.spec_maximum_inward_depth(bounds)
                    },
            decreases list@.len() - i,
        {
            let chart = &list[i];
            proof {
                assert(models(list@)[i as int] == list@[i as int].model());
                assert(charts.model().charts[i as int] == chart.model());
            }
            reliefs.push(ReliefField::new(chart));
            maximum_relief.push(chart.view().maximum_inward_depth(bounds));
            i += 1;
        }
        Self { charts: charts.duplicate(), reliefs, maximum_relief }
    }

    pub fn charts(&self) -> (charts: &ResolvedCharts)
        ensures
            charts.model() == self.spec_charts().model(),
    {
        &self.charts
    }

    pub fn reliefs(&self) -> (reliefs: &[ReliefField])
        ensures
            reliefs@ == self.spec_reliefs(),
    {
        self.reliefs.as_slice()
    }

    pub fn maximum_relief(&self) -> (maximum: &[u8])
        ensures
            maximum@ == self.spec_maximum_relief(),
    {
        self.maximum_relief.as_slice()
    }
}

} // verus!
