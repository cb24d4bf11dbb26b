//! Integer generators of the example models.

pub mod block;
pub mod bowl;
pub mod dome;
pub mod globe;
pub mod gyroscope;
pub mod pixel;
pub mod tent;

use vstd::prelude::*;

use crate::chart::{Bounds, CanonicalView, Chart, ChartModel};
use crate::grid::lemma_row_major_inverse;
use crate::model::{lemma_valid_is_fixed_point, models, pixel_within, valid_model, AuthoredModel, ModelError, ModelView};

verus! {

/// The chart of `view` whose texel at column `x`, row `y` is `texel(x, y)`.
pub open spec fn generated_chart(
    view: CanonicalView,
    supplies_opposite: bool,
    mirrors_opposite: bool,
    width: u32,
    height: u32,
    texel: spec_fn(int, int) -> [u8; 4],
) -> ChartModel {
    ChartModel {
        view,
        supplies_opposite,
        mirrors_opposite,
        width,
        height,
        rgba: Seq::new(
            (width as int * height as int) as nat,
            |index: int| texel(index % (width as int), index / (width as int)),
        ),
    }
}

/// Every texel of a `width` by `height` image lies no deeper than `maximum`.
pub open spec fn texels_within(width: int, height: int, texel: spec_fn(int, int) -> [u8; 4], maximum: int) -> bool {
    forall|x: int, y: int| 0 <= x < width && 0 <= y < height ==> pixel_within(#[trigger] texel(x, y), maximum)
}

/// A generated chart whose texels respect a depth bound respects it at every
/// stored index.
pub proof fn lemma_generated_within(chart: ChartModel, texel: spec_fn(int, int) -> [u8; 4], maximum: int)
    requires
        0 < chart.width,
        0 < chart.height,
        chart == generated_chart(
            chart.view,
            chart.supplies_opposite,
            chart.mirrors_opposite,
            chart.width,
            chart.height,
            texel,
        ),
        texels_within(chart.width as int, chart.height as int, texel, maximum),
    ensures
        chart.wf(),
        forall|index: int| 0 <= index < chart.rgba.len() ==> pixel_within(#[trigger] chart.rgba[index], maximum),
{
    assert forall|index: int| 0 <= index < chart.rgba.len() implies pixel_within(
        #[trigger] chart.rgba[index],
        maximum,
    ) by {
        lemma_row_major_inverse(chart.width as int, chart.height as int, index);
        assert(pixel_within(texel(index % (chart.width as int), index / (chart.width as int)), maximum));
    }
}

/// Builds the model from charts already forming a valid model, in rank order.
pub fn assemble(bounds: Bounds, charts: Vec<Chart>) -> (result: Result<AuthoredModel, ModelError>)
    requires
        forall|i: int| 0 <= i < charts@.len() ==> (#[trigger] charts@[i]).wf(),
        valid_model(bounds, models(charts@)),
    ensures
        result matches Ok(model) && model.wf() && model.model() == (ModelView { bounds, charts: models(charts@) }),
{
    proof {
        lemma_valid_is_fixed_point(bounds, models(charts@));
    }
    AuthoredModel::new(bounds, charts)
}

} // verus!
