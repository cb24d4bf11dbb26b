//! A flat-faced block: six 16 by 16 charts without relief, each lit by its
//! own face light and the light baked across every side.

use vstd::prelude::*;

use crate::chart::{lemma_bounds_extents, Bounds, CanonicalView, Chart, ChartModel};
use crate::fixture::pixel::{directional_light, fill_pixels, rgba, shade, spec_directional_light, spec_rgba, spec_shade};
use crate::fixture::{assemble, generated_chart, lemma_generated_within, texels_within};
use crate::model::{chart_fits, models, rank_of, AuthoredModel, ModelError, ModelView};

verus! {

pub const BASE_RGB: [u8; 3] = [156, 132, 98];

/// The light each face of the block receives.
pub open spec fn spec_face_light(view: CanonicalView) -> int {
    match view {
        CanonicalView::Top => 36,
        CanonicalView::Front => 22,
        CanonicalView::Left => 12,
        CanonicalView::Right => -8,
        CanonicalView::Back => -18,
        CanonicalView::Bottom => -30,
    }
}

fn face_light(view: CanonicalView) -> (light: i32)
    ensures
        light == spec_face_light(view),
{
    match view {
        CanonicalView::Top => 36,
        CanonicalView::Front => 22,
        CanonicalView::Left => 12,
        CanonicalView::Right => -8,
        CanonicalView::Back => -18,
        CanonicalView::Bottom => -30,
    }
}

/// The texel at `(x, y)` of the face seen from `view`: opaque, no relief,
/// shaded by the face light and the directional light across the face.
pub open spec fn spec_face_texel(view: CanonicalView, x: int, y: int) -> [u8; 4] {
    let directional = spec_directional_light(view, 16, 16, x, y);
    spec_rgba(spec_shade(BASE_RGB, spec_face_light(view) + directional, 0), 0)
}

/// The texels of the face seen from `view`.
pub open spec fn face_texels(view: CanonicalView) -> spec_fn(int, int) -> [u8; 4] {
    |x: int, y: int| spec_face_texel(view, x, y)
}

fn face_texel(view: CanonicalView, x: i32, y: i32) -> (pixel: [u8; 4])
    requires
        0 <= x < 16,
        0 <= y < 16,
    ensures
        pixel == spec_face_texel(view, x as int, y as int),
{
    let directional = directional_light(view, 16, 16, x, y);
    rgba(shade(BASE_RGB, face_light(view) + directional, 0), 0)
}

/// The face chart of `view`.
pub open spec fn face_chart(view: CanonicalView) -> ChartModel {
    generated_chart(view, false, false, 16, 16, face_texels(view))
}

fn face(bounds: Bounds, view: CanonicalView) -> (result: Result<Chart, ModelError>)
    requires
        bounds == block_bounds(),
    ensures
        result matches Ok(chart) && chart.wf() && chart.model() == face_chart(view),
{
    proof {
        lemma_bounds_extents(16, 16, 16);
    }
    let (width, height) = view.dimensions(bounds);
    let pixels = fill_pixels(view, 16, 16, face_texel, Ghost(face_texels(view)));
    match Chart::from_rgba(view, width, height, pixels) {
        Ok(chart) => Ok(chart),
        Err(error) => Err(ModelError::Chart(error)),
    }
}

/// The block's bounds: a 16 pixel cube.
pub open spec fn block_bounds() -> Bounds {
    Bounds::spec_from_extents(16, 16, 16)
}

/// The block's charts, one per side in canonical order.
pub open spec fn block_charts() -> Seq<ChartModel> {
    seq![
        face_chart(CanonicalView::Front),
        face_chart(CanonicalView::Right),
        face_chart(CanonicalView::Back),
        face_chart(CanonicalView::Left),
        face_chart(CanonicalView::Top),
        face_chart(CanonicalView::Bottom),
    ]
}

proof fn lemma_face_within(view: CanonicalView)
    ensures
        face_chart(view).wf(),
        forall|index: int|
            0 <= index < face_chart(view).rgba.len() ==> crate::model::pixel_within(
                #[trigger] face_chart(view).rgba[index],
                0,
            ),
{
    assert(texels_within(16, 16, face_texels(view), 0));
    lemma_generated_within(face_chart(view), face_texels(view), 0);
}

/// The block example: a 16 pixel cube authored on all six sides, without
/// relief.
pub fn block_model() -> (result: Result<AuthoredModel, ModelError>)
    ensures
        result matches Ok(model) && model.wf() && model.model() == (ModelView {
            bounds: block_bounds(),
            charts: block_charts(),
        }),
{
    let bounds = match Bounds::new(16, 16, 16) {
        Ok(bounds) => bounds,
        Err(error) => {
            return Err(ModelError::Chart(error));
        },
    };
    let views: [CanonicalView; 6] = [
        CanonicalView::Front,
        CanonicalView::Right,
        CanonicalView::Back,
        CanonicalView::Left,
        CanonicalView::Top,
        CanonicalView::Bottom,
    ];
    let mut charts: Vec<Chart> = Vec::new();
    let mut index: usize = 0;
    while index < 6
        invariant
            index <= 6,
            bounds == block_bounds(),
            views@ == seq![
                CanonicalView::Front,
                CanonicalView::Right,
                CanonicalView::Back,
                CanonicalView::Left,
                CanonicalView::Top,
                CanonicalView::Bottom,
            ],
            charts@.len() == index,
            forall|i: int| 0 <= i < index ==> (#[trigger] charts@[i]).wf(),
            forall|i: int| 0 <= i < index ==> (#[trigger] charts@[i]).model() == face_chart(views@[i]),
        decreases 6 - index,
    {
        match face(bounds, views[index]) {
            Ok(chart) => charts.push(chart),
            Err(error) => {
                return Err(error);
            },
        }
        index += 1;
    }
    proof {
        lemma_bounds_extents(16, 16, 16);
        assert(models(charts@) =~= block_charts());
        lemma_face_within(CanonicalView::Front);
        lemma_face_within(CanonicalView::Back);
        lemma_face_within(CanonicalView::Left);
        lemma_face_within(CanonicalView::Right);
        lemma_face_within(CanonicalView::Top);
        lemma_face_within(CanonicalView::Bottom);
        let charts = block_charts();
        assert forall|i: int| 0 <= i < 6 implies #[trigger] rank_of(charts[i]) == i by {
            assert(charts[i].view == views@[i]);
        }
        assert forall|i: int| 0 <= i < 6 implies chart_fits(bounds, #[trigger] charts[i]) by {
            assert(charts[i] == face_chart(views@[i]));
        }
    }
    assemble(bounds, charts)
}

} // verus!
