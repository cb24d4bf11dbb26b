use vstd::prelude::*;

use crate::chart::{
    edge_authored, lemma_added_edge_removes_cleanly, lemma_bounds_extents, lemma_bounds_from_own_extents,
    observed_as, resized_model, Bounds, CanonicalView, Chart, ChartError, ChartModel, MAX_BOUND,
    EMPTY_RGBA,
};
use crate::grid::lemma_u32_product;
use crate::resize::{ChartEdge, DiscardPolicy, ReassignMode, ResizeDelta, ResizeRequest, WorldAxis, WorldEdge};

verus! {

#[derive(Debug, PartialEq, Eq)]
pub enum ModelError {
    ChartCount(usize),
    DuplicateView(CanonicalView),
    MissingView(CanonicalView),
    LastChart,
    DimensionMismatch { view: CanonicalView, expected: (u32, u32), actual: (u32, u32) },
    ReliefBeyondMaximum { view: CanonicalView, x: u32, y: u32, actual: u8, maximum: u8 },
    ResizeWouldDiscard { edges: Vec<ChartEdge> },
    Chart(ChartError),
}

// ---------------------------------------------------------------------------
// The abstract model and what makes it valid.
// ---------------------------------------------------------------------------

/// The abstract content of a chart sequence.
pub open spec fn models(charts: Seq<Chart>) -> Seq<ChartModel> {
    charts.map_values(|chart: Chart| chart.model())
}

pub open spec fn rank_of(chart: ChartModel) -> int {
    chart.view.spec_rank() as int
}

/// Inward relief (eighth-pixel units) of a texel with nonzero alpha.
pub open spec fn relief_of(pixel: [u8; 4]) -> int {
    255 - pixel[3]
}

/// A texel is background or lies no deeper than `maximum`.
pub open spec fn pixel_within(pixel: [u8; 4], maximum: int) -> bool {
    pixel[3] == 0 || relief_of(pixel) <= maximum
}

/// A chart fits the model bounds: its image has the view's dimensions and no
/// relief passes the midplane.
pub open spec fn chart_fits(bounds: Bounds, chart: ChartModel) -> bool {
    &&& chart.wf()
    &&& (chart.width, chart.height) == chart.view.spec_dimensions(bounds)
    &&& forall|index: int|
        0 <= index < chart.rgba.len() ==> pixel_within(
            #[trigger] chart.rgba[index],
            chart.view.spec_maximum_inward_depth(bounds),
        )
}

/// Charts appear in strictly increasing canonical rank.
pub open spec fn rank_sorted(charts: Seq<ChartModel>) -> bool {
    forall|i: int, j: int| 0 <= i < j < charts.len() ==> rank_of(#[trigger] charts[i]) < rank_of(#[trigger] charts[j])
}

/// Some chart of the sequence is registered as `view`.
pub open spec fn has_view(charts: Seq<ChartModel>, view: CanonicalView) -> bool {
    exists|i: int| 0 <= i < charts.len() && (#[trigger] charts[i]).view == view
}

/// No chart's opposite assignment covers a side another chart authors.
pub open spec fn assignments_disjoint(charts: Seq<ChartModel>) -> bool {
    forall|i: int|
        0 <= i < charts.len() && (#[trigger] charts[i]).supplies_opposite ==> !has_view(
            charts,
            charts[i].view.spec_opposite(),
        )
}

/// A valid authored model: one to six charts in canonical rank order, each
/// fitting the bounds, no side supplied twice.
pub open spec fn valid_model(bounds: Bounds, charts: Seq<ChartModel>) -> bool {
    &&& bounds.wf()
    &&& 1 <= charts.len() <= 6
    &&& rank_sorted(charts)
    &&& assignments_disjoint(charts)
    &&& forall|i: int| 0 <= i < charts.len() ==> chart_fits(bounds, #[trigger] charts[i])
}

// ---------------------------------------------------------------------------
// What `AuthoredModel::new` computes.
// ---------------------------------------------------------------------------

/// How many charts are registered at canonical rank `rank`.
pub open spec fn count_rank(charts: Seq<ChartModel>, rank: int) -> nat
    decreases charts.len(),
{
    if charts.len() == 0 {
        0
    } else {
        count_rank(charts.drop_last(), rank) + if rank_of(charts.last()) == rank {
            1nat
        } else {
            0nat
        }
    }
}

/// The last chart registered at canonical rank `rank`.
pub open spec fn last_with_rank(charts: Seq<ChartModel>, rank: int) -> Option<ChartModel>
    decreases charts.len(),
{
    if charts.len() == 0 {
        None
    } else if rank_of(charts.last()) == rank {
        Some(charts.last())
    } else {
        last_with_rank(charts.drop_last(), rank)
    }
}

/// The chart registered as `view`, if any.
pub open spec fn find_view(charts: Seq<ChartModel>, view: CanonicalView) -> Option<ChartModel> {
    last_with_rank(charts, view.spec_rank() as int)
}

pub open spec fn view_of_rank(rank: int) -> CanonicalView {
    CanonicalView::spec_from_rank(rank as u8).unwrap()
}

/// The charts in canonical rank order, from rank `rank` on.
pub open spec fn sorted_from(charts: Seq<ChartModel>, rank: int) -> Seq<ChartModel>
    decreases 6 - rank,
{
    if rank < 0 || rank >= 6 {
        Seq::empty()
    } else {
        let here = match last_with_rank(charts, rank) {
            Some(chart) => seq![chart],
            None => Seq::empty(),
        };
        here + sorted_from(charts, rank + 1)
    }
}

/// The lowest-ranked view registered twice, from rank `rank` on.
pub open spec fn first_duplicate_from(charts: Seq<ChartModel>, rank: int) -> Option<CanonicalView>
    decreases 6 - rank,
{
    if rank < 0 || rank >= 6 {
        None
    } else if count_rank(charts, rank) >= 2 {
        Some(view_of_rank(rank))
    } else {
        first_duplicate_from(charts, rank + 1)
    }
}

/// The first side (in chart order, from `index` on) that a chart supplies
/// by opposite assignment while another chart also authors it.
pub open spec fn first_overlap_from(charts: Seq<ChartModel>, index: int) -> Option<CanonicalView>
    decreases charts.len() - index,
{
    if index < 0 || index >= charts.len() {
        None
    } else if charts[index].supplies_opposite && has_view(charts, charts[index].view.spec_opposite()) {
        Some(charts[index].view.spec_opposite())
    } else {
        first_overlap_from(charts, index + 1)
    }
}

/// The first texel (in storage order, from `index` on) deeper than `maximum`.
pub open spec fn relief_error_from(chart: ChartModel, maximum: int, index: int) -> Option<ModelError>
    decreases chart.rgba.len() - index,
{
    if index < 0 || index >= chart.rgba.len() {
        None
    } else if !pixel_within(chart.rgba[index], maximum) {
        Some(
            ModelError::ReliefBeyondMaximum {
                view: chart.view,
                x: (index % (chart.width as int)) as u32,
                y: (index / (chart.width as int)) as u32,
                actual: relief_of(chart.rgba[index]) as u8,
                maximum: maximum as u8,
            },
        )
    } else {
        relief_error_from(chart, maximum, index + 1)
    }
}

/// Why a chart does not fit the bounds, if it does not.
pub open spec fn chart_error(bounds: Bounds, chart: ChartModel) -> Option<ModelError> {
    if (chart.width, chart.height) != chart.view.spec_dimensions(bounds) {
        Some(
            ModelError::DimensionMismatch {
                view: chart.view,
                expected: chart.view.spec_dimensions(bounds),
                actual: (chart.width, chart.height),
            },
        )
    } else {
        relief_error_from(chart, chart.view.spec_maximum_inward_depth(bounds), 0)
    }
}

/// The first chart error in chart order, from `index` on.
pub open spec fn first_chart_error_from(bounds: Bounds, charts: Seq<ChartModel>, index: int) -> Option<
    ModelError,
>
    decreases charts.len() - index,
{
    if index < 0 || index >= charts.len() {
        None
    } else {
        match chart_error(bounds, charts[index]) {
            Some(error) => Some(error),
            None => first_chart_error_from(bounds, charts, index + 1),
        }
    }
}

/// The outcome of building a model from `charts`: the count is checked first,
/// then duplicate views, then overlapping opposite assignments (in rank
/// order), then each chart's fit (in rank order); a model keeps its charts in
/// canonical rank order.
pub open spec fn spec_new(bounds: Bounds, charts: Seq<ChartModel>) -> Result<Seq<ChartModel>, ModelError> {
    if !(1 <= charts.len() <= 6) {
        Err(ModelError::ChartCount(charts.len() as usize))
    } else {
        match first_duplicate_from(charts, 0) {
            Some(view) => Err(ModelError::DuplicateView(view)),
            None => {
                let sorted = sorted_from(charts, 0);
                match first_overlap_from(sorted, 0) {
                    Some(view) => Err(ModelError::DuplicateView(view)),
                    None => match first_chart_error_from(bounds, sorted, 0) {
                        Some(error) => Err(error),
                        None => Ok(sorted),
                    },
                }
            },
        }
    }
}

/// A chart of `view` holding only the empty sentinel.
pub open spec fn empty_model(bounds: Bounds, view: CanonicalView) -> ChartModel {
    let (width, height) = view.spec_dimensions(bounds);
    ChartModel {
        view,
        supplies_opposite: false,
        mirrors_opposite: false,
        width,
        height,
        rgba: Seq::new((width as int * height as int) as nat, |index: int| EMPTY_RGBA),
    }
}

/// The position of the chart registered as `view`.
pub open spec fn index_of_view(charts: Seq<ChartModel>, view: CanonicalView) -> int {
    choose|i: int| 0 <= i < charts.len() && (#[trigger] charts[i]).view == view
}

/// The chart a resolved model shows for `view`: the chart authored for it,
/// else the opposite chart when that one is assigned to supply it (mirrored
/// when its mirror flag is set), else nothing.
pub open spec fn resolved_entry(charts: Seq<ChartModel>, view: CanonicalView) -> Option<ChartModel> {
    match find_view(charts, view) {
        Some(chart) => Some(observed_as(chart, view, false)),
        None => match find_view(charts, view.spec_opposite()) {
            Some(source) => if source.supplies_opposite {
                Some(observed_as(source, view, source.mirrors_opposite))
            } else {
                None
            },
            None => None,
        },
    }
}

/// The resolved charts from canonical rank `rank` on.
pub open spec fn resolved_from(charts: Seq<ChartModel>, rank: int) -> Seq<ChartModel>
    decreases 6 - rank,
{
    if rank < 0 || rank >= 6 {
        Seq::empty()
    } else {
        let here = match resolved_entry(charts, view_of_rank(rank)) {
            Some(chart) => seq![chart],
            None => Seq::empty(),
        };
        here + resolved_from(charts, rank + 1)
    }
}

/// Model extents after growing or shrinking the axis of `world` by one.
pub open spec fn prospective_extents(bounds: Bounds, world: WorldEdge, delta: ResizeDelta) -> (int, int, int) {
    let change: int = match delta {
        ResizeDelta::Add => 1,
        ResizeDelta::Remove => -1,
    };
    let width = bounds.spec_width() as int;
    let height = bounds.spec_height() as int;
    let depth = bounds.spec_depth() as int;
    match world.axis {
        WorldAxis::X => (width + change, height, depth),
        WorldAxis::Y => (width, height + change, depth),
        WorldAxis::Z => (width, height, depth + change),
    }
}

pub open spec fn extents_in_range(extents: (int, int, int)) -> bool {
    &&& 1 <= extents.0 <= MAX_BOUND
    &&& 1 <= extents.1 <= MAX_BOUND
    &&& 1 <= extents.2 <= MAX_BOUND
}

/// Every chart touching box face `world` gains or loses the texels along the
/// image edge on that face; the others are unchanged.
pub open spec fn resized_charts(charts: Seq<ChartModel>, world: WorldEdge, delta: ResizeDelta) -> Seq<ChartModel> {
    charts.map_values(
        |chart: ChartModel|
            match chart.view.spec_image_edge(world) {
                Some(edge) => resized_model(chart, edge, delta),
                None => chart,
            },
    )
}

/// The image edges, in chart order, whose authored texels a removal at
/// `world` would discard.
pub open spec fn discarded_edges_from(charts: Seq<ChartModel>, world: WorldEdge, index: int) -> Seq<ChartEdge>
    decreases charts.len() - index,
{
    if index < 0 || index >= charts.len() {
        Seq::empty()
    } else {
        let here = match charts[index].view.spec_image_edge(world) {
            Some(edge) => if edge_authored(charts[index], edge) {
                seq![ChartEdge { view: charts[index].view, edge }]
            } else {
                Seq::empty()
            },
            None => Seq::empty(),
        };
        here + discarded_edges_from(charts, world, index + 1)
    }
}

// ---------------------------------------------------------------------------
// Lemmas on the sorted form.
// ---------------------------------------------------------------------------

proof fn lemma_last_with_rank(charts: Seq<ChartModel>, rank: int)
    ensures
        last_with_rank(charts, rank) is Some <==> count_rank(charts, rank) > 0,
        last_with_rank(charts, rank) matches Some(chart) ==> rank_of(chart) == rank && charts.contains(chart),
        (exists|i: int| 0 <= i < charts.len() && rank_of(#[trigger] charts[i]) == rank) <==> count_rank(charts, rank)
            > 0,
    decreases charts.len(),
{
    if charts.len() > 0 {
        lemma_last_with_rank(charts.drop_last(), rank);
        if rank_of(charts.last()) != rank {
            if let Some(chart) = last_with_rank(charts, rank) {
                let i = choose|i: int| 0 <= i < charts.drop_last().len() && charts.drop_last()[i] == chart;
                assert(charts[i] == chart);
            }
            if exists|i: int| 0 <= i < charts.len() && rank_of(#[trigger] charts[i]) == rank {
                let i = choose|i: int| 0 <= i < charts.len() && rank_of(#[trigger] charts[i]) == rank;
                assert(charts.drop_last()[i] == charts[i]);
            }
            if count_rank(charts, rank) > 0 {
                let i = choose|i: int|
                    0 <= i < charts.drop_last().len() && rank_of(#[trigger] charts.drop_last()[i]) == rank;
                assert(charts[i] == charts.drop_last()[i]);
            }
        } else {
            assert(charts[charts.len() - 1] == charts.last());
        }
    }
}

proof fn lemma_sorted_from(charts: Seq<ChartModel>, rank: int)
    requires
        0 <= rank <= 6,
    ensures
        forall|i: int| 0 <= i < sorted_from(charts, rank).len() ==> rank <= rank_of(#[trigger] sorted_from(charts, rank)[i]) < 6,
        rank_sorted(sorted_from(charts, rank)),
        forall|i: int| 0 <= i < sorted_from(charts, rank).len() ==> charts.contains(#[trigger] sorted_from(charts, rank)[i]),
        forall|r: int| rank <= r < 6 && count_rank(charts, r) > 0 ==> has_view(sorted_from(charts, rank), view_of_rank(r)),
        sorted_from(charts, rank).len() <= 6 - rank,
    decreases 6 - rank,
{
    if rank < 6 {
        lemma_sorted_from(charts, rank + 1);
        lemma_last_with_rank(charts, rank);
        let rest = sorted_from(charts, rank + 1);
        let all = sorted_from(charts, rank);
        match last_with_rank(charts, rank) {
            Some(chart) => {
                assert(all =~= seq![chart] + rest);
                assert forall|i: int| 0 <= i < all.len() implies rank <= rank_of(#[trigger] all[i]) < 6 by {
                    if i > 0 {
                        assert(all[i] == rest[i - 1]);
                    }
                }
                assert forall|i: int, j: int| 0 <= i < j < all.len() implies rank_of(#[trigger] all[i]) < rank_of(
                    #[trigger] all[j],
                ) by {
                    assert(all[j] == rest[j - 1]);
                    if i > 0 {
                        assert(all[i] == rest[i - 1]);
                    }
                }
                assert forall|i: int| 0 <= i < all.len() implies charts.contains(#[trigger] all[i]) by {
                    if i > 0 {
                        assert(all[i] == rest[i - 1]);
                    }
                }
                assert forall|r: int| rank <= r < 6 && count_rank(charts, r) > 0 implies has_view(
                    all,
                    view_of_rank(r),
                ) by {
                    if r == rank {
                        assert(all[0] == chart);
                    } else {
                        let k = choose|k: int| 0 <= k < rest.len() && (#[trigger] rest[k]).view == view_of_rank(r);
                        assert(all[k + 1] == rest[k]);
                    }
                }
            },
            None => {
                assert(all =~= rest);
            },
        }
    } else {
        assert(sorted_from(charts, rank) =~= Seq::<ChartModel>::empty());
    }
}

/// In a rank-sorted sequence, the chart found for a view is the one at the
/// position carrying that view.
proof fn lemma_find_in_sorted(charts: Seq<ChartModel>, index: int)
    requires
        rank_sorted(charts),
        0 <= index < charts.len(),
    ensures
        find_view(charts, charts[index].view) == Some(charts[index]),
    decreases charts.len(),
{
    let r = charts[index].view.spec_rank() as int;
    if index == charts.len() - 1 {
    } else {
        assert(rank_of(charts.last()) > rank_of(charts[index]));
        let shorter = charts.drop_last();
        assert forall|i: int, j: int| 0 <= i < j < shorter.len() implies rank_of(#[trigger] shorter[i]) < rank_of(
            #[trigger] shorter[j],
        ) by {
            assert(shorter[i] == charts[i] && shorter[j] == charts[j]);
        }
        lemma_find_in_sorted(shorter, index);
    }
}

/// A rank-sorted sequence has no chart for a view it does not contain.
proof fn lemma_find_absent(charts: Seq<ChartModel>, view: CanonicalView)
    requires
        !has_view(charts, view),
    ensures
        find_view(charts, view) is None,
    decreases charts.len(),
{
    if charts.len() > 0 {
        assert(charts[charts.len() - 1] == charts.last());
        let shorter = charts.drop_last();
        if has_view(shorter, view) {
            let k = choose|k: int| 0 <= k < shorter.len() && (#[trigger] shorter[k]).view == view;
            assert(charts[k] == shorter[k]);
        }
        lemma_find_absent(shorter, view);
    }
}

/// In a rank-sorted sequence each view occurs at most once.
proof fn lemma_unique_view(charts: Seq<ChartModel>, i: int, j: int)
    requires
        rank_sorted(charts),
        0 <= i < charts.len(),
        0 <= j < charts.len(),
        charts[i].view == charts[j].view,
    ensures
        i == j,
{
    if i < j {
        assert(rank_of(charts[i]) < rank_of(charts[j]));
    } else if j < i {
        assert(rank_of(charts[j]) < rank_of(charts[i]));
    }
}

/// A found chart carries the requested view and belongs to the sequence.
proof fn lemma_find_present(charts: Seq<ChartModel>, view: CanonicalView)
    ensures
        find_view(charts, view) matches Some(chart) ==> chart.view == view && charts.contains(chart),
        find_view(charts, view) is Some <==> has_view(charts, view),
{
    lemma_last_with_rank(charts, view.spec_rank() as int);
    if find_view(charts, view) is Some {
        let chart = find_view(charts, view).unwrap();
        crate::chart::lemma_rank_injective(chart.view, view);
    }
    if has_view(charts, view) {
        let k = choose|k: int| 0 <= k < charts.len() && (#[trigger] charts[k]).view == view;
        assert(rank_of(charts[k]) == view.spec_rank());
    }
    if count_rank(charts, view.spec_rank() as int) > 0 {
        let k = choose|k: int| 0 <= k < charts.len() && rank_of(#[trigger] charts[k]) == view.spec_rank();
        crate::chart::lemma_rank_injective(charts[k].view, view);
    }
}

/// A chart that fits the bounds has no chart error.
proof fn lemma_fits_no_error(bounds: Bounds, chart: ChartModel)
    requires
        chart_fits(bounds, chart),
    ensures
        chart_error(bounds, chart) is None,
{
    lemma_relief_clean_from(chart, chart.view.spec_maximum_inward_depth(bounds), 0);
}

proof fn lemma_relief_clean_from(chart: ChartModel, maximum: int, index: int)
    requires
        0 <= index,
        forall|i: int| 0 <= i < chart.rgba.len() ==> pixel_within(#[trigger] chart.rgba[i], maximum),
    ensures
        relief_error_from(chart, maximum, index) is None,
    decreases chart.rgba.len() - index,
{
    if index < chart.rgba.len() {
        lemma_relief_clean_from(chart, maximum, index + 1);
    }
}

proof fn lemma_no_chart_error_from(bounds: Bounds, charts: Seq<ChartModel>, index: int)
    requires
        0 <= index,
        forall|i: int| 0 <= i < charts.len() ==> chart_fits(bounds, #[trigger] charts[i]),
    ensures
        first_chart_error_from(bounds, charts, index) is None,
    decreases charts.len() - index,
{
    if index < charts.len() {
        lemma_fits_no_error(bounds, charts[index]);
        lemma_no_chart_error_from(bounds, charts, index + 1);
    }
}

proof fn lemma_no_overlap_from(charts: Seq<ChartModel>, index: int)
    requires
        0 <= index,
        assignments_disjoint(charts),
    ensures
        first_overlap_from(charts, index) is None,
    decreases charts.len() - index,
{
    if index < charts.len() {
        lemma_no_overlap_from(charts, index + 1);
    }
}

/// Two charts at one rank leave two positions carrying that rank.
proof fn lemma_count_two(charts: Seq<ChartModel>, rank: int)
    requires
        count_rank(charts, rank) >= 2,
    ensures
        exists|i: int, j: int|
            0 <= i < j < charts.len() && rank_of(#[trigger] charts[i]) == rank && rank_of(#[trigger] charts[j])
                == rank,
    decreases charts.len(),
{
    let shorter = charts.drop_last();
    if rank_of(charts.last()) == rank {
        lemma_last_with_rank(shorter, rank);
        let i = choose|i: int| 0 <= i < shorter.len() && rank_of(#[trigger] shorter[i]) == rank;
        assert(charts[i] == shorter[i]);
        assert(charts[charts.len() - 1] == charts.last());
    } else {
        lemma_count_two(shorter, rank);
        let (i, j) = choose|i: int, j: int|
            0 <= i < j < shorter.len() && rank_of(#[trigger] shorter[i]) == rank && rank_of(#[trigger] shorter[j])
                == rank;
        assert(charts[i] == shorter[i] && charts[j] == shorter[j]);
    }
}

proof fn lemma_no_duplicate_from(charts: Seq<ChartModel>, rank: int)
    requires
        0 <= rank,
        rank_sorted(charts),
    ensures
        first_duplicate_from(charts, rank) is None,
    decreases 6 - rank,
{
    if rank < 6 {
        if count_rank(charts, rank) >= 2 {
            lemma_count_two(charts, rank);
        }
        lemma_no_duplicate_from(charts, rank + 1);
    }
}

/// Sorting a rank-sorted sequence from rank `rank` on yields its suffix of
/// charts ranked `rank` or above.
proof fn lemma_sorted_suffix(charts: Seq<ChartModel>, rank: int, split: int)
    requires
        rank_sorted(charts),
        forall|i: int| 0 <= i < charts.len() ==> 0 <= rank_of(#[trigger] charts[i]) < 6,
        0 <= rank <= 6,
        0 <= split <= charts.len(),
        forall|i: int| 0 <= i < split ==> rank_of(#[trigger] charts[i]) < rank,
        forall|i: int| split <= i < charts.len() ==> rank_of(#[trigger] charts[i]) >= rank,
    ensures
        sorted_from(charts, rank) == charts.skip(split),
    decreases 6 - rank,
{
    if rank == 6 {
        if split < charts.len() {
            assert(rank_of(charts[split]) < 6);
        }
        assert(charts.skip(split) =~= Seq::<ChartModel>::empty());
    } else if split < charts.len() && rank_of(charts[split]) == rank {
        assert forall|i: int| split + 1 <= i < charts.len() implies rank_of(#[trigger] charts[i]) >= rank + 1 by {
            assert(rank_of(charts[split]) < rank_of(charts[i]));
        }
        lemma_sorted_suffix(charts, rank + 1, split + 1);
        lemma_find_in_sorted(charts, split);
        assert(charts.skip(split) =~= seq![charts[split]] + charts.skip(split + 1));
    } else {
        assert forall|i: int| split <= i < charts.len() implies rank_of(#[trigger] charts[i]) >= rank + 1 by {
            if i > split {
                assert(rank_of(charts[split]) < rank_of(charts[i]));
            }
        }
        lemma_sorted_suffix(charts, rank + 1, split);
        lemma_last_with_rank(charts, rank);
        if count_rank(charts, rank) > 0 {
            let k = choose|k: int| 0 <= k < charts.len() && rank_of(#[trigger] charts[k]) == rank;
            assert(false);
        }
        assert(sorted_from(charts, rank) =~= sorted_from(charts, rank + 1));
    }
}

/// Building a model from the charts of a valid model keeps them as they are.
pub proof fn lemma_valid_is_fixed_point(bounds: Bounds, charts: Seq<ChartModel>)
    requires
        valid_model(bounds, charts),
    ensures
        spec_new(bounds, charts) == Ok::<Seq<ChartModel>, ModelError>(charts),
{
    lemma_no_duplicate_from(charts, 0);
    assert forall|i: int| 0 <= i < charts.len() implies 0 <= rank_of(#[trigger] charts[i]) < 6 by {
        crate::chart::lemma_rank_round_trip(charts[i].view);
    }
    lemma_sorted_suffix(charts, 0, 0);
    assert(charts.skip(0) =~= charts);
    lemma_no_overlap_from(charts, 0);
    lemma_no_chart_error_from(bounds, charts, 0);
}

// ---------------------------------------------------------------------------
// Executable model.
// ---------------------------------------------------------------------------

/// The abstract content of an authored model.
pub struct ModelView {
    pub bounds: Bounds,
    pub charts: Seq<ChartModel>,
}

/// One to six authored charts over validated bounds, in canonical rank order.
#[derive(Clone, Debug, PartialEq, Eq)]
pub struct AuthoredModel {
    bounds: Bounds,
    charts: Vec<Chart>,
}

impl AuthoredModel {
    pub closed spec fn model(&self) -> ModelView {
        ModelView { bounds: self.bounds, charts: models(self.charts@) }
    }

    pub open spec fn wf(&self) -> bool {
        valid_model(self.model().bounds, self.model().charts)
    }

    /// Builds a model from one to six charts. The count is checked first,
    /// then duplicate views, then opposite assignments that cover an authored
    /// side, then each chart's dimensions and relief; the charts are kept in
    /// canonical rank order.
    pub fn new(bounds: Bounds, charts: Vec<Chart>) -> (result: Result<Self, ModelError>)
        requires
            bounds.wf(),
            forall|i: int| 0 <= i < charts@.len() ==> (#[trigger] charts@[i]).wf(),
        ensures
            match spec_new(bounds, models(charts@)) {
                Ok(sorted) => result matches Ok(model) && model.wf() && model.model() == (ModelView {
                    bounds,
                    charts: sorted,
                }),
                Err(error) => result == Err::<Self, ModelError>(error),
            },
    {
        let ghost given = models(charts@);
        let count = charts.len();
        if count < 1 || count > 6 {
            return Err(ModelError::ChartCount(count));
        }
        let sorted = match sort_by_rank(&charts) {
            Ok(sorted) => sorted,
            Err(error) => {
                return Err(error);
            },
        };
        let ghost ordered = models(sorted@);
        match check_assignments(&sorted) {
            Ok(()) => {},
            Err(error) => {
                return Err(error);
            },
        }
        match validate_charts(bounds, &sorted) {
            Ok(()) => {},
            Err(error) => {
                return Err(error);
            },
        }
        proof {
            lemma_sorted_from(given, 0);
            let first = given[0];
            lemma_last_with_rank(given, rank_of(first));
            let k = choose|k: int| 0 <= k < ordered.len() && (#[trigger] ordered[k]).view == view_of_rank(rank_of(first));
            assert(ordered.len() >= 1);
        }
        Ok(Self { bounds, charts: sorted })
    }
}

impl AuthoredModel {
    /// A model holding one empty chart for `view`.
    pub fn with_empty_chart(bounds: Bounds, view: CanonicalView) -> (result: Result<Self, ModelError>)
        requires
            bounds.wf(),
        ensures
            result matches Ok(model) && model.wf() && model.model() == (ModelView {
                bounds,
                charts: seq![empty_model(bounds, view)],
            }),
    {
        let chart = empty_chart(bounds, view);
        let mut charts = Vec::new();
        charts.push(chart);
        proof {
            let single = seq![empty_model(bounds, view)];
            assert(models(charts@) =~= single);
            lemma_empty_fits(bounds, view);
            assert(valid_model(bounds, single));
            lemma_valid_is_fixed_point(bounds, single);
        }
        Self::new(bounds, charts)
    }

    pub fn bounds(&self) -> (bounds: Bounds)
        ensures
            bounds == self.model().bounds,
    {
        self.bounds
    }

    pub fn charts(&self) -> (charts: &[Chart])
        ensures
            models(charts@) == self.model().charts,
            self.wf() ==> forall|i: int| 0 <= i < charts@.len() ==> (#[trigger] charts@[i]).wf(),
    {
        proof {
            lemma_models_wf(self.charts@);
        }
        self.charts.as_slice()
    }

    /// The chart authored for `view`, if any.
    pub fn chart(&self, view: CanonicalView) -> (chart: Option<&Chart>)
        ensures
            match chart {
                Some(chart) => find_view(self.model().charts, view) == Some(chart.model()),
                None => find_view(self.model().charts, view) is None,
            },
    {
        find_chart(&self.charts, view)
    }

    /// Adds a chart, rejecting the result exactly as `new` would; a failed
    /// addition leaves the model unchanged.
    pub fn add_chart(&mut self, chart: Chart) -> (result: Result<(), ModelError>)
        requires
            old(self).wf(),
            chart.wf(),
        ensures
            final(self).wf(),
            match spec_new(old(self).model().bounds, old(self).model().charts.push(chart.model())) {
                Ok(sorted) => result is Ok && final(self).model() == (ModelView {
                    bounds: old(self).model().bounds,
                    charts: sorted,
                }),
                Err(error) => result == Err::<(), ModelError>(error) && *final(self) == *old(self),
            },
    {
        let mut charts = copy_charts(&self.charts);
        let ghost before = models(charts@);
        proof {
            lemma_models_wf(self.charts@);
        }
        charts.push(chart);
        assert(models(charts@) =~= before.push(chart.model()));
        match Self::new(self.bounds, charts) {
            Ok(model) => {
                *self = model;
                Ok(())
            },
            Err(error) => Err(error),
        }
    }

    /// Adds an empty chart for `view`.
    pub fn add_empty_chart(&mut self, view: CanonicalView) -> (result: Result<(), ModelError>)
        requires
            old(self).wf(),
        ensures
            final(self).wf(),
            match spec_new(
                old(self).model().bounds,
                old(self).model().charts.push(empty_model(old(self).model().bounds, view)),
            ) {
                Ok(sorted) => result is Ok && final(self).model() == (ModelView {
                    bounds: old(self).model().bounds,
                    charts: sorted,
                }),
                Err(error) => result == Err::<(), ModelError>(error) && *final(self) == *old(self),
            },
    {
        let chart = empty_chart(self.bounds, view);
        self.add_chart(chart)
    }

    /// Replaces the chart authored for the replacement's view.
    pub fn replace_chart(&mut self, chart: Chart) -> (result: Result<(), ModelError>)
        requires
            old(self).wf(),
            chart.wf(),
        ensures
            final(self).wf(),
            !has_view(old(self).model().charts, chart.model().view) ==> result == Err::<(), ModelError>(
                ModelError::MissingView(chart.model().view),
            ) && *final(self) == *old(self),
            has_view(old(self).model().charts, chart.model().view) ==> match spec_new(
                old(self).model().bounds,
                old(self).model().charts.update(
                    index_of_view(old(self).model().charts, chart.model().view),
                    chart.model(),
                ),
            ) {
                Ok(sorted) => result is Ok && final(self).model() == (ModelView {
                    bounds: old(self).model().bounds,
                    charts: sorted,
                }),
                Err(error) => result == Err::<(), ModelError>(error) && *final(self) == *old(self),
            },
    {
        let view = chart.view();
        let index = match position_of(&self.charts, view) {
            Some(index) => index,
            None => {
                return Err(ModelError::MissingView(view));
            },
        };
        let mut charts = copy_charts(&self.charts);
        let ghost before = models(charts@);
        proof {
            lemma_index_of_view(before, index as int);
        }
        proof {
            lemma_models_wf(self.charts@);
        }
        charts.set(index, chart);
        assert(models(charts@) =~= before.update(index as int, chart.model()));
        match Self::new(self.bounds, charts) {
            Ok(model) => {
                *self = model;
                Ok(())
            },
            Err(error) => Err(error),
        }
    }

    /// Removes the chart authored for `view`; the last chart cannot be removed.
    pub fn remove_chart(&mut self, view: CanonicalView) -> (result: Result<(), ModelError>)
        requires
            old(self).wf(),
        ensures
            final(self).wf(),
            !has_view(old(self).model().charts, view) ==> result == Err::<(), ModelError>(
                ModelError::MissingView(view),
            ) && *final(self) == *old(self),
            has_view(old(self).model().charts, view) && old(self).model().charts.len() == 1 ==> result == Err::<
                (),
                ModelError,
            >(ModelError::LastChart) && *final(self) == *old(self),
            has_view(old(self).model().charts, view) && old(self).model().charts.len() > 1 ==> result is Ok
                && final(self).model() == (ModelView {
                bounds: old(self).model().bounds,
                charts: old(self).model().charts.remove(index_of_view(old(self).model().charts, view)),
            }),
    {
        let index = match position_of(&self.charts, view) {
            Some(index) => index,
            None => {
                return Err(ModelError::MissingView(view));
            },
        };
        if self.charts.len() == 1 {
            return Err(ModelError::LastChart);
        }
        let ghost before = self.model().charts;
        proof {
            lemma_index_of_view(before, index as int);
        }
        self.charts.remove(index);
        proof {
            assert(models(self.charts@) =~= before.remove(index as int));
            lemma_remove_keeps_valid(self.bounds, before, index as int);
        }
        Ok(())
    }

    /// Replaces the texels of the chart authored for `view`, keeping its
    /// dimensions and both assignment flags.
    pub fn set_rgba(&mut self, view: CanonicalView, rgba: Vec<[u8; 4]>) -> (result: Result<(), ModelError>)
        requires
            old(self).wf(),
        ensures
            final(self).wf(),
            !has_view(old(self).model().charts, view) ==> result == Err::<(), ModelError>(
                ModelError::MissingView(view),
            ) && *final(self) == *old(self),
            has_view(old(self).model().charts, view) ==> ({
                let index = index_of_view(old(self).model().charts, view);
                let current = old(self).model().charts[index];
                if rgba@.len() != current.width as int * current.height as int {
                    result == Err::<(), ModelError>(ModelError::Chart(ChartError::PixelCount)) && *final(self)
                        == *old(self)
                } else {
                    match spec_new(
                        old(self).model().bounds,
                        old(self).model().charts.update(index, ChartModel { rgba: rgba@, ..current }),
                    ) {
                        Ok(sorted) => result is Ok && final(self).model() == (ModelView {
                            bounds: old(self).model().bounds,
                            charts: sorted,
                        }),
                        Err(error) => result == Err::<(), ModelError>(error) && *final(self) == *old(self),
                    }
                }
            }),
    {
        let index = match position_of(&self.charts, view) {
            Some(index) => index,
            None => {
                return Err(ModelError::MissingView(view));
            },
        };
        proof {
            lemma_index_of_view(self.model().charts, index as int);
        }
        let (width, height) = self.charts[index].dimensions();
        let chart = match Chart::from_rgba(view, width, height, rgba) {
            Ok(chart) => chart.with_assignments_from(&self.charts[index]),
            Err(error) => {
                return Err(ModelError::Chart(error));
            },
        };
        self.replace_chart(chart)
    }

    /// Turns the opposite assignment of the chart authored for `view` on or off.
    pub fn set_opposite_assignment(&mut self, view: CanonicalView, enabled: bool) -> (result: Result<
        (),
        ModelError,
    >)
        requires
            old(self).wf(),
        ensures
            final(self).wf(),
            !has_view(old(self).model().charts, view) ==> result == Err::<(), ModelError>(
                ModelError::MissingView(view),
            ) && *final(self) == *old(self),
            has_view(old(self).model().charts, view) ==> ({
                let index = index_of_view(old(self).model().charts, view);
                let current = old(self).model().charts[index];
                match spec_new(
                    old(self).model().bounds,
                    old(self).model().charts.update(index, ChartModel { supplies_opposite: enabled, ..current }),
                ) {
                    Ok(sorted) => result is Ok && final(self).model() == (ModelView {
                        bounds: old(self).model().bounds,
                        charts: sorted,
                    }),
                    Err(error) => result == Err::<(), ModelError>(error) && *final(self) == *old(self),
                }
            }),
    {
        let index = match position_of(&self.charts, view) {
            Some(index) => index,
            None => {
                return Err(ModelError::MissingView(view));
            },
        };
        proof {
            lemma_index_of_view(self.model().charts, index as int);
        }
        let chart = self.charts[index].duplicate();
        let chart = if enabled {
            chart.with_opposite_assignment()
        } else {
            chart.without_opposite_assignment()
        };
        self.replace_chart(chart)
    }

    /// Turns the mirror flag of the chart authored for `view` on or off.
    pub fn set_opposite_mirror(&mut self, view: CanonicalView, enabled: bool) -> (result: Result<
        (),
        ModelError,
    >)
        requires
            old(self).wf(),
        ensures
            final(self).wf(),
            !has_view(old(self).model().charts, view) ==> result == Err::<(), ModelError>(
                ModelError::MissingView(view),
            ) && *final(self) == *old(self),
            has_view(old(self).model().charts, view) ==> ({
                let index = index_of_view(old(self).model().charts, view);
                let current = old(self).model().charts[index];
                match spec_new(
                    old(self).model().bounds,
                    old(self).model().charts.update(index, ChartModel { mirrors_opposite: enabled, ..current }),
                ) {
                    Ok(sorted) => result is Ok && final(self).model() == (ModelView {
                        bounds: old(self).model().bounds,
                        charts: sorted,
                    }),
                    Err(error) => result == Err::<(), ModelError>(error) && *final(self) == *old(self),
                }
            }),
    {
        let index = match position_of(&self.charts, view) {
            Some(index) => index,
            None => {
                return Err(ModelError::MissingView(view));
            },
        };
        proof {
            lemma_index_of_view(self.model().charts, index as int);
        }
        let chart = self.charts[index].duplicate();
        let chart = if enabled {
            chart.with_mirrored_opposite()
        } else {
            chart.without_mirrored_opposite()
        };
        self.replace_chart(chart)
    }
}

impl AuthoredModel {
    /// The chart shown for every side, in canonical rank order: each authored
    /// chart for its own side, and an opposite-assigned chart (mirrored when
    /// its mirror flag is set) for the side it supplies.
    pub fn resolve(&self) -> (resolved: ResolvedCharts)
        requires
            self.wf(),
        ensures
            resolved.model() == (ModelView { bounds: self.model().bounds, charts: resolved_from(self.model().charts, 0) }),
            forall|i: int| 0 <= i < resolved.model().charts.len() ==> (#[trigger] resolved.model().charts[i]).wf(),
    {
        let ghost m = self.model().charts;
        let mut charts: Vec<Chart> = Vec::new();
        let mut rank: u8 = 0;
        while rank < 6
            invariant
                self.wf(),
                m == self.model().charts,
                rank <= 6,
                models(charts@) + resolved_from(m, rank as int) == resolved_from(m, 0),
                forall|i: int| 0 <= i < charts@.len() ==> (#[trigger] charts@[i]).wf(),
            decreases 6 - rank,
        {
            let view = match CanonicalView::from_rank(rank) {
                Some(view) => view,
                None => CanonicalView::Front,
            };
            assert(view == view_of_rank(rank as int));
            let ghost before = models(charts@);
            proof {
                lemma_find_present(m, view);
                lemma_find_present(m, view.spec_opposite());
            }
            match find_chart(&self.charts, view) {
                Some(chart) => {
                    proof {
                        lemma_contained_fits(self.model().bounds, m, chart.model());
                    }
                    charts.push(chart.observed_as(view, false));
                },
                None => match find_chart(&self.charts, view.opposite()) {
                    Some(source) => {
                        proof {
                            lemma_contained_fits(self.model().bounds, m, source.model());
                        }
                        if source.supplies_opposite() {
                            charts.push(source.observed_as(view, source.mirrors_opposite()));
                        }
                    },
                    None => {},
                },
            }
            assert(resolved_from(m, rank as int) == (match resolved_entry(m, view) {
                Some(chart) => seq![chart],
                None => Seq::<ChartModel>::empty(),
            }) + resolved_from(m, rank as int + 1));
            assert(models(charts@) + resolved_from(m, rank as int + 1) =~= before + resolved_from(m, rank as int));
            rank += 1;
        }
        assert(resolved_from(m, 6) =~= Seq::<ChartModel>::empty());
        assert(models(charts@) =~= resolved_from(m, 0));
        ResolvedCharts { bounds: self.bounds, charts }
    }

    /// Grows or shrinks the model by one pixel at the box face under
    /// `request.edge` of `request.view`, adding or removing the matching
    /// column or row of every chart touching that face. Extents must stay in
    /// `1..=63`; a rejected removal that would discard authored texels reports
    /// every such edge; the resized charts must still fit. A failed resize
    /// leaves the model unchanged.
    pub fn resize(&mut self, request: ResizeRequest, policy: DiscardPolicy) -> (result: Result<(), ModelError>)
        requires
            old(self).wf(),
        ensures
            final(self).wf(),
            ({
                let world = request.view.spec_world_edge(request.edge);
                let extents = prospective_extents(old(self).model().bounds, world, request.delta);
                let discarded = discarded_edges_from(old(self).model().charts, world, 0);
                if !extents_in_range(extents) {
                    result == Err::<(), ModelError>(
                        ModelError::Chart(
                            ChartError::BoundsOutOfRange {
                                width: extents.0 as u32,
                                height: extents.1 as u32,
                                depth: extents.2 as u32,
                            },
                        ),
                    ) && *final(self) == *old(self)
                } else if request.delta == ResizeDelta::Remove && policy == DiscardPolicy::Reject && discarded.len()
                    > 0 {
                    (result matches Err(ModelError::ResizeWouldDiscard { edges }) && edges@ == discarded)
                        && *final(self) == *old(self)
                } else {
                    let bounds = resized_bounds(old(self).model().bounds, world, request.delta);
                    match spec_new(bounds, resized_charts(old(self).model().charts, world, request.delta)) {
                        Ok(sorted) => result is Ok && final(self).model() == (ModelView { bounds, charts: sorted }),
                        Err(error) => result == Err::<(), ModelError>(error) && *final(self) == *old(self),
                    }
                }
            }),
    {
        let world = request.view.world_edge(request.edge);
        let change: i64 = match request.delta {
            ResizeDelta::Add => 1,
            ResizeDelta::Remove => -1,
        };
        let mut width = self.bounds.width() as i64;
        let mut height = self.bounds.height() as i64;
        let mut depth = self.bounds.depth() as i64;
        match world.axis {
            WorldAxis::X => width = width + change,
            WorldAxis::Y => height = height + change,
            WorldAxis::Z => depth = depth + change,
        }
        let limit = MAX_BOUND as i64;
        if width < 1 || width > limit || height < 1 || height > limit || depth < 1 || depth > limit {
            return Err(
                ModelError::Chart(
                    ChartError::BoundsOutOfRange { width: width as u32, height: height as u32, depth: depth as u32 },
                ),
            );
        }
        let new_bounds = match Bounds::new(width as u32, height as u32, depth as u32) {
            Ok(bounds) => bounds,
            Err(error) => {
                return Err(ModelError::Chart(error));
            },
        };
        let ghost m = self.model().charts;
        let count = self.charts.len();
        if request.delta == ResizeDelta::Remove && policy == DiscardPolicy::Reject {
            let mut edges: Vec<ChartEdge> = Vec::new();
            let mut index: usize = 0;
            while index < count
                invariant
                    self.wf(),
                    m == self.model().charts,
                    count == m.len(),
                    index <= count,
                    edges@ + discarded_edges_from(m, world, index as int) == discarded_edges_from(m, world, 0),
                decreases count - index,
            {
                let ghost before = edges@;
                assert(m[index as int] == self.charts@[index as int].model());
                match self.charts[index].view().image_edge(world) {
                    Some(edge) => {
                        if self.charts[index].edge_contains_authored_pixel(edge) {
                            edges.push(ChartEdge { view: self.charts[index].view(), edge });
                        }
                    },
                    None => {},
                }
                assert(edges@ + discarded_edges_from(m, world, index as int + 1) =~= before + discarded_edges_from(
                    m,
                    world,
                    index as int,
                ));
                index += 1;
            }
            assert(discarded_edges_from(m, world, count as int) =~= Seq::<ChartEdge>::empty());
            assert(edges@ =~= discarded_edges_from(m, world, 0));
            if edges.len() > 0 {
                return Err(ModelError::ResizeWouldDiscard { edges });
            }
        }
        let mut charts: Vec<Chart> = Vec::new();
        let mut index: usize = 0;
        while index < count
            invariant
                self.wf(),
                m == self.model().charts,
                count == m.len(),
                index <= count,
                charts@.len() == index,
                forall|i: int| 0 <= i < index ==> (#[trigger] charts@[i]).wf(),
                forall|i: int| 0 <= i < index ==> (#[trigger] charts@[i]).model() == resized_charts(m, world, request.delta)[i],
            decreases count - index,
        {
            assert(m[index as int] == self.charts@[index as int].model());
            assert(chart_fits(self.model().bounds, m[index as int]));
            let chart = &self.charts[index];
            match chart.view().image_edge(world) {
                Some(edge) => {
                    charts.push(chart.resized(edge, request.delta));
                },
                None => {
                    charts.push(chart.duplicate());
                },
            }
            index += 1;
        }
        assert(models(charts@) =~= resized_charts(m, world, request.delta));
        match Self::new(new_bounds, charts) {
            Ok(model) => {
                *self = model;
                Ok(())
            },
            Err(error) => Err(error),
        }
    }

    /// Moves the chart authored for `from` to side `to`, either keeping its
    /// texels (dimensions must match) or replacing them with an empty image;
    /// the assignment flags move with it.
    pub fn reassign_chart(&mut self, from: CanonicalView, to: CanonicalView, mode: ReassignMode) -> (result: Result<
        (),
        ModelError,
    >)
        requires
            old(self).wf(),
        ensures
            final(self).wf(),
            ({
                let charts = old(self).model().charts;
                let bounds = old(self).model().bounds;
                let index = index_of_view(charts, from);
                let source = charts[index];
                if !has_view(charts, from) {
                    result == Err::<(), ModelError>(ModelError::MissingView(from)) && *final(self) == *old(self)
                } else if has_view(charts, to) {
                    result == Err::<(), ModelError>(ModelError::DuplicateView(to)) && *final(self) == *old(self)
                } else if mode == ReassignMode::Preserve && (source.width, source.height) != to.spec_dimensions(bounds) {
                    result == Err::<(), ModelError>(
                        ModelError::DimensionMismatch {
                            view: to,
                            expected: to.spec_dimensions(bounds),
                            actual: (source.width, source.height),
                        },
                    ) && *final(self) == *old(self)
                } else {
                    let target = match mode {
                        ReassignMode::Preserve => ChartModel { view: to, ..source },
                        ReassignMode::RecreateEmpty => ChartModel {
                            supplies_opposite: source.supplies_opposite,
                            mirrors_opposite: source.mirrors_opposite,
                            ..empty_model(bounds, to)
                        },
                    };
                    match spec_new(bounds, charts.update(index, target)) {
                        Ok(sorted) => result is Ok && final(self).model() == (ModelView { bounds, charts: sorted }),
                        Err(error) => result == Err::<(), ModelError>(error) && *final(self) == *old(self),
                    }
                }
            }),
    {
        let index = match position_of(&self.charts, from) {
            Some(index) => index,
            None => {
                return Err(ModelError::MissingView(from));
            },
        };
        proof {
            lemma_index_of_view(self.model().charts, index as int);
            lemma_find_present(self.model().charts, to);
        }
        if find_chart(&self.charts, to).is_some() {
            return Err(ModelError::DuplicateView(to));
        }
        let source = &self.charts[index];
        assert(self.model().charts[index as int] == source.model());
        assert(chart_fits(self.model().bounds, source.model()));
        let target = match mode {
            ReassignMode::Preserve => {
                let expected = to.dimensions(self.bounds);
                let actual = source.dimensions();
                if expected.0 != actual.0 || expected.1 != actual.1 {
                    return Err(ModelError::DimensionMismatch { view: to, expected, actual });
                }
                source.observed_as(to, false).with_assignments_from(source)
            },
            ReassignMode::RecreateEmpty => empty_chart(self.bounds, to).with_assignments_from(source),
        };
        let mut charts = copy_charts(&self.charts);
        let ghost before = models(charts@);
        proof {
            lemma_models_wf(self.charts@);
        }
        charts.set(index, target);
        assert(models(charts@) =~= before.update(index as int, target.model()));
        match Self::new(self.bounds, charts) {
            Ok(model) => {
                *self = model;
                Ok(())
            },
            Err(error) => Err(error),
        }
    }
}

/// The charts a model shows once opposite assignments are resolved.
#[derive(Clone, Debug, PartialEq, Eq)]
pub struct ResolvedCharts {
    bounds: Bounds,
    charts: Vec<Chart>,
}

impl ResolvedCharts {
    pub closed spec fn model(&self) -> ModelView {
        ModelView { bounds: self.bounds, charts: models(self.charts@) }
    }

    pub fn bounds(&self) -> (bounds: Bounds)
        ensures
            bounds == self.model().bounds,
    {
        self.bounds
    }

    pub fn charts(&self) -> (charts: &[Chart])
        ensures
            models(charts@) == self.model().charts,
    {
        self.charts.as_slice()
    }

    /// The chart shown for `view`, if any.
    pub fn chart(&self, view: CanonicalView) -> (chart: Option<&Chart>)
        ensures
            match chart {
                Some(chart) => find_view(self.model().charts, view) == Some(chart.model()),
                None => find_view(self.model().charts, view) is None,
            },
    {
        find_chart(&self.charts, view)
    }

    /// An exact copy.
    pub fn duplicate(&self) -> (copy: Self)
        ensures
            copy.model() == self.model(),
    {
        Self { bounds: self.bounds, charts: copy_charts(&self.charts) }
    }
}

/// A chart contained in a valid model fits its bounds.
proof fn lemma_contained_fits(bounds: Bounds, charts: Seq<ChartModel>, chart: ChartModel)
    requires
        valid_model(bounds, charts),
        charts.contains(chart),
    ensures
        chart_fits(bounds, chart),
        chart.wf(),
{
    let k = choose|k: int| 0 <= k < charts.len() && charts[k] == chart;
    assert(chart_fits(bounds, charts[k]));
}

/// An exact copy of a chart sequence.
fn copy_charts(charts: &Vec<Chart>) -> (copy: Vec<Chart>)
    ensures
        models(copy@) == models(charts@),
        forall|i: int| 0 <= i < copy@.len() ==> #[trigger] copy@[i].wf() == charts@[i].wf(),
        copy@.len() == charts@.len(),
{
    let mut copy: Vec<Chart> = Vec::new();
    let mut index: usize = 0;
    while index < charts.len()
        invariant
            index <= charts@.len(),
            copy@.len() == index,
            forall|i: int| 0 <= i < index ==> (#[trigger] copy@[i]).model() == charts@[i].model(),
        decreases charts@.len() - index,
    {
        copy.push(charts[index].duplicate());
        index += 1;
    }
    assert(models(copy@) =~= models(charts@));
    copy
}

/// The position of the chart registered as `view`, if any.
fn position_of(charts: &Vec<Chart>, view: CanonicalView) -> (index: Option<usize>)
    ensures
        match index {
            Some(index) => index < charts@.len() && models(charts@)[index as int].view == view,
            None => !has_view(models(charts@), view),
        },
{
    let mut index: usize = 0;
    while index < charts.len()
        invariant
            index <= charts@.len(),
            forall|i: int| 0 <= i < index ==> (#[trigger] models(charts@)[i]).view != view,
        decreases charts@.len() - index,
    {
        if charts[index].view() == view {
            return Some(index);
        }
        index += 1;
    }
    None
}

/// The chart registered as `view` (the last such chart), if any.
fn find_chart(charts: &Vec<Chart>, view: CanonicalView) -> (chart: Option<&Chart>)
    ensures
        match chart {
            Some(chart) => find_view(models(charts@), view) == Some(chart.model()),
            None => find_view(models(charts@), view) is None,
        },
{
    let ghost all = models(charts@);
    let rank = view.rank();
    let mut found: Option<usize> = None;
    let mut index: usize = 0;
    while index < charts.len()
        invariant
            all == models(charts@),
            rank == view.spec_rank(),
            index <= charts@.len(),
            match found {
                Some(k) => k < index && last_with_rank(all.take(index as int), rank as int) == Some(all[k as int]),
                None => last_with_rank(all.take(index as int), rank as int) is None,
            },
        decreases charts@.len() - index,
    {
        assert(all.take(index as int + 1).drop_last() =~= all.take(index as int));
        assert(all.take(index as int + 1).last() == all[index as int]);
        if charts[index].view().rank() == rank {
            found = Some(index);
        }
        index += 1;
    }
    assert(all.take(charts@.len() as int) =~= all);
    match found {
        Some(k) => Some(&charts[k]),
        None => None,
    }
}

/// A chart is well formed exactly when its model is.
proof fn lemma_models_wf(charts: Seq<Chart>)
    ensures
        forall|i: int| 0 <= i < charts.len() ==> (#[trigger] charts[i]).wf() == models(charts)[i].wf(),
{
}

/// An empty chart fits any valid bounds.
proof fn lemma_empty_fits(bounds: Bounds, view: CanonicalView)
    requires
        bounds.wf(),
    ensures
        chart_fits(bounds, empty_model(bounds, view)),
{
}

/// In a valid model the position carrying a view is the chosen one.
proof fn lemma_index_of_view(charts: Seq<ChartModel>, index: int)
    requires
        rank_sorted(charts),
        0 <= index < charts.len(),
    ensures
        index_of_view(charts, charts[index].view) == index,
        has_view(charts, charts[index].view),
{
    assert(has_view(charts, charts[index].view));
    let chosen = index_of_view(charts, charts[index].view);
    lemma_unique_view(charts, chosen, index);
}

/// Removing a chart from a valid model with more than one chart keeps it valid.
proof fn lemma_remove_keeps_valid(bounds: Bounds, charts: Seq<ChartModel>, index: int)
    requires
        valid_model(bounds, charts),
        charts.len() > 1,
        0 <= index < charts.len(),
    ensures
        valid_model(bounds, charts.remove(index)),
{
    let rest = charts.remove(index);
    assert forall|i: int| 0 <= i < rest.len() implies rest[i] == charts[if i < index { i } else { i + 1 }] by {}
    assert forall|i: int, j: int| 0 <= i < j < rest.len() implies rank_of(#[trigger] rest[i]) < rank_of(
        #[trigger] rest[j],
    ) by {
        let a = if i < index { i } else { i + 1 };
        let b = if j < index { j } else { j + 1 };
        assert(rank_of(charts[a]) < rank_of(charts[b]));
    }
    assert forall|i: int| 0 <= i < rest.len() && (#[trigger] rest[i]).supplies_opposite implies !has_view(
        rest,
        rest[i].view.spec_opposite(),
    ) by {
        let a = if i < index { i } else { i + 1 };
        assert(charts[a].supplies_opposite);
        if has_view(rest, rest[i].view.spec_opposite()) {
            let k = choose|k: int| 0 <= k < rest.len() && (#[trigger] rest[k]).view == rest[i].view.spec_opposite();
            let b = if k < index { k } else { k + 1 };
            assert(charts[b].view == charts[a].view.spec_opposite());
        }
    }
    assert forall|i: int| 0 <= i < rest.len() implies chart_fits(bounds, #[trigger] rest[i]) by {
        let a = if i < index { i } else { i + 1 };
        assert(chart_fits(bounds, charts[a]));
    }
}

/// The charts in canonical rank order, or the lowest-ranked view that two
/// of them share.
fn sort_by_rank(charts: &Vec<Chart>) -> (result: Result<Vec<Chart>, ModelError>)
    requires
        forall|i: int| 0 <= i < charts@.len() ==> (#[trigger] charts@[i]).wf(),
    ensures
        match first_duplicate_from(models(charts@), 0) {
            Some(view) => result == Err::<Vec<Chart>, ModelError>(ModelError::DuplicateView(view)),
            None => result matches Ok(sorted) && models(sorted@) == sorted_from(models(charts@), 0) && forall|
                i: int,
            |
                0 <= i < sorted@.len() ==> (#[trigger] sorted@[i]).wf(),
        },
{
    let ghost given = models(charts@);
    let count = charts.len();
    let mut sorted: Vec<Chart> = Vec::new();
    let mut rank: u8 = 0;
    while rank < 6
        invariant
            given == models(charts@),
            count == charts@.len(),
            rank <= 6,
            first_duplicate_from(given, 0) == first_duplicate_from(given, rank as int),
            models(sorted@) + sorted_from(given, rank as int) == sorted_from(given, 0),
            forall|i: int| 0 <= i < charts@.len() ==> (#[trigger] charts@[i]).wf(),
            forall|i: int| 0 <= i < sorted@.len() ==> (#[trigger] sorted@[i]).wf(),
        decreases 6 - rank,
    {
        let mut seen: usize = 0;
        let mut found: Option<usize> = None;
        let mut index: usize = 0;
        while index < count
            invariant
                given == models(charts@),
                count == charts@.len(),
                rank < 6,
                index <= count,
                seen == count_rank(given.take(index as int), rank as int),
                seen <= index,
                match found {
                    Some(k) => k < index && last_with_rank(given.take(index as int), rank as int) == Some(
                        given[k as int],
                    ),
                    None => last_with_rank(given.take(index as int), rank as int) is None,
                },
            decreases count - index,
        {
            assert(given.take(index as int + 1).drop_last() =~= given.take(index as int));
            assert(given.take(index as int + 1).last() == given[index as int]);
            if charts[index].view().rank() == rank {
                seen += 1;
                found = Some(index);
            }
            index += 1;
        }
        assert(given.take(count as int) =~= given);
        if seen >= 2 {
            let view = match CanonicalView::from_rank(rank) {
                Some(view) => view,
                None => CanonicalView::Front,
            };
            return Err(ModelError::DuplicateView(view));
        }
        let ghost before = models(sorted@);
        match found {
            Some(k) => {
                sorted.push(charts[k].duplicate());
                assert(models(sorted@) =~= before.push(given[k as int]));
            },
            None => {},
        }
        assert(sorted_from(given, rank as int) == (match last_with_rank(given, rank as int) {
            Some(chart) => seq![chart],
            None => Seq::<ChartModel>::empty(),
        }) + sorted_from(given, rank as int + 1));
        assert(models(sorted@) + sorted_from(given, rank as int + 1) =~= before + sorted_from(given, rank as int));
        rank += 1;
    }
    assert(sorted_from(given, 6) =~= Seq::<ChartModel>::empty());
    assert(models(sorted@) =~= sorted_from(given, 0));
    Ok(sorted)
}

/// Rejects a chart whose opposite assignment covers a side another chart
/// authors, reporting the first such side in chart order.
fn check_assignments(charts: &Vec<Chart>) -> (result: Result<(), ModelError>)
    ensures
        match first_overlap_from(models(charts@), 0) {
            Some(view) => result == Err::<(), ModelError>(ModelError::DuplicateView(view)),
            None => result is Ok && assignments_disjoint(models(charts@)),
        },
{
    let ghost ordered = models(charts@);
    let total = charts.len();
    let mut index: usize = 0;
    while index < total
        invariant
            ordered == models(charts@),
            total == charts@.len(),
            index <= total,
            first_overlap_from(ordered, 0) == first_overlap_from(ordered, index as int),
        decreases total - index,
    {
        if charts[index].supplies_opposite() {
            let opposite = charts[index].view().opposite();
            let mut other: usize = 0;
            while other < total
                invariant
                    ordered == models(charts@),
                    total == charts@.len(),
                    index < total,
                    other <= total,
                    ordered[index as int].supplies_opposite,
                    first_overlap_from(ordered, 0) == first_overlap_from(ordered, index as int),
                    opposite == ordered[index as int].view.spec_opposite(),
                    forall|j: int| 0 <= j < other ==> (#[trigger] ordered[j]).view != opposite,
                decreases total - other,
            {
                if charts[other].view() == opposite {
                    assert(ordered[other as int].view == opposite);
                    assert(has_view(ordered, opposite));
                    assert(first_overlap_from(ordered, index as int) == Some(opposite));
                    return Err(ModelError::DuplicateView(opposite));
                }
                other += 1;
            }
            assert(!has_view(ordered, opposite));
        }
        assert(first_overlap_from(ordered, index as int) == first_overlap_from(ordered, index as int + 1));
        index += 1;
    }
    proof {
        assert forall|i: int|
            0 <= i < ordered.len() && (#[trigger] ordered[i]).supplies_opposite implies !has_view(
            ordered,
            ordered[i].view.spec_opposite(),
        ) by {
            lemma_overlap_none(ordered, 0, i);
        }
    }
    Ok(())
}

/// Checks every chart against the bounds, reporting the first failure in
/// chart order.
fn validate_charts(bounds: Bounds, charts: &Vec<Chart>) -> (result: Result<(), ModelError>)
    requires
        bounds.wf(),
        forall|i: int| 0 <= i < charts@.len() ==> (#[trigger] charts@[i]).wf(),
    ensures
        match first_chart_error_from(bounds, models(charts@), 0) {
            Some(error) => result == Err::<(), ModelError>(error),
            None => result is Ok && forall|i: int|
                0 <= i < charts@.len() ==> chart_fits(bounds, #[trigger] models(charts@)[i]),
        },
{
    let ghost ordered = models(charts@);
    let total = charts.len();
    let mut index: usize = 0;
    while index < total
        invariant
            ordered == models(charts@),
            total == charts@.len(),
            index <= total,
            bounds.wf(),
            first_chart_error_from(bounds, ordered, 0) == first_chart_error_from(bounds, ordered, index as int),
            forall|i: int| 0 <= i < index ==> chart_fits(bounds, #[trigger] ordered[i]),
            forall|i: int| 0 <= i < charts@.len() ==> (#[trigger] charts@[i]).wf(),
        decreases total - index,
    {
        assert(ordered[index as int] == charts@[index as int].model());
        match validate_chart(bounds, &charts[index]) {
            Err(error) => {
                assert(first_chart_error_from(bounds, ordered, index as int) == Some(error));
                return Err(error);
            },
            Ok(()) => {},
        }
        index += 1;
    }
    Ok(())
}

/// No overlap from `start` on means no chart at or after `start` overlaps.
proof fn lemma_overlap_none(charts: Seq<ChartModel>, start: int, i: int)
    requires
        0 <= start <= i < charts.len(),
        first_overlap_from(charts, start) is None,
    ensures
        !(charts[i].supplies_opposite && has_view(charts, charts[i].view.spec_opposite())),
    decreases i - start,
{
    if start < i {
        lemma_overlap_none(charts, start + 1, i);
    }
}

/// A chart of `view` holding only the empty sentinel.
fn empty_chart(bounds: Bounds, view: CanonicalView) -> (chart: Chart)
    requires
        bounds.wf(),
    ensures
        chart.wf(),
        chart.model() == empty_model(bounds, view),
{
    let (width, height) = view.dimensions(bounds);
    assert(width * height <= 63 * 63) by (nonlinear_arith)
        requires width <= 63, height <= 63;
    let count = width as usize * height as usize;
    let mut rgba: Vec<[u8; 4]> = Vec::new();
    let mut index: usize = 0;
    while index < count
        invariant
            index <= count,
            rgba@ =~= Seq::new(index as nat, |i: int| EMPTY_RGBA),
        decreases count - index,
    {
        rgba.push(EMPTY_RGBA);
        index += 1;
    }
    match Chart::from_rgba(view, width, height, rgba) {
        Ok(chart) => chart,
        Err(_) => {
            assert(false);
            Chart::from_rgba(view, 0, 0, Vec::new()).unwrap()
        },
    }
}

/// Checks one chart against the bounds: image dimensions, then the relief of
/// every non-background texel in storage order.
fn validate_chart(bounds: Bounds, chart: &Chart) -> (result: Result<(), ModelError>)
    requires
        bounds.wf(),
        chart.wf(),
    ensures
        match chart_error(bounds, chart.model()) {
            Some(error) => result == Err::<(), ModelError>(error),
            None => result is Ok && chart_fits(bounds, chart.model()),
        },
{
    let view = chart.view();
    let expected = view.dimensions(bounds);
    let actual = chart.dimensions();
    if actual.0 != expected.0 || actual.1 != expected.1 {
        return Err(ModelError::DimensionMismatch { view, expected, actual });
    }
    let maximum = view.maximum_inward_depth(bounds);
    let width = actual.0;
    let rgba = chart.rgba();
    let ghost m = chart.model();
    proof {
        lemma_u32_product(width, actual.1);
    }
    assert(chart_error(bounds, m) == relief_error_from(m, maximum as int, 0));
    let mut index: usize = 0;
    while index < rgba.len()
        invariant
            m == chart.model(),
            rgba@ == m.rgba,
            m.wf(),
            width == m.width,
            width >= 1,
            m.height <= MAX_BOUND,
            width <= MAX_BOUND,
            maximum == view.spec_maximum_inward_depth(bounds),
            view == m.view,
            index <= rgba@.len(),
            relief_error_from(m, maximum as int, 0) == relief_error_from(m, maximum as int, index as int),
            chart_error(bounds, m) == relief_error_from(m, maximum as int, 0),
            bounds.wf(),
            forall|i: int| 0 <= i < index ==> pixel_within(#[trigger] m.rgba[i], maximum as int),
        decreases rgba@.len() - index,
    {
        let pixel = rgba[index];
        if pixel[3] != 0 {
            let relief = 255 - pixel[3];
            if relief > maximum {
                assert(index < width * m.height) by (nonlinear_arith)
                    requires index < rgba@.len(), rgba@.len() == width * m.height;
                assert(width * m.height <= 63 * 63) by (nonlinear_arith)
                    requires width <= 63, m.height <= 63;
                let index32 = index as u32;
                assert(!pixel_within(m.rgba[index as int], maximum as int));
                assert(relief_error_from(m, maximum as int, index as int) == Some(
                    ModelError::ReliefBeyondMaximum {
                        view,
                        x: index32 % width,
                        y: index32 / width,
                        actual: relief,
                        maximum,
                    },
                ));
                assert(chart_error(bounds, chart.model()) == Some(
                    ModelError::ReliefBeyondMaximum {
                        view,
                        x: index32 % width,
                        y: index32 / width,
                        actual: relief,
                        maximum,
                    },
                ));
                return Err(
                    ModelError::ReliefBeyondMaximum {
                        view,
                        x: index32 % width,
                        y: index32 / width,
                        actual: relief,
                        maximum,
                    },
                );
            }
        }
        index += 1;
    }
    Ok(())
}

/// Without a relief error from `index` on, every texel from there lies
/// within `maximum`.
proof fn lemma_relief_within_from(chart: ChartModel, maximum: int, index: int)
    requires
        0 <= index,
        relief_error_from(chart, maximum, index) is None,
    ensures
        forall|i: int| index <= i < chart.rgba.len() ==> pixel_within(#[trigger] chart.rgba[i], maximum),
    decreases chart.rgba.len() - index,
{
    if index < chart.rgba.len() {
        lemma_relief_within_from(chart, maximum, index + 1);
    }
}

/// Without a chart error from `index` on, every well-formed chart from
/// there fits the bounds.
proof fn lemma_fits_from_no_error(bounds: Bounds, charts: Seq<ChartModel>, index: int)
    requires
        0 <= index,
        first_chart_error_from(bounds, charts, index) is None,
        forall|i: int| 0 <= i < charts.len() ==> (#[trigger] charts[i]).wf(),
    ensures
        forall|i: int| index <= i < charts.len() ==> chart_fits(bounds, #[trigger] charts[i]),
    decreases charts.len() - index,
{
    if index < charts.len() {
        let chart = charts[index];
        lemma_relief_within_from(chart, chart.view.spec_maximum_inward_depth(bounds), 0);
        lemma_fits_from_no_error(bounds, charts, index + 1);
    }
}

/// Two charts of the same rank make its count at least two.
proof fn lemma_two_make_count_two(charts: Seq<ChartModel>, rank: int, i: int, j: int)
    requires
        0 <= i < j < charts.len(),
        rank_of(charts[i]) == rank,
        rank_of(charts[j]) == rank,
    ensures
        count_rank(charts, rank) >= 2,
    decreases charts.len(),
{
    let shorter = charts.drop_last();
    if j == charts.len() - 1 {
        assert(shorter[i] == charts[i]);
        lemma_last_with_rank(shorter, rank);
        assert(charts.last() == charts[j]);
    } else {
        assert(shorter[i] == charts[i] && shorter[j] == charts[j]);
        lemma_two_make_count_two(shorter, rank, i, j);
    }
}

/// Without a duplicate from rank `rank` on, no rank from there is
/// registered twice.
proof fn lemma_no_duplicate_counts(charts: Seq<ChartModel>, rank: int)
    requires
        0 <= rank,
        first_duplicate_from(charts, rank) is None,
    ensures
        forall|r: int| rank <= r < 6 ==> #[trigger] count_rank(charts, r) < 2,
    decreases 6 - rank,
{
    if rank < 6 {
        lemma_no_duplicate_counts(charts, rank + 1);
    }
}

/// A model built from `charts` holds exactly the given charts, reordered:
/// the given charts have distinct views, each of them is in the model, each
/// chart of the model is one of them, in strictly increasing canonical rank
/// and fitting the bounds, and a view has a chart in the model exactly when
/// some given chart has that view.
pub proof fn lemma_new_keeps_every_view(bounds: Bounds, charts: Seq<ChartModel>, sorted: Seq<ChartModel>)
    requires
        spec_new(bounds, charts) == Ok::<Seq<ChartModel>, ModelError>(sorted),
        bounds.wf(),
        forall|i: int| 0 <= i < charts.len() ==> (#[trigger] charts[i]).wf(),
    ensures
        rank_sorted(sorted),
        forall|i: int| 0 <= i < sorted.len() ==> charts.contains(#[trigger] sorted[i]),
        forall|i: int| 0 <= i < sorted.len() ==> chart_fits(bounds, #[trigger] sorted[i]),
        forall|view: CanonicalView| #[trigger] has_view(sorted, view) <==> has_view(charts, view),
        forall|i: int, j: int| 0 <= i < j < charts.len() ==> (#[trigger] charts[i]).view != (#[trigger] charts[j]).view,
        forall|k: int| 0 <= k < charts.len() ==> sorted.contains(#[trigger] charts[k]),
{
    lemma_sorted_from(charts, 0);
    lemma_no_duplicate_counts(charts, 0);
    assert forall|i: int, j: int| 0 <= i < j < charts.len() implies (#[trigger] charts[i]).view != (
    #[trigger] charts[j]).view by {
        if charts[i].view == charts[j].view {
            crate::chart::lemma_rank_round_trip(charts[i].view);
            lemma_two_make_count_two(charts, rank_of(charts[i]), i, j);
        }
    }
    assert forall|i: int| 0 <= i < sorted.len() implies (#[trigger] sorted[i]).wf() by {
        assert(charts.contains(sorted[i]));
    }
    lemma_fits_from_no_error(bounds, sorted, 0);
    assert forall|view: CanonicalView| #[trigger] has_view(sorted, view) <==> has_view(charts, view) by {
        lemma_find_present(charts, view);
        lemma_last_with_rank(charts, view.spec_rank() as int);
        crate::chart::lemma_rank_round_trip(view);
        if has_view(sorted, view) {
            let k = choose|k: int| 0 <= k < sorted.len() && (#[trigger] sorted[k]).view == view;
            assert(charts.contains(sorted[k]));
            let j = choose|j: int| 0 <= j < charts.len() && charts[j] == sorted[k];
            assert(charts[j].view == view);
        }
        if has_view(charts, view) {
            let k = choose|k: int| 0 <= k < charts.len() && (#[trigger] charts[k]).view == view;
            assert(rank_of(charts[k]) == view.spec_rank());
            assert(view_of_rank(view.spec_rank() as int) == view);
        }
    }
    assert forall|k: int| 0 <= k < charts.len() implies sorted.contains(#[trigger] charts[k]) by {
        let view = charts[k].view;
        assert(has_view(charts, view));
        assert(has_view(sorted, view));
        let m = choose|m: int| 0 <= m < sorted.len() && (#[trigger] sorted[m]).view == view;
        assert(charts.contains(sorted[m]));
        let j = choose|j: int| 0 <= j < charts.len() && charts[j] == sorted[m];
        if j != k {
            assert(charts[j].view == charts[k].view);
            if j < k {
                assert(charts[j].view != charts[k].view);
            } else {
                assert(charts[k].view != charts[j].view);
            }
        }
        assert(sorted[m] == charts[k]);
    }
}

// ---------------------------------------------------------------------------
// Law of growing and shrinking at one face.
// ---------------------------------------------------------------------------

/// The bounds after growing or shrinking the axis of `world` by one pixel.
pub open spec fn resized_bounds(bounds: Bounds, world: WorldEdge, delta: ResizeDelta) -> Bounds {
    let extents = prospective_extents(bounds, world, delta);
    Bounds::spec_from_extents(extents.0 as u32, extents.1 as u32, extents.2 as u32)
}

/// No chart of the sequence, from `index` on, has authored texels on the
/// image edge lying on `world`.
proof fn lemma_nothing_discarded_from(charts: Seq<ChartModel>, world: WorldEdge, index: int)
    requires
        0 <= index,
        forall|i: int|
            0 <= i < charts.len() ==> match (#[trigger] charts[i]).view.spec_image_edge(world) {
                Some(edge) => !edge_authored(charts[i], edge),
                None => true,
            },
    ensures
        discarded_edges_from(charts, world, index) =~= Seq::<ChartEdge>::empty(),
    decreases charts.len() - index,
{
    if index < charts.len() {
        lemma_nothing_discarded_from(charts, world, index + 1);
        let here = match charts[index].view.spec_image_edge(world) {
            Some(edge) => if edge_authored(charts[index], edge) {
                seq![ChartEdge { view: charts[index].view, edge }]
            } else {
                Seq::empty()
            },
            None => Seq::empty(),
        };
        assert(here =~= Seq::<ChartEdge>::empty());
    }
}

/// Growing a valid model by one pixel at a box face, when accepted, and then
/// shrinking it at the same face succeeds even when discarding authored
/// texels is refused, and gives back the model: the bounds and every chart,
/// both assignment flags included. The added texels hold only the empty
/// sentinel, so the removal discards nothing.
pub proof fn lemma_grow_then_shrink_restores(
    bounds: Bounds,
    charts: Seq<ChartModel>,
    world: WorldEdge,
    grown_charts: Seq<ChartModel>,
)
    requires
        valid_model(bounds, charts),
        extents_in_range(prospective_extents(bounds, world, ResizeDelta::Add)),
        spec_new(resized_bounds(bounds, world, ResizeDelta::Add), resized_charts(charts, world, ResizeDelta::Add))
            == Ok::<Seq<ChartModel>, ModelError>(grown_charts),
    ensures
        ({
            let grown = resized_bounds(bounds, world, ResizeDelta::Add);
            &&& extents_in_range(prospective_extents(grown, world, ResizeDelta::Remove))
            &&& discarded_edges_from(grown_charts, world, 0).len() == 0
            &&& resized_bounds(grown, world, ResizeDelta::Remove) == bounds
            &&& spec_new(bounds, resized_charts(grown_charts, world, ResizeDelta::Remove)) == Ok::<
                Seq<ChartModel>,
                ModelError,
            >(charts)
        }),
{
    let grown = resized_bounds(bounds, world, ResizeDelta::Add);
    let extents = prospective_extents(bounds, world, ResizeDelta::Add);
    lemma_bounds_extents(extents.0 as u32, extents.1 as u32, extents.2 as u32);
    lemma_bounds_from_own_extents(bounds);
    assert(prospective_extents(grown, world, ResizeDelta::Remove) == (
        bounds.spec_width() as int,
        bounds.spec_height() as int,
        bounds.spec_depth() as int,
    ));
    let added = resized_charts(charts, world, ResizeDelta::Add);
    assert forall|i: int, j: int| 0 <= i < j < added.len() implies rank_of(#[trigger] added[i]) < rank_of(
        #[trigger] added[j],
    ) by {
        assert(added[i].view == charts[i].view && added[j].view == charts[j].view);
    }
    assert forall|i: int| 0 <= i < added.len() implies 0 <= rank_of(#[trigger] added[i]) < 6 by {
        crate::chart::lemma_rank_round_trip(added[i].view);
    }
    lemma_sorted_suffix(added, 0, 0);
    assert(added.skip(0) =~= added);
    assert(grown_charts == added);
    let back = resized_charts(added, world, ResizeDelta::Remove);
    assert forall|i: int| 0 <= i < charts.len() implies {
        &&& match (#[trigger] added[i]).view.spec_image_edge(world) {
            Some(edge) => !edge_authored(added[i], edge),
            None => true,
        }
        &&& back[i] == charts[i]
    } by {
        let chart = charts[i];
        assert(chart_fits(bounds, chart));
        if let Some(edge) = chart.view.spec_image_edge(world) {
            lemma_added_edge_removes_cleanly(chart, edge);
        }
    }
    lemma_nothing_discarded_from(added, world, 0);
    assert(back =~= charts);
    lemma_valid_is_fixed_point(bounds, charts);
}

// ---------------------------------------------------------------------------
// Laws of chart replacement and removal.
// ---------------------------------------------------------------------------

/// Replacing the chart of a view in a valid model, when the rebuilt model is
/// accepted, leaves the same number of charts: that view shows the new chart
/// and every other view shows what it showed before.
pub proof fn lemma_replacement_keeps_other_charts(
    bounds: Bounds,
    charts: Seq<ChartModel>,
    chart: ChartModel,
    sorted: Seq<ChartModel>,
)
    requires
        valid_model(bounds, charts),
        has_view(charts, chart.view),
        spec_new(bounds, charts.update(index_of_view(charts, chart.view), chart)) == Ok::<
            Seq<ChartModel>,
            ModelError,
        >(sorted),
    ensures
        sorted.len() == charts.len(),
        find_view(sorted, chart.view) == Some(chart),
        forall|view: CanonicalView| view != chart.view ==> #[trigger] find_view(sorted, view) == find_view(charts, view),
{
    let index = index_of_view(charts, chart.view);
    let updated = charts.update(index, chart);
    assert(0 <= index < charts.len() && charts[index].view == chart.view);
    assert forall|i: int, j: int| 0 <= i < j < updated.len() implies rank_of(#[trigger] updated[i]) < rank_of(
        #[trigger] updated[j],
    ) by {
        assert(updated[i].view == charts[i].view && updated[j].view == charts[j].view);
    }
    assert forall|i: int| 0 <= i < updated.len() implies 0 <= rank_of(#[trigger] updated[i]) < 6 by {
        crate::chart::lemma_rank_round_trip(updated[i].view);
    }
    lemma_sorted_suffix(updated, 0, 0);
    assert(updated.skip(0) =~= updated);
    assert(sorted == updated);
    lemma_find_in_sorted(updated, index);
    assert forall|view: CanonicalView| view != chart.view implies #[trigger] find_view(sorted, view) == find_view(
        charts,
        view,
    ) by {
        if has_view(charts, view) {
            let k = choose|k: int| 0 <= k < charts.len() && (#[trigger] charts[k]).view == view;
            assert(k != index);
            assert(updated[k] == charts[k]);
            lemma_find_in_sorted(charts, k);
            lemma_find_in_sorted(updated, k);
        } else {
            if has_view(updated, view) {
                let k = choose|k: int| 0 <= k < updated.len() && (#[trigger] updated[k]).view == view;
                assert(k != index);
                assert(charts[k] == updated[k]);
            }
            lemma_find_absent(charts, view);
            lemma_find_absent(updated, view);
        }
    }
}

/// Editing the texels of a view in a valid model, when the rebuilt model is
/// accepted, keeps that chart's view, dimensions and both assignment flags:
/// only its texels change.
pub proof fn lemma_edit_keeps_assignments(
    bounds: Bounds,
    charts: Seq<ChartModel>,
    view: CanonicalView,
    rgba: Seq<[u8; 4]>,
    sorted: Seq<ChartModel>,
)
    requires
        valid_model(bounds, charts),
        has_view(charts, view),
        spec_new(
            bounds,
            charts.update(
                index_of_view(charts, view),
                ChartModel { rgba, ..charts[index_of_view(charts, view)] },
            ),
        ) == Ok::<Seq<ChartModel>, ModelError>(sorted),
    ensures
        ({
            let current = find_view(charts, view).unwrap();
            find_view(sorted, view) == Some(ChartModel { rgba, ..current })
        }),
{
    let index = index_of_view(charts, view);
    let edited = ChartModel { rgba, ..charts[index] };
    assert(charts[index].view == view);
    lemma_find_in_sorted(charts, index);
    lemma_replacement_keeps_other_charts(bounds, charts, edited, sorted);
}

/// Charts that fit, from `start` up to `stop`, report no error, so the
/// first error from `start` is the first from `stop`.
proof fn lemma_skip_fitting(bounds: Bounds, charts: Seq<ChartModel>, start: int, stop: int)
    requires
        0 <= start <= stop <= charts.len(),
        forall|i: int| start <= i < stop ==> chart_fits(bounds, #[trigger] charts[i]),
    ensures
        first_chart_error_from(bounds, charts, start) == first_chart_error_from(bounds, charts, stop),
    decreases stop - start,
{
    if start < stop {
        lemma_fits_no_error(bounds, charts[start]);
        lemma_skip_fitting(bounds, charts, start + 1, stop);
    }
}

/// A texel deeper than `maximum` from `index` on makes a relief error, for
/// the chart's own view.
proof fn lemma_relief_error_found(chart: ChartModel, maximum: int, index: int)
    requires
        0 <= index,
        exists|i: int| index <= i < chart.rgba.len() && !pixel_within(#[trigger] chart.rgba[i], maximum),
    ensures
        relief_error_from(chart, maximum, index) matches Some(ModelError::ReliefBeyondMaximum { view, .. })
            && view == chart.view,
    decreases chart.rgba.len() - index,
{
    if pixel_within(chart.rgba[index], maximum) {
        let i = choose|i: int| index <= i < chart.rgba.len() && !pixel_within(#[trigger] chart.rgba[i], maximum);
        assert(i != index);
        lemma_relief_error_found(chart, maximum, index + 1);
    }
}

/// Editing the texels of a view in a valid model with the right number of
/// texels, one of them deeper than that view allows, is refused with the
/// relief error of the first such texel, for that view.
pub proof fn lemma_edit_too_deep_refused(
    bounds: Bounds,
    charts: Seq<ChartModel>,
    view: CanonicalView,
    rgba: Seq<[u8; 4]>,
)
    requires
        valid_model(bounds, charts),
        has_view(charts, view),
        ({
            let current = charts[index_of_view(charts, view)];
            &&& rgba.len() == current.width as int * current.height as int
            &&& exists|i: int|
                0 <= i < rgba.len() && !pixel_within(#[trigger] rgba[i], view.spec_maximum_inward_depth(bounds))
        }),
    ensures
        ({
            let index = index_of_view(charts, view);
            let edited = ChartModel { rgba, ..charts[index] };
            let error = relief_error_from(edited, view.spec_maximum_inward_depth(bounds), 0);
            &&& error matches Some(ModelError::ReliefBeyondMaximum { view: at, .. }) && at == view
            &&& spec_new(bounds, charts.update(index, edited)) == Err::<Seq<ChartModel>, ModelError>(error.unwrap())
        }),
{
    let index = index_of_view(charts, view);
    let current = charts[index];
    let edited = ChartModel { rgba, ..current };
    let updated = charts.update(index, edited);
    let maximum = view.spec_maximum_inward_depth(bounds);
    assert(0 <= index < charts.len() && current.view == view);
    assert(chart_fits(bounds, current));
    assert forall|i: int, j: int| 0 <= i < j < updated.len() implies rank_of(#[trigger] updated[i]) < rank_of(
        #[trigger] updated[j],
    ) by {
        assert(updated[i].view == charts[i].view && updated[j].view == charts[j].view);
    }
    assert forall|i: int| 0 <= i < updated.len() implies 0 <= rank_of(#[trigger] updated[i]) < 6 by {
        crate::chart::lemma_rank_round_trip(updated[i].view);
    }
    lemma_sorted_suffix(updated, 0, 0);
    assert(updated.skip(0) =~= updated);
    lemma_no_duplicate_from(updated, 0);
    assert forall|i: int|
        0 <= i < updated.len() && (#[trigger] updated[i]).supplies_opposite implies !has_view(
        updated,
        updated[i].view.spec_opposite(),
    ) by {
        assert(charts[i].supplies_opposite && charts[i].view == updated[i].view);
        if has_view(updated, updated[i].view.spec_opposite()) {
            let k = choose|k: int| 0 <= k < updated.len() && (#[trigger] updated[k]).view == updated[i].view.spec_opposite();
            assert(charts[k].view == updated[k].view);
        }
    }
    lemma_no_overlap_from(updated, 0);
    assert forall|i: int| 0 <= i < index implies chart_fits(bounds, #[trigger] updated[i]) by {
        assert(updated[i] == charts[i]);
    }
    lemma_skip_fitting(bounds, updated, 0, index);
    let witness = choose|i: int| 0 <= i < rgba.len() && !pixel_within(#[trigger] rgba[i], maximum);
    assert(edited.rgba[witness] == rgba[witness]);
    lemma_relief_error_found(edited, maximum, 0);
    assert(updated[index] == edited);
    assert((edited.width, edited.height) == edited.view.spec_dimensions(bounds));
}

/// Removing the chart of a view from a valid model leaves one chart fewer:
/// that view shows nothing and every other view shows what it showed before.
pub proof fn lemma_removal_keeps_other_charts(bounds: Bounds, charts: Seq<ChartModel>, view: CanonicalView)
    requires
        valid_model(bounds, charts),
        has_view(charts, view),
    ensures
        ({
            let rest = charts.remove(index_of_view(charts, view));
            &&& rest.len() == charts.len() - 1
            &&& find_view(rest, view) is None
            &&& forall|other: CanonicalView|
                other != view ==> #[trigger] find_view(rest, other) == find_view(charts, other)
        }),
{
    let index = index_of_view(charts, view);
    let rest = charts.remove(index);
    assert(0 <= index < charts.len() && charts[index].view == view);
    assert forall|i: int| 0 <= i < rest.len() implies rest[i] == charts[if i < index { i } else { i + 1 }] by {}
    assert forall|i: int, j: int| 0 <= i < j < rest.len() implies rank_of(#[trigger] rest[i]) < rank_of(
        #[trigger] rest[j],
    ) by {
        let a = if i < index { i } else { i + 1 };
        let b = if j < index { j } else { j + 1 };
        assert(rank_of(charts[a]) < rank_of(charts[b]));
    }
    if has_view(rest, view) {
        let k = choose|k: int| 0 <= k < rest.len() && (#[trigger] rest[k]).view == view;
        let a = if k < index { k } else { k + 1 };
        lemma_unique_view(charts, a, index);
    }
    lemma_find_absent(rest, view);
    assert forall|other: CanonicalView| other != view implies #[trigger] find_view(rest, other) == find_view(
        charts,
        other,
    ) by {
        if has_view(charts, other) {
            let k = choose|k: int| 0 <= k < charts.len() && (#[trigger] charts[k]).view == other;
            assert(k != index);
            let j = if k < index { k } else { k - 1 };
            assert(rest[j] == charts[k]);
            lemma_find_in_sorted(charts, k);
            lemma_find_in_sorted(rest, j);
        } else {
            if has_view(rest, other) {
                let k = choose|k: int| 0 <= k < rest.len() && (#[trigger] rest[k]).view == other;
                let a = if k < index { k } else { k + 1 };
                assert(charts[a].view == other);
            }
            lemma_find_absent(charts, other);
            lemma_find_absent(rest, other);
        }
    }
}

} // verus!
