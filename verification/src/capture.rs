use vstd::prelude::*;

use crate::chart::{in_image, CanonicalView, Chart, ChartError, ChartModel};
use crate::continuity::{neighbors_in_image, ContinuityModel, SideContinuity};
use crate::grid::{lemma_row_major_bound, row_major};
use crate::chart::Bounds;
use crate::model::{models, spec_new, AuthoredModel, ModelError, ModelView};

verus! {

/// Every canonical view, in the order sides are checked.
pub const ALL_VIEWS: [CanonicalView; 6] = [
    CanonicalView::Front,
    CanonicalView::Back,
    CanonicalView::Left,
    CanonicalView::Right,
    CanonicalView::Top,
    CanonicalView::Bottom,
];

#[verifier::external_type_specification]
#[verifier::external_body]
pub struct ExGltfError(gltf::Error);

/// Why importing a mesh failed.
#[derive(Debug)]
pub enum ImportError {
    Gltf(gltf::Error),
    NoTriangles,
    MissingPositions,
    NoCaptureSides,
    UnsatisfiedOpposite { side: CanonicalView, opposite: CanonicalView },
    LongestAxisRange(u32),
    Chart(ChartError),
    Model(ModelError),
}

/// How one side of the import box is filled.
#[derive(Clone, Copy, Debug, PartialEq, Eq, Structural)]
pub enum SideMode {
    Capture,
    FromOpposite,
    FromOppositeMirrored,
    Off,
}

/// Whether a mode takes its side from the opposite side.
pub open spec fn from_opposite(mode: SideMode) -> bool {
    mode == SideMode::FromOpposite || mode == SideMode::FromOppositeMirrored
}

/// The modes in the order `legal_modes` lists them.
pub open spec fn mode_order() -> Seq<SideMode> {
    seq![SideMode::Capture, SideMode::FromOpposite, SideMode::FromOppositeMirrored, SideMode::Off]
}

pub open spec fn all_views() -> Seq<CanonicalView> {
    seq![
        CanonicalView::Front,
        CanonicalView::Back,
        CanonicalView::Left,
        CanonicalView::Right,
        CanonicalView::Top,
        CanonicalView::Bottom,
    ]
}

/// The mode of every side, indexed by canonical rank.
#[derive(Clone, Copy, Debug, PartialEq, Eq)]
pub struct SideModes {
    modes: [SideMode; 6],
}

impl SideModes {
    pub closed spec fn mode_of(&self, view: CanonicalView) -> SideMode {
        self.modes[view.spec_rank() as int]
    }

    /// `view` may take its opposite's content: the opposite is captured.
    pub open spec fn allows_from_opposite(self, view: CanonicalView) -> bool {
        self.mode_of(view.spec_opposite()) == SideMode::Capture
    }

    /// `set(view, mode)` succeeds in this state.
    pub open spec fn accepts(self, view: CanonicalView, mode: SideMode) -> bool {
        !from_opposite(mode) || self.allows_from_opposite(view)
    }

    /// The modes `set` accepts for `view`, in `mode_order`.
    pub open spec fn spec_legal_modes(self, view: CanonicalView) -> Seq<SideMode> {
        mode_order().filter(|mode: SideMode| self.accepts(view, mode))
    }

    /// What an accepted `set(view, mode)` leaves on `other`: `view` takes
    /// `mode`, and an opposite that took its content from `view` is switched
    /// off when `view` stops capturing.
    pub open spec fn mode_after_set(self, view: CanonicalView, mode: SideMode, other: CanonicalView) -> SideMode {
        if other == view {
            mode
        } else if other == view.spec_opposite() && mode != SideMode::Capture && from_opposite(self.mode_of(other)) {
            SideMode::Off
        } else {
            self.mode_of(other)
        }
    }

    /// The first side, in `ALL_VIEWS` order from `index`, that takes its
    /// opposite's content while the opposite is not captured.
    pub open spec fn first_unsatisfied(self, index: int) -> Option<CanonicalView>
        decreases 6 - index,
    {
        if index >= 6 || index < 0 {
            None
        } else {
            let view = all_views()[index];
            if from_opposite(self.mode_of(view)) && !self.allows_from_opposite(view) {
                Some(view)
            } else {
                self.first_unsatisfied(index + 1)
            }
        }
    }

    /// Some side captures.
    pub open spec fn captures_some_side(self) -> bool {
        exists|view: CanonicalView| #[trigger] self.mode_of(view) == SideMode::Capture
    }

    /// Every side captures.
    pub fn default() -> (modes: Self)
        ensures
            forall|view: CanonicalView| #[trigger] modes.mode_of(view) == SideMode::Capture,
    {
        Self { modes: [SideMode::Capture; 6] }
    }

    #[verifier::when_used_as_spec(mode_of)]
    pub fn get(&self, view: CanonicalView) -> (mode: SideMode)
        ensures
            mode == self.mode_of(view),
    {
        self.modes[view.rank() as usize]
    }

    fn allows(&self, view: CanonicalView) -> (allowed: bool)
        ensures
            allowed == self.allows_from_opposite(view),
    {
        self.get(view.opposite()) == SideMode::Capture
    }

    /// Sets one side's mode. Taking the opposite's content requires the
    /// opposite to be captured; a side that stops capturing switches off an
    /// opposite that took its content from it.
    pub fn set(&mut self, view: CanonicalView, mode: SideMode) -> (result: Result<(), ImportError>)
        ensures
            !old(self).accepts(view, mode) ==> result == Err::<(), ImportError>(
                ImportError::UnsatisfiedOpposite { side: view, opposite: view.spec_opposite() },
            ) && *final(self) == *old(self),
            old(self).accepts(view, mode) ==> result is Ok && forall|other: CanonicalView|
                #[trigger] final(self).mode_of(other) == old(self).mode_after_set(view, mode, other),
    {
        if from_opposite_mode(mode) && !self.allows(view) {
            return Err(ImportError::UnsatisfiedOpposite { side: view, opposite: view.opposite() });
        }
        let ghost before = *self;
        let rank = view.rank() as usize;
        self.modes[rank] = mode;
        let opposite = view.opposite();
        proof {
            crate::frame::lemma_opposite_involution(view);
        }
        if mode != SideMode::Capture && from_opposite_mode(self.get(opposite)) {
            let opposite_rank = opposite.rank() as usize;
            self.modes[opposite_rank] = SideMode::Off;
        }
        proof {
            assert forall|other: CanonicalView| #[trigger] self.mode_of(other) == before.mode_after_set(
                view,
                mode,
                other,
            ) by {
                crate::chart::lemma_rank_injective(other, view);
                crate::chart::lemma_rank_injective(other, view.spec_opposite());
                crate::chart::lemma_rank_injective(view, view.spec_opposite());
            }
        }
        Ok(())
    }

    /// The modes `set` would accept for `view` in the current state.
    pub fn legal_modes(&self, view: CanonicalView) -> (modes: Vec<SideMode>)
        ensures
            modes@ == self.spec_legal_modes(view),
    {
        let allowed = self.allows(view);
        let mut modes = Vec::new();
        modes.push(SideMode::Capture);
        if allowed {
            modes.push(SideMode::FromOpposite);
            modes.push(SideMode::FromOppositeMirrored);
        }
        modes.push(SideMode::Off);
        proof {
            reveal_with_fuel(Seq::filter, 5);
            assert(mode_order().drop_last().drop_last().drop_last().drop_last() =~= Seq::<SideMode>::empty());
            assert(mode_order().drop_last().drop_last().drop_last() =~= seq![SideMode::Capture]);
            assert(mode_order().drop_last().drop_last() =~= seq![SideMode::Capture, SideMode::FromOpposite]);
            assert(mode_order().drop_last() =~= seq![
                SideMode::Capture,
                SideMode::FromOpposite,
                SideMode::FromOppositeMirrored,
            ]);
            assert(modes@ =~= self.spec_legal_modes(view));
        }
        modes
    }

    /// Rejects a side that takes its opposite's content while the opposite
    /// is not captured (the first such in `ALL_VIEWS` order), then a state
    /// that captures no side.
    pub fn validate(&self) -> (result: Result<(), ImportError>)
        ensures
            match self.first_unsatisfied(0) {
                Some(view) => result == Err::<(), ImportError>(
                    ImportError::UnsatisfiedOpposite { side: view, opposite: view.spec_opposite() },
                ),
                None => if self.captures_some_side() {
                    result is Ok
                } else {
                    result == Err::<(), ImportError>(ImportError::NoCaptureSides)
                },
            },
    {
        let mut index: usize = 0;
        while index < 6
            invariant
                0 <= index <= 6,
                self.first_unsatisfied(0) == self.first_unsatisfied(index as int),
            decreases 6 - index,
        {
            let view = ALL_VIEWS[index];
            assert(view == all_views()[index as int]);
            if from_opposite_mode(self.get(view)) && !self.allows(view) {
                return Err(ImportError::UnsatisfiedOpposite { side: view, opposite: view.opposite() });
            }
            index += 1;
        }
        let mut any_capture = false;
        let mut index: usize = 0;
        while index < 6
            invariant
                0 <= index <= 6,
                any_capture <==> exists|i: int| 0 <= i < index && self.mode_of(#[trigger] all_views()[i]) == SideMode::Capture,
            decreases 6 - index,
        {
            let view = ALL_VIEWS[index];
            assert(view == all_views()[index as int]);
            if self.get(view) == SideMode::Capture {
                any_capture = true;
            }
            index += 1;
        }
        proof {
            if self.captures_some_side() {
                let view = choose|view: CanonicalView| #[trigger] self.mode_of(view) == SideMode::Capture;
                let i: int = match view {
                    CanonicalView::Front => 0,
                    CanonicalView::Back => 1,
                    CanonicalView::Left => 2,
                    CanonicalView::Right => 3,
                    CanonicalView::Top => 4,
                    CanonicalView::Bottom => 5,
                };
                assert(all_views()[i] == view);
            }
            if any_capture {
                let i = choose|i: int| 0 <= i < 6 && self.mode_of(#[trigger] all_views()[i]) == SideMode::Capture;
                assert(self.mode_of(all_views()[i]) == SideMode::Capture);
            }
        }
        if any_capture {
            Ok(())
        } else {
            Err(ImportError::NoCaptureSides)
        }
    }
}

fn from_opposite_mode(mode: SideMode) -> (taken: bool)
    ensures
        taken == from_opposite(mode),
{
    match mode {
        SideMode::FromOpposite | SideMode::FromOppositeMirrored => true,
        _ => false,
    }
}

/// `set` accepts exactly the modes `legal_modes` lists, in every state.
pub proof fn lemma_legal_modes_match_set(modes: SideModes, view: CanonicalView, mode: SideMode)
    ensures
        modes.spec_legal_modes(view).contains(mode) <==> modes.accepts(view, mode),
{
    reveal_with_fuel(Seq::filter, 5);
    assert(mode_order().drop_last().drop_last().drop_last().drop_last() =~= Seq::<SideMode>::empty());
    assert(mode_order().drop_last().drop_last().drop_last() =~= seq![SideMode::Capture]);
    assert(mode_order().drop_last().drop_last() =~= seq![SideMode::Capture, SideMode::FromOpposite]);
    assert(mode_order().drop_last() =~= seq![
        SideMode::Capture,
        SideMode::FromOpposite,
        SideMode::FromOppositeMirrored,
    ]);
    let legal = modes.spec_legal_modes(view);
    if modes.accepts(view, mode) {
        let index: int = match mode {
            SideMode::Capture => 0,
            SideMode::FromOpposite => 1,
            SideMode::FromOppositeMirrored => 2,
            SideMode::Off => 3,
        };
        assert(mode_order()[index] == mode);
        if modes.allows_from_opposite(view) {
            assert(legal[index] == mode);
        } else {
            assert(legal =~= seq![SideMode::Capture, SideMode::Off]);
            assert(mode == SideMode::Capture || mode == SideMode::Off);
            if mode == SideMode::Off {
                assert(legal[1] == mode);
            } else {
                assert(legal[0] == mode);
            }
        }
    }
}

/// A side's mask after closure: the kept texels plus one ring of support.
#[derive(Clone, Debug, PartialEq, Eq)]
pub struct ClosureMask {
    pub mask: Vec<bool>,
    pub support: Vec<bool>,
}

/// The kept neighbor `(nx, ny)` of `(x, y)` joins it across a continuous edge.
pub open spec fn joins_across(
    kept: Seq<bool>,
    continuity: ContinuityModel,
    x: int,
    y: int,
    nx: int,
    ny: int,
) -> bool {
    &&& neighbors_in_image(continuity.width, continuity.height, x, y, nx, ny)
    &&& kept[row_major(continuity.width as int, nx, ny)]
    &&& continuity.connected(x, y, nx, ny)
}

/// Texel `(x, y)` is added as support: covered, neither kept nor banned, and
/// joined to a kept edge neighbor across a continuous edge.
pub open spec fn becomes_support(
    kept: Seq<bool>,
    covered: Seq<bool>,
    banned: Seq<bool>,
    continuity: ContinuityModel,
    x: int,
    y: int,
) -> bool {
    let index = row_major(continuity.width as int, x, y);
    &&& !kept[index]
    &&& covered[index]
    &&& !banned[index]
    &&& (joins_across(kept, continuity, x, y, x - 1, y) || joins_across(kept, continuity, x, y, x + 1, y)
        || joins_across(kept, continuity, x, y, x, y - 1) || joins_across(kept, continuity, x, y, x, y + 1))
}

/// One-texel closure ring: every covered, unbanned texel edge-adjacent to a
/// kept texel across a continuous edge becomes support; the mask is the kept
/// texels plus the support.
pub fn dilate_keep_mask(
    kept: &[bool],
    covered: &[bool],
    banned: &[bool],
    continuity: &SideContinuity,
    width: u32,
    height: u32,
) -> (closure: ClosureMask)
    requires
        continuity.model().wf(),
        continuity.model().width == width,
        continuity.model().height == height,
        kept@.len() == width * height,
        covered@.len() == width * height,
        banned@.len() == width * height,
    ensures
        closure.mask@.len() == kept@.len(),
        closure.support@.len() == kept@.len(),
        forall|x: int, y: int|
            #![trigger row_major(width as int, x, y)]
            in_image(width, height, x, y) ==> closure.support@[row_major(width as int, x, y)] == becomes_support(
                kept@,
                covered@,
                banned@,
                continuity.model(),
                x,
                y,
            ) && closure.mask@[row_major(width as int, x, y)] == (kept@[row_major(width as int, x, y)]
                || closure.support@[row_major(width as int, x, y)]),
{
    let ghost c = continuity.model();
    let mut mask: Vec<bool> = Vec::new();
    let mut support: Vec<bool> = Vec::new();
    let mut y: u32 = 0;
    while y < height
        invariant
            c == continuity.model(),
            c.wf(),
            c.width == width,
            c.height == height,
            kept@.len() == width * height,
            covered@.len() == width * height,
            banned@.len() == width * height,
            y <= height,
            mask@.len() == y * width,
            support@.len() == y * width,
            forall|xx: int, yy: int|
                    #![trigger row_major(width as int, xx, yy)]
                    in_image(width, height, xx, yy) && yy < y ==> support@[row_major(width as int, xx, yy)]
                        == becomes_support(kept@, covered@, banned@, c, xx, yy) && mask@[row_major(width as int, xx, yy)]
                        == (kept@[row_major(width as int, xx, yy)] || support@[row_major(width as int, xx, yy)]),
        decreases height - y,
    {
        let mut x: u32 = 0;
        while x < width
            invariant
                c == continuity.model(),
                c.wf(),
                c.width == width,
                c.height == height,
                kept@.len() == width * height,
                covered@.len() == width * height,
                banned@.len() == width * height,
                y < height,
                x <= width,
                mask@.len() == y * width + x,
                support@.len() == y * width + x,
                forall|xx: int, yy: int|
                    #![trigger row_major(width as int, xx, yy)]
                    in_image(width, height, xx, yy) && (yy < y || (yy == y && xx < x)) ==> support@[row_major(width as int, xx, yy)]
                        == becomes_support(kept@, covered@, banned@, c, xx, yy) && mask@[row_major(width as int, xx, yy)]
                        == (kept@[row_major(width as int, xx, yy)] || support@[row_major(width as int, xx, yy)]),
            decreases width - x,
        {
            proof {
                lemma_row_major_bound(width as int, height as int, x as int, y as int);
            }
            let index = (y * width + x) as usize;
            let mut joins = false;
            if !kept[index] && covered[index] && !banned[index] {
                if x > 0 {
                    proof {
                        lemma_row_major_bound(width as int, height as int, x - 1, y as int);
                    }
                    let left = (y * width + x - 1) as usize;
                    joins = joins || (kept[left] && continuity.connected(x - 1, y, x, y));
                }
                if x + 1 < width {
                    proof {
                        lemma_row_major_bound(width as int, height as int, x + 1, y as int);
                    }
                    let right = (y * width + x + 1) as usize;
                    joins = joins || (kept[right] && continuity.connected(x, y, x + 1, y));
                }
                if y > 0 {
                    proof {
                        lemma_row_major_bound(width as int, height as int, x as int, y - 1);
                    }
                    let up = ((y - 1) * width + x) as usize;
                    joins = joins || (kept[up] && continuity.connected(x, y - 1, x, y));
                }
                if y + 1 < height {
                    proof {
                        lemma_row_major_bound(width as int, height as int, x as int, y + 1);
                    }
                    let down = ((y + 1) * width + x) as usize;
                    joins = joins || (kept[down] && continuity.connected(x, y, x, y + 1));
                }
            }
            proof {
                assert(joins == becomes_support(kept@, covered@, banned@, c, x as int, y as int));
            }
            mask.push(kept[index] || joins);
            support.push(joins);
            proof {
                assert forall|xx: int, yy: int|
                    #![trigger row_major(width as int, xx, yy)]
                    in_image(width, height, xx, yy) && (yy < y || (yy == y && xx < x + 1)) implies support@[row_major(
                        width as int,
                        xx,
                        yy,
                    )] == becomes_support(kept@, covered@, banned@, c, xx, yy) && mask@[row_major(width as int, xx, yy)]
                        == (kept@[row_major(width as int, xx, yy)] || support@[row_major(width as int, xx, yy)]) by {
                    lemma_row_major_bound(width as int, height as int, xx, yy);
                    if yy < y {
                        assert(row_major(width as int, xx, yy) + 1 <= y * width) by (nonlinear_arith)
                            requires
                                yy < y,
                                0 <= xx < width,
                                row_major(width as int, xx, yy) == yy * width + xx,
                        ;
                    }
                }
            }
            x += 1;
        }
        proof {
            crate::grid::lemma_next_row(width as int, y as int);
        }
        y += 1;
    }
    proof {
        vstd::arithmetic::mul::lemma_mul_is_commutative(width as int, height as int);
    }
    ClosureMask { mask, support }
}
/// The texels a capture side keeps: its own where `keep` holds, transparent
/// black elsewhere, pairing texels and flags up to the shorter of the two.
pub open spec fn masked_texels(rgba: Seq<[u8; 4]>, keep: Seq<bool>) -> Seq<[u8; 4]> {
    let count = if rgba.len() < keep.len() {
        rgba.len()
    } else {
        keep.len()
    };
    Seq::new(count, |index: int| if keep[index] { rgba[index] } else { [0u8, 0u8, 0u8, 0u8] })
}

/// The chart a capture side contributes: the texels it keeps, supplying its
/// opposite side when that side comes from it, mirrored when so set.
pub fn masked_chart(
    view: CanonicalView,
    width: u32,
    height: u32,
    rgba: &Vec<[u8; 4]>,
    keep: &Vec<bool>,
    opposite_mode: SideMode,
) -> (result: Result<Chart, ChartError>)
    ensures
        masked_texels(rgba@, keep@).len() != width as int * height as int ==> result == Err::<Chart, ChartError>(
            ChartError::PixelCount,
        ),
        masked_texels(rgba@, keep@).len() == width as int * height as int ==> (result matches Ok(chart)
            && chart.wf() && chart.model() == (ChartModel {
            view,
            supplies_opposite: from_opposite(opposite_mode),
            mirrors_opposite: opposite_mode == SideMode::FromOppositeMirrored,
            width,
            height,
            rgba: masked_texels(rgba@, keep@),
        })),
{
    let count = if rgba.len() < keep.len() {
        rgba.len()
    } else {
        keep.len()
    };
    let mut texels: Vec<[u8; 4]> = Vec::new();
    let mut index: usize = 0;
    while index < count
        invariant
            count <= rgba@.len(),
            count <= keep@.len(),
            count == masked_texels(rgba@, keep@).len(),
            index <= count,
            texels@ =~= masked_texels(rgba@, keep@).take(index as int),
        decreases count - index,
    {
        texels.push(if keep[index] {
            rgba[index]
        } else {
            [0, 0, 0, 0]
        });
        index += 1;
    }
    proof {
        assert(masked_texels(rgba@, keep@).take(count as int) =~= masked_texels(rgba@, keep@));
    }
    let chart = match Chart::from_rgba(view, width, height, texels) {
        Ok(chart) => chart,
        Err(error) => {
            return Err(error);
        },
    };
    match opposite_mode {
        SideMode::FromOpposite => Ok(chart.with_opposite_assignment()),
        SideMode::FromOppositeMirrored => Ok(chart.with_opposite_assignment().with_mirrored_opposite()),
        _ => Ok(chart),
    }
}

/// The sides `modes` captures, in `ALL_VIEWS` order from `index` on.
pub open spec fn captured_views_from(modes: SideModes, index: int) -> Seq<CanonicalView>
    decreases 6 - index,
{
    if index < 0 || index >= 6 {
        Seq::empty()
    } else {
        let here = if modes.mode_of(all_views()[index]) == SideMode::Capture {
            seq![all_views()[index]]
        } else {
            Seq::empty()
        };
        here + captured_views_from(modes, index + 1)
    }
}

/// The sides an import rasterizes: those whose mode is `Capture`, in
/// `ALL_VIEWS` order. Sides taken from their opposite, and sides switched
/// off, become no chart of their own.
pub fn captured_views(modes: &SideModes) -> (views: Vec<CanonicalView>)
    ensures
        views@ == captured_views_from(*modes, 0),
{
    let mut views: Vec<CanonicalView> = Vec::new();
    let mut index: usize = 0;
    while index < 6
        invariant
            index <= 6,
            views@ + captured_views_from(*modes, index as int) =~= captured_views_from(*modes, 0),
        decreases 6 - index,
    {
        let view = ALL_VIEWS[index];
        assert(view == all_views()[index as int]);
        let ghost before = views@;
        let ghost rest = captured_views_from(*modes, index as int + 1);
        if modes.get(view) == SideMode::Capture {
            views.push(view);
            assert(views@ + rest =~= before + (seq![view] + rest));
        } else {
            assert(views@ + rest =~= before + (Seq::<CanonicalView>::empty() + rest));
        }
        index += 1;
    }
    assert(views@ + captured_views_from(*modes, 6) =~= views@);
    views
}

/// What capturing one side produced, as plain values: its view, its image
/// size, its shaded texels and which of them the masks keep.
pub struct CapturedSide {
    pub view: CanonicalView,
    pub width: u32,
    pub height: u32,
    pub rgba: Vec<[u8; 4]>,
    pub keep: Vec<bool>,
}

/// The kept texels of a captured side fill exactly its image.
pub open spec fn side_sized(side: CapturedSide) -> bool {
    masked_texels(side.rgba@, side.keep@).len() == side.width as int * side.height as int
}

/// The chart a captured side becomes under `modes`: its kept texels, with
/// the opposite side taken from it (mirrored or not) as the opposite's mode
/// says.
pub open spec fn side_chart(modes: SideModes, side: CapturedSide) -> ChartModel {
    let opposite_mode = modes.mode_of(side.view.spec_opposite());
    ChartModel {
        view: side.view,
        supplies_opposite: from_opposite(opposite_mode),
        mirrors_opposite: opposite_mode == SideMode::FromOppositeMirrored,
        width: side.width,
        height: side.height,
        rgba: masked_texels(side.rgba@, side.keep@),
    }
}

/// Builds the authored model of an import from its captured sides: each
/// side becomes its masked chart (a side whose kept texels do not fill its
/// image is refused as a chart error), and the charts are checked together
/// as a model of `bounds` (its errors are reported as model errors).
pub fn assemble_model(bounds: Bounds, modes: &SideModes, sides: &Vec<CapturedSide>) -> (result: Result<
    AuthoredModel,
    ImportError,
>)
    requires
        bounds.wf(),
    ensures
        (exists|i: int| 0 <= i < sides@.len() && !side_sized(#[trigger] sides@[i])) ==> result == Err::<
            AuthoredModel,
            ImportError,
        >(ImportError::Chart(ChartError::PixelCount)),
        (forall|i: int| 0 <= i < sides@.len() ==> side_sized(#[trigger] sides@[i])) ==> match spec_new(
            bounds,
            sides@.map_values(|side: CapturedSide| side_chart(*modes, side)),
        ) {
            Ok(sorted) => result matches Ok(model) && model.wf() && model.model() == (ModelView {
                bounds,
                charts: sorted,
            }),
            Err(error) => result == Err::<AuthoredModel, ImportError>(ImportError::Model(error)),
        },
{
    let ghost wanted = sides@.map_values(|side: CapturedSide| side_chart(*modes, side));
    let mut charts: Vec<Chart> = Vec::new();
    let mut index: usize = 0;
    while index < sides.len()
        invariant
            index <= sides@.len(),
            wanted == sides@.map_values(|side: CapturedSide| side_chart(*modes, side)),
            forall|i: int| 0 <= i < index ==> side_sized(#[trigger] sides@[i]),
            models(charts@) =~= wanted.take(index as int),
            forall|i: int| 0 <= i < charts@.len() ==> (#[trigger] charts@[i]).wf(),
        decreases sides@.len() - index,
    {
        let side = &sides[index];
        let opposite_mode = modes.get(side.view.opposite());
        let chart = match masked_chart(side.view, side.width, side.height, &side.rgba, &side.keep, opposite_mode) {
            Ok(chart) => chart,
            Err(error) => {
                assert(!side_sized(sides@[index as int]));
                return Err(ImportError::Chart(error));
            },
        };
        assert(chart.model() == wanted[index as int]);
        let ghost before = charts@;
        charts.push(chart);
        assert(models(charts@) =~= models(before).push(chart.model()));
        assert(wanted.take(index as int + 1) =~= wanted.take(index as int).push(wanted[index as int]));
        index += 1;
    }
    assert(wanted.take(sides@.len() as int) =~= wanted);
    match AuthoredModel::new(bounds, charts) {
        Ok(model) => Ok(model),
        Err(error) => Err(ImportError::Model(error)),
    }
}

/// The texel a cut edge between two mask texels gives up: the support end
/// when exactly one end is support, else the far end (listed second).
pub open spec fn yielding_end(support: Seq<bool>, edge: (usize, usize)) -> int {
    let (near, far) = (edge.0 as int, edge.1 as int);
    if support[near] && !support[far] {
        near
    } else if !support[near] && support[far] {
        far
    } else {
        far
    }
}

/// Some cut edge among the first `count` joins two mask texels and gives up
/// `position`.
pub open spec fn yields_at(mask: Seq<bool>, support: Seq<bool>, edges: Seq<(usize, usize)>, count: int, position: int) -> bool {
    exists|e: int|
        0 <= e < count && mask[(#[trigger] edges[e]).0 as int] && mask[edges[e].1 as int] && yielding_end(
            support,
            edges[e],
        ) == position
}

/// Restores, after closure, that no cut edge joins two mask texels: every
/// cut edge (far endpoint second) whose ends are both in the mask gives up
/// one end, its support end when exactly one end is support and its far end
/// otherwise. Verdicts are taken on the mask before any drop, so they do
/// not depend on the order of the edges; a dropped texel leaves both the
/// mask and the support.
pub fn enforce_closure_invariant(closure: &mut ClosureMask, edges: &Vec<(usize, usize)>)
    requires
        old(closure).support@.len() == old(closure).mask@.len(),
        forall|e: int|
            0 <= e < edges@.len() ==> (#[trigger] edges@[e]).0 < old(closure).mask@.len() && edges@[e].1 < old(
                closure,
            ).mask@.len(),
    ensures
        final(closure).mask@.len() == old(closure).mask@.len(),
        final(closure).support@.len() == old(closure).mask@.len(),
        forall|position: int|
            0 <= position < old(closure).mask@.len() ==> {
                let dropped = yields_at(
                    old(closure).mask@,
                    old(closure).support@,
                    edges@,
                    edges@.len() as int,
                    position,
                );
                &&& #[trigger] final(closure).mask@[position] == (old(closure).mask@[position] && !dropped)
                &&& final(closure).support@[position] == (old(closure).support@[position] && !dropped)
            },
        forall|e: int|
            0 <= e < edges@.len() ==> !(final(closure).mask@[(#[trigger] edges@[e]).0 as int]
                && final(closure).mask@[edges@[e].1 as int]),
{
    let ghost (mask, support) = (closure.mask@, closure.support@);
    let count = closure.mask.len();
    let mut drop: Vec<bool> = Vec::new();
    let mut position: usize = 0;
    while position < count
        invariant
            position <= count,
            drop@ =~= Seq::new(position as nat, |p: int| false),
        decreases count - position,
    {
        drop.push(false);
        position += 1;
    }
    let mut index: usize = 0;
    while index < edges.len()
        invariant
            index <= edges@.len(),
            closure.mask@ == mask,
            closure.support@ == support,
            support.len() == mask.len(),
            count == mask.len(),
            drop@.len() == count,
            forall|e: int|
                0 <= e < edges@.len() ==> (#[trigger] edges@[e]).0 < mask.len() && edges@[e].1 < mask.len(),
            forall|p: int| 0 <= p < count ==> #[trigger] drop@[p] == yields_at(mask, support, edges@, index as int, p),
        decreases edges@.len() - index,
    {
        let (near, far) = edges[index];
        let ghost previous = drop@;
        if closure.mask[near] && closure.mask[far] {
            let end = if closure.support[near] && !closure.support[far] {
                near
            } else {
                far
            };
            drop.set(end, true);
        }
        proof {
            let i = index as int;
            assert forall|p: int| 0 <= p < count implies #[trigger] drop@[p] == yields_at(
                mask,
                support,
                edges@,
                i + 1,
                p,
            ) by {
                if yields_at(mask, support, edges@, i + 1, p) && !yields_at(mask, support, edges@, i, p) {
                    let e = choose|e: int|
                        0 <= e < i + 1 && mask[(#[trigger] edges@[e]).0 as int] && mask[edges@[e].1 as int]
                            && yielding_end(support, edges@[e]) == p;
                    assert(e == i);
                }
                if yields_at(mask, support, edges@, i, p) {
                    let e = choose|e: int|
                        0 <= e < i && mask[(#[trigger] edges@[e]).0 as int] && mask[edges@[e].1 as int]
                            && yielding_end(support, edges@[e]) == p;
                    assert(0 <= e < i + 1);
                }
                if mask[near as int] && mask[far as int] && yielding_end(support, edges@[i]) == p {
                    assert(edges@[i] == (near, far));
                }
            }
        }
        index += 1;
    }
    let mut position: usize = 0;
    while position < count
        invariant
            position <= count,
            count == mask.len(),
            support.len() == mask.len(),
            drop@.len() == count,
            closure.mask@.len() == count,
            closure.support@.len() == count,
            forall|p: int| 0 <= p < count ==> #[trigger] drop@[p] == yields_at(mask, support, edges@, edges@.len() as int, p),
            forall|p: int|
                0 <= p < count ==> #[trigger] closure.mask@[p] == (mask[p] && !(p < position && drop@[p])),
            forall|p: int|
                0 <= p < count ==> #[trigger] closure.support@[p] == (support[p] && !(p < position && drop@[p])),
        decreases count - position,
    {
        if drop[position] {
            closure.mask.set(position, false);
            closure.support.set(position, false);
        }
        position += 1;
    }
    proof {
        assert forall|e: int| 0 <= e < edges@.len() implies !(closure.mask@[(#[trigger] edges@[e]).0 as int]
            && closure.mask@[edges@[e].1 as int]) by {
            let (near, far) = (edges@[e].0 as int, edges@[e].1 as int);
            if mask[near] && mask[far] {
                let end = yielding_end(support, edges@[e]);
                assert(yields_at(mask, support, edges@, edges@.len() as int, end));
                assert(end == near || end == far);
            }
        }
    }
}

} // verus!
