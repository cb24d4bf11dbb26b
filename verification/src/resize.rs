use vstd::prelude::*;

use crate::chart::CanonicalView;

verus! {

/// One edge of a chart image.
#[derive(Clone, Copy, Debug, PartialEq, Eq, Structural)]
pub enum ImageEdge {
    Left,
    Right,
    Top,
    Bottom,
}

#[derive(Clone, Copy, Debug, PartialEq, Eq, Structural)]
pub enum WorldAxis {
    X,
    Y,
    Z,
}

#[derive(Clone, Copy, Debug, PartialEq, Eq, Structural)]
pub enum AxisSide {
    Min,
    Max,
}

/// One face plane of the model box: an axis and which end of it.
#[derive(Clone, Copy, Debug, PartialEq, Eq, Structural)]
pub struct WorldEdge {
    pub axis: WorldAxis,
    pub side: AxisSide,
}

#[derive(Clone, Copy, Debug, PartialEq, Eq, Structural)]
pub enum ResizeDelta {
    Add,
    Remove,
}

/// Grow or shrink the model by one pixel at the world edge under `edge` of `view`.
#[derive(Clone, Copy, Debug, PartialEq, Eq, Structural)]
pub struct ResizeRequest {
    pub view: CanonicalView,
    pub edge: ImageEdge,
    pub delta: ResizeDelta,
}

/// Whether a removal may discard authored texels.
#[derive(Clone, Copy, Debug, PartialEq, Eq, Structural)]
pub enum DiscardPolicy {
    Reject,
    Allow,
}

#[derive(Clone, Copy, Debug, PartialEq, Eq, Structural)]
pub struct ChartEdge {
    pub view: CanonicalView,
    pub edge: ImageEdge,
}

/// What a chart reassigned to another view holds.
#[derive(Clone, Copy, Debug, PartialEq, Eq, Structural)]
pub enum ReassignMode {
    Preserve,
    RecreateEmpty,
}

} // verus!
