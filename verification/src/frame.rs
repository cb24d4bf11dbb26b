use vstd::prelude::*;

use crate::chart::{Bounds, CanonicalView};
use crate::resize::{AxisSide, ImageEdge, WorldAxis, WorldEdge};

verus! {

/// The signed integer plane a view's chart is registered on: texel `(u, v)`
/// with relief `h` pixels lies at `origin + u * source_u + v * source_v + h * inward`.
#[derive(Clone, Copy, Debug, PartialEq, Eq)]
pub struct CanonicalFrame {
    pub origin: [i64; 3],
    pub source_u: [i64; 3],
    pub source_v: [i64; 3],
    pub inward: [i64; 3],
}

pub open spec fn world_edge_of(axis: WorldAxis, side: AxisSide) -> WorldEdge {
    WorldEdge { axis, side }
}

impl CanonicalView {
    /// The box face that image edge `edge` of this view lies on.
    pub open spec fn spec_world_edge(self, edge: ImageEdge) -> WorldEdge {
        match (self, edge) {
            (CanonicalView::Front, ImageEdge::Left)
            | (CanonicalView::Top, ImageEdge::Left)
            | (CanonicalView::Bottom, ImageEdge::Left) => world_edge_of(WorldAxis::X, AxisSide::Min),
            (CanonicalView::Front, ImageEdge::Right)
            | (CanonicalView::Top, ImageEdge::Right)
            | (CanonicalView::Bottom, ImageEdge::Right) => world_edge_of(WorldAxis::X, AxisSide::Max),
            (CanonicalView::Back, ImageEdge::Left) => world_edge_of(WorldAxis::X, AxisSide::Max),
            (CanonicalView::Back, ImageEdge::Right) => world_edge_of(WorldAxis::X, AxisSide::Min),
            (CanonicalView::Left, ImageEdge::Left) => world_edge_of(WorldAxis::Z, AxisSide::Min),
            (CanonicalView::Left, ImageEdge::Right) => world_edge_of(WorldAxis::Z, AxisSide::Max),
            (CanonicalView::Right, ImageEdge::Left) => world_edge_of(WorldAxis::Z, AxisSide::Max),
            (CanonicalView::Right, ImageEdge::Right) => world_edge_of(WorldAxis::Z, AxisSide::Min),
            (CanonicalView::Top, ImageEdge::Top) => world_edge_of(WorldAxis::Z, AxisSide::Min),
            (CanonicalView::Top, ImageEdge::Bottom) => world_edge_of(WorldAxis::Z, AxisSide::Max),
            (CanonicalView::Bottom, ImageEdge::Top) => world_edge_of(WorldAxis::Z, AxisSide::Max),
            (CanonicalView::Bottom, ImageEdge::Bottom) => world_edge_of(WorldAxis::Z, AxisSide::Min),
            (_, ImageEdge::Top) => world_edge_of(WorldAxis::Y, AxisSide::Min),
            (_, ImageEdge::Bottom) => world_edge_of(WorldAxis::Y, AxisSide::Max),
        }
    }

    #[verifier::when_used_as_spec(spec_world_edge)]
    pub fn world_edge(self, edge: ImageEdge) -> (world: WorldEdge)
        ensures
            world == self.spec_world_edge(edge),
    {
        match (self, edge) {
            (CanonicalView::Front, ImageEdge::Left)
            | (CanonicalView::Top, ImageEdge::Left)
            | (CanonicalView::Bottom, ImageEdge::Left) => WorldEdge { axis: WorldAxis::X, side: AxisSide::Min },
            (CanonicalView::Front, ImageEdge::Right)
            | (CanonicalView::Top, ImageEdge::Right)
            | (CanonicalView::Bottom, ImageEdge::Right) => WorldEdge { axis: WorldAxis::X, side: AxisSide::Max },
            (CanonicalView::Back, ImageEdge::Left) => WorldEdge { axis: WorldAxis::X, side: AxisSide::Max },
            (CanonicalView::Back, ImageEdge::Right) => WorldEdge { axis: WorldAxis::X, side: AxisSide::Min },
            (CanonicalView::Left, ImageEdge::Left) => WorldEdge { axis: WorldAxis::Z, side: AxisSide::Min },
            (CanonicalView::Left, ImageEdge::Right) => WorldEdge { axis: WorldAxis::Z, side: AxisSide::Max },
            (CanonicalView::Right, ImageEdge::Left) => WorldEdge { axis: WorldAxis::Z, side: AxisSide::Max },
            (CanonicalView::Right, ImageEdge::Right) => WorldEdge { axis: WorldAxis::Z, side: AxisSide::Min },
            (CanonicalView::Top, ImageEdge::Top) => WorldEdge { axis: WorldAxis::Z, side: AxisSide::Min },
            (CanonicalView::Top, ImageEdge::Bottom) => WorldEdge { axis: WorldAxis::Z, side: AxisSide::Max },
            (CanonicalView::Bottom, ImageEdge::Top) => WorldEdge { axis: WorldAxis::Z, side: AxisSide::Max },
            (CanonicalView::Bottom, ImageEdge::Bottom) => WorldEdge { axis: WorldAxis::Z, side: AxisSide::Min },
            (_, ImageEdge::Top) => WorldEdge { axis: WorldAxis::Y, side: AxisSide::Min },
            (_, ImageEdge::Bottom) => WorldEdge { axis: WorldAxis::Y, side: AxisSide::Max },
        }
    }

    /// The image edge of this view that lies on box face `edge`; none when the
    /// face is perpendicular to the view's image plane.
    pub open spec fn spec_image_edge(self, edge: WorldEdge) -> Option<ImageEdge> {
        match (self, edge.axis, edge.side) {
            (CanonicalView::Front, WorldAxis::X, AxisSide::Min)
            | (CanonicalView::Top, WorldAxis::X, AxisSide::Min)
            | (CanonicalView::Bottom, WorldAxis::X, AxisSide::Min) => Some(ImageEdge::Left),
            (CanonicalView::Front, WorldAxis::X, AxisSide::Max)
            | (CanonicalView::Top, WorldAxis::X, AxisSide::Max)
            | (CanonicalView::Bottom, WorldAxis::X, AxisSide::Max) => Some(ImageEdge::Right),
            (CanonicalView::Back, WorldAxis::X, AxisSide::Min) => Some(ImageEdge::Right),
            (CanonicalView::Back, WorldAxis::X, AxisSide::Max) => Some(ImageEdge::Left),
            (CanonicalView::Left, WorldAxis::Z, AxisSide::Min) => Some(ImageEdge::Left),
            (CanonicalView::Left, WorldAxis::Z, AxisSide::Max) => Some(ImageEdge::Right),
            (CanonicalView::Right, WorldAxis::Z, AxisSide::Min) => Some(ImageEdge::Right),
            (CanonicalView::Right, WorldAxis::Z, AxisSide::Max) => Some(ImageEdge::Left),
            (CanonicalView::Top, WorldAxis::Z, AxisSide::Min) => Some(ImageEdge::Top),
            (CanonicalView::Top, WorldAxis::Z, AxisSide::Max) => Some(ImageEdge::Bottom),
            (CanonicalView::Bottom, WorldAxis::Z, AxisSide::Min) => Some(ImageEdge::Bottom),
            (CanonicalView::Bottom, WorldAxis::Z, AxisSide::Max) => Some(ImageEdge::Top),
            (CanonicalView::Front, WorldAxis::Y, AxisSide::Min)
            | (CanonicalView::Back, WorldAxis::Y, AxisSide::Min)
            | (CanonicalView::Left, WorldAxis::Y, AxisSide::Min)
            | (CanonicalView::Right, WorldAxis::Y, AxisSide::Min) => Some(ImageEdge::Top),
            (CanonicalView::Front, WorldAxis::Y, AxisSide::Max)
            | (CanonicalView::Back, WorldAxis::Y, AxisSide::Max)
            | (CanonicalView::Left, WorldAxis::Y, AxisSide::Max)
            | (CanonicalView::Right, WorldAxis::Y, AxisSide::Max) => Some(ImageEdge::Bottom),
            _ => None,
        }
    }

    #[verifier::when_used_as_spec(spec_image_edge)]
    pub fn image_edge(self, edge: WorldEdge) -> (image: Option<ImageEdge>)
        ensures
            image == self.spec_image_edge(edge),
    {
        match (self, edge.axis, edge.side) {
            (CanonicalView::Front, WorldAxis::X, AxisSide::Min)
            | (CanonicalView::Top, WorldAxis::X, AxisSide::Min)
            | (CanonicalView::Bottom, WorldAxis::X, AxisSide::Min) => Some(ImageEdge::Left),
            (CanonicalView::Front, WorldAxis::X, AxisSide::Max)
            | (CanonicalView::Top, WorldAxis::X, AxisSide::Max)
            | (CanonicalView::Bottom, WorldAxis::X, AxisSide::Max) => Some(ImageEdge::Right),
            (CanonicalView::Back, WorldAxis::X, AxisSide::Min) => Some(ImageEdge::Right),
            (CanonicalView::Back, WorldAxis::X, AxisSide::Max) => Some(ImageEdge::Left),
            (CanonicalView::Left, WorldAxis::Z, AxisSide::Min) => Some(ImageEdge::Left),
            (CanonicalView::Left, WorldAxis::Z, AxisSide::Max) => Some(ImageEdge::Right),
            (CanonicalView::Right, WorldAxis::Z, AxisSide::Min) => Some(ImageEdge::Right),
            (CanonicalView::Right, WorldAxis::Z, AxisSide::Max) => Some(ImageEdge::Left),
            (CanonicalView::Top, WorldAxis::Z, AxisSide::Min) => Some(ImageEdge::Top),
            (CanonicalView::Top, WorldAxis::Z, AxisSide::Max) => Some(ImageEdge::Bottom),
            (CanonicalView::Bottom, WorldAxis::Z, AxisSide::Min) => Some(ImageEdge::Bottom),
            (CanonicalView::Bottom, WorldAxis::Z, AxisSide::Max) => Some(ImageEdge::Top),
            (CanonicalView::Front, WorldAxis::Y, AxisSide::Min)
            | (CanonicalView::Back, WorldAxis::Y, AxisSide::Min)
            | (CanonicalView::Left, WorldAxis::Y, AxisSide::Min)
            | (CanonicalView::Right, WorldAxis::Y, AxisSide::Min) => Some(ImageEdge::Top),
            (CanonicalView::Front, WorldAxis::Y, AxisSide::Max)
            | (CanonicalView::Back, WorldAxis::Y, AxisSide::Max)
            | (CanonicalView::Left, WorldAxis::Y, AxisSide::Max)
            | (CanonicalView::Right, WorldAxis::Y, AxisSide::Max) => Some(ImageEdge::Bottom),
            _ => None,
        }
    }

    pub open spec fn spec_opposite(self) -> CanonicalView {
        match self {
            CanonicalView::Front => CanonicalView::Back,
            CanonicalView::Back => CanonicalView::Front,
            CanonicalView::Left => CanonicalView::Right,
            CanonicalView::Right => CanonicalView::Left,
            CanonicalView::Top => CanonicalView::Bottom,
            CanonicalView::Bottom => CanonicalView::Top,
        }
    }

    #[verifier::when_used_as_spec(spec_opposite)]
    pub fn opposite(self) -> (opposite: CanonicalView)
        ensures
            opposite == self.spec_opposite(),
    {
        match self {
            CanonicalView::Front => CanonicalView::Back,
            CanonicalView::Back => CanonicalView::Front,
            CanonicalView::Left => CanonicalView::Right,
            CanonicalView::Right => CanonicalView::Left,
            CanonicalView::Top => CanonicalView::Bottom,
            CanonicalView::Bottom => CanonicalView::Top,
        }
    }

    /// Half the model's extent along this view's inward axis, in eighth-pixel
    /// relief units: opposing charts meet at the midplane.
    pub open spec fn spec_maximum_inward_depth(self, bounds: Bounds) -> int {
        4 * match self {
            CanonicalView::Front | CanonicalView::Back => bounds.spec_depth() as int,
            CanonicalView::Left | CanonicalView::Right => bounds.spec_width() as int,
            CanonicalView::Top | CanonicalView::Bottom => bounds.spec_height() as int,
        }
    }

    pub fn maximum_inward_depth(self, bounds: Bounds) -> (maximum: u8)
        requires
            bounds.wf(),
        ensures
            maximum == self.spec_maximum_inward_depth(bounds),
    {
        let opposing_axis = match self {
            CanonicalView::Front | CanonicalView::Back => bounds.depth(),
            CanonicalView::Left | CanonicalView::Right => bounds.width(),
            CanonicalView::Top | CanonicalView::Bottom => bounds.height(),
        };
        (opposing_axis * 4) as u8
    }

    pub open spec fn spec_frame(self, bounds: Bounds) -> CanonicalFrame {
        let width = bounds.spec_width() as i64;
        let height = bounds.spec_height() as i64;
        let depth = bounds.spec_depth() as i64;
        match self {
            CanonicalView::Front => CanonicalFrame {
                origin: [0, 0, 0],
                source_u: [1, 0, 0],
                source_v: [0, 1, 0],
                inward: [0, 0, 1],
            },
            CanonicalView::Back => CanonicalFrame {
                origin: [width, 0, depth],
                source_u: [-1i64, 0, 0],
                source_v: [0, 1, 0],
                inward: [0, 0, -1i64],
            },
            CanonicalView::Left => CanonicalFrame {
                origin: [0, 0, 0],
                source_u: [0, 0, 1],
                source_v: [0, 1, 0],
                inward: [1, 0, 0],
            },
            CanonicalView::Right => CanonicalFrame {
                origin: [width, 0, depth],
                source_u: [0, 0, -1i64],
                source_v: [0, 1, 0],
                inward: [-1i64, 0, 0],
            },
            CanonicalView::Top => CanonicalFrame {
                origin: [0, 0, 0],
                source_u: [1, 0, 0],
                source_v: [0, 0, 1],
                inward: [0, 1, 0],
            },
            CanonicalView::Bottom => CanonicalFrame {
                origin: [0, height, depth],
                source_u: [1, 0, 0],
                source_v: [0, 0, -1i64],
                inward: [0, -1i64, 0],
            },
        }
    }

    #[verifier::when_used_as_spec(spec_frame)]
    pub fn frame(self, bounds: Bounds) -> (frame: CanonicalFrame)
        ensures
            frame == self.spec_frame(bounds),
    {
        let width = bounds.width() as i64;
        let height = bounds.height() as i64;
        let depth = bounds.depth() as i64;
        match self {
            CanonicalView::Front => CanonicalFrame {
                origin: [0, 0, 0],
                source_u: [1, 0, 0],
                source_v: [0, 1, 0],
                inward: [0, 0, 1],
            },
            CanonicalView::Back => CanonicalFrame {
                origin: [width, 0, depth],
                source_u: [-1, 0, 0],
                source_v: [0, 1, 0],
                inward: [0, 0, -1],
            },
            CanonicalView::Left => CanonicalFrame {
                origin: [0, 0, 0],
                source_u: [0, 0, 1],
                source_v: [0, 1, 0],
                inward: [1, 0, 0],
            },
            CanonicalView::Right => CanonicalFrame {
                origin: [width, 0, depth],
                source_u: [0, 0, -1],
                source_v: [0, 1, 0],
                inward: [-1, 0, 0],
            },
            CanonicalView::Top => CanonicalFrame {
                origin: [0, 0, 0],
                source_u: [1, 0, 0],
                source_v: [0, 0, 1],
                inward: [0, 1, 0],
            },
            CanonicalView::Bottom => CanonicalFrame {
                origin: [0, height, depth],
                source_u: [1, 0, 0],
                source_v: [0, 0, -1],
                inward: [0, -1, 0],
            },
        }
    }
}

/// Opposite views are an involution without fixed points.
pub proof fn lemma_opposite_involution(view: CanonicalView)
    ensures
        view.spec_opposite().spec_opposite() == view,
        view.spec_opposite() != view,
{
}

/// Every image edge round-trips through the box face it lies on.
pub proof fn lemma_edge_round_trip(view: CanonicalView, edge: ImageEdge)
    ensures
        view.spec_image_edge(view.spec_world_edge(edge)) == Some(edge),
{
}

/// Opposite views share every box face they both touch, and the resize
/// of a face changes exactly the views whose images touch it.
pub proof fn lemma_opposite_views_share_faces(view: CanonicalView, world: WorldEdge)
    ensures
        (view.spec_image_edge(world) is Some) == (view.spec_opposite().spec_image_edge(world) is Some),
{
}

/// Opposite views register their charts at the same image dimensions.
pub proof fn lemma_opposite_dimensions(view: CanonicalView, bounds: Bounds)
    ensures
        view.spec_opposite().spec_dimensions(bounds) == view.spec_dimensions(bounds),
{
}

/// The deepest relief of two opposite views together spans the whole box.
pub proof fn lemma_opposite_maxima_meet(view: CanonicalView, bounds: Bounds)
    ensures
        view.spec_maximum_inward_depth(bounds) == view.spec_opposite().spec_maximum_inward_depth(bounds),
        2 * view.spec_maximum_inward_depth(bounds) == 8 * (match view {
            CanonicalView::Front | CanonicalView::Back => bounds.spec_depth() as int,
            CanonicalView::Left | CanonicalView::Right => bounds.spec_width() as int,
            CanonicalView::Top | CanonicalView::Bottom => bounds.spec_height() as int,
        }),
{
}


/// The coordinate index of a world axis.
pub open spec fn axis_index(axis: WorldAxis) -> int {
    match axis {
        WorldAxis::X => 0,
        WorldAxis::Y => 1,
        WorldAxis::Z => 2,
    }
}

/// The coordinate of box face `edge` along its axis: zero at the minimum
/// side, the box's extent at the maximum side.
pub open spec fn face_coordinate(bounds: Bounds, edge: WorldEdge) -> int {
    match edge.side {
        AxisSide::Min => 0,
        AxisSide::Max => match edge.axis {
            WorldAxis::X => bounds.spec_width() as int,
            WorldAxis::Y => bounds.spec_height() as int,
            WorldAxis::Z => bounds.spec_depth() as int,
        },
    }
}

/// Coordinate `k` of the point at position `t` along image edge `edge` of a
/// `width` by `height` image registered on `frame`, at zero relief.
pub open spec fn edge_point_coordinate(
    frame: CanonicalFrame,
    width: int,
    height: int,
    edge: ImageEdge,
    t: int,
    k: int,
) -> int {
    let (u, v) = (frame.source_u[k] as int, frame.source_v[k] as int);
    frame.origin[k] as int + match edge {
        ImageEdge::Left => t * v,
        ImageEdge::Right => width * u + t * v,
        ImageEdge::Top => t * u,
        ImageEdge::Bottom => height * v + t * u,
    }
}

/// The image axis that crosses image edge `edge`: `source_u` for the left
/// and right edges, `source_v` for the top and bottom ones.
pub open spec fn crossing_axis(frame: CanonicalFrame, edge: ImageEdge) -> [i64; 3] {
    match edge {
        ImageEdge::Left | ImageEdge::Right => frame.source_u,
        ImageEdge::Top | ImageEdge::Bottom => frame.source_v,
    }
}

/// Scaling by zero or a unit.
proof fn lemma_unit_scale(t: int, v: int)
    ensures
        v == 0 ==> t * v == 0,
        v == 1 ==> t * v == t,
        v == -1 ==> t * v == -t,
{
    assert(v == 0 ==> t * v == 0) by (nonlinear_arith);
    assert(v == 1 ==> t * v == t) by (nonlinear_arith);
    assert(v == -1 ==> t * v == -t) by (nonlinear_arith);
}

/// The face table agrees with the frames: every point of image edge `edge`
/// of a view's registered image lies on the box face `world_edge(edge)`, and
/// the image axis crossing that edge runs along the face's axis.
pub proof fn lemma_world_edge_matches_frame(view: CanonicalView, bounds: Bounds, edge: ImageEdge, t: int)
    ensures
        ({
            let frame = view.spec_frame(bounds);
            let (width, height) = view.spec_dimensions(bounds);
            let world = view.spec_world_edge(edge);
            let k = axis_index(world.axis);
            &&& edge_point_coordinate(frame, width as int, height as int, edge, t, k) == face_coordinate(bounds, world)
            &&& crossing_axis(frame, edge)[k] != 0
        }),
{
    let frame = view.spec_frame(bounds);
    let (width, height) = view.spec_dimensions(bounds);
    let k = axis_index(view.spec_world_edge(edge).axis);
    lemma_unit_scale(t, frame.source_u[k] as int);
    lemma_unit_scale(t, frame.source_v[k] as int);
    lemma_unit_scale(width as int, frame.source_u[k] as int);
    lemma_unit_scale(height as int, frame.source_v[k] as int);
    match edge {
        ImageEdge::Left => {},
        ImageEdge::Right => {},
        ImageEdge::Top => {},
        ImageEdge::Bottom => {},
    }
}

/// The face table's inverse agrees with the frames as well: the image edge
/// that `image_edge` gives for a box face lies on that face.
pub proof fn lemma_image_edge_matches_frame(view: CanonicalView, bounds: Bounds, world: WorldEdge, t: int)
    ensures
        view.spec_image_edge(world) matches Some(edge) ==> ({
            let frame = view.spec_frame(bounds);
            let (width, height) = view.spec_dimensions(bounds);
            edge_point_coordinate(frame, width as int, height as int, edge, t, axis_index(world.axis))
                == face_coordinate(bounds, world)
        }),
{
    if let Some(edge) = view.spec_image_edge(world) {
        lemma_world_edge_matches_frame(view, bounds, edge, t);
        match (view, edge) {
            (CanonicalView::Front, _) => {},
            (CanonicalView::Back, _) => {},
            (CanonicalView::Left, _) => {},
            (CanonicalView::Right, _) => {},
            (CanonicalView::Top, _) => {},
            (CanonicalView::Bottom, _) => {},
        }
    }
}

} // verus!
