//! Relief-sprite models: oriented RGBA charts whose inverted alpha encodes
//! inward relief, the authored model that owns them, exact rational warps
//! used to render them, and the integer fixture generators.

pub mod alpha;
pub mod capture;
pub mod chart;
pub mod component;
pub mod continuity;
pub mod diagnostic;
pub mod encoding;
pub mod field;
pub mod fixture;
pub mod frame;
pub mod framebuffer;
pub mod grid;
pub mod model;
pub mod ownership;
pub mod presets;
pub mod rational;
pub mod relief;
pub mod render;
pub mod resize;
pub mod sheet;
pub mod texture;
pub mod topology;
pub mod warp;

pub use alpha::{decode_rgba, DecodedTexel, RELIEF_UNITS_PER_PIXEL};
pub use capture::{
    assemble_model, captured_views, dilate_keep_mask, enforce_closure_invariant, masked_chart, CapturedSide, ClosureMask, ImportError, SideMode,
    SideModes, ALL_VIEWS,
};
pub use continuity::SideContinuity;
pub use encoding::{encode_png, frame_bytes, EncodeError};
pub use diagnostic::{append_diagnostics, RenderDiagnostic};
pub use chart::{Bounds, CanonicalView, Chart, ChartError, EMPTY_RGBA};
pub use component::{ComponentId, ComponentMap};
pub use fixture::block::block_model;
pub use fixture::bowl::bowl_model;
pub use fixture::dome::dome_model;
pub use fixture::globe::globe_model;
pub use fixture::gyroscope::gyroscope_model;
pub use fixture::tent::tent_model;
pub use frame::CanonicalFrame;
pub use framebuffer::{blit_nearest, commit_fragment, FragmentKey, FragmentOwner, FrameBuffer};
pub use model::{AuthoredModel, ModelError, ResolvedCharts};
pub use ownership::{ownership_fixpoint, OwnershipMasks};
pub use presets::{CameraBasis, TargetExtents, TargetView};
pub use rational::Rational;
pub use relief::{ForegroundCell, ReliefField};
pub use render::{commit_preimages, new_frame, pixel_center, screen_offsets, PreparedModel, RenderRequest};
pub use texture::{decode_image, PixelFormat, Texture};
pub use topology::{faces, PrimitiveMode};
pub use warp::{FrameInverse, PreparedInverse, SourcePoint, WarpCoefficients, WarpedSample};
pub use sheet::{
    sheet_layout, DirectionCount, RenderError, SheetError, SheetLayout, SheetRequest,
};
pub use resize::{
    AxisSide, ChartEdge, DiscardPolicy, ImageEdge, ReassignMode, ResizeDelta, ResizeRequest,
    WorldAxis, WorldEdge,
};
