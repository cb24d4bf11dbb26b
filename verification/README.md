# depthsprite

A model is a bundle of oriented RGBA sprites ("charts"): RGB supplies color
and inverted alpha supplies inward relief at eight units per model pixel.
This crate is the verified core of the format and of its renderer's exact
decisions, written in Verus: every function in `src/` carries a contract.
Verus proves each one, except the few functions of `src/rational.rs` that
call `num-rational`, whose contracts are trusted.

## Layout

- `src/alpha.rs`, `src/chart.rs`, `src/frame.rs`, `src/resize.rs`: texel
  decoding, bounds, charts, the canonical frames of the six sides and their
  edges.
- `src/model.rs`: the authored model — validation, opposite-side assignment,
  resolution, editing, resizing and reassignment, each failing without
  changing the model.
- `src/component.rs`, `src/relief.rs`: connected foreground regions and the
  exact tent-filtered relief field over them.
- `src/rational.rs`, `src/field.rs`: exact `i64` rationals in lowest terms,
  with the arithmetic delegated to `num-rational`, and the field laws of
  their values.
- `src/warp.rs`, `src/presets.rs`: camera presets, the exact forward warp of a
  chart, and the inverse line solved per camera and fixed per frame, with
  the proof that the inverse line through a warped point gives back the
  point, its relief and its depth. Every built-in camera is proved to stay
  within `i64` over any model, and any camera can be checked exactly
  (`camera_fits`); the pivot factoring and the fixing of a frame each have
  an exact runtime check (`prepare_accepted`, `frame_accepted`) and a
  checked form that returns `None` where a step would leave `i64` or an
  offset would not convert to `f64` exactly.
- `src/encoding.rs`: a frame's bytes in storage order and their PNG
  encoding through the `png` crate, whose output is trusted.
- `src/framebuffer.rs`, `src/diagnostic.rs`, `src/sheet.rs`, `src/render.rs`:
  depth-ordered fragment commits, nearest-neighbor blits, sheet layout and
  diagnostics, and the exact steps of a render: the frame, its framing, the
  prepared model and the commits of a pixel's preimages.
- `src/ownership.rs`: the ownership fixpoint of mesh import — which
  capture side keeps each covered texel, and which texels are banned at cut
  edges — over sweep orders and candidates computed in floating point.
- `src/capture.rs`, `src/continuity.rs`, `src/texture.rs`,
  `src/topology.rs`: the integer decisions of mesh import — side modes,
  closure dilation and the restoration of cut edges after it, which sides are captured, the assembly of captured
  sides into a model, texture decoding and primitive faces.
- `src/fixture/`: the example models, generated in integer arithmetic and
  proved to be valid models.
- `app/`: glTF loading, the floating-point capture pipeline, the
  floating-point preimage search of rendering, and the error
  types with their messages; it is type-checked against the library but not
  verified.
- `tests/`: tests of the library through its public interface.
