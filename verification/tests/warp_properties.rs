use std::f64::consts::PI;

use depthsprite::{
    Bounds, CanonicalView, Chart, FrameInverse, Rational, ReliefField, SourcePoint, WarpCoefficients,
    RELIEF_UNITS_PER_PIXEL,
};
use num_integer::Integer;
use num_rational::Ratio;

fn ratio(value: Rational) -> Ratio<i64> {
    Ratio::new(value.numer(), value.denom())
}

/// Source point along the inverse line at parameter `p`, reconstructed from
/// the exact per-variable `[offset, slope]` coefficients of a frame inverse.
fn source_at(variables: &[[Rational; 2]; 3], p: Rational) -> (Ratio<i64>, Ratio<i64>) {
    (
        ratio(variables[0][0]) + ratio(variables[0][1]) * ratio(p),
        ratio(variables[1][0]) + ratio(variables[1][1]) * ratio(p),
    )
}

/// Relief along the inverse line at parameter `p`.
fn relief_at(variables: &[[Rational; 2]; 3], p: Rational) -> Ratio<i64> {
    ratio(variables[2][0]) + ratio(variables[2][1]) * ratio(p)
}

fn source(point: &SourcePoint) -> (Ratio<i64>, Ratio<i64>) {
    (ratio(point.x), ratio(point.y))
}

fn alpha(relief_eighths: u8) -> u8 {
    255 - relief_eighths
}

#[test]
fn direct_warp_is_flat_transform_plus_relief_parallax() {
    let warp = WarpCoefficients::new([[1, 0, 10], [0, 1, 20]], [2, -1], [0, 0, 1], 3);
    let sample = warp.apply(
        SourcePoint::new(Rational::from_integer(4), Rational::from_integer(5)),
        Rational::from_integer(8),
    );

    assert_eq!(sample.screen_x, Rational::from_integer(30));
    assert_eq!(sample.screen_y, Rational::from_integer(17));
    assert_eq!(sample.depth, Rational::from_integer(25));
}

#[test]
fn direct_warp_keeps_fractional_source_and_relief_exact() {
    let warp = WarpCoefficients::new([[3, -2, 1], [-1, 4, -3]], [-2, 5], [2, 1, 7], -3);
    let sample = warp.apply(
        SourcePoint::new(Rational::new(1, 3), Rational::new(5, 2)),
        Rational::new(7, 4),
    );

    assert_eq!(sample.screen_x, Rational::new(-13, 2));
    assert_eq!(sample.screen_y, Rational::new(185, 12));
    assert_eq!(sample.depth, Rational::new(59, 12));
}

#[test]
fn owning_foreground_cell_has_an_exact_one_sided_closure_limit() {
    let chart = Chart::from_rgba(
        CanonicalView::Front,
        2,
        1,
        vec![[1, 2, 3, alpha(6)], [0, 0, 0, 0]],
    )
    .unwrap();
    let field = ReliefField::new(&chart);
    let public_boundary = SourcePoint::new(Rational::from_integer(1), Rational::from_integer(1));

    assert_eq!(field.sample(public_boundary.x, public_boundary.y), None);
    assert_eq!(
        field
            .foreground_cell(0, 0)
            .unwrap()
            .sample_closure(public_boundary),
        Some(Rational::from_integer(6))
    );
}

#[test]
fn closure_limit_uses_only_the_owning_foreground_component() {
    let chart = Chart::from_rgba(
        CanonicalView::Front,
        3,
        1,
        vec![[1, 0, 0, alpha(2)], [0, 0, 0, 0], [2, 0, 0, alpha(30)]],
    )
    .unwrap();
    let field = ReliefField::new(&chart);

    assert_eq!(
        field
            .foreground_cell(0, 0)
            .unwrap()
            .sample_closure(SourcePoint::new(Rational::from_integer(1), Rational::new(1, 2))),
        Some(Rational::from_integer(2))
    );
    assert_eq!(
        field
            .foreground_cell(2, 0)
            .unwrap()
            .sample_closure(SourcePoint::new(Rational::from_integer(2), Rational::new(1, 2))),
        Some(Rational::from_integer(30))
    );
}

#[test]
fn direct_warp_accepts_exact_rational_camera_coefficients() {
    let zero = Rational::from_integer(0);
    let warp = WarpCoefficients::from_rational(
        [
            [Rational::new(1, 2), zero, Rational::new(3, 2)],
            [zero, Rational::new(1, 4), Rational::from_integer(-2)],
        ],
        [Rational::new(1, 8), Rational::new(-1, 8)],
        [zero, zero, Rational::from_integer(3)],
        Rational::new(1, 8),
    );

    let sample = warp.apply(
        SourcePoint::new(Rational::from_integer(2), Rational::from_integer(4)),
        Rational::from_integer(8),
    );

    assert_eq!(sample.screen_x, Rational::new(7, 2));
    assert_eq!(sample.screen_y, Rational::from_integer(-2));
    assert_eq!(sample.depth, Rational::from_integer(4));
}

#[test]
fn inverse_warp_line_recovers_a_known_preimage_with_its_selected_parameter() {
    let warp = WarpCoefficients::new([[2, 1, 3], [-1, 2, 5]], [3, -2], [4, -3, 7], 5);
    let source_point = SourcePoint::new(Rational::new(3, 2), Rational::new(5, 4));
    let relief = Rational::new(7, 3);
    let warped = warp.apply(source_point, relief);

    let frame = warp
        .prepare_inverse()
        .expect("front-facing affine chart transform is invertible")
        .inverse_frame(warped.screen_x, warped.screen_y, 1, 1);
    let variables = frame.variable_coefficients_exact(0, 0);

    assert_eq!(source_at(&variables, source_point.x), source(&source_point));
    assert_eq!(relief_at(&variables, source_point.x), ratio(relief));
    assert_eq!(frame.depth_at(0, 0, source_point.x), warped.depth);
}

#[test]
fn inverse_warp_line_uses_source_y_as_parameter_when_x_and_relief_span_screen() {
    let warp = WarpCoefficients::new([[2, 0, 3], [0, 0, -4]], [0, 5], [7, 11, 13], 17);
    let source_point = SourcePoint::new(Rational::new(3, 2), Rational::new(5, 4));
    let relief = Rational::new(7, 3);
    let warped = warp.apply(source_point, relief);

    let frame = warp
        .prepare_inverse()
        .expect("source x and relief form a rank-two projected map")
        .inverse_frame(warped.screen_x, warped.screen_y, 1, 1);
    let variables = frame.variable_coefficients_exact(0, 0);

    assert_eq!(source_at(&variables, source_point.y), source(&source_point));
    assert_eq!(frame.depth_at(0, 0, source_point.y), warped.depth);
}

#[test]
fn inverse_warp_line_uses_source_x_as_parameter_at_exact_canonical_edge_on() {
    let warp = WarpCoefficients::new([[0, 0, 3], [0, 4, -4]], [5, 0], [7, 11, 13], 17);
    let source_point = SourcePoint::new(Rational::new(3, 2), Rational::new(5, 4));
    let relief = Rational::new(7, 3);
    let warped = warp.apply(source_point, relief);

    let frame = warp
        .prepare_inverse()
        .expect("source y and relief form a rank-two projected map")
        .inverse_frame(warped.screen_x, warped.screen_y, 1, 1);
    let variables = frame.variable_coefficients_exact(0, 0);

    assert_eq!(source_at(&variables, source_point.x), source(&source_point));
    assert_eq!(frame.depth_at(0, 0, source_point.x), warped.depth);
}

#[test]
fn inverse_warp_line_rejects_a_rank_one_projected_map() {
    let warp = WarpCoefficients::new([[2, 4, 3], [0, 0, -4]], [6, 0], [7, 11, 13], 17);

    // Singularity is a property of the matrix alone, so it is rejected once at
    // preparation time rather than per pixel.
    assert!(warp.prepare_inverse().is_none());
}

#[test]
fn inverse_warp_line_exposes_every_affine_coordinate_and_transient_depth() {
    let warp = WarpCoefficients::new([[2, 0, 3], [0, 0, -4]], [0, 5], [7, 11, 13], 17);
    let source_point = SourcePoint::new(Rational::new(3, 2), Rational::new(5, 4));
    let relief = Rational::new(7, 3);
    let warped = warp.apply(source_point, relief);
    let frame = warp
        .prepare_inverse()
        .expect("source x and relief form a rank-two projected map")
        .inverse_frame(warped.screen_x, warped.screen_y, 1, 1);
    let variables = frame.variable_coefficients_exact(0, 0);

    assert_eq!(
        variables,
        [
            [Rational::new(3, 2), Rational::from_integer(0)],
            [Rational::from_integer(0), Rational::from_integer(1)],
            [Rational::new(7, 3), Rational::from_integer(0)],
        ]
    );
    assert_eq!(
        frame.depth_coefficients_exact(0, 0),
        [Rational::new(379, 6), Rational::from_integer(11)]
    );
    assert_eq!(relief_at(&variables, Rational::new(5, 4)), Ratio::new(7, 3));
}

#[test]
fn inverse_warp_line_selects_the_largest_determinant_with_stable_ties() {
    let warp = WarpCoefficients::new([[1, 0, 0], [0, 1, 0]], [100, 100], [0, 0, 0], 1);
    let warped = warp.apply(
        SourcePoint::new(Rational::from_integer(2), Rational::from_integer(3)),
        Rational::from_integer(5),
    );
    let frame = warp
        .prepare_inverse()
        .expect("every projected column pair has rank two")
        .inverse_frame(warped.screen_x, warped.screen_y, 1, 1);

    assert_eq!(
        frame.variable_coefficients_exact(0, 0),
        [
            [Rational::from_integer(-1), Rational::from_integer(1)],
            [Rational::from_integer(0), Rational::from_integer(1)],
            [Rational::new(503, 100), Rational::new(-1, 100)],
        ],
        "(x,h) must beat the smaller (x,y) determinant and win its tie with (y,h)"
    );
}

#[test]
fn frame_offsets_step_by_their_screen_derivatives_per_pixel() {
    // Identity screen map with parallax along x: source y is the free variable.
    let warp = WarpCoefficients::new([[1, 0, 0], [0, 1, 0]], [1, 0], [0, 0, 1], 1);
    let frame = warp
        .prepare_inverse()
        .expect("source x and source y are independent")
        .inverse_frame(Rational::new(1, 2), Rational::new(1, 2), 4, 4);
    let origin = frame.variable_coefficients_exact(0, 0);
    let moved = frame.variable_coefficients_exact(3, 2);
    for variable in 0..3 {
        assert_eq!(origin[variable][1], moved[variable][1]);
    }
    // Pixel (3, 2) sits at screen (7/2, 5/2): source x there is 7/2 less the relief.
    assert_eq!(moved[0], [Rational::new(7, 2), Rational::from_integer(-1)]);
    assert_eq!(moved[1], [Rational::new(5, 2), Rational::from_integer(0)]);
    assert_eq!(ratio(moved[0][0]) - ratio(origin[0][0]), Ratio::from_integer(3));
    // Depth is one plus the relief, whatever the pixel.
    assert_eq!(frame.depth_at(3, 2, Rational::from_integer(1)), Rational::from_integer(2));
}

#[test]
fn rational_values_are_kept_in_lowest_terms() {
    let half = Rational::new(-4, -8);
    assert_eq!((half.numer(), half.denom()), (1, 2));
    let negative = Rational::new(6, -4);
    assert_eq!((negative.numer(), negative.denom()), (-3, 2));
    assert!(Rational::new(0, 7).is_zero());
    assert_eq!(Rational::new(0, 7), Rational::from_integer(0));
}

/// `(screen_right, screen_down, depth)` rows of a camera.
type CameraRows = ([Ratio<i64>; 3], [Ratio<i64>; 3], [Ratio<i64>; 3]);

/// A camera-basis component quantized to denominator 1024, as the editor
/// quantizes its orbit camera.
fn quantized_ratio(value: f64) -> Ratio<i64> {
    const BASIS_DENOMINATOR: i64 = 1_024;
    Ratio::new((value * BASIS_DENOMINATOR as f64).round() as i64, BASIS_DENOMINATOR)
}

/// The editor's orbit-camera basis for a yaw and pitch in millidegrees.
fn editor_camera_basis(yaw_millidegrees: i32, pitch_millidegrees: i32) -> CameraRows {
    let yaw = f64::from(yaw_millidegrees) * PI / 180_000.0;
    let pitch = f64::from(pitch_millidegrees) * PI / 180_000.0;
    let (sin_yaw, cos_yaw) = yaw.sin_cos();
    let (sin_pitch, cos_pitch) = pitch.sin_cos();

    let screen_right = [cos_yaw, 0.0, sin_yaw].map(quantized_ratio);
    let screen_down = [sin_yaw * sin_pitch, cos_pitch, -cos_yaw * sin_pitch].map(quantized_ratio);
    let depth = [-sin_yaw * cos_pitch, sin_pitch, cos_yaw * cos_pitch].map(quantized_ratio);
    (screen_right, screen_down, depth)
}

fn dot(a: &[Ratio<i64>; 3], b: &[Ratio<i64>; 3]) -> Ratio<i64> {
    a.iter().zip(b).fold(Ratio::from_integer(0), |sum, (left, right)| sum + *left * *right)
}

fn rational(value: Ratio<i64>) -> Rational {
    Rational::new(*value.numer(), *value.denom())
}

/// A camera composed with a chart's canonical frame.
fn warp_coefficients_for(camera: &CameraRows, view: CanonicalView, bounds: Bounds) -> WarpCoefficients {
    let (screen_right, screen_down, depth) = camera;
    let frame = view.frame(bounds);
    let origin = frame.origin.map(Ratio::from_integer);
    let source_x = frame.source_u.map(Ratio::from_integer);
    let source_y = frame.source_v.map(Ratio::from_integer);
    let inward = frame.inward.map(Ratio::from_integer);
    let relief_unit = Ratio::new(1, RELIEF_UNITS_PER_PIXEL);

    WarpCoefficients::from_rational(
        [
            [
                rational(dot(screen_right, &source_x)),
                rational(dot(screen_right, &source_y)),
                rational(dot(screen_right, &origin)),
            ],
            [
                rational(dot(screen_down, &source_x)),
                rational(dot(screen_down, &source_y)),
                rational(dot(screen_down, &origin)),
            ],
        ],
        [
            rational(dot(screen_right, &inward) * relief_unit),
            rational(dot(screen_down, &inward) * relief_unit),
        ],
        [
            rational(dot(depth, &source_x)),
            rational(dot(depth, &source_y)),
            rational(dot(depth, &origin)),
        ],
        rational(dot(depth, &inward) * relief_unit),
    )
}

/// The screen origin of a `side` by `side` frame centered on the projected
/// extents of `bounds`.
fn frame_origin(camera: &CameraRows, bounds: Bounds, side: i64) -> (Rational, Rational) {
    let (screen_right, screen_down, _depth) = camera;
    let axes = [
        [0i64, i64::from(bounds.width())],
        [0i64, i64::from(bounds.height())],
        [0i64, i64::from(bounds.depth())],
    ];
    let mut extents: Option<(Ratio<i64>, Ratio<i64>, Ratio<i64>, Ratio<i64>)> = None;
    for x in axes[0] {
        for y in axes[1] {
            for z in axes[2] {
                let corner = [Ratio::from_integer(x), Ratio::from_integer(y), Ratio::from_integer(z)];
                let screen_x = dot(screen_right, &corner);
                let screen_y = dot(screen_down, &corner);
                extents = Some(match extents {
                    None => (screen_x, screen_x, screen_y, screen_y),
                    Some((min_x, max_x, min_y, max_y)) => (
                        min_x.min(screen_x),
                        max_x.max(screen_x),
                        min_y.min(screen_y),
                        max_y.max(screen_y),
                    ),
                });
            }
        }
    }
    let (min_x, max_x, min_y, max_y) = extents.unwrap();
    let offset_x = Ratio::new(side, 2) - (min_x + max_x) / 2;
    let offset_y = Ratio::new(side, 2) - (min_y + max_y) / 2;
    (rational(Ratio::new(1, 2) - offset_x), rational(Ratio::new(1, 2) - offset_y))
}

fn wide(value: Rational) -> Ratio<i128> {
    Ratio::new(i128::from(value.numer()), i128::from(value.denom()))
}

/// Every offset of `frame`, written over the common denominator of its value
/// and its two per-pixel steps, keeps that denominator and its numerators at
/// the corners of the `side` by `side` frame within the `f64`-exact range.
fn f64_exact_over_frame(frame: &FrameInverse, side: u32) -> bool {
    const LIMIT: i128 = 1 << 53;
    let origin = frame.variable_coefficients_exact(0, 0);
    let right = frame.variable_coefficients_exact(1, 0);
    let down = frame.variable_coefficients_exact(0, 1);
    let last = i128::from(side - 1);
    (0..3).all(|variable| {
        let constant = wide(origin[variable][0]);
        let step_x = wide(right[variable][0]) - constant;
        let step_y = wide(down[variable][0]) - constant;
        let denominator = constant.denom().lcm(step_x.denom()).lcm(step_y.denom());
        denominator <= LIMIT
            && [(0, 0), (last, 0), (0, last), (last, last)].iter().all(|&(x, y)| {
                let numerator = (constant + step_x * Ratio::from_integer(x) + step_y * Ratio::from_integer(y))
                    * Ratio::from_integer(denominator);
                numerator.is_integer() && numerator.numer().abs() <= LIMIT
            })
    })
}

#[test]
fn editor_camera_domain_never_trips_fixed_point_certification() {
    const FRAME_SIDE: u32 = 1024;
    const YAW_MIN: i32 = -180_000;
    const YAW_MAX: i32 = 180_000;
    const PITCH_MIN: i32 = -80_000;
    const PITCH_MAX: i32 = 80_000;
    const STEP: i32 = 5_000;

    let views = [
        CanonicalView::Front,
        CanonicalView::Back,
        CanonicalView::Left,
        CanonicalView::Right,
        CanonicalView::Top,
        CanonicalView::Bottom,
    ];
    let bounds_list = [
        Bounds::new(63, 63, 63).unwrap(),
        Bounds::new(63, 1, 63).unwrap(),
        Bounds::new(1, 63, 63).unwrap(),
    ];

    let mut combinations = 0usize;
    let mut yaw = YAW_MIN;
    while yaw < YAW_MAX {
        let mut pitch = PITCH_MIN;
        while pitch <= PITCH_MAX {
            let camera = editor_camera_basis(yaw, pitch);
            for &bounds in &bounds_list {
                let origin = frame_origin(&camera, bounds, i64::from(FRAME_SIDE));
                for &view in &views {
                    let warp = warp_coefficients_for(&camera, view, bounds);
                    let prepared = warp.prepare_inverse().unwrap_or_else(|| {
                        panic!(
                            "camera (yaw {yaw}md, pitch {pitch}md) is singular against {view:?} at bounds {bounds:?}"
                        )
                    });
                    let frame = prepared.inverse_frame(origin.0, origin.1, FRAME_SIDE, FRAME_SIDE);
                    assert!(
                        f64_exact_over_frame(&frame, FRAME_SIDE),
                        "camera (yaw {yaw}md, pitch {pitch}md) against {view:?} at bounds {bounds:?} \
                         leaves the f64-exact range"
                    );
                    combinations += 1;
                }
            }
            pitch += STEP;
        }
        yaw += STEP;
    }

    assert_eq!(combinations, 72 * 33 * 3 * 6, "grid shape drifted from the yaw x pitch x bounds x view coverage");
}

#[test]
fn checked_inverse_frame_accepts_small_frames_and_refuses_inexact_ones() {
    let warp = WarpCoefficients::new([[2, 1, 3], [-1, 2, 5]], [3, -2], [4, -3, 7], 5);
    let warped = warp.apply(SourcePoint::new(Rational::new(3, 2), Rational::new(5, 4)), Rational::new(7, 3));
    let prepared = warp.prepare_inverse().expect("front-facing affine chart transform is invertible");

    assert!(prepared.frame_accepted(warped.screen_x, warped.screen_y, 1, 1));
    assert_eq!(
        prepared.checked_inverse_frame(warped.screen_x, warped.screen_y, 1, 1),
        Some(prepared.inverse_frame(warped.screen_x, warped.screen_y, 1, 1))
    );

    // A fine origin over a very wide frame pushes the corner numerators
    // past the f64-exact bound.
    let fine = Rational::new(1, 1 << 40);
    assert!(!prepared.frame_accepted(fine, Rational::from_integer(0), u32::MAX, 1));
    assert_eq!(prepared.checked_inverse_frame(fine, Rational::from_integer(0), u32::MAX, 1), None);
}

#[test]
fn checked_prepare_inverse_refuses_factorings_that_leave_i64() {
    let warp = WarpCoefficients::new([[2, 1, 3], [-1, 2, 5]], [3, -2], [4, -3, 7], 5);
    assert!(warp.prepare_accepted());
    assert_eq!(warp.checked_prepare_inverse(), Some(warp.prepare_inverse()));

    let huge = i64::MAX / 2;
    let overflowing = WarpCoefficients::new([[huge, 3, 1], [5, huge, 1]], [7, 11], [1, 1, 1], 1);
    assert!(!overflowing.prepare_accepted());
    assert_eq!(overflowing.checked_prepare_inverse(), None);
}
