use depthsprite::{Bounds, CameraBasis, CanonicalView, Rational, SourcePoint, TargetView};
use num_rational::Ratio;

fn ratio(value: Rational) -> Ratio<i64> {
    Ratio::new(value.numer(), value.denom())
}

#[test]
fn front_is_identity_for_front_and_culls_edge_on_and_back_facing_charts() {
    let bounds = Bounds::new(2, 3, 4).unwrap();
    let target = TargetView::front();
    let warp = target.warp_coefficients(CanonicalView::Front, bounds);
    let sample = warp.apply(
        SourcePoint::new(Rational::new(1, 2), Rational::new(3, 2)),
        Rational::from_integer(8),
    );

    assert_eq!(sample.screen_x, Rational::new(1, 2));
    assert_eq!(sample.screen_y, Rational::new(3, 2));
    assert_eq!(sample.depth, Rational::from_integer(1));
}

#[test]
fn right_and_top_views_compose_signed_chart_frames() {
    let bounds = Bounds::new(2, 3, 4).unwrap();
    let source = SourcePoint::new(Rational::from_integer(1), Rational::new(1, 2));

    let right = TargetView::right()
        .warp_coefficients(CanonicalView::Right, bounds)
        .apply(source.clone(), Rational::from_integer(8));
    assert_eq!(right.screen_x, Rational::from_integer(-3));
    assert_eq!(right.screen_y, Rational::new(1, 2));
    assert_eq!(right.depth, Rational::from_integer(-1));

    let top = TargetView::top()
        .warp_coefficients(CanonicalView::Top, bounds)
        .apply(source, Rational::from_integer(8));
    assert_eq!(top.screen_x, Rational::from_integer(1));
    assert_eq!(top.screen_y, Rational::new(1, 2));
    assert_eq!(top.depth, Rational::from_integer(1));
}

#[test]
fn isometric_basis_is_exact_and_exposes_front_right_top_only() {
    let bounds = Bounds::new(4, 4, 4).unwrap();
    let target = TargetView::isometric();
    let front = target
        .warp_coefficients(CanonicalView::Front, bounds)
        .apply(
            SourcePoint::new(Rational::from_integer(2), Rational::from_integer(4)),
            Rational::from_integer(8),
        );

    assert_eq!(front.screen_x, Rational::new(3, 2));
    assert_eq!(front.screen_y, Rational::new(9, 4));
    assert_eq!(front.depth, Rational::from_integer(1));
}

#[test]
fn bowl_acceptance_depth_is_the_cross_product_of_its_projection_rows() {
    let bounds = Bounds::new(32, 16, 32).unwrap();
    let target = TargetView::bowl_acceptance();
    let warp = target.warp_coefficients(CanonicalView::Front, bounds);
    let origin = warp.apply(
        SourcePoint::new(Rational::from_integer(0), Rational::from_integer(0)),
        Rational::from_integer(0),
    );
    let world_x = warp.apply(
        SourcePoint::new(Rational::from_integer(1), Rational::from_integer(0)),
        Rational::from_integer(0),
    );
    let world_y = warp.apply(
        SourcePoint::new(Rational::from_integer(0), Rational::from_integer(1)),
        Rational::from_integer(0),
    );
    let world_z = warp.apply(
        SourcePoint::new(Rational::from_integer(0), Rational::from_integer(0)),
        Rational::from_integer(8),
    );
    let screen_right = [
        ratio(world_x.screen_x) - ratio(origin.screen_x),
        ratio(world_y.screen_x) - ratio(origin.screen_x),
        ratio(world_z.screen_x) - ratio(origin.screen_x),
    ];
    let screen_down = [
        ratio(world_x.screen_y) - ratio(origin.screen_y),
        ratio(world_y.screen_y) - ratio(origin.screen_y),
        ratio(world_z.screen_y) - ratio(origin.screen_y),
    ];
    let depth = [
        ratio(world_x.depth) - ratio(origin.depth),
        ratio(world_y.depth) - ratio(origin.depth),
        ratio(world_z.depth) - ratio(origin.depth),
    ];
    let cross = [
        screen_right[1] * screen_down[2] - screen_right[2] * screen_down[1],
        screen_right[2] * screen_down[0] - screen_right[0] * screen_down[2],
        screen_right[0] * screen_down[1] - screen_right[1] * screen_down[0],
    ];

    for index in 0..3 {
        assert_eq!(depth[index], cross[index] * 4);
    }
}

#[test]
fn back_left_and_bottom_presets_have_the_expected_mirroring() {
    let bounds = Bounds::new(2, 3, 4).unwrap();
    let source = SourcePoint::new(Rational::from_integer(1), Rational::from_integer(2));
    let relief = Rational::from_integer(8);

    let back = TargetView::back()
        .warp_coefficients(CanonicalView::Back, bounds)
        .apply(source.clone(), relief);
    assert_eq!(back.screen_x, Rational::from_integer(-1));
    assert_eq!(back.screen_y, Rational::from_integer(2));
    assert_eq!(back.depth, Rational::from_integer(-3));

    let left = TargetView::left()
        .warp_coefficients(CanonicalView::Left, bounds)
        .apply(source.clone(), relief);
    assert_eq!(left.screen_x, Rational::from_integer(1));
    assert_eq!(left.screen_y, Rational::from_integer(2));
    assert_eq!(left.depth, Rational::from_integer(1));

    let bottom = TargetView::bottom()
        .warp_coefficients(CanonicalView::Bottom, bounds)
        .apply(source, relief);
    assert_eq!(bottom.screen_x, Rational::from_integer(1));
    assert_eq!(bottom.screen_y, Rational::from_integer(-2));
    assert_eq!(bottom.depth, Rational::from_integer(-2));
}

#[test]
fn built_in_cameras_fit_and_oversized_cameras_are_detected() {
    for target in [
        TargetView::front(),
        TargetView::right(),
        TargetView::back(),
        TargetView::left(),
        TargetView::top(),
        TargetView::bottom(),
        TargetView::isometric(),
        TargetView::bowl_acceptance(),
    ] {
        assert!(target.camera_fits());
    }
    let unit = || [Rational::from_integer(1), Rational::from_integer(0), Rational::from_integer(0)];
    let huge = [Rational::from_integer(i64::MAX / 32), Rational::from_integer(0), Rational::from_integer(0)];
    assert!(!TargetView::from_camera(CameraBasis::new(huge, unit(), unit())).camera_fits());
    // A fine denominator alone is fine; coprime denominators whose least
    // common multiple is too large are not.
    let fine = [Rational::new(1, 1 << 40), Rational::from_integer(0), Rational::from_integer(0)];
    assert!(TargetView::from_camera(CameraBasis::new(fine, unit(), unit())).camera_fits());
    let coarse = [Rational::new(1, (1 << 40) + 1), Rational::new(1, 1 << 40), Rational::from_integer(0)];
    assert!(!TargetView::from_camera(CameraBasis::new(coarse, unit(), unit())).camera_fits());
}
