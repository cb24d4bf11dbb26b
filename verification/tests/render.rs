use depthsprite::{
    commit_preimages, new_frame, pixel_center, screen_offsets, AuthoredModel, Bounds, CanonicalView, Chart,
    FragmentOwner, PreparedModel, Rational, RenderRequest, TargetExtents, TargetView,
    WarpCoefficients, EMPTY_RGBA,
};

#[test]
fn new_frames_start_transparent() {
    let frame = new_frame(3, 2).unwrap();
    assert_eq!((frame.width(), frame.height()), (3, 2));
    assert!(frame.pixels().iter().all(|pixel| *pixel == [0, 0, 0, 0]));
    assert!(frame.owner_at(2, 1).is_none());
    assert!(new_frame(0, 7).unwrap().pixels().is_empty());
}

#[test]
fn screen_offsets_center_the_projected_extents() {
    let extents = TargetExtents {
        min_x: Rational::from_integer(-1),
        max_x: Rational::from_integer(3),
        min_y: Rational::new(-5, 2),
        max_y: Rational::from_integer(2),
    };
    let (x, y) = screen_offsets(10, 4, &extents).unwrap();
    assert_eq!(x, Rational::from_integer(4));
    assert_eq!(y, Rational::new(9, 4));
    assert_eq!(pixel_center(0, x), Some(Rational::new(-7, 2)));
    assert_eq!(pixel_center(3, y), Some(Rational::new(5, 4)));

    let huge = TargetExtents {
        min_x: Rational::from_integer(i64::MAX),
        max_x: Rational::from_integer(i64::MAX),
        min_y: Rational::from_integer(0),
        max_y: Rational::from_integer(0),
    };
    assert_eq!(screen_offsets(10, 4, &huge), None);
}

#[test]
fn only_relief_preimages_commit_and_the_nearest_wins() {
    let red = [200, 10, 20, 255];
    let chart = Chart::from_rgba(CanonicalView::Front, 2, 1, vec![red, EMPTY_RGBA]).unwrap();
    let warp = WarpCoefficients::new([[1, 0, 0], [0, 1, 0]], [1, 0], [0, 0, 1], 1);
    let line = warp
        .prepare_inverse()
        .unwrap()
        .inverse_frame(Rational::new(1, 2), Rational::new(1, 2), 1, 1);
    let mut frame = new_frame(1, 1).unwrap();

    let far = Rational::from_integer(3);
    let near = Rational::from_integer(1);
    commit_preimages(
        &mut frame,
        0,
        0,
        &chart,
        &line,
        &[(far, 0, 0), (near, 1, 0), (near, 0, 0)],
    );
    let depth = line.depth_at(0, 0, near);
    assert_eq!(line.checked_depth_at(0, 0, near), Some(depth));
    assert_ne!(line.depth_at(0, 0, far), depth);
    assert_eq!(
        frame.owner_at(0, 0),
        Some(FragmentOwner { view: CanonicalView::Front, depth, source_y: 0, source_x: 0 })
    );
    assert_eq!(frame.rgba_at(0, 0), [200, 10, 20, 255]);
}

#[test]
fn prepared_model_keeps_each_resolved_chart_with_its_maximum_relief() {
    let bounds = Bounds::new(4, 2, 6).unwrap();
    let front = Chart::from_rgba(CanonicalView::Front, 4, 2, vec![[1, 2, 3, 250]; 8]).unwrap();
    let top = Chart::from_rgba(CanonicalView::Top, 4, 6, vec![[4, 5, 6, 255]; 24]).unwrap();
    let model = AuthoredModel::new(bounds, vec![top, front]).unwrap();
    let prepared = PreparedModel::new(&model.resolve());

    assert_eq!(prepared.charts(), &model.resolve());
    assert_eq!(prepared.reliefs().len(), 2);
    assert_eq!(
        prepared.maximum_relief(),
        &[
            CanonicalView::Front.maximum_inward_depth(bounds),
            CanonicalView::Top.maximum_inward_depth(bounds),
        ]
    );
    assert_eq!(prepared.reliefs()[0].sample(Rational::new(1, 2), Rational::new(1, 2)), Some(Rational::from_integer(5)));

    let request = RenderRequest::new(8, 6, TargetView::front());
    assert_eq!((request.width(), request.height(), request.target()), (8, 6, TargetView::front()));
}
