use depthsprite::{
    append_diagnostics, blit_nearest, commit_fragment, sheet_layout, Bounds, CanonicalView,
    DirectionCount, FragmentKey, FrameBuffer, Rational, RenderDiagnostic, SheetError,
    SheetRequest, SourcePoint,
};

#[test]
fn request_rejects_zero_scale_and_every_unsupported_elevation() {
    assert_eq!(
        SheetRequest::new(DirectionCount::Eight, 0, 1, 1),
        Err(SheetError::ZeroScale)
    );
    assert_eq!(
        SheetRequest::new(DirectionCount::Eight, 1, 1, 0),
        Err(SheetError::UnsupportedElevation(0))
    );
    assert_eq!(
        SheetRequest::new(DirectionCount::Sixteen, 1, 1, 2),
        Err(SheetError::UnsupportedElevation(2))
    );
}

#[test]
fn sixteen_v1_targets_use_the_exact_clockwise_horizontal_table() {
    let request = SheetRequest::new(DirectionCount::Sixteen, 1, 0, 1).unwrap();
    let expected = [
        (0, 256),
        (98, 237),
        (181, 181),
        (237, 98),
        (256, 0),
        (237, -98),
        (181, -181),
        (98, -237),
        (0, -256),
        (-98, -237),
        (-181, -181),
        (-237, -98),
        (-256, 0),
        (-237, 98),
        (-181, 181),
        (-98, 237),
    ];
    let bounds = Bounds::new(63, 1, 63).unwrap();

    for (index, (sin, cos)) in expected.into_iter().enumerate() {
        let target = request.target_view(index).unwrap();
        let warp = target.warp_coefficients(CanonicalView::Top, bounds);
        let x_axis = warp.apply(
            SourcePoint::new(Rational::from_integer(181), Rational::from_integer(0)),
            Rational::from_integer(0),
        );
        let z_axis = warp.apply(
            SourcePoint::new(Rational::from_integer(0), Rational::from_integer(181)),
            Rational::from_integer(0),
        );

        assert_eq!(x_axis.screen_x, Rational::new(cos, 2), "index {index}");
        assert_eq!(z_axis.screen_x, Rational::new(sin, 2), "index {index}");
    }
    assert!(request.target_view(16).is_none());
}

#[test]
fn eight_targets_are_exactly_every_second_sixteen_target() {
    let eight = SheetRequest::new(DirectionCount::Eight, 1, 0, 1).unwrap();
    let sixteen = SheetRequest::new(DirectionCount::Sixteen, 1, 0, 1).unwrap();

    assert_eq!(eight.direction_count().frame_count(), 8);
    assert_eq!(sixteen.direction_count().frame_count(), 16);
    for index in 0..8 {
        assert_eq!(eight.target_view(index), sixteen.target_view(index * 2));
    }
    assert!(eight.target_view(8).is_none());
}

#[test]
fn sheet_layout_adds_the_relief_margin_scale_and_padding() {
    let bounds = Bounds::new(10, 20, 5).unwrap();
    let request = SheetRequest::new(DirectionCount::Eight, 2, 3, 1).unwrap();
    assert_eq!(request.integer_scale(), 2);
    assert_eq!(request.padding(), 3);
    assert_eq!(request.elevation_index(), 1);
    let layout = sheet_layout(bounds, &request).unwrap();
    assert_eq!(layout.frame_side, 20 + 64);
    assert_eq!(layout.cell_side, (20 + 64) * 2 + 6);
    assert_eq!(layout.sheet_width, ((20 + 64) * 2 + 6) * 8);

    let huge = SheetRequest::new(DirectionCount::Sixteen, u32::MAX / 2, 0, 1).unwrap();
    assert_eq!(
        sheet_layout(bounds, &huge),
        Err(SheetError::FrameBufferTooLarge)
    );
}

fn key(depth: Rational, rank: u8, y: u32, x: u32) -> FragmentKey {
    FragmentKey {
        depth,
        chart_rank: rank,
        source_y: y,
        source_x: x,
    }
}

#[test]
fn nearer_fragments_win_and_ties_go_to_the_lower_rank() {
    let mut frame = FrameBuffer::transparent(2, 1);
    assert_eq!(frame.owner_at(0, 0), None);
    commit_fragment(&mut frame, 0, 0, key(Rational::new(3, 2), 2, 0, 0), [10, 20, 30]);
    assert_eq!(frame.rgba_at(0, 0), [10, 20, 30, 255]);
    commit_fragment(&mut frame, 0, 0, key(Rational::new(7, 4), 0, 0, 0), [1, 1, 1]);
    assert_eq!(frame.rgba_at(0, 0), [10, 20, 30, 255]);
    commit_fragment(&mut frame, 0, 0, key(Rational::new(3, 2), 1, 5, 5), [4, 5, 6]);
    assert_eq!(frame.rgba_at(0, 0), [4, 5, 6, 255]);
    let owner = frame.owner_at(0, 0).unwrap();
    assert_eq!(owner.view, CanonicalView::Right);
    assert_eq!(owner.depth, Rational::new(3, 2));
    assert_eq!((owner.source_x, owner.source_y), (5, 5));
    assert_eq!(frame.owner_at(1, 0), None);
    assert_eq!(frame.owner_at(2, 0), None);
    assert_eq!(frame.pixels(), &[[4, 5, 6, 255], [0, 0, 0, 0]]);
    assert!(key(Rational::new(-1, 3), 5, 0, 0) < key(Rational::new(0, 1), 0, 0, 0));
}

#[test]
fn blit_enlarges_each_pixel_into_a_block() {
    let mut source = FrameBuffer::transparent(2, 1);
    commit_fragment(&mut source, 1, 0, key(Rational::from_integer(1), 0, 0, 0), [9, 9, 9]);
    let mut sheet = FrameBuffer::transparent(6, 3);
    blit_nearest(&source, &mut sheet, 1, 1, 2);
    assert_eq!(sheet.rgba_at(1, 1), [0, 0, 0, 0]);
    assert_eq!(sheet.rgba_at(3, 1), [9, 9, 9, 255]);
    assert_eq!(sheet.rgba_at(4, 2), [9, 9, 9, 255]);
    assert_eq!(sheet.rgba_at(5, 2), [0, 0, 0, 0]);
    assert_eq!(sheet.owner_at(4, 1).unwrap().view, CanonicalView::Front);
    assert_eq!(sheet.owner_at(0, 0), None);
}

#[test]
fn pixel_conflicts_are_repeated_per_scaled_pixel() {
    let source = [
        RenderDiagnostic::EqualDepthColorConflict {
            x: 1,
            y: 0,
            first: CanonicalView::Front,
            second: CanonicalView::Top,
        },
        RenderDiagnostic::HeavyChartOverlap {
            covered_pixels: 4,
            conflicting_pixels: 1,
        },
    ];
    let mut destination = Vec::new();
    append_diagnostics(&source, &mut destination, 10, 20, 2);
    let conflict = |x, y| RenderDiagnostic::EqualDepthColorConflict {
        x,
        y,
        first: CanonicalView::Front,
        second: CanonicalView::Top,
    };
    assert_eq!(
        destination,
        vec![
            conflict(12, 20),
            conflict(13, 20),
            conflict(12, 21),
            conflict(13, 21),
            source[1],
        ]
    );
}
