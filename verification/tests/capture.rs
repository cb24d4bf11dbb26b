use depthsprite::{
    assemble_model, captured_views, dilate_keep_mask, enforce_closure_invariant, masked_chart, ClosureMask, Bounds, CanonicalView, CapturedSide, ChartError,
    ImportError, ModelError, SideContinuity, SideMode, SideModes, ALL_VIEWS,
};

#[test]
fn legal_modes_matches_what_set_accepts() {
    // A few representative states: all-Capture default, one side turned
    // Off, and one side already wired to FromOpposite.
    let states = [
        SideModes::default(),
        {
            let mut modes = SideModes::default();
            modes
                .set(CanonicalView::Front, SideMode::Off)
                .expect("legal");
            modes
        },
        {
            let mut modes = SideModes::default();
            modes
                .set(CanonicalView::Back, SideMode::FromOpposite)
                .expect("legal");
            modes
        },
    ];
    let all_modes = [
        SideMode::Capture,
        SideMode::FromOpposite,
        SideMode::FromOppositeMirrored,
        SideMode::Off,
    ];

    for state in states {
        for view in ALL_VIEWS {
            let legal: Vec<SideMode> = state.legal_modes(view);
            for mode in all_modes {
                let mut candidate = state;
                let accepted = candidate.set(view, mode).is_ok();
                assert_eq!(
                    legal.contains(&mode),
                    accepted,
                    "legal_modes({view:?}) disagreed with set({view:?}, {mode:?}) \
                     on state {state:?}"
                );
            }
        }
    }
}

#[test]
fn side_that_stops_capturing_switches_off_its_dependent_opposite() {
    let mut modes = SideModes::default();
    modes
        .set(CanonicalView::Back, SideMode::FromOppositeMirrored)
        .unwrap();
    assert_eq!(modes.get(CanonicalView::Back), SideMode::FromOppositeMirrored);
    assert!(matches!(
        modes.set(CanonicalView::Front, SideMode::FromOpposite),
        Err(ImportError::UnsatisfiedOpposite {
            side: CanonicalView::Front,
            opposite: CanonicalView::Back
        })
    ));
    modes.set(CanonicalView::Front, SideMode::Off).unwrap();
    assert_eq!(modes.get(CanonicalView::Front), SideMode::Off);
    assert_eq!(modes.get(CanonicalView::Back), SideMode::Off);
    assert_eq!(modes.get(CanonicalView::Top), SideMode::Capture);
    assert!(modes.validate().is_ok());
}

#[test]
fn validation_requires_a_captured_side() {
    let mut modes = SideModes::default();
    for view in ALL_VIEWS {
        modes.set(view, SideMode::Off).unwrap();
    }
    assert!(matches!(modes.validate(), Err(ImportError::NoCaptureSides)));
    assert_eq!(
        modes.legal_modes(CanonicalView::Left),
        vec![SideMode::Capture, SideMode::Off]
    );
}

/// 5x5 grid; `kept` is a plus shape centered at (2,2). `covered` is
/// everything except (0,2) — a texel that borders the kept texel (1,2)
/// but was never reached by this side, so it must stay excluded even
/// though it geometrically borders a kept texel. Dilation must add
/// exactly the plus's other seven orthogonal neighbors (its full
/// one-texel ring, minus the uncovered exception) and nothing else.
#[test]
fn dilate_keep_mask_adds_covered_orthogonal_neighbors_only() {
    let width = 5u32;
    let height = 5u32;
    let at = |x: u32, y: u32| (y * width + x) as usize;

    let mut covered = vec![true; (width * height) as usize];
    covered[at(0, 2)] = false;

    let plus = [(2u32, 2u32), (1, 2), (3, 2), (2, 1), (2, 3)];
    let mut kept = vec![false; (width * height) as usize];
    for &(x, y) in &plus {
        kept[at(x, y)] = true;
    }

    let banned = vec![false; (width * height) as usize];
    let continuity = SideContinuity::uniform(width, height, true);
    let closure = dilate_keep_mask(&kept, &covered, &banned, &continuity, width, height);
    let dilated = &closure.mask;

    let ring_added = [(1u32, 1u32), (3, 1), (1, 3), (3, 3), (4, 2), (2, 0), (2, 4)];
    for &(x, y) in &ring_added {
        assert!(
            dilated[at(x, y)],
            "({x},{y}) borders a kept, covered texel and must be dilated in"
        );
    }
    assert!(
        !dilated[at(0, 2)],
        "(0,2) borders kept (1,2) but was never covered by this side; \
         dilation must not fabricate it"
    );
    for &(x, y) in &plus {
        assert!(dilated[at(x, y)], "({x},{y}) was already kept");
    }

    let mut expected_true: Vec<usize> = plus
        .iter()
        .chain(ring_added.iter())
        .map(|&(x, y)| at(x, y))
        .collect();
    expected_true.sort_unstable();
    expected_true.dedup();
    for (idx, &is_dilated) in dilated.iter().enumerate() {
        assert_eq!(
            is_dilated,
            expected_true.contains(&idx),
            "texel {idx} dilation mismatch"
        );
    }
}

/// Dilation must not cross a cut edge and must never re-add a banned
/// texel: 1x3 row [kept, banned-covered, covered], where the
/// (0)-(1) edge is continuous and (1)-(2) is cut. Neither neighbor
/// may be added: (1) is banned, (2) is only reachable across a cut.
#[test]
fn dilation_respects_cut_edges_and_bans() {
    let kept = vec![true, false, false];
    let covered = vec![true, true, true];
    let banned = vec![false, true, false];
    let continuity = SideContinuity::from_edges(3, 1, vec![true, false], vec![]);
    let closure = dilate_keep_mask(&kept, &covered, &banned, &continuity, 3, 1);
    assert_eq!(closure.mask, vec![true, false, false]);
    assert_eq!(closure.support, vec![false, false, false]);
}

#[test]
fn continuity_reads_the_label_of_either_edge_direction() {
    let continuity = SideContinuity::from_edges(2, 2, vec![true, false], vec![false, true]);
    assert!(continuity.connected(0, 0, 1, 0));
    assert!(continuity.connected(1, 0, 0, 0));
    assert!(!continuity.connected(0, 1, 1, 1));
    assert!(!continuity.connected(0, 0, 0, 1));
    assert!(continuity.connected(1, 1, 1, 0));
}

#[test]
fn masked_chart_keeps_only_kept_texels_and_pairs_with_its_opposite() {
    let rgba = vec![[1, 2, 3, 255], [4, 5, 6, 200], [7, 8, 9, 100], [10, 11, 12, 50]];
    let keep = vec![true, false, false, true];
    let chart = masked_chart(
        CanonicalView::Front,
        2,
        2,
        &rgba,
        &keep,
        SideMode::FromOppositeMirrored,
    )
    .unwrap();
    assert_eq!(chart.rgba(), &[[1, 2, 3, 255], [0, 0, 0, 0], [0, 0, 0, 0], [10, 11, 12, 50]]);
    assert!(chart.supplies_opposite());
    assert!(chart.mirrors_opposite());

    let plain = masked_chart(CanonicalView::Top, 2, 2, &rgba, &keep, SideMode::Capture).unwrap();
    assert!(!plain.supplies_opposite());
    let from = masked_chart(CanonicalView::Top, 2, 2, &rgba, &keep, SideMode::FromOpposite).unwrap();
    assert!(from.supplies_opposite() && !from.mirrors_opposite());

    assert_eq!(
        masked_chart(CanonicalView::Front, 3, 2, &rgba, &keep, SideMode::Off),
        Err(depthsprite::ChartError::PixelCount)
    );
}

#[test]
fn only_capture_sides_are_rasterized_in_all_views_order() {
    let mut modes = SideModes::default();
    modes.set(CanonicalView::Back, SideMode::FromOpposite).unwrap();
    modes.set(CanonicalView::Top, SideMode::Off).unwrap();
    assert_eq!(
        captured_views(&modes),
        vec![CanonicalView::Front, CanonicalView::Left, CanonicalView::Right, CanonicalView::Bottom]
    );
    assert_eq!(captured_views(&SideModes::default()), ALL_VIEWS.to_vec());
}

fn front_side(keep: Vec<bool>) -> CapturedSide {
    CapturedSide {
        view: CanonicalView::Front,
        width: 2,
        height: 2,
        rgba: vec![[10, 20, 30, 255]; 4],
        keep,
    }
}

#[test]
fn assembled_sides_become_masked_charts_with_their_opposite_modes() {
    let bounds = Bounds::new(2, 2, 2).unwrap();
    let mut modes = SideModes::default();
    modes.set(CanonicalView::Back, SideMode::FromOppositeMirrored).unwrap();
    let model = assemble_model(bounds, &modes, &vec![front_side(vec![true, false, true, true])]).unwrap();
    assert_eq!(model.charts().len(), 1);
    let chart = model.chart(CanonicalView::Front).unwrap();
    assert!(chart.supplies_opposite());
    assert!(chart.mirrors_opposite());
    assert_eq!(chart.rgba(), &[[10, 20, 30, 255], [0, 0, 0, 0], [10, 20, 30, 255], [10, 20, 30, 255]][..]);
}

#[test]
fn assembly_reports_short_masks_and_model_errors() {
    let bounds = Bounds::new(2, 2, 2).unwrap();
    let modes = SideModes::default();
    assert!(matches!(
        assemble_model(bounds, &modes, &vec![front_side(vec![true; 3])]),
        Err(ImportError::Chart(ChartError::PixelCount))
    ));
    assert!(matches!(
        assemble_model(bounds, &modes, &vec![]),
        Err(ImportError::Model(ModelError::ChartCount(0)))
    ));
    assert!(matches!(
        assemble_model(bounds, &modes, &vec![front_side(vec![true; 4]), front_side(vec![false; 4])]),
        Err(ImportError::Model(ModelError::DuplicateView(CanonicalView::Front)))
    ));
}

#[test]
fn closure_drops_one_end_of_every_cut_edge_between_mask_texels() {
    let mut closure = ClosureMask {
        mask: vec![true, true, true, false],
        support: vec![false, true, false, false],
    };
    // (0, 1): only the far end is support, so it yields; (2, 0): neither is
    // support, so the far end 0 yields; (2, 3): 3 is outside the mask.
    enforce_closure_invariant(&mut closure, &vec![(0, 1), (2, 0), (2, 3)]);
    assert_eq!(closure.mask, vec![false, false, true, false]);
    assert_eq!(closure.support, vec![false, false, false, false]);

    let mut closure = ClosureMask { mask: vec![true, true], support: vec![true, false] };
    enforce_closure_invariant(&mut closure, &vec![(0, 1)]);
    assert_eq!(closure.mask, vec![false, true]);
    assert_eq!(closure.support, vec![false, false]);
}
