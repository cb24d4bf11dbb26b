use std::collections::BTreeSet;

use depthsprite::{
    block_model, bowl_model, dome_model, globe_model, gyroscope_model, tent_model, AuthoredModel, CanonicalView,
    Chart, DecodedTexel,
};

const DIAMETER: i32 = 32;
const RADIUS_DOUBLED: u32 = 32;
const HEIGHT_INTERVALS: u32 = 11;
const MAX_FRONT_RELIEF: u8 = 128;
const BASIN_DEPTH_EIGHTHS: u32 = 48;
const EXTERIOR_HEIGHT_EIGHTHS: u32 = 88;

fn foreground(chart: &Chart, x: i32, y: i32) -> bool {
    let (width, height) = chart.dimensions();
    x >= 0
        && y >= 0
        && x < width as i32
        && y < height as i32
        && matches!(
            chart.texel_at(x as u32, y as u32),
            Some(DecodedTexel::Relief { .. })
        )
}

fn relief(chart: &Chart, x: u32, y: u32) -> u8 {
    match chart.texel_at(x, y) {
        Some(DecodedTexel::Relief { eighths, .. }) => eighths,
        _ => panic!("expected foreground at ({x}, {y})"),
    }
}

fn floor_sqrt(value: u32) -> u32 {
    let mut low = 0;
    let mut high = value.min(1 << 16) + 1;
    while low + 1 < high {
        let middle = (low + high) / 2;
        if middle.saturating_mul(middle) <= value {
            low = middle;
        } else {
            high = middle;
        }
    }
    low
}

fn centered_doubled(coordinate: i32) -> i32 {
    2 * coordinate + 1 - DIAMETER
}

fn expected_front_radius_doubled(y: u32) -> u32 {
    let vertical = RADIUS_DOUBLED * y / HEIGHT_INTERVALS;
    floor_sqrt(RADIUS_DOUBLED.pow(2) - vertical.pow(2)).max(1)
}

fn is_horizontal_silhouette(chart: &Chart, x: i32, y: i32) -> bool {
    !foreground(chart, x - 1, y) || !foreground(chart, x + 1, y)
}

fn bowl() -> AuthoredModel {
    bowl_model().expect("the authored bowl must be valid")
}

#[test]
fn bowl_assigns_one_png_to_front_and_back_and_no_png_to_bottom() {
    let model = bowl();
    let front = model.chart(CanonicalView::Front).unwrap();
    let top = model.chart(CanonicalView::Top).unwrap();
    let resolved = model.resolve();

    assert!(front.supplies_opposite());
    assert!(front.mirrors_opposite());
    assert!(!top.supplies_opposite());
    assert!(!top.mirrors_opposite());
    assert!(resolved.chart(CanonicalView::Front).is_some());
    assert!(resolved.chart(CanonicalView::Back).is_some());
    assert!(resolved.chart(CanonicalView::Top).is_some());
    assert!(resolved.chart(CanonicalView::Bottom).is_none());
}

#[test]
fn bowl_back_is_the_exact_mirrored_front_with_matching_world_lighting() {
    let model = bowl();
    let front = model.chart(CanonicalView::Front).unwrap();
    let resolved = model.resolve();
    let back = resolved.chart(CanonicalView::Back).unwrap();
    let (width, height) = front.dimensions();

    for y in 0..height {
        for x in 0..width {
            assert_eq!(
                back.rgba_at(width - 1 - x, y),
                front.rgba_at(x, y),
                "world-registered bowl color and relief differ at ({x}, {y})"
            );
        }
    }
}

#[test]
fn front_is_the_sampled_lower_ellipsoid_not_a_cone() {
    let model = bowl();
    let front = model.chart(CanonicalView::Front).unwrap();

    let actual_widths = (0..12)
        .map(|y| (0..32).filter(|&x| foreground(front, x, y)).count())
        .collect::<Vec<_>>();
    let expected_widths = (0..12)
        .map(|y| {
            let radius = expected_front_radius_doubled(y);
            (0..32)
                .filter(|&x| centered_doubled(x).unsigned_abs() <= radius)
                .count()
        })
        .collect::<Vec<_>>();

    assert_eq!(actual_widths, expected_widths);
    assert_eq!(actual_widths.first(), Some(&32));
    assert_eq!(actual_widths.last(), Some(&2));
    let width_steps = actual_widths
        .windows(2)
        .map(|pair| pair[0] as i32 - pair[1] as i32)
        .collect::<BTreeSet<_>>();
    assert!(
        width_steps.len() >= 4,
        "a rounded profile must not have the cone's nearly constant row-width step: {actual_widths:?}"
    );

    for y in 0..12_u32 {
        let row_radius = expected_front_radius_doubled(y);
        for x in 0..32_u32 {
            if !foreground(front, x as i32, y as i32) {
                continue;
            }
            let offset = centered_doubled(x as i32).unsigned_abs();
            let expected = if is_horizontal_silhouette(front, x as i32, y as i32) {
                MAX_FRONT_RELIEF
            } else {
                (4 * (RADIUS_DOUBLED - floor_sqrt(row_radius.pow(2) - offset.pow(2)))) as u8
            };
            assert_eq!(
                relief(front, x, y),
                expected,
                "Front relief must come directly from row {y}'s cross-section at x={x}"
            );
        }
    }

    assert_eq!(relief(front, 15, 11), MAX_FRONT_RELIEF);
    assert_eq!(relief(front, 16, 11), MAX_FRONT_RELIEF);
}

#[test]
fn top_cavity_shares_the_rim_and_stays_strictly_inside_the_exterior() {
    let model = bowl();
    let top = model.chart(CanonicalView::Top).unwrap();

    for y in 0..32_u32 {
        for x in 0..32_u32 {
            if !foreground(top, x as i32, y as i32) {
                continue;
            }
            let dx = centered_doubled(x as i32);
            let dz = centered_doubled(y as i32);
            let radial_squared = (dx * dx + dz * dz) as u32;
            let span = floor_sqrt(RADIUS_DOUBLED.pow(2) - radial_squared);
            let on_rim = (-1..=1).any(|dy| {
                (-1..=1).any(|dx| {
                    (dx != 0 || dy != 0) && !foreground(top, x as i32 + dx, y as i32 + dy)
                })
            });
            let cavity = u32::from(relief(top, x, y));
            if on_rim {
                assert_eq!(cavity, 0, "the cavity and exterior must share the rim");
            } else {
                assert_eq!(cavity, BASIN_DEPTH_EIGHTHS * span / RADIUS_DOUBLED);
                let exterior = EXTERIOR_HEIGHT_EIGHTHS * span / RADIUS_DOUBLED;
                assert!(
                    cavity < exterior,
                    "the cavity must remain above the exterior at ({x}, {y}): {cavity} !< {exterior}"
                );
            }
        }
    }
}

#[test]
fn both_charts_have_baked_directional_lighting() {
    let model = bowl();
    for view in [CanonicalView::Front, CanonicalView::Top] {
        let colors = model
            .chart(view)
            .unwrap()
            .texels()
            .into_iter()
            .filter_map(|texel| match texel {
                DecodedTexel::Background => None,
                DecodedTexel::Relief { rgb, .. } => Some(rgb),
            })
            .collect::<BTreeSet<_>>();
        assert!(
            colors.len() >= 24,
            "{view:?} must retain a graduated value ramp that visibly encodes curvature"
        );
    }
}

fn value(rgb: [u8; 3]) -> u32 {
    rgb.into_iter().map(u32::from).sum()
}

fn assert_blunt_cartoon_values(model_name: &str, chart: &Chart) {
    let values = chart
        .texels()
        .into_iter()
        .filter_map(|texel| match texel {
            DecodedTexel::Background => None,
            DecodedTexel::Relief { rgb, .. } => Some(value(rgb)),
        })
        .collect::<Vec<_>>();
    let darkest = *values.iter().min().unwrap();
    let lightest = *values.iter().max().unwrap();
    let range = lightest - darkest;
    assert!(
        range >= 150,
        "{model_name} {:?} needs an unmistakable light-to-shadow range, got {darkest}..={lightest}",
        chart.view()
    );
    let low_ceiling = darkest + range / 4;
    let high_floor = lightest - range / 4;
    let minimum_region = (values.len() / 100).max(1);
    let low = values.iter().filter(|&&value| value <= low_ceiling).count();
    let high = values.iter().filter(|&&value| value >= high_floor).count();
    assert!(
        low >= minimum_region,
        "{model_name} {:?} needs a broad shadow region, got {low}/{} pixels",
        chart.view(),
        values.len()
    );
    assert!(
        high >= minimum_region,
        "{model_name} {:?} needs a broad highlight region, got {high}/{} pixels",
        chart.view(),
        values.len()
    );
}

fn assert_model(model_name: &str, model: AuthoredModel) {
    for chart in model.charts() {
        assert_blunt_cartoon_values(model_name, chart);
    }
}

#[test]
fn every_demo_has_broad_cartoon_highlights_and_shadows_on_every_source() {
    assert_model("block", block_model().unwrap());
    assert_model("bowl", bowl_model().unwrap());
    assert_model("globe", globe_model().unwrap());
    assert_model("gyroscope", gyroscope_model().unwrap());
    assert_model("tent", tent_model().unwrap());
    assert_model("dome", dome_model().unwrap());
}

#[test]
fn example_models_have_the_authored_sides_and_bounds() {
    let cases: [(AuthoredModel, (u32, u32, u32), &[CanonicalView]); 6] = [
        (
            block_model().unwrap(),
            (16, 16, 16),
            &[
                CanonicalView::Front,
                CanonicalView::Right,
                CanonicalView::Back,
                CanonicalView::Left,
                CanonicalView::Top,
                CanonicalView::Bottom,
            ],
        ),
        (bowl_model().unwrap(), (32, 12, 32), &[CanonicalView::Front, CanonicalView::Top]),
        (globe_model().unwrap(), (48, 48, 48), &[CanonicalView::Front, CanonicalView::Back]),
        (
            gyroscope_model().unwrap(),
            (48, 48, 48),
            &[
                CanonicalView::Front,
                CanonicalView::Right,
                CanonicalView::Back,
                CanonicalView::Left,
                CanonicalView::Top,
                CanonicalView::Bottom,
            ],
        ),
        (
            tent_model().unwrap(),
            (48, 28, 36),
            &[CanonicalView::Front, CanonicalView::Right, CanonicalView::Top],
        ),
        (
            dome_model().unwrap(),
            (48, 32, 48),
            &[CanonicalView::Front, CanonicalView::Right, CanonicalView::Top],
        ),
    ];
    for (model, (width, height, depth), views) in cases {
        let bounds = model.bounds();
        assert_eq!((bounds.width(), bounds.height(), bounds.depth()), (width, height, depth));
        let authored = model.charts().iter().map(|chart| chart.view()).collect::<Vec<_>>();
        assert_eq!(authored, views.to_vec());
    }
}

#[test]
fn block_faces_are_flat_and_lit_by_face() {
    let model = block_model().unwrap();
    let top = model.chart(CanonicalView::Top).unwrap();
    let bottom = model.chart(CanonicalView::Bottom).unwrap();
    // Lit corner: light 36 + 36, tripled and capped at 144.
    assert_eq!(top.rgba_at(0, 0), Some([255, 255, 242, 255]));
    // The bottom is lit from its lower left: light -30 + 36, offset 18.
    assert_eq!(bottom.rgba_at(0, 15), Some([174, 150, 116, 255]));
    // Its lower right corner gets no directional light: offset -90.
    assert_eq!(bottom.rgba_at(15, 15), Some([66, 42, 8, 255]));
    for chart in model.charts() {
        assert!(chart.texels().iter().all(|texel| matches!(texel, DecodedTexel::Relief { eighths: 0, .. })));
    }
}

#[test]
fn relief_stays_within_each_sides_depth() {
    for model in [
        block_model().unwrap(),
        bowl_model().unwrap(),
        globe_model().unwrap(),
        gyroscope_model().unwrap(),
        tent_model().unwrap(),
        dome_model().unwrap(),
    ] {
        let bounds = model.bounds();
        for chart in model.charts() {
            let maximum = chart.view().maximum_inward_depth(bounds);
            for texel in chart.texels() {
                if let DecodedTexel::Relief { eighths, .. } = texel {
                    assert!(eighths <= maximum);
                }
            }
        }
    }
}

#[test]
fn globe_rim_is_fully_recessed_and_center_is_raised() {
    let model = globe_model().unwrap();
    let front = model.chart(CanonicalView::Front).unwrap();
    assert_eq!(front.texel_at(0, 0), Some(DecodedTexel::Background));
    assert_eq!(relief(front, 0, 23), 192);
    assert_eq!(relief(front, 24, 24), 4);
}

fn average_brightness(chart: &Chart) -> u32 {
    let texels = chart.texels();
    let total: u32 = texels
        .iter()
        .map(|texel| match texel {
            DecodedTexel::Background => panic!("the block must fully author every face"),
            DecodedTexel::Relief { rgb, .. } => value(*rgb),
        })
        .sum();
    total / texels.len() as u32
}

#[test]
fn block_faces_follow_the_world_light() {
    let model = block_model().unwrap();
    for chart in model.charts() {
        let (bright, dark) = match chart.view() {
            CanonicalView::Back | CanonicalView::Right => ((15, 0), (0, 15)),
            CanonicalView::Bottom => ((0, 15), (15, 0)),
            _ => ((0, 0), (15, 15)),
        };
        let bright_rgb = chart.rgba_at(bright.0, bright.1).unwrap();
        let dark_rgb = chart.rgba_at(dark.0, dark.1).unwrap();
        assert!(value([bright_rgb[0], bright_rgb[1], bright_rgb[2]]) > value([dark_rgb[0], dark_rgb[1], dark_rgb[2]]));
    }
    let ordered = [
        CanonicalView::Top,
        CanonicalView::Front,
        CanonicalView::Left,
        CanonicalView::Right,
        CanonicalView::Back,
        CanonicalView::Bottom,
    ]
    .map(|view| average_brightness(model.chart(view).unwrap()));
    assert!(ordered.windows(2).all(|pair| pair[0] > pair[1]), "{ordered:?}");
}
