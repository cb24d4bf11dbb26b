use depthsprite::{CanonicalView, Chart, ComponentId, ComponentMap, EMPTY_RGBA};

const SOLID: [u8; 4] = [10, 20, 30, 255];

#[test]
fn a_region_wrapping_around_background_keeps_one_label_and_islands_get_their_own() {
    // A U open at the top, and a lone texel in the upper right corner.
    let layout = [
        [true, false, true, false, true],
        [true, false, true, false, false],
        [true, true, true, false, false],
    ];
    let mut rgba = Vec::new();
    for row in layout {
        for filled in row {
            rgba.push(if filled { SOLID } else { EMPTY_RGBA });
        }
    }
    let chart = Chart::from_rgba(CanonicalView::Front, 5, 3, rgba).unwrap();
    let components = ComponentMap::label(&chart);

    let u = components.at(0, 0);
    assert!(u.is_some());
    assert_eq!(components.at(2, 0), u);
    assert_eq!(components.at(1, 2), u);
    assert_eq!(components.at(2, 2), u);
    assert!(components.at(4, 0).is_some());
    assert_ne!(components.at(4, 0), u);
    assert_eq!(components.at(1, 0), None);
    assert_eq!(components.at(3, 1), None);
    assert_eq!(components.at(5, 0), None);
}

#[test]
fn regions_are_numbered_by_their_first_texel_in_row_major_order() {
    // The right-hand bar starts in the first row; the hook starts one row
    // lower but runs underneath the bar to the last column.
    let layout = [
        [false, false, false, true],
        [true, false, false, true],
        [true, true, false, false],
        [false, true, true, true],
    ];
    let mut rgba = Vec::new();
    for row in layout {
        for filled in row {
            rgba.push(if filled { SOLID } else { EMPTY_RGBA });
        }
    }
    let chart = Chart::from_rgba(CanonicalView::Front, 4, 4, rgba).unwrap();
    let components = ComponentMap::label(&chart);

    assert_eq!(components.at(3, 0), Some(ComponentId(0)));
    assert_eq!(components.at(3, 1), Some(ComponentId(0)));
    assert_eq!(components.at(0, 1), Some(ComponentId(1)));
    assert_eq!(components.at(3, 3), Some(ComponentId(1)));
    assert_eq!(components.at(2, 2), None);
}
