use cull::view::{FitMode, Orientation};

#[test]
fn orientation_rejects_out_of_range() {
    assert_eq!(Orientation::new(0).value(), 1);
    assert_eq!(Orientation::new(9).value(), 1);
    assert_eq!(Orientation::new(65535).value(), 1);
    for v in 1..=8 {
        assert_eq!(Orientation::new(v).value(), v);
    }
}

#[test]
fn only_orientations_5_to_8_swap_axes() {
    for v in 1..=8u16 {
        let expect = (5..=8).contains(&v);
        assert_eq!(Orientation::new(v).swaps_axes(), expect, "orientation {v}");
    }
    // The real data contains orientation 8, so this case matters concretely.
    assert_eq!(
        Orientation::new(8).displayed_size(6192, 4128),
        (4128, 6192),
        "a portrait Sony frame must report portrait dimensions"
    );
    assert_eq!(Orientation::new(1).displayed_size(6192, 4128), (6192, 4128));
}

#[test]
fn fit_mode_toggles_and_round_trips() {
    assert_eq!(FitMode::Refit.toggled(), FitMode::Preserve);
    assert_eq!(FitMode::Refit.toggled().toggled(), FitMode::Refit);
    assert_eq!(FitMode::default(), FitMode::Refit);
}

/// The unit square in a hundred steps.
const UNIT: i64 = 100;

#[test]
fn identity_orientation_leaves_uv_untouched() {
    let o = Orientation::new(1);
    for (u, v) in [(0, 0), (UNIT, 0), (0, UNIT), (UNIT, UNIT), (50, 50)] {
        assert_eq!(o.apply_uv(u, v, UNIT), (u, v));
    }
}

#[test]
fn rotate_90_cw_maps_displayed_corners_to_source() {
    // Orientation 6: the displayed top-left comes from the source bottom-left.
    let o = Orientation::new(6);
    assert_eq!(o.apply_uv(0, 0, UNIT), (0, UNIT));
    // Displayed top-right comes from source top-left.
    assert_eq!(o.apply_uv(UNIT, 0, UNIT), (0, 0));
}

#[test]
fn rotate_270_cw_maps_displayed_corners_to_source() {
    // Orientation 8 is the one present in the real data.
    let o = Orientation::new(8);
    assert_eq!(o.apply_uv(0, 0, UNIT), (UNIT, 0));
    assert_eq!(o.apply_uv(UNIT, 0, UNIT), (UNIT, UNIT));
}

#[test]
fn flips_mirror_the_expected_axis() {
    assert_eq!(Orientation::new(2).apply_uv(0, 25, UNIT), (UNIT, 25));
    assert_eq!(Orientation::new(4).apply_uv(25, 0, UNIT), (25, UNIT));
}

#[test]
fn rotate_180_maps_corner_to_opposite_corner() {
    assert_eq!(Orientation::new(3).apply_uv(0, 0, UNIT), (UNIT, UNIT));
}

#[test]
fn every_orientation_is_a_bijection_on_the_unit_square() {
    // Each transform must map the unit square onto itself, or we would sample
    // outside the texture and show clamped edge pixels.
    for o in (1..=8).map(Orientation::new) {
        let mut seen = Vec::new();
        for (u, v) in [(0, 0), (UNIT, 0), (0, UNIT), (UNIT, UNIT)] {
            let (a, b) = o.apply_uv(u, v, UNIT);
            assert!(
                (0..=UNIT).contains(&a) && (0..=UNIT).contains(&b),
                "orientation {} sent ({u},{v}) to ({a},{b})",
                o.value()
            );
            assert!(!seen.contains(&(a, b)));
            seen.push((a, b));
        }
    }
}

#[test]
fn orientation_transforms_are_involutive_or_cyclic() {
    // Applying orientation 3 (180 degrees) twice returns to the start.
    let o = Orientation::new(3);
    let (u, v) = o.apply_uv(30, 70, UNIT);
    assert_eq!(o.apply_uv(u, v, UNIT), (30, 70));

    // Rotating 90 CW four times is also the identity.
    let o = Orientation::new(6);
    let (mut u, mut v) = (20, 90);
    for _ in 0..4 {
        (u, v) = o.apply_uv(u, v, UNIT);
    }
    assert_eq!((u, v), (20, 90));
}

#[test]
fn the_matrix_is_row_major_about_the_centre() {
    assert_eq!(Orientation::new(1).uv_matrix(), [1, 0, 0, 1]);
    assert_eq!(Orientation::new(3).uv_matrix(), [-1, 0, 0, -1]);
    assert_eq!(Orientation::default().value(), 1);
    assert_eq!(FitMode::default(), FitMode::Refit);
}
