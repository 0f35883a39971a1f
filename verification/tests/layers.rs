use slicey::fixed::{COORD_MAX, ONE};
use slicey::geometry::BoundingBox;
use slicey::settings::FloatOrVecOfFloats;
use slicey::slicer::layers::{plan, uniform_thickness};
use slicey::slicer::{SettingsField, SliceError};

fn column(z_min: i64, z_max: i64) -> BoundingBox {
    BoundingBox { x_min: 0, y_min: 0, z_min, x_max: ONE, y_max: ONE, z_max }
}

#[test]
fn plan_ten_high_in_fifths_gives_fifty_layers() {
    let heights =
        plan(&column(0, 10 * ONE), 200_000, &FloatOrVecOfFloats::Float(200_000)).unwrap();
    assert_eq!(heights.len(), 50);
    assert_eq!(heights[0], 200_000);
    assert!(heights.iter().all(|h| *h == 200_000));
}

#[test]
fn plan_starts_with_the_first_layer_height() {
    let heights =
        plan(&column(-ONE, 2 * ONE), 300_000, &FloatOrVecOfFloats::Float(1_000_000)).unwrap();
    // 3.0 high, 0.3 first, 2.7 left: three layers of 1.0
    assert_eq!(heights, vec![300_000, 1_000_000, 1_000_000, 1_000_000]);
}

#[test]
fn plan_lets_the_last_layer_overshoot() {
    let heights = plan(&column(0, 1_000_001), 500_000, &FloatOrVecOfFloats::Float(250_000))
        .unwrap();
    // 0.500001 left: two full layers and one that reaches past the top
    assert_eq!(heights, vec![500_000, 250_000, 250_000, 250_000]);
    let top: i64 = heights.iter().sum();
    assert!(top >= 1_000_001 && top < 1_000_001 + 250_000);
}

#[test]
fn plan_needs_no_layer_above_a_first_layer_that_covers_the_mesh() {
    let exact = plan(&column(0, ONE), ONE, &FloatOrVecOfFloats::Float(200_000)).unwrap();
    assert_eq!(exact, vec![ONE]);
    let taller = plan(&column(0, ONE), 3 * ONE, &FloatOrVecOfFloats::Float(200_000)).unwrap();
    assert_eq!(taller, vec![3 * ONE]);
}

#[test]
fn plan_adds_one_layer_for_the_smallest_remainder() {
    let heights = plan(&column(0, ONE + 1), ONE, &FloatOrVecOfFloats::Float(200_000)).unwrap();
    assert_eq!(heights, vec![ONE, 200_000]);
}

#[test]
fn plan_rejects_zero_and_negative_layer_height() {
    assert_eq!(
        plan(&column(0, ONE), 200_000, &FloatOrVecOfFloats::Float(0)),
        Err(SliceError::InvalidSettings(SettingsField::LayerNHeight))
    );
    assert_eq!(
        plan(&column(0, ONE), 200_000, &FloatOrVecOfFloats::Float(-200_000)),
        Err(SliceError::InvalidSettings(SettingsField::LayerNHeight))
    );
}

#[test]
fn plan_rejects_a_list_of_layer_heights() {
    assert_eq!(
        plan(&column(0, ONE), 200_000, &FloatOrVecOfFloats::VecOfFLoats(vec![200_000, 200_000])),
        Err(SliceError::InvalidSettings(SettingsField::LayerNHeight))
    );
    assert_eq!(
        plan(&column(0, ONE), 200_000, &FloatOrVecOfFloats::VecOfFLoats(vec![])),
        Err(SliceError::InvalidSettings(SettingsField::LayerNHeight))
    );
}

#[test]
fn plan_rejects_heights_beyond_the_coordinate_range() {
    assert_eq!(
        plan(&column(0, ONE), 200_000, &FloatOrVecOfFloats::Float(COORD_MAX + 1)),
        Err(SliceError::InvalidSettings(SettingsField::LayerNHeight))
    );
    assert_eq!(
        plan(&column(0, ONE), COORD_MAX + 1, &FloatOrVecOfFloats::Float(200_000)),
        Err(SliceError::InvalidSettings(SettingsField::Layer0Height))
    );
    assert_eq!(
        plan(&column(0, ONE), -COORD_MAX - 1, &FloatOrVecOfFloats::Float(200_000)),
        Err(SliceError::InvalidSettings(SettingsField::Layer0Height))
    );
    assert!(plan(&column(0, ONE), COORD_MAX, &FloatOrVecOfFloats::Float(COORD_MAX)).is_ok());
}

#[test]
fn plan_copes_with_boxes_at_the_ends_of_the_number_range() {
    let low = plan(&column(i64::MIN, i64::MIN + 5), 1, &FloatOrVecOfFloats::Float(2)).unwrap();
    assert_eq!(low, vec![1, 2, 2]);
    let high = plan(&column(i64::MAX - 5, i64::MAX), 1, &FloatOrVecOfFloats::Float(2)).unwrap();
    assert_eq!(high, vec![1, 2, 2]);
    // a box turned upside down has no height to cover
    let upside_down =
        plan(&column(i64::MAX, i64::MIN), -COORD_MAX, &FloatOrVecOfFloats::Float(1)).unwrap();
    assert_eq!(upside_down, vec![-COORD_MAX]);
}

#[test]
fn plan_accepts_a_first_layer_that_is_not_positive() {
    let heights = plan(&column(0, 5), 0, &FloatOrVecOfFloats::Float(2)).unwrap();
    assert_eq!(heights, vec![0, 2, 2, 2]);
    let below = plan(&column(0, 5), -3, &FloatOrVecOfFloats::Float(4)).unwrap();
    assert_eq!(below, vec![-3, 4, 4]);
}

#[test]
fn the_later_height_is_blamed_before_the_first() {
    assert_eq!(
        plan(&column(0, ONE), COORD_MAX + 1, &FloatOrVecOfFloats::Float(0)),
        Err(SliceError::InvalidSettings(SettingsField::LayerNHeight))
    );
    assert_eq!(
        uniform_thickness(i64::MIN, &FloatOrVecOfFloats::VecOfFLoats(vec![1])),
        Err(SliceError::InvalidSettings(SettingsField::LayerNHeight))
    );
    assert_eq!(
        uniform_thickness(i64::MIN, &FloatOrVecOfFloats::Float(1)),
        Err(SliceError::InvalidSettings(SettingsField::Layer0Height))
    );
}

#[test]
fn uniform_thickness_gives_the_single_height() {
    assert_eq!(uniform_thickness(200_000, &FloatOrVecOfFloats::Float(150_000)), Ok(150_000));
    assert_eq!(
        uniform_thickness(200_000, &FloatOrVecOfFloats::VecOfFLoats(vec![150_000])),
        Err(SliceError::InvalidSettings(SettingsField::LayerNHeight))
    );
    assert_eq!(
        uniform_thickness(200_000, &FloatOrVecOfFloats::Float(0)),
        Err(SliceError::InvalidSettings(SettingsField::LayerNHeight))
    );
}
