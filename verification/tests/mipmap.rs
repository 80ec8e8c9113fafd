use ghg::mipmap::compute_biggest_level;
use ghg::mipmap::MAX_MIPMAP_LEVEL;

#[test]
fn test_max_larger_than_level_0() {
    let result = compute_biggest_level(100, 90);
    assert_eq!(result, Some(0));
}

#[test]
fn test_max_between_levels_0_and_1() {
    let result = compute_biggest_level(75, 100);
    assert_eq!(result, Some(1));
}

#[test]
fn test_max_on_level_2() {
    let result = compute_biggest_level(32, 128);
    assert_eq!(result, Some(2));
}

#[test]
fn test_max_smaller_than_level_2() {
    let result = compute_biggest_level(31, 128);
    assert_eq!(result, Some(3));
}

#[test]
fn test_max_equal_to_level_0() {
    assert_eq!(compute_biggest_level(128, 128), Some(0));
}

#[test]
fn test_last_level_is_tried() {
    // 21600 / 2^9 = 42
    assert_eq!(compute_biggest_level(42, 21_600), Some(9));
}

#[test]
fn test_no_level_fits() {
    // 21600 / 2^9 = 42 is still larger than 41, and level 10 is not tried.
    assert_eq!(MAX_MIPMAP_LEVEL, 10);
    assert_eq!(compute_biggest_level(41, 21_600), None);
}

#[test]
fn test_zero_sized_image_fits_at_once() {
    assert_eq!(compute_biggest_level(0, 0), Some(0));
}

#[test]
fn test_zero_sized_texture() {
    // 500 / 2^9 = 0
    assert_eq!(compute_biggest_level(0, 500), Some(9));
    assert_eq!(compute_biggest_level(0, 512), None);
}
