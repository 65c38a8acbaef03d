use tower_cache::utils::{add_alpha_channel, gray_to_rgba, premultiply_by_alpha};

#[test]
fn premultiply_example_pixel() {
    // (200,100,50,128) -> (100,50,25,128), rounding half-up
    let r = premultiply_by_alpha(&vec![200, 100, 50, 128]);
    assert_eq!(r, vec![100, 50, 25, 128]);
}

#[test]
fn premultiply_rounds_half_up() {
    // 1 * 128 / 255 = 0.502 -> 1, where truncation would give 0
    let r = premultiply_by_alpha(&vec![1, 1, 1, 128]);
    assert_eq!(r, vec![1, 1, 1, 128]);
}

#[test]
fn premultiply_zero_alpha_clears_channels() {
    let r = premultiply_by_alpha(&vec![200, 100, 50, 0]);
    assert_eq!(r, vec![0, 0, 0, 0]);
}

#[test]
fn premultiply_opaque_pixel_unchanged() {
    let r = premultiply_by_alpha(&vec![200, 100, 50, 255]);
    assert_eq!(r, vec![200, 100, 50, 255]);
}

#[test]
fn premultiply_two_pixels() {
    let r = premultiply_by_alpha(&vec![200, 100, 50, 128, 10, 20, 30, 255]);
    assert_eq!(r, vec![100, 50, 25, 128, 10, 20, 30, 255]);
}

#[test]
fn premultiply_empty() {
    let r = premultiply_by_alpha(&Vec::new());
    assert!(r.is_empty());
}

#[test]
fn add_alpha_example_pixel() {
    // (10,20,30) -> (10,20,30,255)
    let r = add_alpha_channel(&vec![10, 20, 30]);
    assert_eq!(r, vec![10, 20, 30, 255]);
}

#[test]
fn add_alpha_two_pixels() {
    let r = add_alpha_channel(&vec![10, 20, 30, 40, 50, 60]);
    assert_eq!(r, vec![10, 20, 30, 255, 40, 50, 60, 255]);
}

#[test]
fn gray_replicates_into_opaque_rgba() {
    let r = gray_to_rgba(&vec![7, 0, 255]);
    assert_eq!(r, vec![7, 7, 7, 255, 0, 0, 0, 255, 255, 255, 255, 255]);
}
