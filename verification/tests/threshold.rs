use lazydict::threshold::{calc_threshold, calc_threshold_checked};

fn gray_pixels(grays: &[u8]) -> Vec<u8> {
    let mut px = vec![];
    for &g in grays {
        px.extend_from_slice(&[g, g, g, 255]);
    }
    px
}

#[test]
fn threshold_between_two_peaks() {
    let grays = [20u8, 20, 20, 30, 200, 200, 210, 220, 40, 190];
    let (t, g) = calc_threshold(&gray_pixels(&grays), 4);
    assert_eq!(t, 110);
    assert_eq!(g, grays.to_vec());
}

#[test]
fn threshold_with_one_high_outlier() {
    let grays = [10u8, 10, 10, 10, 10, 10, 10, 10, 12, 250];
    let (t, g) = calc_threshold(&gray_pixels(&grays), 4);
    assert_eq!(t, 130);
    assert_eq!(g, grays.to_vec());
}

#[test]
fn threshold_small_peak_on_the_left() {
    let grays = [97u8, 28, 136, 137];
    let (t, _) = calc_threshold(&gray_pixels(&grays), 4);
    assert_eq!(t, 82);
}

#[test]
fn threshold_small_peak_on_the_right() {
    let grays = [42u8, 19, 201, 103, 22, 96, 29, 30, 23, 90, 90];
    let (t, _) = calc_threshold(&gray_pixels(&grays), 4);
    assert_eq!(t, 121);
}

#[test]
fn threshold_weighs_the_channels() {
    // (77 * 100 + 150 * 50 + 29 * 200 + 128) >> 8 = 82 and (77 * 10 + 150 * 20 + 29 * 30 + 128) >> 8 = 18.
    let px = vec![100u8, 50, 200, 10, 20, 30];
    let r = calc_threshold_checked(&px, 3);
    assert_eq!(r, Some((18 + (82 - 18) / 2, vec![82, 18])));
}

#[test]
fn threshold_of_a_flat_black_image_is_undefined() {
    assert_eq!(calc_threshold_checked(&gray_pixels(&[0, 0, 0]), 4), None);
}

#[test]
fn threshold_of_a_large_two_tone_image() {
    let mut grays = vec![0u8; 60000];
    grays.extend(vec![255u8; 60000]);
    let (t, g) = calc_threshold(&gray_pixels(&grays), 4);
    assert_eq!(t, 127);
    assert_eq!(g.len(), 120000);
}

#[test]
fn threshold_undefined_where_the_deviations_pass_i32() {
    let mut grays = vec![0u8; 70000];
    grays.extend(vec![255u8; 70000]);
    assert_eq!(calc_threshold_checked(&gray_pixels(&grays), 4), None);
}

#[test]
fn threshold_undefined_for_odd_pixel_sizes() {
    assert_eq!(calc_threshold_checked(&[1, 2, 3, 4, 5], 4), None);
    assert_eq!(calc_threshold_checked(&[1, 2], 2), None);
    assert_eq!(calc_threshold_checked(&[], 4), None);
}
