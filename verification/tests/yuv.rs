use lazydict::yuv::{planar_samples, yuv_420_to_rgb_8888, yuv_420_to_rgb_888, yuv_to_rgb};

#[test]
fn yuv_black_and_white() {
    assert_eq!(yuv_to_rgb(16, 128, 128), (0, 0, 0));
    assert_eq!(yuv_to_rgb(235, 128, 128), (254, 254, 254));
    assert_eq!(yuv_to_rgb(255, 128, 128), (255, 255, 255));
}

#[test]
fn yuv_primary_colours() {
    assert_eq!(yuv_to_rgb(81, 90, 240), (254, 0, 0));
    assert_eq!(yuv_to_rgb(145, 54, 34), (0, 255, 0));
    assert_eq!(yuv_to_rgb(41, 240, 110), (0, 0, 255));
}

#[test]
fn yuv_extremes_are_clamped() {
    assert_eq!(yuv_to_rgb(0, 0, 0), (0, 154, 0));
    assert_eq!(yuv_to_rgb(255, 255, 255), (255, 125, 255));
}

#[test]
fn yuv_frame_two_by_two() {
    let y = [16u8, 100, 200, 235];
    let u = [90u8];
    let v = [240u8];
    let mut out = [7u8; 14];
    yuv_420_to_rgb_888(&y, &u, &v, &mut out, 2, 2, 2, 1, 1);
    assert_eq!(
        out,
        [178, 0, 0, 255, 21, 21, 255, 137, 137, 255, 178, 178, 7, 7]
    );
}

#[test]
fn yuv_frame_leaves_planes() {
    let mut y = [16u8, 100, 200, 235];
    let mut u = [90u8];
    let mut v = [240u8];
    let mut out = [0u8; 12];
    yuv_420_to_rgb_8888(&mut y, &mut u, &mut v, &mut out, 2, 2, 2, 1, 1);
    assert_eq!(out, [178, 0, 0, 255, 21, 21, 255, 137, 137, 255, 178, 178]);
    assert_eq!(y, [16, 100, 200, 235]);
    assert_eq!(u, [90]);
    assert_eq!(v, [240]);
}

#[test]
fn yuv_empty_frame_writes_nothing() {
    let mut out = [9u8; 3];
    yuv_420_to_rgb_888(&[], &[], &[], &mut out, 0, 5, 0, 0, 0);
    assert_eq!(out, [9, 9, 9]);
}

#[test]
fn planar_samples_take_luma_from_the_u_plane() {
    let src = [1u8, 2, 3, 4, 10, 20];
    assert_eq!(planar_samples(&src, 2, 2), [20, 20, 10].repeat(4));
    let src = [0u8, 1, 2, 3, 4, 5, 6, 7, 30, 31, 40, 41];
    let row = [40u8, 40, 30, 40, 40, 30, 41, 41, 31, 41, 41, 31];
    assert_eq!(planar_samples(&src, 4, 2), [row, row].concat());
    assert!(planar_samples(&[], 0, 5).is_empty());
}
