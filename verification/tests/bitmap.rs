use lazydict::bitmap::{
    check_rgba_8888, rgb888_to_bgr565, rgb_to_bgr, get_format_name, ARect, AndroidBitmapInfo, ANDROID_BITMAP_FORMAT_A_8,
    ANDROID_BITMAP_FORMAT_NONE, ANDROID_BITMAP_FORMAT_RGBA_4444, ANDROID_BITMAP_FORMAT_RGBA_8888,
    ANDROID_BITMAP_FORMAT_RGB_565,
};

#[test]
fn format_names() {
    assert_eq!(get_format_name(ANDROID_BITMAP_FORMAT_NONE), "None");
    assert_eq!(get_format_name(ANDROID_BITMAP_FORMAT_RGBA_8888), "RGBA_8888");
    assert_eq!(get_format_name(ANDROID_BITMAP_FORMAT_RGB_565), "RGB_565");
    assert_eq!(get_format_name(ANDROID_BITMAP_FORMAT_RGBA_4444), "RGBA_4444");
    assert_eq!(get_format_name(ANDROID_BITMAP_FORMAT_A_8), "FORMAT_A_8");
    assert_eq!(get_format_name(2), "未知格式");
    assert_eq!(get_format_name(-1), "未知格式");
}

#[test]
fn only_rgba_8888_is_taken() {
    assert_eq!(check_rgba_8888(1), Ok(()));
    assert_eq!(check_rgba_8888(4), Err("图片格式只支持RGBA_8888!".to_string()));
}

#[test]
fn plain_structs() {
    let r = ARect { left: 1, top: 2, right: 3, bottom: 4 };
    assert_eq!(r, ARect { left: 1, top: 2, right: 3, bottom: 4 });
    let i = AndroidBitmapInfo { width: 2, height: 3, stride: 8, format: 1, flags: 0 };
    assert_eq!(i.stride, 8);
}

#[test]
fn rgb565_packing() {
    assert_eq!(rgb888_to_bgr565(255, 0, 0), 0xF800);
    assert_eq!(rgb888_to_bgr565(0, 255, 0), 0x07E0);
    assert_eq!(rgb888_to_bgr565(0, 0, 255), 0x001F);
    assert_eq!(rgb888_to_bgr565(8, 4, 8), 2048 + 32 + 1);
    assert_eq!(rgb888_to_bgr565(7, 3, 7), 0);
}

#[test]
fn rgb_to_bgr_swaps_red_and_blue() {
    let data = [1u8, 2, 3, 4, 5, 6];
    let mut out = [9u8; 7];
    rgb_to_bgr(&data, &mut out);
    assert_eq!(out, [3, 2, 1, 6, 5, 4, 9]);
    rgb_to_bgr(&[], &mut out);
    assert_eq!(out, [3, 2, 1, 6, 5, 4, 9]);
}
