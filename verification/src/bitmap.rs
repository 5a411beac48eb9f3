use vstd::prelude::*;

verus! {

/// Android bitmap format: none.
pub const ANDROID_BITMAP_FORMAT_NONE: i32 = 0;

/// Android bitmap format: RGBA, 8 bits a channel.
pub const ANDROID_BITMAP_FORMAT_RGBA_8888: i32 = 1;

/// Android bitmap format: RGB 5-6-5.
pub const ANDROID_BITMAP_FORMAT_RGB_565: i32 = 4;

/// Android bitmap format: RGBA, 4 bits a channel.
pub const ANDROID_BITMAP_FORMAT_RGBA_4444: i32 = 7;

/// Android bitmap format: alpha only, 8 bits.
pub const ANDROID_BITMAP_FORMAT_A_8: i32 = 8;

/// The name of an Android bitmap format.
pub open spec fn format_name(format: i32) -> Seq<char> {
    if format == ANDROID_BITMAP_FORMAT_NONE {
        "None"@
    } else if format == ANDROID_BITMAP_FORMAT_RGBA_8888 {
        "RGBA_8888"@
    } else if format == ANDROID_BITMAP_FORMAT_RGB_565 {
        "RGB_565"@
    } else if format == ANDROID_BITMAP_FORMAT_RGBA_4444 {
        "RGBA_4444"@
    } else if format == ANDROID_BITMAP_FORMAT_A_8 {
        "FORMAT_A_8"@
    } else {
        "未知格式"@
    }
}

/// The name of an Android bitmap format ("未知格式", unknown format, for any other value).
pub fn get_format_name(format: i32) -> (name: String)
    ensures
        name@ == format_name(format),
{
    if format == ANDROID_BITMAP_FORMAT_NONE {
        "None".to_string()
    } else if format == ANDROID_BITMAP_FORMAT_RGBA_8888 {
        "RGBA_8888".to_string()
    } else if format == ANDROID_BITMAP_FORMAT_RGB_565 {
        "RGB_565".to_string()
    } else if format == ANDROID_BITMAP_FORMAT_RGBA_4444 {
        "RGBA_4444".to_string()
    } else if format == ANDROID_BITMAP_FORMAT_A_8 {
        "FORMAT_A_8".to_string()
    } else {
        "未知格式".to_string()
    }
}

/// The image tools take RGBA_8888 bitmaps only: `Ok` for that format, else the error
/// "图片格式只支持RGBA_8888!" (only RGBA_8888 images are supported).
pub fn check_rgba_8888(format: i32) -> (r: Result<(), String>)
    ensures
        r is Ok <==> format == ANDROID_BITMAP_FORMAT_RGBA_8888,
        r matches Err(e) ==> e@ == "图片格式只支持RGBA_8888!"@,
{
    if format != ANDROID_BITMAP_FORMAT_RGBA_8888 {
        Err("图片格式只支持RGBA_8888!".to_string())
    } else {
        Ok(())
    }
}

/// What Android tells of a bitmap: its size, bytes per row, format and flags.
#[derive(Debug, Clone, Copy, PartialEq, Eq, Structural)]
pub struct AndroidBitmapInfo {
    pub width: u32,
    pub height: u32,
    pub stride: u32,
    pub format: i32,
    pub flags: u32,
}

/// A rectangle of a native window by its four edges.
#[derive(Debug, Clone, Copy, PartialEq, Eq, Structural)]
pub struct ARect {
    pub left: i32,
    pub top: i32,
    pub right: i32,
    pub bottom: i32,
}

/// An RGB888 pixel packed as RGB565 (red in the high five bits, then six bits of green,
/// then five bits of blue): the top bits of each channel.
pub fn rgb888_to_bgr565(red: u8, green: u8, blue: u8) -> (p: u16)
    ensures
        p == (red / 8) * 2048 + (green / 4) * 32 + blue / 8,
{
    let b = ((blue as u16) >> 3) & 0x001F;
    let g = (((green as u16) >> 2) << 5) & 0x07E0;
    let r = (((red as u16) >> 3) << 11) & 0xF800;
    let p = b | g | r;
    assert(p == (red / 8) * 2048 + (green / 4) * 32 + blue / 8) by (bit_vector)
        requires
            b == ((blue as u16) >> 3) & 0x001F,
            g == (((green as u16) >> 2) << 5) & 0x07E0,
            r == (((red as u16) >> 3) << 11) & 0xF800,
            p == b | g | r,
    ;
    p
}

/// The bytes of `prev` once RGB888 pixels `data` are written over its start in BGR
/// order: byte `j` of a pixel takes byte `2 - j` of the same pixel of `data`; bytes past
/// `data` keep their value.
pub open spec fn bgr_of(data: Seq<u8>, prev: Seq<u8>) -> Seq<u8> {
    Seq::new(
        prev.len(),
        |j: int|
            if j < data.len() {
                data[j - j % 3 + (2 - j % 3)]
            } else {
                prev[j]
            },
    )
}

/// Copies RGB888 pixels into `out` as BGR888, swapping the red and blue bytes of each.
pub fn rgb_to_bgr(data: &[u8], out: &mut [u8])
    requires
        data@.len() % 3 == 0,
        old(out)@.len() >= data@.len(),
    ensures
        final(out)@ == bgr_of(data@, old(out)@),
{
    let ghost prev = out@;
    let n = data.len();
    let mut i: usize = 0;
    while i < n
        invariant
            n == data@.len(),
            n % 3 == 0,
            i % 3 == 0,
            i <= n,
            out@.len() == prev.len(),
            prev.len() >= n,
            forall|j: int|
                0 <= j < prev.len() ==> #[trigger] out@[j] == if j < i {
                    data@[j - j % 3 + (2 - j % 3)]
                } else {
                    prev[j]
                },
        decreases n - i,
    {
        out[i] = data[i + 2];
        out[i + 1] = data[i + 1];
        out[i + 2] = data[i];
        i += 3;
    }
    proof {
        assert(out@ =~= bgr_of(data@, prev));
    }
}

} // verus!
