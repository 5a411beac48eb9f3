use vstd::prelude::*;

verus! {

/// Largest value a channel may take before it is scaled down to eight bits (2^18 - 1).
pub const K_MAX_CHANNEL_VALUE: i32 = 262143;

/// Clamps `x` into `0..=K_MAX_CHANNEL_VALUE` and keeps the eight bits above the lowest ten.
pub open spec fn channel_of(x: int) -> u8 {
    let c = if x < 0 { 0 } else if x > 262143 { 262143 } else { x };
    (c / 1024) as u8
}

/// The red, green and blue bytes of one YUV sample (BT.601, fixed point with ten fraction bits).
pub open spec fn yuv_pixel(y: int, u: int, v: int) -> (u8, u8, u8) {
    let yy = if y - 16 < 0 { 0 } else { y - 16 };
    let uu = u - 128;
    let vv = v - 128;
    (
        channel_of(1192 * yy + 1634 * vv),
        channel_of(1192 * yy - 833 * vv - 400 * uu),
        channel_of(1192 * yy + 2066 * uu),
    )
}

fn clamp_channel(x: i32) -> (r: u8)
    ensures
        r == channel_of(x as int),
{
    let mut c = x;
    if c < 0 {
        c = 0;
    }
    if c > K_MAX_CHANNEL_VALUE {
        c = K_MAX_CHANNEL_VALUE;
    }
    let s = (c >> 10) & 0xff;
    assert(s == c / 1024) by (bit_vector)
        requires
            0 <= c <= 262143,
            s == (c >> 10) & 0xff,
    ;
    s as u8
}

/// `x` is a value of `i32`.
pub open spec fn fits_i32(x: int) -> bool {
    i32::MIN <= x <= i32::MAX
}

/// Every step of [`yuv_pixel`]'s arithmetic on the sample stays within `i32` (as it does
/// for samples that are bytes).
pub open spec fn yuv_arith_ok(y: int, u: int, v: int) -> bool {
    let yy = if y - 16 < 0 { 0 } else { y - 16 };
    let uu = u - 128;
    let vv = v - 128;
    &&& fits_i32(y - 16)
    &&& fits_i32(uu)
    &&& fits_i32(vv)
    &&& fits_i32(1192 * yy)
    &&& fits_i32(1634 * vv)
    &&& fits_i32(1192 * yy + 1634 * vv)
    &&& fits_i32(833 * vv)
    &&& fits_i32(1192 * yy - 833 * vv)
    &&& fits_i32(400 * uu)
    &&& fits_i32(1192 * yy - 833 * vv - 400 * uu)
    &&& fits_i32(2066 * uu)
    &&& fits_i32(1192 * yy + 2066 * uu)
}

/// Converts one YUV sample to RGB.
pub fn yuv_to_rgb(y: i32, u: i32, v: i32) -> (rgb: (u8, u8, u8))
    requires
        yuv_arith_ok(y as int, u as int, v as int),
    ensures
        rgb == yuv_pixel(y as int, u as int, v as int),
{
    let mut y = y - 16;
    let u = u - 128;
    let v = v - 128;
    if y < 0 {
        y = 0;
    }
    let r = 1192 * y + 1634 * v;
    let g = 1192 * y - 833 * v - 400 * u;
    let b = 1192 * y + 2066 * u;
    (clamp_channel(r), clamp_channel(g), clamp_channel(b))
}

} // verus!

verus! {

/// Sample positions used for pixel `(x, y)` of a planar YUV 4:2:0 frame are valid,
/// and the offset arithmetic stays within `i32`.
pub open spec fn yuv_sources_ok(
    y_len: int,
    u_len: int,
    v_len: int,
    y_row_stride: int,
    uv_row_stride: int,
    uv_pixel_stride: int,
    y: int,
    x: int,
) -> bool {
    let iy = y_row_stride * y;
    let iuv = uv_row_stride * (y / 2);
    let off = (x / 2) * uv_pixel_stride;
    &&& i32::MIN <= iy <= i32::MAX
    &&& 0 <= iy + x < y_len
    &&& iy + x <= i32::MAX
    &&& i32::MIN <= iuv <= i32::MAX
    &&& i32::MIN <= off <= i32::MAX
    &&& 0 <= iuv + off
    &&& iuv + off <= i32::MAX
    &&& iuv + off < u_len
    &&& iuv + off < v_len
}

/// Number of output bytes written for a frame of `width` by `height` pixels.
pub open spec fn rgb_len(width: int, height: int) -> int {
    if width > 0 && height > 0 {
        3 * (width * height)
    } else {
        0
    }
}

/// Byte `k` of the packed RGB888 image decoded from a planar YUV 4:2:0 frame.
pub open spec fn yuv420_rgb_byte(
    y_data: Seq<u8>,
    u_data: Seq<u8>,
    v_data: Seq<u8>,
    width: int,
    y_row_stride: int,
    uv_row_stride: int,
    uv_pixel_stride: int,
    k: int,
) -> u8 {
    let p = k / 3;
    let y = p / width;
    let x = p % width;
    let iuv = uv_row_stride * (y / 2) + (x / 2) * uv_pixel_stride;
    let rgb = yuv_pixel(
        y_data[y_row_stride * y + x] as int,
        u_data[iuv] as int,
        v_data[iuv] as int,
    );
    if k % 3 == 0 {
        rgb.0
    } else if k % 3 == 1 {
        rgb.1
    } else {
        rgb.2
    }
}

proof fn lemma_pixel_coords(k: int, y: int, x: int, w: int, c: int)
    requires
        0 <= x < w,
        0 <= y,
        0 <= c < 3,
        k == 3 * (y * w + x) + c,
    ensures
        k / 3 == y * w + x,
        k % 3 == c,
        (y * w + x) / w == y,
        (y * w + x) % w == x,
{
    vstd::arithmetic::div_mod::lemma_fundamental_div_mod_converse(k, 3, y * w + x, c);
    vstd::arithmetic::div_mod::lemma_fundamental_div_mod_converse(y * w + x, w, y, x);
}

proof fn lemma_row_start(y: int, w: int)
    requires
        0 <= y,
        0 < w,
    ensures
        (y + 1) * w == y * w + w,
        0 <= y * w,
{
    vstd::arithmetic::mul::lemma_mul_is_distributive_add_other_way(w, y, 1);
    vstd::arithmetic::mul::lemma_mul_nonnegative(y, w);
}

/// Decodes a planar YUV 4:2:0 frame (separate Y, U and V planes with the given
/// strides) into packed RGB888, row after row.
pub fn yuv_420_to_rgb_888(
    y_data: &[u8],
    u_data: &[u8],
    v_data: &[u8],
    output: &mut [u8],
    width: i32,
    height: i32,
    y_row_stride: i32,
    uv_row_stride: i32,
    uv_pixel_stride: i32,
)
    requires
        forall|y: int, x: int|
            0 <= y < height && 0 <= x < width ==> #[trigger] yuv_sources_ok(
                y_data@.len() as int,
                u_data@.len() as int,
                v_data@.len() as int,
                y_row_stride as int,
                uv_row_stride as int,
                uv_pixel_stride as int,
                y,
                x,
            ),
        rgb_len(width as int, height as int) <= old(output)@.len(),
    ensures
        final(output)@.len() == old(output)@.len(),
        forall|k: int|
            0 <= k < final(output)@.len() ==> #[trigger] final(output)@[k] == if k < rgb_len(
                width as int,
                height as int,
            ) {
                yuv420_rgb_byte(
                    y_data@,
                    u_data@,
                    v_data@,
                    width as int,
                    y_row_stride as int,
                    uv_row_stride as int,
                    uv_pixel_stride as int,
                    k,
                )
            } else {
                old(output)@[k]
            },
{
    let ghost w = width as int;
    let ghost total = rgb_len(width as int, height as int);
    let mut iout: usize = 0;
    let mut y: i32 = 0;
    while y < height
        invariant
            0 <= y,
            height <= 0 ==> y == 0,
            height > 0 ==> y <= height,
            width <= 0 ==> iout == 0,
            width > 0 ==> iout == 3 * (y * w),
            width > 0 ==> 0 <= y * w,
            width > 0 && height > 0 ==> y * w <= w * height,
            w == width,
            total == rgb_len(width as int, height as int),
            total <= output@.len(),
            output@.len() == old(output)@.len(),
            forall|y: int, x: int|
                0 <= y < height && 0 <= x < width ==> #[trigger] yuv_sources_ok(
                    y_data@.len() as int,
                    u_data@.len() as int,
                    v_data@.len() as int,
                    y_row_stride as int,
                    uv_row_stride as int,
                    uv_pixel_stride as int,
                    y,
                    x,
                ),
            forall|k: int|
                0 <= k < iout ==> #[trigger] output@[k] == yuv420_rgb_byte(
                    y_data@,
                    u_data@,
                    v_data@,
                    width as int,
                    y_row_stride as int,
                    uv_row_stride as int,
                    uv_pixel_stride as int,
                    k,
                ),
            forall|k: int| iout <= k < output@.len() ==> #[trigger] output@[k] == old(output)@[k],
        decreases height - y,
    {
        proof {
            if width > 0 {
                lemma_row_start(y as int, w);
                vstd::arithmetic::mul::lemma_mul_inequality(y as int + 1, height as int, w);
                vstd::arithmetic::mul::lemma_mul_is_commutative(height as int, w);
            }
        }
        let ghost row_start = iout;
        let mut x: i32 = 0;
        while x < width
            invariant
                0 <= y < height,
                0 <= x,
                width > 0 ==> x <= width,
                width <= 0 ==> x == 0 && iout == 0,
                width > 0 ==> iout == 3 * (y * w + x),
                width > 0 ==> 3 * (y * w + w) <= total,
                width > 0 ==> 0 <= y * w,
                w == width,
                total <= output@.len(),
                output@.len() == old(output)@.len(),
                forall|y: int, x: int|
                    0 <= y < height && 0 <= x < width ==> #[trigger] yuv_sources_ok(
                        y_data@.len() as int,
                        u_data@.len() as int,
                        v_data@.len() as int,
                        y_row_stride as int,
                        uv_row_stride as int,
                        uv_pixel_stride as int,
                        y,
                        x,
                    ),
                forall|k: int|
                    0 <= k < iout ==> #[trigger] output@[k] == yuv420_rgb_byte(
                        y_data@,
                        u_data@,
                        v_data@,
                        width as int,
                        y_row_stride as int,
                        uv_row_stride as int,
                        uv_pixel_stride as int,
                        k,
                    ),
                forall|k: int| iout <= k < output@.len() ==> #[trigger] output@[k] == old(output)@[k],
            decreases width - x,
        {
            assert(yuv_sources_ok(
                y_data@.len() as int,
                u_data@.len() as int,
                v_data@.len() as int,
                y_row_stride as int,
                uv_row_stride as int,
                uv_pixel_stride as int,
                y as int,
                x as int,
            ));
            assert((y >> 1) == y / 2) by (bit_vector)
                requires
                    y >= 0,
            ;
            assert((x >> 1) == x / 2) by (bit_vector)
                requires
                    x >= 0,
            ;
            let iy = y_row_stride * y;
            let uv_row_start = uv_row_stride * (y >> 1);
            let uv_offset = (x >> 1) * uv_pixel_stride;
            let (r, g, b) = yuv_to_rgb(
                y_data[(iy + x) as usize] as i32,
                u_data[(uv_row_start + uv_offset) as usize] as i32,
                v_data[(uv_row_start + uv_offset) as usize] as i32,
            );
            proof {
                lemma_pixel_coords(iout as int, y as int, x as int, w, 0);
                lemma_pixel_coords(iout as int + 1, y as int, x as int, w, 1);
                lemma_pixel_coords(iout as int + 2, y as int, x as int, w, 2);
            }
            output[iout] = r;
            iout += 1;
            output[iout] = g;
            iout += 1;
            output[iout] = b;
            iout += 1;
            x += 1;
        }
        y += 1;
    }
    proof {
        if width > 0 && height > 0 {
            vstd::arithmetic::mul::lemma_mul_is_commutative(height as int, w);
        }
    }
}

/// The same decoding as [`yuv_420_to_rgb_888`], on planes that the caller holds mutably;
/// the planes themselves are left as they are.
pub fn yuv_420_to_rgb_8888(
    y_data: &mut [u8],
    u_data: &mut [u8],
    v_data: &mut [u8],
    output: &mut [u8],
    width: i32,
    height: i32,
    y_row_stride: i32,
    uv_row_stride: i32,
    uv_pixel_stride: i32,
)
    requires
        forall|y: int, x: int|
            0 <= y < height && 0 <= x < width ==> #[trigger] yuv_sources_ok(
                old(y_data)@.len() as int,
                old(u_data)@.len() as int,
                old(v_data)@.len() as int,
                y_row_stride as int,
                uv_row_stride as int,
                uv_pixel_stride as int,
                y,
                x,
            ),
        rgb_len(width as int, height as int) <= old(output)@.len(),
    ensures
        final(y_data)@ == old(y_data)@,
        final(u_data)@ == old(u_data)@,
        final(v_data)@ == old(v_data)@,
        final(output)@.len() == old(output)@.len(),
        forall|k: int|
            0 <= k < final(output)@.len() ==> #[trigger] final(output)@[k] == if k < rgb_len(
                width as int,
                height as int,
            ) {
                yuv420_rgb_byte(
                    old(y_data)@,
                    old(u_data)@,
                    old(v_data)@,
                    width as int,
                    y_row_stride as int,
                    uv_row_stride as int,
                    uv_pixel_stride as int,
                    k,
                )
            } else {
                old(output)@[k]
            },
{
    yuv_420_to_rgb_888(
        y_data,
        u_data,
        v_data,
        output,
        width,
        height,
        y_row_stride,
        uv_row_stride,
        uv_pixel_stride,
    );
}

/// Position of the V sample for row `i`, column `j` of a `w` by `h` planar frame (the
/// Y plane, then a quarter-size V plane, then a quarter-size U plane).
pub open spec fn planar_v_index(w: int, h: int, i: int, j: int) -> int {
    w * h + (i / 2) * (w / 2) + j / 2
}

/// Position of the U sample for row `i`, column `j` of a `w` by `h` planar frame.
pub open spec fn planar_u_index(w: int, h: int, i: int, j: int) -> int {
    w * h + (w * h) / 4 + (i / 2) * (w / 2) + j / 2
}

/// A `w` by `h` planar frame of `len` bytes holds the U sample of its last pixel, and
/// three bytes per pixel fit in `usize`.
pub open spec fn planar_fits(len: int, w: int, h: int) -> bool {
    &&& 3 * (w * h) <= usize::MAX
    &&& (w > 0 && h > 0 ==> planar_u_index(w, h, h - 1, w - 1) < len)
}

/// The samples that feed each pixel of a `w` by `h` planar frame, three bytes per pixel
/// row after row: the pixel's U sample, again its U sample, then its V sample. The frame
/// sender reads the sample it converts as luma from the U plane, so no byte of the Y plane
/// is read.
pub open spec fn planar_samples_of(src: Seq<u8>, w: int, h: int) -> Seq<u8> {
    Seq::new(
        (3 * (w * h)) as nat,
        |t: int|
            {
                let p = t / 3;
                if t % 3 == 2 {
                    src[planar_v_index(w, h, p / w, p % w)]
                } else {
                    src[planar_u_index(w, h, p / w, p % w)]
                }
            },
    )
}

proof fn lemma_sample_index(t: int, i: int, j: int, c: int, w: int)
    requires
        0 <= i,
        0 <= j < w,
        0 <= c < 3,
        t == 3 * (i * w + j) + c,
    ensures
        t / 3 == i * w + j,
        t % 3 == c,
        (t / 3) / w == i,
        (t / 3) % w == j,
{
    vstd::arithmetic::div_mod::lemma_fundamental_div_mod_converse(t, 3, i * w + j, c);
    vstd::arithmetic::div_mod::lemma_fundamental_div_mod_converse(i * w + j, w, i, j);
}

proof fn lemma_planar_bound(w: int, h: int, i: int, j: int)
    requires
        0 <= i < h,
        0 <= j < w,
    ensures
        planar_v_index(w, h, i, j) < planar_u_index(w, h, i, j) + 1,
        planar_u_index(w, h, i, j) <= planar_u_index(w, h, h - 1, w - 1),
        0 <= (i / 2) * (w / 2),
{
    vstd::arithmetic::div_mod::lemma_div_is_ordered(i, h - 1, 2);
    vstd::arithmetic::div_mod::lemma_div_is_ordered(j, w - 1, 2);
    vstd::arithmetic::div_mod::lemma_div_pos_is_pos(i, 2);
    vstd::arithmetic::div_mod::lemma_div_pos_is_pos(w, 2);
    vstd::arithmetic::mul::lemma_mul_inequality(i / 2, (h - 1) / 2, w / 2);
    vstd::arithmetic::mul::lemma_mul_nonnegative(i / 2, w / 2);
    assert(0 <= (w * h) / 4) by (nonlinear_arith)
        requires
            0 <= i < h,
            0 <= j < w,
    ;
}

/// Gathers, for each pixel of a `width` by `height` planar frame, the samples the frame
/// sender converts to RGB (see [`planar_samples_of`]).
pub fn planar_samples(src: &[u8], width: usize, height: usize) -> (samples: Vec<u8>)
    requires
        planar_fits(src@.len() as int, width as int, height as int),
    ensures
        samples@ == planar_samples_of(src@, width as int, height as int),
{
    let ghost w = width as int;
    let ghost h = height as int;
    let ghost target = planar_samples_of(src@, w, h);
    assert(0 <= w * h <= 3 * (w * h)) by (nonlinear_arith)
        requires
            w >= 0,
            h >= 0,
    ;
    let slen = src.len();
    if width == 0 || height == 0 {
        let empty: Vec<u8> = Vec::new();
        assert(empty@ =~= target);
        return empty;
    }
    let num_of_pixel = width * height;
    let position_of_v = num_of_pixel;
    let position_of_u = num_of_pixel / 4 + num_of_pixel;
    let mut samples: Vec<u8> = Vec::new();
    let mut i: usize = 0;
    while i < height
        invariant
            w == width,
            h == height,
            num_of_pixel == w * h,
            position_of_v == w * h,
            position_of_u == w * h + (w * h) / 4,
            3 * (w * h) <= usize::MAX,
            w > 0,
            slen == src@.len(),
            planar_fits(src@.len() as int, w, h),
            target == planar_samples_of(src@, w, h),
            i <= height,
            samples@ == target.take(3 * (i * w)),
            3 * (i * w) <= target.len(),
        decreases height - i,
    {
        proof {
            lemma_planar_bound(w, h, i as int, 0);
        }
        let step = (i / 2) * (width / 2);
        let start_v = position_of_v + step;
        let start_u = position_of_u + step;
        let mut j: usize = 0;
        while j < width
            invariant
                w == width,
                h == height,
                num_of_pixel == w * h,
                3 * (w * h) <= usize::MAX,
                slen == src@.len(),
                planar_fits(src@.len() as int, w, h),
                target == planar_samples_of(src@, w, h),
                i < height,
                j <= width,
                step == (i / 2) * (w / 2),
                start_v == w * h + step,
                start_u == w * h + (w * h) / 4 + step,
                samples@ == target.take(3 * (i * w + j)),
            decreases width - j,
        {
            proof {
                lemma_planar_bound(w, h, i as int, j as int);
                assert(3 * (i * w + j) + 3 <= 3 * (w * h)) by (nonlinear_arith)
                    requires
                        0 <= i < h,
                        0 <= j < w,
                ;
            }
            let v = start_v + j / 2;
            let u = start_u + j / 2;
            let su = src[u];
            let sv = src[v];
            let ghost before = samples@;
            samples.push(su);
            samples.push(su);
            samples.push(sv);
            proof {
                let base = 3 * (i * w + j);
                assert forall|k: int| base <= k < base + 3 implies #[trigger] samples@[k] == target[k] by {
                    lemma_sample_index(k, i as int, j as int, k - base, w);
                }
                assert(samples@ =~= target.take(base + 3));
                assert(base + 3 == 3 * (i * w + (j + 1))) by (nonlinear_arith)
                    requires
                        base == 3 * (i * w + j),
                ;
            }
            j += 1;
        }
        proof {
            assert(3 * (i * w + w) == 3 * ((i + 1) * w)) by (nonlinear_arith);
            assert(3 * ((i + 1) * w) <= 3 * (w * h)) by (nonlinear_arith)
                requires
                    i < h,
                    w >= 0,
            ;
        }
        i += 1;
    }
    proof {
        assert(3 * (h * w) == 3 * (w * h)) by (nonlinear_arith);
        assert(samples@ =~= target);
    }
    samples
}

} // verus!
