use vstd::arithmetic::div_mod::*;
use vstd::arithmetic::mul::*;
use vstd::prelude::*;

verus! {

/// A rectangle of pixels. `left` and `top` count from 1: the pixel in the top-left
/// corner of an image is at `left == 1`, `top == 1`.
#[derive(Debug)]
pub struct Rect {
    pub left: usize,
    pub top: usize,
    pub width: usize,
    pub height: usize,
}

impl Rect {
    pub fn new(left: usize, top: usize, width: usize, height: usize) -> (r: Rect)
        ensures
            r.left == left,
            r.top == top,
            r.width == width,
            r.height == height,
    {
        Rect { left, top, width, height }
    }
}

/// What [`fill_rect`], [`get_rect`] and [`get_argb_rect_rgb`] do with a rectangle of a
/// buffer `buf_len` bytes long, `width` pixels of `pixel_size` bytes per row.
pub enum RectCheck {
    /// The rows of the rectangle run past the end of the buffer.
    RowsOutside,
    /// The columns of the rectangle run past the end of a row.
    ColumnsOutside,
    /// The rectangle lies in the buffer.
    Inside,
}

/// First byte of the rows of `rect`.
pub open spec fn rect_start(width: int, rect: Rect, pixel_size: int) -> int {
    (width * pixel_size) * (rect.top - 1)
}

/// One past the last byte of the rows of `rect`.
pub open spec fn rect_end(width: int, rect: Rect, pixel_size: int) -> int {
    rect_start(width, rect, pixel_size) + (width * pixel_size) * rect.height
}

/// First byte of `rect` within a row.
pub open spec fn rect_col_start(rect: Rect, pixel_size: int) -> int {
    (rect.left - 1) * pixel_size
}

/// One past the last byte of `rect` within a row.
pub open spec fn rect_col_end(rect: Rect, pixel_size: int) -> int {
    rect_col_start(rect, pixel_size) + rect.width * pixel_size
}

pub open spec fn rect_check(buf_len: int, width: int, rect: Rect, pixel_size: int) -> RectCheck {
    if rect_end(width, rect, pixel_size) > buf_len {
        RectCheck::RowsOutside
    } else if rect.height > 0 && rect_col_end(rect, pixel_size) > width * pixel_size {
        RectCheck::ColumnsOutside
    } else {
        RectCheck::Inside
    }
}

/// The offsets that the rectangle functions compute do not overflow, and there is a
/// first row and column (`top` and `left` count from 1) and a row of nonzero length.
pub open spec fn rect_arith_ok(buf_len: int, width: int, rect: Rect, pixel_size: int) -> bool {
    &&& rect.top >= 1
    &&& rect.left >= 1
    &&& width * pixel_size > 0
    &&& width * pixel_size <= usize::MAX
    &&& rect_start(width, rect, pixel_size) <= usize::MAX
    &&& rect_end(width, rect, pixel_size) <= usize::MAX
    &&& rect_end(width, rect, pixel_size) <= buf_len && rect.height > 0 ==> rect_col_end(rect, pixel_size)
        <= usize::MAX
}

/// `fill_rect` does not panic: besides the arithmetic, the colour has a byte for every
/// byte of a pixel whenever some pixel gets filled.
pub open spec fn fill_rect_safe(buf_len: int, width: int, rect: Rect, color_len: int, pixel_size: int) -> bool {
    &&& rect_arith_ok(buf_len, width, rect, pixel_size)
    &&& rect_check(buf_len, width, rect, pixel_size) is Inside && rect.width > 0 && rect.height > 0
        ==> color_len >= pixel_size
}

/// Byte `i` is in `rect`.
pub open spec fn in_rect(i: int, width: int, rect: Rect, pixel_size: int) -> bool {
    let stride = width * pixel_size;
    let row = i / stride;
    let col = i % stride;
    &&& rect.top - 1 <= row < rect.top - 1 + rect.height
    &&& rect_col_start(rect, pixel_size) <= col < rect_col_end(rect, pixel_size)
}

/// The buffer after `rect` has been filled with `color`.
pub open spec fn filled(buf: Seq<u8>, width: int, rect: Rect, color: Seq<u8>, pixel_size: int) -> Seq<u8> {
    Seq::new(
        buf.len(),
        |i: int|
            if in_rect(i, width, rect, pixel_size) {
                color[((i % (width * pixel_size)) - rect_col_start(rect, pixel_size)) % pixel_size]
            } else {
                buf[i]
            },
    )
}

/// The buffer after [`fill_rect`]: filled when the rectangle lies inside, else unchanged.
pub open spec fn fill_rect_result(buf: Seq<u8>, width: int, rect: Rect, color: Seq<u8>, pixel_size: int) -> Seq<u8> {
    if rect_check(buf.len() as int, width, rect, pixel_size) is Inside {
        filled(buf, width, rect, color, pixel_size)
    } else {
        buf
    }
}

proof fn lemma_rect_index(width: int, pixel_size: int, row: int, col: int)
    requires
        width * pixel_size > 0,
        0 <= row,
        0 <= col < width * pixel_size,
    ensures
        (row * (width * pixel_size) + col) / (width * pixel_size) == row,
        (row * (width * pixel_size) + col) % (width * pixel_size) == col,
        0 <= row * (width * pixel_size),
{
    lemma_fundamental_div_mod_converse(row * (width * pixel_size) + col, width * pixel_size, row, col);
    lemma_mul_nonnegative(row, width * pixel_size);
}

proof fn lemma_pixel_byte(q: int, ps: int, k: int)
    requires
        0 <= q,
        0 <= k < ps,
    ensures
        (q * ps + k) % ps == k,
        (q * ps + k) / ps == q,
{
    lemma_fundamental_div_mod_converse(q * ps + k, ps, q, k);
}

proof fn lemma_rows_step(stride: int, top: int, r: int)
    requires
        0 <= r,
        0 <= top,
        0 < stride,
    ensures
        stride * top + stride * (r + 1) == stride * top + stride * r + stride,
        stride * top + stride * r == (top + r) * stride,
        0 <= stride * r,
        0 <= stride * top,
{
    lemma_mul_is_distributive_add(stride, r, 1);
    lemma_mul_is_distributive_add(stride, top, r);
    lemma_mul_is_commutative(stride, top + r);
    lemma_mul_nonnegative(stride, r);
    lemma_mul_nonnegative(stride, top);
}

/// Fills `rect` of an image `width` pixels wide, `pixel_size` bytes per pixel, with
/// the pixel `color`.
pub fn fill_rect(buffer: &mut [u8], width: usize, rect: &Rect, color: &[u8], pixel_size: usize) -> (res: Result<(), String>)
    requires
        fill_rect_safe(old(buffer)@.len() as int, width as int, *rect, color@.len() as int, pixel_size as int),
    ensures
        final(buffer)@ == fill_rect_result(old(buffer)@, width as int, *rect, color@, pixel_size as int),
        match rect_check(old(buffer)@.len() as int, width as int, *rect, pixel_size as int) {
            RectCheck::RowsOutside => res matches Err(e) && e@ == "fill_rect失败 03!"@,
            RectCheck::ColumnsOutside => res matches Err(e) && e@ == "fill_rect失败 02!"@,
            RectCheck::Inside => res is Ok,
        },
{
    let ghost prev = buffer@;
    let ghost w = width as int;
    let ghost ps = pixel_size as int;
    let stride = width * pixel_size;
    let ghost st = stride as int;
    let start = stride * (rect.top - 1);
    let end = start + stride * rect.height;
    if end > buffer.len() {
        return Err("fill_rect失败 03!".to_string());
    }
    if rect.height == 0 {
        proof {
            assert forall|i: int| 0 <= i < buffer@.len() implies !in_rect(i, w, *rect, ps) by {}
            assert(filled(prev, w, *rect, color@, ps) =~= prev);
        }
        return Ok(());
    }
    let col_start = (rect.left - 1) * pixel_size;
    let col_end = col_start + rect.width * pixel_size;
    if col_end > stride {
        return Err("fill_rect失败 02!".to_string());
    }
    let mut r: usize = 0;
    while r < rect.height
        invariant
            stride == w * ps,
            st == stride,
            stride > 0,
            w == width,
            ps == pixel_size,
            start == stride * (rect.top - 1),
            end == start + stride * rect.height,
            end <= buffer@.len(),
            col_start == rect_col_start(*rect, ps),
            col_end == rect_col_end(*rect, ps),
            col_end <= stride,
            rect.top >= 1,
            rect.width > 0 ==> color@.len() >= ps,
            r <= rect.height,
            buffer@.len() == prev.len(),
            buffer@.len() <= usize::MAX,
            forall|i: int|
                0 <= i < buffer@.len() ==> #[trigger] buffer@[i] == if in_rect(i, w, *rect, ps) && i
                    / st < rect.top - 1 + r {
                    color@[((i % st) - col_start) % ps]
                } else {
                    prev[i]
                },
        decreases rect.height - r,
    {
        proof {
            lemma_rows_step(stride as int, rect.top - 1, r as int);
            lemma_mul_inequality(r as int + 1, rect.height as int, stride as int);
            lemma_mul_is_commutative(r as int + 1, stride as int);
            lemma_mul_is_commutative(rect.height as int, stride as int);
        }
        let row_start = start + stride * r;
        let mut q: usize = 0;
        while q < rect.width
            invariant
                stride == w * ps,
                st == stride,
                stride > 0,
                w == width,
                ps == pixel_size,
                row_start == (rect.top - 1 + r) * stride,
                row_start + stride <= buffer@.len(),
                col_start == rect_col_start(*rect, ps),
                col_end == rect_col_end(*rect, ps),
                col_end == col_start + rect.width * ps,
                col_end <= stride,
                rect.top >= 1,
                rect.width > 0 ==> color@.len() >= ps,
                r < rect.height,
                q <= rect.width,
                buffer@.len() == prev.len(),
                buffer@.len() <= usize::MAX,
                forall|i: int|
                    0 <= i < buffer@.len() ==> #[trigger] buffer@[i] == if in_rect(i, w, *rect, ps) && (
                    i / st < rect.top - 1 + r || (i / st == rect.top - 1 + r && i % st
                        < col_start + q * ps)) {
                        color@[((i % st) - col_start) % ps]
                    } else {
                        prev[i]
                    },
            decreases rect.width - q,
        {
            proof {
                lemma_mul_inequality(q as int + 1, rect.width as int, ps);
                lemma_mul_is_distributive_add_other_way(ps, q as int, 1);
                lemma_mul_nonnegative(q as int, ps);
            }
            let base = row_start + col_start + q * pixel_size;
            let mut k: usize = 0;
            while k < pixel_size
                invariant
                    stride == w * ps,
                    st == stride,
                    stride > 0,
                    w == width,
                    ps == pixel_size,
                    row_start == (rect.top - 1 + r) * stride,
                    row_start + stride <= buffer@.len(),
                    col_start == rect_col_start(*rect, ps),
                    col_end == col_start + rect.width * ps,
                    col_end <= stride,
                    rect.top >= 1,
                    color@.len() >= ps,
                    r < rect.height,
                    q < rect.width,
                    col_start + q * ps + ps <= col_end,
                    0 <= q * ps,
                    base == row_start + col_start + q * ps,
                    k <= ps,
                    buffer@.len() == prev.len(),
                    buffer@.len() <= usize::MAX,
                    forall|i: int|
                        0 <= i < buffer@.len() ==> #[trigger] buffer@[i] == if in_rect(i, w, *rect, ps) && (
                        i / st < rect.top - 1 + r || (i / st == rect.top - 1 + r && i % st
                            < col_start + q * ps + k)) {
                            color@[((i % st) - col_start) % ps]
                        } else {
                            prev[i]
                        },
                decreases ps - k,
            {
                proof {
                    lemma_rect_index(w, ps, rect.top - 1 + r, col_start + q * ps + k);
                    lemma_pixel_byte(q as int, ps, k as int);
                }
                buffer[base + k] = color[k];
                proof {
                    assert forall|i: int| 0 <= i < buffer@.len() implies #[trigger] buffer@[i] == if in_rect(
                        i,
                        w,
                        *rect,
                        ps,
                    ) && (i / st < rect.top - 1 + r || (i / st == rect.top - 1 + r && i % st < col_start
                        + q * ps + k + 1)) {
                        color@[((i % st) - col_start) % ps]
                    } else {
                        prev[i]
                    } by {
                        lemma_fundamental_div_mod(i, st);
                        lemma_mul_is_commutative(st, i / st);
                    }
                }
                k = k + 1;
            }
            q = q + 1;
        }
        r = r + 1;
    }
    proof {
        assert forall|i: int| 0 <= i < buffer@.len() implies #[trigger] buffer@[i] == filled(
            prev,
            w,
            *rect,
            color@,
            ps,
        )[i] by {
            if in_rect(i, w, *rect, ps) && i / st == rect.top - 1 + r - 1 {
                assert(i % st < col_end);
            }
        }
        assert(buffer@ =~= filled(prev, w, *rect, color@, ps));
    }
    Ok(())
}


/// The bytes of `rect`, row after row, of an image `width` pixels wide with
/// `pixel_size` bytes per pixel.
pub open spec fn rect_bytes(buf: Seq<u8>, width: int, rect: Rect, pixel_size: int) -> Seq<u8> {
    let row_len = rect.width * pixel_size;
    Seq::new(
        (rect.height * row_len) as nat,
        |t: int|
            buf[rect_start(width, rect, pixel_size) + (t / row_len) * (width * pixel_size)
                + rect_col_start(rect, pixel_size) + t % row_len],
    )
}

/// The pixels of `rect` of an RGB888 image `width` pixels wide, as RGBA8888 with every
/// alpha byte 255, row after row.
pub open spec fn rect_rgba_bytes(buf: Seq<u8>, width: int, rect: Rect) -> Seq<u8> {
    Seq::new(
        (rect.height * rect.width * 4) as nat,
        |t: int|
            if t % 4 == 3 {
                255u8
            } else {
                buf[rect_start(width, rect, 3) + ((t / 4) / (rect.width as int)) * (width * 3) + rect_col_start(
                    rect,
                    3,
                ) + ((t / 4) % (rect.width as int)) * 3 + t % 4]
            },
    )
}

proof fn lemma_row_offset(stride: int, r: int, start: int, h: int)
    requires
        0 <= r < h,
        0 < stride,
        0 <= start,
    ensures
        start + stride * r + stride <= start + stride * h,
        0 <= stride * r,
        stride * r == r * stride,
{
    lemma_mul_inequality(r + 1, h, stride);
    lemma_mul_is_distributive_add_other_way(stride, r, 1);
    lemma_mul_is_commutative(r + 1, stride);
    lemma_mul_is_commutative(h, stride);
    lemma_mul_is_commutative(r, stride);
    lemma_mul_nonnegative(stride, r);
}

/// Copies `rect` out of an image `width` pixels wide with `pixel_size` bytes per pixel.
pub fn get_rect<'a>(buffer: &[u8], width: usize, rect: &Rect, pixel_size: usize) -> (res: Result<Vec<u8>, &'a str>)
    requires
        rect_arith_ok(buffer@.len() as int, width as int, *rect, pixel_size as int),
    ensures
        match rect_check(buffer@.len() as int, width as int, *rect, pixel_size as int) {
            RectCheck::RowsOutside => res matches Err(e) && e@ == "get_rect失败 03!"@,
            RectCheck::ColumnsOutside => res matches Err(e) && e@ == "get_rect失败 02!"@,
            RectCheck::Inside => res matches Ok(v) && v@ == rect_bytes(
                buffer@,
                width as int,
                *rect,
                pixel_size as int,
            ),
        },
{
    let ghost w = width as int;
    let ghost ps = pixel_size as int;
    let mut result: Vec<u8> = Vec::new();
    let stride = width * pixel_size;
    let start = stride * (rect.top - 1);
    let end = start + stride * rect.height;
    if end > buffer.len() {
        return Err("get_rect失败 03!");
    }
    if rect.height > 0 {
        let col_start = (rect.left - 1) * pixel_size;
        let col_end = col_start + rect.width * pixel_size;
        if col_end > stride {
            return Err("get_rect失败 02!");
        }
    }
    let ghost row_len = rect.width * ps;
    let mut r: usize = 0;
    while r < rect.height
        invariant
            stride == w * ps,
            stride > 0,
            w == width,
            ps == pixel_size,
            row_len == rect.width * ps,
            0 <= row_len,
            start == rect_start(w, *rect, ps),
            start >= 0,
            end == start + stride * rect.height,
            end <= buffer@.len(),
            rect.height > 0 ==> rect_col_end(*rect, ps) <= stride,
            rect.height > 0 ==> rect_col_end(*rect, ps) <= usize::MAX,
            rect.top >= 1,
            rect.left >= 1,
            r <= rect.height,
            result@.len() == r * row_len,
            forall|t: int|
                0 <= t < result@.len() ==> #[trigger] result@[t] == buffer@[start + (t / row_len) * stride
                    + rect_col_start(*rect, ps) + t % row_len],
        decreases rect.height - r,
    {
        proof {
            lemma_row_offset(stride as int, r as int, start as int, rect.height as int);
            lemma_mul_nonnegative(rect.left - 1, ps);
            lemma_mul_nonnegative(rect.width as int, ps);
        }
        let col_start = (rect.left - 1) * pixel_size;
        let col_end = col_start + rect.width * pixel_size;
        let a = start + stride * r + col_start;
        let b = start + stride * r + col_end;
        let ghost before = result@;
        result.extend_from_slice(vstd::slice::slice_subrange(buffer, a, b));
        proof {
            assert forall|t: int| 0 <= t < result@.len() implies #[trigger] result@[t]
                == buffer@[start + (t / row_len) * stride + rect_col_start(*rect, ps) + t % row_len] by {
                if t >= before.len() {
                    lemma_fundamental_div_mod_converse(t, row_len, r as int, t - before.len());
                }
            }
            lemma_mul_is_distributive_add_other_way(row_len, r as int, 1);
        }
        r = r + 1;
    }
    proof {
        lemma_mul_is_commutative(rect.height as int, row_len);
        assert(result@ =~= rect_bytes(buffer@, w, *rect, ps));
        lemma_mul_is_associative(rect.width as int, rect.height as int, ps);
        lemma_mul_is_commutative(rect.width as int, rect.height as int);
        lemma_mul_is_associative(rect.height as int, rect.width as int, ps);
        if rect.height > 0 {
            lemma_mul_nonnegative(rect.left - 1, ps);
            lemma_mul_inequality(row_len, stride as int, rect.height as int);
            lemma_mul_is_commutative(stride as int, rect.height as int);
            lemma_mul_nonnegative(stride as int, rect.height as int);
            let hh = rect.height as int;
            let ww = rect.width as int;
            let ln = buffer@.len() as int;
            let sti = stride as int;
            assert(ww * hh <= ln && ww * hh * ps <= ln) by (nonlinear_arith)
                requires
                    ww * ps <= sti,
                    sti * hh <= ln,
                    ps >= 1,
                    ww >= 0,
                    hh >= 0,
            ;
        } else {
            lemma_mul_basics(rect.width as int);
        }
    }
    if result.len() != rect.width * rect.height * pixel_size {
        proof {
            lemma_mul_is_associative(rect.width as int, rect.height as int, ps);
            lemma_mul_is_commutative(rect.width as int, rect.height as int);
            lemma_mul_is_associative(rect.height as int, rect.width as int, ps);
        }
        return Err("get_rect失败 04!");
    }
    Ok(result)
}


proof fn lemma_rgba_index(t: int, r: int, q: int, c: int, w: int)
    requires
        0 <= r,
        0 <= q < w,
        0 <= c < 4,
        t == 4 * (r * w + q) + c,
    ensures
        t / 4 == r * w + q,
        t % 4 == c,
        (t / 4) / w == r,
        (t / 4) % w == q,
{
    lemma_fundamental_div_mod_converse(t, 4, r * w + q, c);
    lemma_fundamental_div_mod_converse(r * w + q, w, r, q);
}

/// Copies `rect` out of an RGB888 image `width` pixels wide as RGBA8888, every alpha
/// byte 255.
pub fn get_argb_rect_rgb<'a>(buffer: &[u8], width: usize, rect: &Rect) -> (res: Result<Vec<u8>, &'a str>)
    requires
        rect_arith_ok(buffer@.len() as int, width as int, *rect, 3),
    ensures
        match rect_check(buffer@.len() as int, width as int, *rect, 3) {
            RectCheck::RowsOutside => res matches Err(e) && e@ == "get_argb_rect_rgb失败 03!"@,
            RectCheck::ColumnsOutside => res matches Err(e) && e@ == "get_argb_rect_rgb失败 02!"@,
            RectCheck::Inside => res matches Ok(v) && v@ == rect_rgba_bytes(buffer@, width as int, *rect),
        },
{
    let ghost w = width as int;
    let ghost rw = rect.width as int;
    let ghost target = rect_rgba_bytes(buffer@, w, *rect);
    let mut result: Vec<u8> = Vec::new();
    let stride = width * 3;
    let start = stride * (rect.top - 1);
    let end = start + stride * rect.height;
    if end > buffer.len() {
        return Err("get_argb_rect_rgb失败 03!");
    }
    if rect.height > 0 {
        let col_start = (rect.left - 1) * 3;
        let col_end = col_start + rect.width * 3;
        if col_end > stride {
            return Err("get_argb_rect_rgb失败 02!");
        }
    }
    let mut r: usize = 0;
    while r < rect.height
        invariant
            stride == w * 3,
            stride > 0,
            w == width,
            rw == rect.width,
            target == rect_rgba_bytes(buffer@, w, *rect),
            start == rect_start(w, *rect, 3),
            start >= 0,
            end == start + stride * rect.height,
            end <= buffer@.len(),
            buffer@.len() <= usize::MAX,
            rect.height > 0 ==> rect_col_end(*rect, 3) <= stride,
            rect.height > 0 ==> rect_col_end(*rect, 3) <= usize::MAX,
            rect.top >= 1,
            rect.left >= 1,
            r <= rect.height,
            result@.len() == 4 * (r * rw),
            forall|t: int| 0 <= t < result@.len() ==> #[trigger] result@[t] == target[t],
        decreases rect.height - r,
    {
        proof {
            lemma_row_offset(stride as int, r as int, start as int, rect.height as int);
            lemma_mul_nonnegative(rect.left - 1, 3);
        }
        let col_start = (rect.left - 1) * 3;
        let a = start + stride * r + col_start;
        let mut q: usize = 0;
        while q < rect.width
            invariant
                stride == w * 3,
                stride > 0,
                w == width,
                rw == rect.width,
                target == rect_rgba_bytes(buffer@, w, *rect),
                start == rect_start(w, *rect, 3),
                a == start + stride * r + rect_col_start(*rect, 3),
                rect_col_end(*rect, 3) <= stride,
                start + stride * r + stride <= buffer@.len(),
                buffer@.len() <= usize::MAX,
                0 <= stride * r,
                col_start == rect_col_start(*rect, 3),
                rect.left >= 1,
                r < rect.height,
                q <= rect.width,
                result@.len() == 4 * (r * rw + q),
                forall|t: int| 0 <= t < result@.len() ==> #[trigger] result@[t] == target[t],
            decreases rect.width - q,
        {
            proof {
                lemma_mul_nonnegative(r as int, rw);
                lemma_mul_inequality(r as int + 1, rect.height as int, rw);
                lemma_mul_is_distributive_add_other_way(rw, r as int, 1);
                lemma_mul_is_commutative(rect.height as int, rw);
                lemma_mul_is_commutative(stride as int, r as int);
            }
            let p = a + 3 * q;
            let ghost t0 = result@.len() as int;
            proof {
                lemma_rgba_index(t0, r as int, q as int, 0, rw);
                lemma_rgba_index(t0 + 1, r as int, q as int, 1, rw);
                lemma_rgba_index(t0 + 2, r as int, q as int, 2, rw);
                lemma_rgba_index(t0 + 3, r as int, q as int, 3, rw);
                lemma_mul_is_associative(rect.height as int, rw, 4);
                lemma_mul_is_commutative(4, rect.height * rw);
                lemma_mul_inequality(r * rw + q + 1, rect.height * rw, 4);
            }
            result.push(buffer[p]);
            result.push(buffer[p + 1]);
            result.push(buffer[p + 2]);
            result.push(255);
            q = q + 1;
        }
        r = r + 1;
        proof {
            lemma_mul_is_distributive_add_other_way(rw, r - 1, 1);
        }
    }
    proof {
        lemma_mul_is_associative(rect.height as int, rw, 4);
        lemma_mul_is_commutative(4, rect.height * rw);
        assert(result@ =~= target);
        lemma_mul_is_commutative(rw, rect.height as int);
        if rect.height > 0 {
            lemma_mul_nonnegative(rect.left - 1, 3);
            lemma_mul_nonnegative(stride as int, rect.height as int);
            let hh = rect.height as int;
            let ln = buffer@.len() as int;
            let sti = stride as int;
            assert(rw * hh <= ln && rw * hh * 4 <= 2 * ln) by (nonlinear_arith)
                requires
                    rw * 3 <= sti,
                    sti * hh <= ln,
                    rw >= 0,
                    hh >= 0,
            ;
        } else {
            lemma_mul_basics(rw);
        }
    }
    if result.len() != rect.width * rect.height * 4 {
        return Err("get_argb_rect_rgb失败 04!");
    }
    Ok(result)
}


/// The top border that [`stroke_rect`] fills: `line_width` rows centred on the top edge.
pub open spec fn stroke_top(rect: Rect, line_width: int) -> Rect {
    let w = line_width / 2;
    Rect {
        left: (rect.left - w) as usize,
        top: (rect.top - w) as usize,
        width: (rect.width + w * 2) as usize,
        height: line_width as usize,
    }
}

/// The bottom border that [`stroke_rect`] fills.
pub open spec fn stroke_bottom(rect: Rect, line_width: int) -> Rect {
    let w = line_width / 2;
    Rect {
        left: (rect.left - w) as usize,
        top: (rect.top + rect.height - w) as usize,
        width: (rect.width + w * 2) as usize,
        height: line_width as usize,
    }
}

/// The left border that [`stroke_rect`] fills.
pub open spec fn stroke_left(rect: Rect, line_width: int) -> Rect {
    let w = line_width / 2;
    Rect {
        left: (rect.left - w) as usize,
        top: (rect.top + w) as usize,
        width: line_width as usize,
        height: (rect.height - w * 2) as usize,
    }
}

/// The right border that [`stroke_rect`] fills.
pub open spec fn stroke_right(rect: Rect, line_width: int) -> Rect {
    let w = line_width / 2;
    Rect {
        left: (rect.left + rect.width - w) as usize,
        top: (rect.top + w) as usize,
        width: line_width as usize,
        height: (rect.height - w * 2) as usize,
    }
}

pub open spec fn fits(r: Rect, buf_len: int, width: int, pixel_size: int) -> bool {
    rect_check(buf_len, width, r, pixel_size) is Inside
}

/// [`stroke_rect`] does not panic: each border it reaches can be computed and filled.
pub open spec fn stroke_rect_safe(
    buf_len: int,
    width: int,
    rect: Rect,
    color_len: int,
    line_width: int,
    pixel_size: int,
) -> bool {
    let w = line_width / 2;
    let t = stroke_top(rect, line_width);
    let b = stroke_bottom(rect, line_width);
    let l = stroke_left(rect, line_width);
    let r = stroke_right(rect, line_width);
    &&& rect.left >= w
    &&& rect.top >= w
    &&& rect.width + w * 2 <= usize::MAX
    &&& fill_rect_safe(buf_len, width, t, color_len, pixel_size)
    &&& fits(t, buf_len, width, pixel_size) ==> {
        &&& rect.top + rect.height <= usize::MAX
        &&& fill_rect_safe(buf_len, width, b, color_len, pixel_size)
        &&& fits(b, buf_len, width, pixel_size) ==> {
            &&& rect.top + w <= usize::MAX
            &&& rect.height >= w * 2
            &&& fill_rect_safe(buf_len, width, l, color_len, pixel_size)
            &&& fits(l, buf_len, width, pixel_size) ==> {
                &&& rect.left + rect.width <= usize::MAX
                &&& fill_rect_safe(buf_len, width, r, color_len, pixel_size)
            }
        }
    }
}

/// The buffer after [`stroke_rect`]: the four borders filled in turn, up to the first
/// that does not fit.
pub open spec fn stroked(buf: Seq<u8>, width: int, rect: Rect, color: Seq<u8>, line_width: int, pixel_size: int) -> Seq<u8> {
    let n = buf.len() as int;
    let t = stroke_top(rect, line_width);
    let b = stroke_bottom(rect, line_width);
    let l = stroke_left(rect, line_width);
    let r = stroke_right(rect, line_width);
    let b1 = fill_rect_result(buf, width, t, color, pixel_size);
    if !fits(t, n, width, pixel_size) {
        b1
    } else {
        let b2 = fill_rect_result(b1, width, b, color, pixel_size);
        if !fits(b, n, width, pixel_size) {
            b2
        } else {
            let b3 = fill_rect_result(b2, width, l, color, pixel_size);
            if !fits(l, n, width, pixel_size) {
                b3
            } else {
                fill_rect_result(b3, width, r, color, pixel_size)
            }
        }
    }
}

/// The check of the first border of [`stroke_rect`] that does not fit, if any.
pub open spec fn stroke_failure(buf_len: int, width: int, rect: Rect, line_width: int, pixel_size: int) -> Option<RectCheck> {
    let t = stroke_top(rect, line_width);
    let b = stroke_bottom(rect, line_width);
    let l = stroke_left(rect, line_width);
    let r = stroke_right(rect, line_width);
    if !fits(t, buf_len, width, pixel_size) {
        Some(rect_check(buf_len, width, t, pixel_size))
    } else if !fits(b, buf_len, width, pixel_size) {
        Some(rect_check(buf_len, width, b, pixel_size))
    } else if !fits(l, buf_len, width, pixel_size) {
        Some(rect_check(buf_len, width, l, pixel_size))
    } else if !fits(r, buf_len, width, pixel_size) {
        Some(rect_check(buf_len, width, r, pixel_size))
    } else {
        None
    }
}

/// Draws the outline of `rect` with lines `line_width` pixels thick (centred on its
/// edges) in `color`: top, bottom, left and right border in turn, stopping at the first
/// that does not fit in the image.
pub fn stroke_rect(
    buffer: &mut [u8],
    width: usize,
    rect: &Rect,
    color: &[u8],
    line_width: usize,
    pixel_size: usize,
) -> (res: Result<(), String>)
    requires
        stroke_rect_safe(
            old(buffer)@.len() as int,
            width as int,
            *rect,
            color@.len() as int,
            line_width as int,
            pixel_size as int,
        ),
    ensures
        final(buffer)@ == stroked(old(buffer)@, width as int, *rect, color@, line_width as int, pixel_size as int),
        match stroke_failure(old(buffer)@.len() as int, width as int, *rect, line_width as int, pixel_size as int) {
            None => res is Ok,
            Some(RectCheck::RowsOutside) => res matches Err(e) && e@ == "fill_rect失败 03!"@,
            Some(RectCheck::ColumnsOutside) => res matches Err(e) && e@ == "fill_rect失败 02!"@,
            Some(RectCheck::Inside) => false,
        },
{
    let w = line_width / 2;
    let mut fill = Rect::new(rect.left - w, rect.top - w, rect.width + w * 2, line_width);
    match fill_rect(buffer, width, &fill, color, pixel_size) {
        Ok(()) => (),
        Err(err) => return Err(err),
    }
    fill.left = rect.left - w;
    fill.top = rect.top + rect.height - w;
    fill.width = rect.width + w * 2;
    fill.height = line_width;
    match fill_rect(buffer, width, &fill, color, pixel_size) {
        Ok(()) => (),
        Err(err) => return Err(err),
    }
    fill.left = rect.left - w;
    fill.top = rect.top + w;
    fill.width = line_width;
    fill.height = rect.height - w * 2;
    match fill_rect(buffer, width, &fill, color, pixel_size) {
        Ok(()) => (),
        Err(err) => return Err(err),
    }
    fill.left = rect.left + rect.width - w;
    fill.top = rect.top + w;
    fill.width = line_width;
    fill.height = rect.height - w * 2;
    match fill_rect(buffer, width, &fill, color, pixel_size) {
        Ok(()) => (),
        Err(err) => return Err(err),
    }
    Ok(())
}

/// Reading back a filled rectangle gives its colour: where [`fill_rect`] fills a rectangle
/// that lies inside the buffer, [`get_rect`] of the same rectangle then gives the colour's
/// first `pixel_size` bytes once for each pixel.
pub proof fn law_get_rect_after_fill_rect(
    buf: Seq<u8>,
    width: int,
    rect: Rect,
    color: Seq<u8>,
    pixel_size: int,
)
    requires
        width > 0,
        pixel_size > 0,
        rect.top >= 1,
        rect.left >= 1,
        rect_check(buf.len() as int, width, rect, pixel_size) is Inside,
        color.len() >= pixel_size,
    ensures
        rect_bytes(fill_rect_result(buf, width, rect, color, pixel_size), width, rect, pixel_size)
            == Seq::new(
            (rect.height * (rect.width * pixel_size)) as nat,
            |t: int| color[t % pixel_size],
        ),
{
    let stride = width * pixel_size;
    let row_len = rect.width * pixel_size;
    let cs = rect_col_start(rect, pixel_size);
    let f = filled(buf, width, rect, color, pixel_size);
    let lhs = rect_bytes(f, width, rect, pixel_size);
    let rhs = Seq::new((rect.height * (rect.width * pixel_size)) as nat, |t: int| color[t % pixel_size]);
    assert(stride > 0) by (nonlinear_arith)
        requires
            stride == width * pixel_size,
            width > 0,
            pixel_size > 0,
    ;
    assert forall|t: int| 0 <= t < lhs.len() implies lhs[t] == rhs[t] by {
        assert(rect.height > 0 && row_len > 0 && rect.width > 0) by (nonlinear_arith)
            requires
                0 <= t < rect.height * row_len,
                rect.height >= 0,
                rect.width >= 0,
                pixel_size > 0,
                row_len == rect.width * pixel_size,
        ;
        let r = t / row_len;
        let c = t % row_len;
        assert(0 <= r < rect.height && 0 <= c < row_len && t == r * row_len + c) by (nonlinear_arith)
            requires
                0 <= t < rect.height * row_len,
                row_len > 0,
                r == t / row_len,
                c == t % row_len,
        ;
        assert(cs + c < stride);
        let row = rect.top - 1 + r;
        let i = rect_start(width, rect, pixel_size) + r * stride + cs + c;
        assert(i == row * stride + (cs + c)) by (nonlinear_arith)
            requires
                i == stride * (rect.top - 1) + r * stride + cs + c,
                row == rect.top - 1 + r,
        ;
        lemma_rect_index(width, pixel_size, row, cs + c);
        assert(i < buf.len()) by (nonlinear_arith)
            requires
                i == row * stride + (cs + c),
                cs + c < stride,
                row < rect.top - 1 + rect.height,
                rect_end(width, rect, pixel_size) <= buf.len(),
                rect_end(width, rect, pixel_size) == stride * (rect.top - 1) + stride * rect.height,
                row >= 0,
        ;
        assert(in_rect(i, width, rect, pixel_size));
        lemma_mod_mod(t, pixel_size, rect.width as int);
        lemma_mul_is_commutative(pixel_size, rect.width as int);
        assert(f[i] == color[c % pixel_size]);
        assert(lhs[t] == f[i]);
    }
    assert(lhs =~= rhs);
}

/// Where byte `c` of pixel `p` lies in the RGBA copy and in the RGB copy of a rectangle
/// `h` rows high and `rw` pixels wide.
proof fn lemma_rgba_pixel_index(p: int, c: int, h: int, rw: int)
    requires
        0 <= p < h * rw,
        0 <= c < 4,
        h >= 0,
        rw >= 0,
    ensures
        4 * p + c < 4 * (h * rw),
        (4 * p + c) % 4 == c,
        (4 * p + c) / 4 == p,
        c < 3 ==> {
            &&& 3 * p + c < 3 * (h * rw)
            &&& (3 * p + c) / (rw * 3) == p / rw
            &&& (3 * p + c) % (rw * 3) == (p % rw) * 3 + c
        },
{
    lemma_fundamental_div_mod_converse(4 * p + c, 4, p, c);
    assert(rw > 0) by (nonlinear_arith)
        requires
            0 <= p < h * rw,
            h >= 0,
            rw >= 0,
    ;
    lemma_fundamental_div_mod(p, rw);
    lemma_mod_pos_bound(p, rw);
    let r = p / rw;
    let q = p % rw;
    assert(4 * p + c < 4 * (h * rw)) by (nonlinear_arith)
        requires
            p < h * rw,
            c < 4,
    ;
    if c < 3 {
        assert(3 * p + c < 3 * (h * rw)) by (nonlinear_arith)
            requires
                p < h * rw,
                c < 3,
        ;
        assert(3 * p + c == r * (rw * 3) + (q * 3 + c) && 0 <= q * 3 + c < rw * 3)
            by (nonlinear_arith)
            requires
                p == rw * r + q,
                0 <= q < rw,
                0 <= c < 3,
        ;
        lemma_fundamental_div_mod_converse(3 * p + c, rw * 3, r, q * 3 + c);
    }
}

/// The RGBA copy is the RGB copy with an alpha byte: [`get_argb_rect_rgb`] and
/// [`get_rect`] with three bytes per pixel succeed on the same rectangles (both contracts
/// go by the same `rect_check`), and there pixel `p` of the RGBA copy holds the three
/// bytes of pixel `p` of the RGB copy followed by 255.
pub proof fn law_argb_rect_is_rgb_rect_with_alpha(buf: Seq<u8>, width: int, rect: Rect)
    ensures
        rect_rgba_bytes(buf, width, rect).len() == rect_bytes(buf, width, rect, 3).len() / 3 * 4,
        forall|p: int, c: int|
            0 <= p < rect.height * rect.width && 0 <= c < 3 ==> #[trigger] rect_rgba_bytes(
                buf,
                width,
                rect,
            )[4 * p + c] == #[trigger] rect_bytes(buf, width, rect, 3)[3 * p + c],
        forall|p: int|
            0 <= p < rect.height * rect.width ==> #[trigger] rect_rgba_bytes(buf, width, rect)[4
                * p + 3] == 255u8,
{
    let h = rect.height as int;
    let rw = rect.width as int;
    let rgba = rect_rgba_bytes(buf, width, rect);
    let rgb = rect_bytes(buf, width, rect, 3);
    assert(rgb.len() == 3 * (h * rw) && rgba.len() == 4 * (h * rw)) by (nonlinear_arith)
        requires
            rgb.len() == h * (rw * 3),
            rgba.len() == h * rw * 4,
    ;
    assert(rgb.len() / 3 * 4 == rgba.len()) by {
        lemma_fundamental_div_mod_converse(rgb.len() as int, 3, h * rw, 0);
    }
    assert forall|p: int, c: int| 0 <= p < h * rw && 0 <= c < 3 implies #[trigger] rgba[4 * p
        + c] == #[trigger] rgb[3 * p + c] by {
        lemma_rgba_pixel_index(p, c, h, rw);
    }
    assert forall|p: int| 0 <= p < h * rw implies #[trigger] rgba[4 * p + 3] == 255u8 by {
        lemma_rgba_pixel_index(p, 3, h, rw);
    }
}

/// Outlining changes only the borders: [`stroke_rect`] leaves each byte that lies in none
/// of its top, bottom, left and right borders as it was (the inside of the outline among
/// them), and the buffer keeps its length.
pub proof fn law_stroke_rect_touches_only_borders(
    buf: Seq<u8>,
    width: int,
    rect: Rect,
    color: Seq<u8>,
    line_width: int,
    pixel_size: int,
    i: int,
)
    requires
        0 <= i < buf.len(),
        !in_rect(i, width, stroke_top(rect, line_width), pixel_size),
        !in_rect(i, width, stroke_bottom(rect, line_width), pixel_size),
        !in_rect(i, width, stroke_left(rect, line_width), pixel_size),
        !in_rect(i, width, stroke_right(rect, line_width), pixel_size),
    ensures
        stroked(buf, width, rect, color, line_width, pixel_size).len() == buf.len(),
        stroked(buf, width, rect, color, line_width, pixel_size)[i] == buf[i],
{
}

} // verus!
