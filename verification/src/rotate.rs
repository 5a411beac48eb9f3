use vstd::arithmetic::div_mod::*;
use vstd::arithmetic::mul::*;
use vstd::prelude::*;

verus! {

// Pixels are three bytes (RGB888), stored row after row. Pixel `k` of an image
// `w` pixels wide sits at column `k % w` of row `k / w`.

/// Destination pixel of source pixel `k` when an image `sw` wide and `sh` high is
/// turned a quarter clockwise (the result is `sh` wide and `sw` high).
pub open spec fn rot90_dest(k: int, sw: int, sh: int) -> int {
    (k % sw) * sh + (sh - 1 - k / sw)
}

/// Source pixel that lands on destination pixel `q` after a quarter turn clockwise,
/// or -1 where no pixel of a `sw` by `sh` image lands.
pub open spec fn rot90_source(q: int, sw: int, sh: int) -> int {
    if sh > 0 && 0 <= q && q / sh < sw {
        (sh - 1 - q % sh) * sw + q / sh
    } else {
        -1
    }
}

/// Byte `j` of the destination buffer after [`rotate90`]: the turned pixel where one
/// lands, the previous byte elsewhere.
pub open spec fn rot90_byte(src: Seq<u8>, prev: Seq<u8>, sw: int, sh: int, j: int) -> u8 {
    let s = rot90_source(j / 3, sw, sh);
    if 0 <= s < src.len() / 3 {
        src[3 * s + j % 3]
    } else {
        prev[j]
    }
}

/// A whole image `sw` by `sh` turned a quarter clockwise.
pub open spec fn rotated90(src: Seq<u8>, sw: int, sh: int) -> Seq<u8> {
    Seq::new(src.len(), |j: int| src[3 * rot90_source(j / 3, sw, sh) + j % 3])
}

/// Destination pixel of source pixel `k` when an image `sw` wide and `sh` high is
/// turned three quarters clockwise (the result is `sh` wide and `sw` high).
pub open spec fn rot270_dest(k: int, sw: int, sh: int) -> int {
    (sw - 1 - k % sw) * sh + k / sw
}

/// The candidate writers of destination pixel `q` under [`rotate270`], tried from
/// `t` on: candidate `t` is the source pixel in column `sw - 1 - t`. Pixels are
/// written in increasing order, so the one written last is the first candidate below
/// `limit`; -1 when there is none.
pub open spec fn rot270_writer(q: int, sw: int, sh: int, limit: int, t: int) -> int
    decreases sw - t,
{
    if t >= sw || t < 0 {
        -1
    } else {
        let y = q - t * sh;
        if y < 0 {
            -1
        } else if y * sw + (sw - 1 - t) < limit {
            y * sw + (sw - 1 - t)
        } else {
            rot270_writer(q, sw, sh, limit, t + 1)
        }
    }
}

/// Byte `j` of the destination buffer after [`rotate270`].
pub open spec fn rot270_byte(src: Seq<u8>, prev: Seq<u8>, sw: int, sh: int, j: int) -> u8 {
    let s = rot270_writer(j / 3, sw, sh, (src.len() / 3) as int, 0);
    if s >= 0 {
        src[3 * s + j % 3]
    } else {
        prev[j]
    }
}

/// Source pixel that lands on destination pixel `q` after a three-quarter turn of a
/// whole `sw` by `sh` image.
pub open spec fn rot270_source(q: int, sw: int, sh: int) -> int {
    (q % sh) * sw + (sw - 1 - q / sh)
}

/// A whole image `sw` by `sh` turned three quarters clockwise.
pub open spec fn rotated270(src: Seq<u8>, sw: int, sh: int) -> Seq<u8> {
    Seq::new(src.len(), |j: int| src[3 * rot270_source(j / 3, sw, sh) + j % 3])
}

/// Byte `j` of the destination buffer after [`rotate180`]: the pixel order is reversed.
pub open spec fn rot180_byte(src: Seq<u8>, prev: Seq<u8>, j: int) -> u8 {
    if j < src.len() {
        src[src.len() - 3 - 3 * (j / 3) + j % 3]
    } else {
        prev[j]
    }
}

/// A whole image turned half a turn.
pub open spec fn rotated180(src: Seq<u8>) -> Seq<u8> {
    Seq::new(src.len(), |j: int| src[src.len() - 3 - 3 * (j / 3) + j % 3])
}

proof fn lemma_pixel_split(k: int, w: int)
    requires
        0 <= k,
        0 < w,
    ensures
        k == (k / w) * w + k % w,
        0 <= k % w < w,
        0 <= k / w,
{
    lemma_fundamental_div_mod(k, w);
    lemma_mul_is_commutative(w, k / w);
    lemma_div_pos_is_pos(k, w);
}

proof fn lemma_rot90_dest(k: int, sw: int, sh: int)
    requires
        0 <= k < sw * sh,
        0 < sw,
    ensures
        sh > 0,
        0 <= rot90_dest(k, sw, sh) < sw * sh,
        rot90_source(rot90_dest(k, sw, sh), sw, sh) == k,
{
    lemma_pixel_split(k, sw);
    let x = k % sw;
    let y = k / sw;
    if sh <= 0 {
        lemma_mul_inequality(sh, 0, sw);
        lemma_mul_is_commutative(sw, sh);
    }
    if y >= sh {
        lemma_mul_inequality(sh, y, sw);
        lemma_mul_is_commutative(sw, sh);
    }
    let q = x * sh + (sh - 1 - y);
    lemma_fundamental_div_mod_converse(q, sh, x, sh - 1 - y);
    lemma_mul_inequality(x + 1, sw, sh);
    lemma_mul_is_distributive_add_other_way(sh, x, 1);
    lemma_mul_nonnegative(x, sh);
}

proof fn lemma_rot90_source(q: int, sw: int, sh: int)
    requires
        rot90_source(q, sw, sh) >= 0,
        0 < sw,
    ensures
        rot90_dest(rot90_source(q, sw, sh), sw, sh) == q,
{
    let a = q / sh;
    let b = q % sh;
    lemma_pixel_split(q, sh);
    lemma_fundamental_div_mod_converse((sh - 1 - b) * sw + a, sw, sh - 1 - b, a);
}

proof fn lemma_rot180_index(k: int, n: int)
    requires
        0 <= k < n,
    ensures
        (3 * n - 3 - 3 * k) / 3 == n - 1 - k,
        (3 * n - 3 - 3 * k + 1) / 3 == n - 1 - k,
        (3 * n - 3 - 3 * k + 2) / 3 == n - 1 - k,
        (3 * n - 3 - 3 * k) % 3 == 0,
        (3 * n - 3 - 3 * k + 1) % 3 == 1,
        (3 * n - 3 - 3 * k + 2) % 3 == 2,
{
}

/// Turns an RGB888 image `src_width` by `src_height` a quarter clockwise into `new_buffer`
/// and returns the new width and height.
pub fn rotate90(src_buffer: &[u8], new_buffer: &mut [u8], src_width: usize, src_height: usize) -> (dims: (usize, usize))
    requires
        src_width > 0,
        src_width * 3 <= usize::MAX,
        src_buffer@.len() % 3 == 0,
        src_buffer@.len() / 3 <= src_width * src_height,
        forall|k: int|
            0 <= k < src_buffer@.len() / 3 ==> 3 * #[trigger] rot90_dest(k, src_width as int, src_height as int) + 2
                < old(new_buffer)@.len(),
    ensures
        dims == (src_height, src_width),
        final(new_buffer)@.len() == old(new_buffer)@.len(),
        forall|j: int|
            0 <= j < final(new_buffer)@.len() ==> #[trigger] final(new_buffer)@[j] == rot90_byte(
                src_buffer@,
                old(new_buffer)@,
                src_width as int,
                src_height as int,
                j,
            ),
        src_buffer@.len() == 3 * (src_width * src_height) && old(new_buffer)@.len()
            == src_buffer@.len() ==> final(new_buffer)@ == rotated90(
            src_buffer@,
            src_width as int,
            src_height as int,
        ),
{
    let ghost sw = src_width as int;
    let ghost sh = src_height as int;
    let ghost prev = new_buffer@;
    let n = src_buffer.len() / 3;
    let new_width = src_height;
    let mut k: usize = 0;
    let mut x: usize = 0;
    let mut y: usize = 0;
    while k < n
        invariant
            n == src_buffer@.len() / 3,
            n <= sw * sh,
            sw == src_width,
            sh == src_height,
            new_width == src_height,
            0 < sw,
            k <= n,
            x < sw,
            k == y * sw + x,
            new_buffer@.len() == prev.len(),
            prev == old(new_buffer)@,
            src_buffer@.len() % 3 == 0,
            forall|k: int|
                0 <= k < n ==> 3 * #[trigger] rot90_dest(k, sw, sh) + 2 < prev.len(),
            forall|j: int|
                0 <= j < new_buffer@.len() ==> #[trigger] new_buffer@[j] == {
                    let s = rot90_source(j / 3, sw, sh);
                    if 0 <= s < k {
                        src_buffer@[3 * s + j % 3]
                    } else {
                        prev[j]
                    }
                },
        decreases n - k,
    {
        proof {
            lemma_rot90_dest(k as int, sw, sh);
            lemma_fundamental_div_mod_converse(k as int, sw, y as int, x as int);
            assert(3 * rot90_dest(k as int, sw, sh) + 2 < prev.len());
            lemma_mul_nonnegative(x as int, sh);
            if y >= sh {
                lemma_mul_inequality(sh, y as int, sw);
                lemma_mul_is_commutative(sw, sh);
            }
            assert(y < sh);
            assert(x * sh <= rot90_dest(k as int, sw, sh));
        }
        let nb_len = new_buffer.len();
        let src_len = src_buffer.len();
        assert(x * sh < nb_len);
        proof {
            lemma_fundamental_div_mod(src_len as int, 3);
        }
        assert(3 * k + 2 < src_len);
        let q = x * new_width + (src_height - y - 1);
        let p = q * 3;
        new_buffer[p] = src_buffer[3 * k];
        new_buffer[p + 1] = src_buffer[3 * k + 1];
        new_buffer[p + 2] = src_buffer[3 * k + 2];
        proof {
            assert forall|j: int| 0 <= j < new_buffer@.len() implies #[trigger] new_buffer@[j] == {
                let s = rot90_source(j / 3, sw, sh);
                if 0 <= s < k + 1 {
                    src_buffer@[3 * s + j % 3]
                } else {
                    prev[j]
                }
            } by {
                let s = rot90_source(j / 3, sw, sh);
                if j / 3 != q {
                    if s == k {
                        lemma_rot90_source(j / 3, sw, sh);
                    }
                }
            }
        }
        k = k + 1;
        x = x + 1;
        if x == src_width {
            x = 0;
            y = y + 1;
            proof {
                lemma_mul_is_distributive_add_other_way(sw, y - 1, 1);
            }
        }
    }
    proof {
        if src_buffer@.len() == 3 * (sw * sh) && prev.len() == src_buffer@.len() {
            assert forall|j: int| 0 <= j < new_buffer@.len() implies #[trigger] new_buffer@[j]
                == rotated90(src_buffer@, sw, sh)[j] by {
                let q = j / 3;
                lemma_pixel_split(j, 3);
                assert(0 <= q < sw * sh);
                lemma_pixel_split(q, sh);
                lemma_mul_is_commutative(sw, sh);
                if q / sh >= sw {
                    lemma_mul_inequality(sw, q / sh, sh);
                }
                let s = rot90_source(q, sw, sh);
                lemma_fundamental_div_mod_converse(s, sw, sh - 1 - q % sh, q / sh);
                lemma_mul_inequality(sh - 1 - q % sh + 1, sh, sw);
                lemma_mul_is_distributive_add_other_way(sw, sh - 1 - q % sh, 1);
            }
            assert(new_buffer@ =~= rotated90(src_buffer@, sw, sh));
        }
    }
    (new_width, src_width)
}

/// Turns an RGB888 image half a turn into `new_buffer`: the pixel order is reversed.
/// Returns the width and height, which stay the same.
pub fn rotate180(src_buffer: &[u8], new_buffer: &mut [u8], width: usize, height: usize) -> (dims: (usize, usize))
    requires
        width > 0,
        width * 3 <= usize::MAX,
        src_buffer@.len() > 0,
        src_buffer@.len() % 3 == 0,
        src_buffer@.len() <= old(new_buffer)@.len(),
    ensures
        dims == (width, height),
        final(new_buffer)@.len() == old(new_buffer)@.len(),
        forall|j: int|
            0 <= j < final(new_buffer)@.len() ==> #[trigger] final(new_buffer)@[j] == rot180_byte(
                src_buffer@,
                old(new_buffer)@,
                j,
            ),
        old(new_buffer)@.len() == src_buffer@.len() ==> final(new_buffer)@ == rotated180(
            src_buffer@,
        ),
{
    let ghost prev = new_buffer@;
    let len = src_buffer.len();
    let n = len / 3;
    let mut k: usize = 0;
    while k < n
        invariant
            n == len / 3,
            len == src_buffer@.len(),
            len % 3 == 0,
            len <= prev.len(),
            k <= n,
            new_buffer@.len() == prev.len(),
            prev == old(new_buffer)@,
            forall|j: int|
                0 <= j < new_buffer@.len() ==> #[trigger] new_buffer@[j] == if len - 3 * k <= j < len {
                    src_buffer@[len - 3 - 3 * (j / 3) + j % 3]
                } else {
                    prev[j]
                },
        decreases n - k,
    {
        let p = len - 1 - 3 * k;
        proof {
            lemma_rot180_index(k as int, n as int);
        }
        new_buffer[p - 2] = src_buffer[3 * k];
        new_buffer[p - 1] = src_buffer[3 * k + 1];
        new_buffer[p] = src_buffer[3 * k + 2];
        k = k + 1;
    }
    proof {
        if prev.len() == len {
            assert(new_buffer@ =~= rotated180(src_buffer@));
        }
    }
    (width, height)
}


proof fn lemma_rot270_none(q: int, sw: int, sh: int, t: int)
    requires
        0 < sw,
        0 <= t,
    ensures
        rot270_writer(q, sw, sh, 0, t) == -1,
    decreases sw - t,
{
    if t < sw {
        let y = q - t * sh;
        if y >= 0 {
            lemma_mul_nonnegative(y, sw);
            lemma_rot270_none(q, sw, sh, t + 1);
        }
    }
}

proof fn lemma_rot270_other(q: int, sw: int, sh: int, k: int, t: int)
    requires
        0 <= k,
        0 < sw,
        0 <= sh,
        0 <= t,
        q != rot270_dest(k, sw, sh),
    ensures
        rot270_writer(q, sw, sh, k + 1, t) == rot270_writer(q, sw, sh, k, t),
    decreases sw - t,
{
    if t < sw {
        let y = q - t * sh;
        if y >= 0 {
            let c = y * sw + (sw - 1 - t);
            if c == k {
                lemma_fundamental_div_mod_converse(k, sw, y, sw - 1 - t);
                assert(rot270_dest(k, sw, sh) == t * sh + y);
            }
            lemma_rot270_other(q, sw, sh, k, t + 1);
        }
    }
}

proof fn lemma_rot270_self(k: int, sw: int, sh: int, t: int)
    requires
        0 <= k,
        0 < sw,
        0 <= sh,
        0 <= t <= sw - 1 - k % sw,
    ensures
        rot270_writer(rot270_dest(k, sw, sh), sw, sh, k + 1, t) == k,
    decreases sw - 1 - k % sw - t,
{
    lemma_pixel_split(k, sw);
    let x0 = k % sw;
    let y0 = k / sw;
    let t0 = sw - 1 - x0;
    let q = rot270_dest(k, sw, sh);
    let y = q - t * sh;
    assert(y == y0 + (t0 - t) * sh) by (nonlinear_arith)
        requires
            q == t0 * sh + y0,
            y == q - t * sh,
    ;
    assert(y >= 0) by (nonlinear_arith)
        requires
            y == y0 + (t0 - t) * sh,
            y0 >= 0,
            t0 - t >= 0,
            sh >= 0,
    ;
    let c = y * sw + (sw - 1 - t);
    assert(c - k == (t0 - t) * sh * sw + (t0 - t)) by (nonlinear_arith)
        requires
            y == y0 + (t0 - t) * sh,
            c == y * sw + (sw - 1 - t),
            k == y0 * sw + x0,
            t0 == sw - 1 - x0,
    ;
    if t < t0 {
        assert((t0 - t) * sh * sw >= 0) by (nonlinear_arith)
            requires
                t0 - t > 0,
                sh >= 0,
                sw > 0,
        ;
        lemma_rot270_self(k, sw, sh, t + 1);
    }
}

proof fn lemma_rot270_full(q: int, sw: int, sh: int, t: int)
    requires
        0 < sw,
        0 < sh,
        0 <= q < sw * sh,
        0 <= t <= q / sh,
    ensures
        rot270_writer(q, sw, sh, sw * sh, t) == rot270_source(q, sw, sh),
    decreases q / sh - t,
{
    lemma_pixel_split(q, sh);
    let a = q / sh;
    let b = q % sh;
    if a >= sw {
        lemma_mul_inequality(sw, a, sh);
    }
    assert(a < sw);
    let y = q - t * sh;
    assert(y == (a - t) * sh + b) by (nonlinear_arith)
        requires
            q == a * sh + b,
            y == q - t * sh,
    ;
    assert(y >= 0) by (nonlinear_arith)
        requires
            y == (a - t) * sh + b,
            a - t >= 0,
            sh > 0,
            b >= 0,
    ;
    if t < a {
        assert(y * sw + (sw - 1 - t) >= sw * sh) by (nonlinear_arith)
            requires
                y == (a - t) * sh + b,
                a - t >= 1,
                b >= 0,
                sh > 0,
                sw > 0,
                t < a < sw,
        ;
        lemma_rot270_full(q, sw, sh, t + 1);
    } else {
        assert(y * sw + (sw - 1 - t) < sw * sh) by (nonlinear_arith)
            requires
                y == b,
                b < sh,
                0 <= t < sw,
                sw > 0,
        ;
    }
}

/// Turns an RGB888 image `src_width` by `src_height` three quarters clockwise into
/// `new_buffer` and returns the new width and height.
pub fn rotate270(src_buffer: &[u8], new_buffer: &mut [u8], src_width: usize, src_height: usize) -> (dims: (usize, usize))
    requires
        src_width > 0,
        src_width * 3 <= usize::MAX,
        src_height * 3 <= usize::MAX,
        src_buffer@.len() % 3 == 0,
        forall|k: int|
            0 <= k < src_buffer@.len() / 3 ==> 3 * #[trigger] rot270_dest(k, src_width as int, src_height as int) + 2
                < old(new_buffer)@.len(),
    ensures
        dims == (src_height, src_width),
        final(new_buffer)@.len() == old(new_buffer)@.len(),
        forall|j: int|
            0 <= j < final(new_buffer)@.len() ==> #[trigger] final(new_buffer)@[j] == rot270_byte(
                src_buffer@,
                old(new_buffer)@,
                src_width as int,
                src_height as int,
                j,
            ),
        src_buffer@.len() == 3 * (src_width * src_height) && old(new_buffer)@.len()
            == src_buffer@.len() ==> final(new_buffer)@ == rotated270(
            src_buffer@,
            src_width as int,
            src_height as int,
        ),
{
    let ghost sw = src_width as int;
    let ghost sh = src_height as int;
    let ghost prev = new_buffer@;
    let n = src_buffer.len() / 3;
    let new_width = src_height;
    let new_stride = new_width * 3;
    let mut k: usize = 0;
    let mut x: usize = 0;
    let mut y: usize = 0;
    proof {
        assert forall|j: int| 0 <= j < new_buffer@.len() implies #[trigger] new_buffer@[j] == prev[j] && rot270_writer(j / 3, sw, sh, 0, 0) == -1 by {
            lemma_rot270_none(j / 3, sw, sh, 0);
        }
    }
    while k < n
        invariant
            n == src_buffer@.len() / 3,
            sw == src_width,
            sh == src_height,
            new_width == src_height,
            new_stride == 3 * sh,
            0 < sw,
            k <= n,
            x < sw,
            k == y * sw + x,
            new_buffer@.len() == prev.len(),
            prev == old(new_buffer)@,
            src_buffer@.len() % 3 == 0,
            forall|k: int|
                0 <= k < n ==> 3 * #[trigger] rot270_dest(k, sw, sh) + 2 < prev.len(),
            forall|j: int|
                0 <= j < new_buffer@.len() ==> #[trigger] new_buffer@[j] == {
                    let s = rot270_writer(j / 3, sw, sh, k as int, 0);
                    if s >= 0 {
                        src_buffer@[3 * s + j % 3]
                    } else {
                        prev[j]
                    }
                },
        decreases n - k,
    {
        let nb_len = new_buffer.len();
        let src_len = src_buffer.len();
        proof {
            lemma_fundamental_div_mod_converse(k as int, sw, y as int, x as int);
            assert(3 * rot270_dest(k as int, sw, sh) + 2 < prev.len());
            lemma_mul_nonnegative(sw - 1 - x, 3 * sh);
            lemma_mul_is_associative(sw - 1 - x, sh, 3);
            lemma_fundamental_div_mod(src_len as int, 3);
        }
        let q = (src_width - x - 1) * new_width + y;
        let p = (src_width - x - 1) * new_stride + y * 3;
        assert(p == 3 * q);
        new_buffer[p] = src_buffer[3 * k];
        new_buffer[p + 1] = src_buffer[3 * k + 1];
        new_buffer[p + 2] = src_buffer[3 * k + 2];
        proof {
            lemma_pixel_split(k as int, sw);
            lemma_rot270_self(k as int, sw, sh, 0);
            assert forall|j: int| 0 <= j < new_buffer@.len() implies #[trigger] new_buffer@[j] == {
                let s = rot270_writer(j / 3, sw, sh, k + 1, 0);
                if s >= 0 {
                    src_buffer@[3 * s + j % 3]
                } else {
                    prev[j]
                }
            } by {
                if j / 3 != q {
                    lemma_rot270_other(j / 3, sw, sh, k as int, 0);
                }
            }
        }
        k = k + 1;
        x = x + 1;
        if x == src_width {
            x = 0;
            y = y + 1;
            proof {
                lemma_mul_is_distributive_add_other_way(sw, y - 1, 1);
            }
        }
    }
    proof {
        if src_buffer@.len() == 3 * (sw * sh) && prev.len() == src_buffer@.len() {
            assert forall|j: int| 0 <= j < new_buffer@.len() implies #[trigger] new_buffer@[j]
                == rotated270(src_buffer@, sw, sh)[j] by {
                let q = j / 3;
                lemma_pixel_split(j, 3);
                assert(0 <= q < sw * sh);
                assert(sh > 0) by {
                    if sh <= 0 {
                        lemma_mul_inequality(sh, 0, sw);
                        lemma_mul_is_commutative(sw, sh);
                    }
                }
                lemma_pixel_split(q, sh);
                lemma_rot270_full(q, sw, sh, 0);
                lemma_mul_is_commutative(sw, sh);
                let s = rot270_source(q, sw, sh);
                if q / sh >= sw {
                    lemma_mul_inequality(sw, q / sh, sh);
                }
                assert(s < sw * sh) by (nonlinear_arith)
                    requires
                        s == (q % sh) * sw + (sw - 1 - q / sh),
                        0 <= q % sh < sh,
                        0 <= q / sh < sw,
                ;
            }
            assert(new_buffer@ =~= rotated270(src_buffer@, sw, sh));
        }
    }
    (new_width, src_width)
}


proof fn lemma_index_parts(j: int, q: int, c: int)
    requires
        j == 3 * q + c,
        0 <= c < 3,
    ensures
        j / 3 == q,
        j % 3 == c,
{
}

proof fn lemma_quarter_sources(q: int, sw: int, sh: int)
    requires
        0 < sw,
        0 < sh,
        0 <= q < sw * sh,
    ensures
        rot90_source(rot270_source(q, sh, sw), sw, sh) == q,
        rot270_source(rot90_source(q, sh, sw), sw, sh) == q,
        rot90_source(rot90_source(q, sh, sw), sw, sh) == sw * sh - 1 - q,
        0 <= rot270_source(q, sh, sw) < sw * sh,
        0 <= rot90_source(q, sh, sw) < sw * sh,
{
    lemma_pixel_split(q, sw);
    let a = q / sw;
    let b = q % sw;
    if a >= sh {
        lemma_mul_inequality(sh, a, sw);
        lemma_mul_is_commutative(sw, sh);
    }
    assert(a < sh);
    // rot270_source(q, sh, sw) == b * sh + (sh - 1 - a)
    let r1 = b * sh + (sh - 1 - a);
    lemma_fundamental_div_mod_converse(r1, sh, b, sh - 1 - a);
    // rot90_source(q, sh, sw) == (sw - 1 - b) * sh + a
    assert(rot90_source(q, sh, sw) == (sw - 1 - b) * sh + a);
    let r2 = (sw - 1 - b) * sh + a;
    lemma_fundamental_div_mod_converse(r2, sh, sw - 1 - b, a);
    assert(0 <= r1 < sw * sh) by (nonlinear_arith)
        requires
            r1 == b * sh + (sh - 1 - a),
            0 <= b < sw,
            0 <= a < sh,
    ;
    assert(0 <= r2 < sw * sh) by (nonlinear_arith)
        requires
            r2 == (sw - 1 - b) * sh + a,
            0 <= b < sw,
            0 <= a < sh,
    ;
    assert((sh - 1 - a) * sw + (sw - 1 - b) == sw * sh - 1 - q) by (nonlinear_arith)
        requires
            q == a * sw + b,
    ;
}

/// A quarter turn clockwise followed by a three-quarter turn gives back the image.
pub proof fn law_rotate90_then_270(src: Seq<u8>, sw: int, sh: int)
    requires
        0 < sw,
        0 < sh,
        src.len() == 3 * (sw * sh),
    ensures
        rotated270(rotated90(src, sw, sh), sh, sw) == src,
{
    let a = rotated90(src, sw, sh);
    assert forall|j: int| 0 <= j < src.len() implies #[trigger] rotated270(a, sh, sw)[j] == src[j] by {
        lemma_pixel_split(j, 3);
        let q = j / 3;
        let c = j % 3;
        lemma_quarter_sources(q, sw, sh);
        let r = rot270_source(q, sh, sw);
        lemma_index_parts(3 * r + c, r, c);
    }
    assert(rotated270(a, sh, sw) =~= src);
}

/// A three-quarter turn clockwise followed by a quarter turn gives back the image.
pub proof fn law_rotate270_then_90(src: Seq<u8>, sw: int, sh: int)
    requires
        0 < sw,
        0 < sh,
        src.len() == 3 * (sw * sh),
    ensures
        rotated90(rotated270(src, sw, sh), sh, sw) == src,
{
    let a = rotated270(src, sw, sh);
    assert forall|j: int| 0 <= j < src.len() implies #[trigger] rotated90(a, sh, sw)[j] == src[j] by {
        lemma_pixel_split(j, 3);
        let q = j / 3;
        let c = j % 3;
        lemma_quarter_sources(q, sw, sh);
        let r = rot90_source(q, sh, sw);
        lemma_index_parts(3 * r + c, r, c);
    }
    assert(rotated90(a, sh, sw) =~= src);
}

/// Two quarter turns are a half turn.
pub proof fn law_rotate90_twice(src: Seq<u8>, sw: int, sh: int)
    requires
        0 < sw,
        0 < sh,
        src.len() == 3 * (sw * sh),
    ensures
        rotated90(rotated90(src, sw, sh), sh, sw) == rotated180(src),
{
    let a = rotated90(src, sw, sh);
    assert forall|j: int| 0 <= j < src.len() implies #[trigger] rotated90(a, sh, sw)[j]
        == rotated180(src)[j] by {
        lemma_pixel_split(j, 3);
        let q = j / 3;
        let c = j % 3;
        lemma_quarter_sources(q, sw, sh);
        let r = rot90_source(q, sh, sw);
        lemma_index_parts(3 * r + c, r, c);
    }
    assert(rotated90(a, sh, sw) =~= rotated180(src));
}

/// Two half turns give back the image.
pub proof fn law_rotate180_twice(src: Seq<u8>)
    requires
        src.len() % 3 == 0,
    ensures
        rotated180(rotated180(src)) == src,
{
    let a = rotated180(src);
    let n = src.len() / 3;
    assert forall|j: int| 0 <= j < src.len() implies #[trigger] rotated180(a)[j] == src[j] by {
        lemma_pixel_split(j, 3);
        let q = j / 3;
        let c = j % 3;
        lemma_index_parts(src.len() - 3 - 3 * q + c, n - 1 - q, c);
    }
    assert(rotated180(a) =~= src);
}
} // verus!
