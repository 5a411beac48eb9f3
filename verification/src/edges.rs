use vstd::arithmetic::div_mod::*;
use vstd::arithmetic::mul::*;
use vstd::prelude::*;

verus! {

/// Output of the bipolar cell at a pixel: 1 in bright light, -1 in dim light.
pub open spec fn bipolar(gray: u8, threshold: u8) -> int {
    if gray >= threshold {
        1
    } else {
        -1
    }
}

/// Output of a horizontal cell at a pixel: -1 in bright light, 1 in dim light.
pub open spec fn horizontal(gray: u8, threshold: u8) -> int {
    if gray >= threshold {
        -1
    } else {
        1
    }
}

/// Pixel `i` of a gray image `width` pixels wide lies on an edge: it has a right and a
/// lower neighbour (counting positions in the flat buffer), and twice its bipolar output
/// plus the horizontal outputs of those neighbours does not cancel out.
pub open spec fn is_edge(gray: Seq<u8>, width: int, threshold: u8, i: int) -> bool {
    &&& i + 1 < gray.len()
    &&& i + width < gray.len()
    &&& 2 * bipolar(gray[i], threshold) + horizontal(gray[i + 1], threshold) + horizontal(
        gray[i + width],
        threshold,
    ) != 0
}

/// Marks the edges of a gray image `width` pixels wide in `output`: the entry of each
/// edge pixel is set to 0 (edge), every other entry is left as it was (so an `output`
/// filled with 1 gives 1 for background and 0 for edges).
pub fn edge_detect_gray(gray_values: &[u8], output: &mut [u16], width: usize, threshold: u8)
    requires
        gray_values@.len() + width <= usize::MAX,
        forall|i: int|
            0 <= i < gray_values@.len() && #[trigger] is_edge(gray_values@, width as int, threshold, i)
                ==> i < old(output)@.len(),
    ensures
        final(output)@.len() == old(output)@.len(),
        forall|i: int|
            0 <= i < final(output)@.len() ==> #[trigger] final(output)@[i] == if i < gray_values@.len()
                && is_edge(gray_values@, width as int, threshold, i) {
                0u16
            } else {
                old(output)@[i]
            },
{
    let pixels_count = gray_values.len();
    let mut i: usize = 0;
    while i < pixels_count
        invariant
            pixels_count == gray_values@.len(),
            pixels_count + width <= usize::MAX,
            i <= pixels_count,
            output@.len() == old(output)@.len(),
            forall|i: int|
                0 <= i < gray_values@.len() && #[trigger] is_edge(gray_values@, width as int, threshold, i)
                    ==> i < old(output)@.len(),
            forall|j: int|
                0 <= j < output@.len() ==> #[trigger] output@[j] == if j < i && is_edge(
                    gray_values@,
                    width as int,
                    threshold,
                    j,
                ) {
                    0u16
                } else {
                    old(output)@[j]
                },
        decreases pixels_count - i,
    {
        let hrid = i + 1;
        let hbid = i + width;
        let b_out: i32 = if gray_values[i] >= threshold {
            1
        } else {
            -1
        };
        if hrid < pixels_count && hbid < pixels_count {
            let hr_out: i32 = if gray_values[hrid] >= threshold {
                -1
            } else {
                1
            };
            let hb_out: i32 = if gray_values[hbid] >= threshold {
                -1
            } else {
                1
            };
            if b_out + b_out + hr_out + hb_out != 0 {
                assert(is_edge(gray_values@, width as int, threshold, i as int));
                output[i] = 0;
            }
        }
        i = i + 1;
    }
}

/// Number of bytes per pixel and length of an RGB/RGBA buffer that [`binary`] can
/// process: every pixel has its three color bytes and a gray level.
pub open spec fn binary_fits(out_len: int, gray_len: int, bpp: int) -> bool {
    &&& bpp > 0
    &&& out_len > 0 ==> bpp >= 3
    &&& out_len % bpp != 1
    &&& out_len % bpp != 2
    &&& (out_len + bpp - 1) / bpp <= gray_len
}

/// Byte `j` of an RGB/RGBA image after [`binary`]: the color bytes of pixels at or above
/// the threshold become black (0), the others white (255); other bytes are kept.
pub open spec fn binary_byte(gray: Seq<u8>, prev: Seq<u8>, bpp: int, threshold: u8, j: int) -> u8 {
    if j % bpp < 3 {
        if gray[j / bpp] >= threshold {
            0
        } else {
            255
        }
    } else {
        prev[j]
    }
}

/// Binarizes an RGB/RGBA image with `bpp` bytes per pixel: pixels whose gray level is at
/// or above `threshold` become black, the others white. Bytes past the third of each
/// pixel (alpha) are left as they are: every colour byte ends up black (0) or white (255).
pub fn binary(gray_values: &[u8], out: &mut [u8], bpp: usize, threshold: u8)
    requires
        binary_fits(old(out)@.len() as int, gray_values@.len() as int, bpp as int),
    ensures
        final(out)@.len() == old(out)@.len(),
        forall|j: int|
            0 <= j < final(out)@.len() && j % (bpp as int) < 3 ==> #[trigger] final(out)@[j] == 0
                || final(out)@[j] == 255,
        forall|j: int|
            0 <= j < final(out)@.len() ==> #[trigger] final(out)@[j] == binary_byte(
                gray_values@,
                old(out)@,
                bpp as int,
                threshold,
                j,
            ),
{
    let ghost prev = out@;
    let ghost b = bpp as int;
    let len = out.len();
    proof {
        if len > 0 {
            lemma_div_is_strictly_smaller(len as int, b);
        }
    }
    let chunks = if len % bpp == 0 {
        len / bpp
    } else {
        len / bpp + 1
    };
    proof {
        lemma_fundamental_div_mod(len as int, b);
        lemma_mul_is_commutative(b, len as int / b);
        lemma_mul_is_distributive_add_other_way(b, len as int / b, 1);
        if len % bpp != 0 {
            lemma_fundamental_div_mod_converse((len + bpp - 1) as int, b, len as int / b + 1, len % bpp - 1);
        } else {
            lemma_fundamental_div_mod_converse((len + bpp - 1) as int, b, len as int / b, bpp - 1);
        }
    }
    let mut i: usize = 0;
    while i < chunks
        invariant
            len == out@.len(),
            out@.len() == prev.len(),
            prev == old(out)@,
            b == bpp,
            binary_fits(len as int, gray_values@.len() as int, b),
            chunks == (len + b - 1) / b,
            chunks <= gray_values@.len(),
            i <= chunks,
            forall|j: int|
                0 <= j < out@.len() ==> #[trigger] out@[j] == if j / b < i {
                    binary_byte(gray_values@, prev, b, threshold, j)
                } else {
                    prev[j]
                },
        decreases chunks - i,
    {
        proof {
            lemma_fundamental_div_mod(len as int, b);
            lemma_mul_is_commutative(b, len as int / b);
            lemma_mul_nonnegative(i as int, b);
            lemma_fundamental_div_mod((len + bpp - 1) as int, b);
            lemma_mul_is_commutative(b, chunks as int);
            lemma_mul_inequality(i as int + 1, chunks as int, b);
            lemma_mul_is_distributive_add_other_way(b, i as int, 1);
            assert(i * b < len);
            if len - i * b < b {
                if i as int != len as int / b {
                    if i as int > len as int / b {
                        lemma_mul_inequality(len as int / b + 1, i as int, b);
                        lemma_mul_is_distributive_add_other_way(b, len as int / b, 1);
                    } else {
                        lemma_mul_inequality(i as int + 1, len as int / b, b);
                        lemma_mul_is_distributive_add_other_way(b, i as int, 1);
                    }
                }
            }
            lemma_fundamental_div_mod_converse(i * b, b, i as int, 0);
            lemma_fundamental_div_mod_converse(i * b + 1, b, i as int, 1);
            lemma_fundamental_div_mod_converse(i * b + 2, b, i as int, 2);
        }
        let start = i * bpp;
        let v: u8 = if gray_values[i] >= threshold {
            0
        } else {
            255
        };
        out[start] = v;
        out[start + 1] = v;
        out[start + 2] = v;
        proof {
            assert forall|j: int| 0 <= j < out@.len() implies #[trigger] out@[j] == if j / b < i + 1 {
                binary_byte(gray_values@, prev, b, threshold, j)
            } else {
                prev[j]
            } by {
                lemma_fundamental_div_mod(j, b);
                lemma_mul_is_commutative(b, j / b);
                if j / b == i as int {
                    lemma_fundamental_div_mod_converse(j, b, i as int, j - start);
                }
            }
        }
        i = i + 1;
    }
    proof {
        assert forall|j: int| 0 <= j < out@.len() implies #[trigger] out@[j] == binary_byte(
            gray_values@,
            prev,
            b,
            threshold,
            j,
        ) by {
            lemma_fundamental_div_mod(j, b);
            lemma_mul_is_commutative(b, j / b);
            if j / b >= chunks {
                lemma_mul_inequality(chunks as int, j / b, b);
                lemma_fundamental_div_mod((len + bpp - 1) as int, b);
                lemma_mul_is_commutative(b, chunks as int);
            }
        }
    }
}

/// The retina cells find exactly the changes of brightness: a pixel with a right and a
/// lower neighbour is an edge just where one of those neighbours falls on the other side
/// of the threshold.
pub proof fn law_edge_is_change(gray: Seq<u8>, width: int, threshold: u8, i: int)
    requires
        0 <= i,
        i + 1 < gray.len(),
        i + width < gray.len(),
    ensures
        is_edge(gray, width, threshold, i) <==> ((gray[i] >= threshold) != (gray[i + 1] >= threshold)
            || (gray[i] >= threshold) != (gray[i + width] >= threshold)),
{
}

} // verus!
