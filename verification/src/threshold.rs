use vstd::arithmetic::div_mod::*;
use vstd::arithmetic::mul::*;
use vstd::prelude::*;

verus! {

/// Gray level of an RGB pixel: (77 r + 150 g + 29 b + 128) / 256, rounded down.
pub open spec fn gray_of(r: u8, g: u8, b: u8) -> int {
    (77 * r + 150 * g + 29 * b + 128) / 256
}

/// Gray level of every pixel of an image with `bpp` bytes per pixel (red, green and blue
/// first).
pub open spec fn grays(pixels: Seq<u8>, bpp: int) -> Seq<u8> {
    Seq::new(
        ((pixels.len() as int) / bpp) as nat,
        |i: int| gray_of(pixels[i * bpp], pixels[i * bpp + 1], pixels[i * bpp + 2]) as u8,
    )
}

/// Number of elements of `s` equal to `v`.
pub open spec fn count_eq(s: Seq<u8>, v: int) -> nat
    decreases s.len(),
{
    if s.len() == 0 {
        0
    } else {
        count_eq(s.drop_last(), v) + if s.last() == v {
            1nat
        } else {
            0nat
        }
    }
}

/// Number of elements of `s` below `v`.
pub open spec fn count_lt(s: Seq<u8>, v: int) -> nat
    decreases s.len(),
{
    if s.len() == 0 {
        0
    } else {
        count_lt(s.drop_last(), v) + if s.last() < v {
            1nat
        } else {
            0nat
        }
    }
}

/// Sum of the elements of `s`.
pub open spec fn total(s: Seq<u8>) -> nat
    decreases s.len(),
{
    if s.len() == 0 {
        0
    } else {
        total(s.drop_last()) + (s.last() as nat)
    }
}

/// Sum of the squared distances of the elements of `s` from `m`.
pub open spec fn squared_deviation(s: Seq<u8>, m: int) -> nat
    decreases s.len(),
{
    if s.len() == 0 {
        0
    } else {
        squared_deviation(s.drop_last(), m) + ((s.last() - m) * (s.last() - m)) as nat
    }
}

/// Histogram of gray levels: `histogram(s)[v]` is the number of elements equal to `v`.
pub open spec fn histogram(s: Seq<u8>) -> Seq<int> {
    Seq::new(256, |v: int| count_eq(s, v) as int)
}

/// Position of the greatest element of `h` among positions `lo..hi`; of several equal
/// greatest ones, the last.
pub open spec fn last_argmax(h: Seq<int>, lo: int, hi: int) -> int
    decreases hi - lo,
{
    if hi - lo <= 1 {
        lo
    } else {
        let m = last_argmax(h, lo, hi - 1);
        if h[hi - 1] >= h[m] {
            hi - 1
        } else {
            m
        }
    }
}

/// Integer square root: the greatest `r` with `r * r <= x`.
pub open spec fn int_sqrt(x: nat) -> nat {
    choose|r: nat| #[trigger] is_int_sqrt(x, r)
}

/// `r` is the integer square root of `x`.
pub open spec fn is_int_sqrt(x: nat, r: nat) -> bool {
    r * r <= x && x < (r + 1) * (r + 1)
}

/// The `k`-th smallest element of `s`, counting from 0: the value `v` with at most `k`
/// elements below it and more than `k` elements at or below it.
pub open spec fn kth_smallest(s: Seq<u8>, k: int) -> int {
    choose|v: int| #[trigger] is_kth_smallest(s, k, v)
}

/// `v` is the `k`-th smallest element of `s`, counting from 0.
pub open spec fn is_kth_smallest(s: Seq<u8>, k: int, v: int) -> bool {
    0 <= v < 256 && count_lt(s, v) <= k < count_lt(s, v + 1)
}

/// Midpoint of two peak positions, rounded towards the first.
pub open spec fn midpoint(a: int, b: int) -> int {
    a + (b - a) / 2
}

/// Threshold found from the gray levels `s` by the bimodal histogram method, or `None`
/// where the method breaks down (no pixel, a mean gray level of 0, a sum of squared
/// deviations beyond `i32`, or a search range for the second peak that is empty).
///
/// The peaks are the most frequent gray levels below and from the mean. When they are
/// closer than the standard deviation, one peak is taken to be low: if the median lies
/// above the mean the left peak is searched again below the old one less the deviation,
/// otherwise the right peak is searched again from the old one plus the deviation. The
/// threshold is the midpoint of the two peaks.
pub open spec fn threshold_of(s: Seq<u8>) -> Option<u8> {
    let n = s.len() as int;
    if n == 0 {
        None
    } else {
        let avg = total(s) as int / n;
        if avg == 0 || squared_deviation(s, avg) > 0x7fff_ffff {
            None
        } else {
            let sigma = int_sqrt((squared_deviation(s, avg) / (n as nat)) as nat) as int;
            let h = histogram(s);
            let left = last_argmax(h, 0, avg);
            let right = last_argmax(h, avg, 256);
            if right - left < sigma {
                if kth_smallest(s, n / 2) > avg {
                    if left - sigma < 1 {
                        None
                    } else {
                        Some(midpoint(last_argmax(h, 0, left - sigma), right) as u8)
                    }
                } else {
                    if right + sigma > 255 {
                        None
                    } else {
                        Some(midpoint(left, last_argmax(h, right + sigma, 256)) as u8)
                    }
                }
            } else {
                Some(midpoint(left, right) as u8)
            }
        }
    }
}

/// The threshold of an image with `bpp` bytes per pixel can be computed: every pixel has
/// its three color bytes, the last pixel is whole, and the method does not break down.
pub open spec fn threshold_defined(pixels: Seq<u8>, bpp: int) -> bool {
    &&& bpp >= 3
    &&& (pixels.len() as int) % bpp == 0
    &&& threshold_of(grays(pixels, bpp)) is Some
}

proof fn lemma_last_argmax_range(h: Seq<int>, lo: int, hi: int)
    requires
        lo < hi,
    ensures
        lo <= last_argmax(h, lo, hi) < hi,
    decreases hi - lo,
{
    if hi - lo > 1 {
        lemma_last_argmax_range(h, lo, hi - 1);
    }
}

proof fn lemma_total_bound(s: Seq<u8>)
    ensures
        total(s) <= 255 * s.len(),
    decreases s.len(),
{
    if s.len() > 0 {
        lemma_total_bound(s.drop_last());
    }
}

proof fn lemma_deviation_bound(s: Seq<u8>, m: int)
    requires
        0 <= m <= 255,
    ensures
        squared_deviation(s, m) <= 65025 * s.len(),
    decreases s.len(),
{
    if s.len() > 0 {
        lemma_deviation_bound(s.drop_last(), m);
        let d = s.last() - m;
        assert(0 <= d * d <= 65025) by (nonlinear_arith)
            requires
                -255 <= d <= 255,
        ;
    }
}

proof fn lemma_count_lt_step(s: Seq<u8>, v: int)
    ensures
        count_lt(s, v + 1) == count_lt(s, v) + count_eq(s, v),
    decreases s.len(),
{
    if s.len() > 0 {
        lemma_count_lt_step(s.drop_last(), v);
    }
}

proof fn lemma_count_lt_bounds(s: Seq<u8>, v: int)
    ensures
        v <= 0 ==> count_lt(s, v) == 0,
        v >= 256 ==> count_lt(s, v) == s.len(),
        count_lt(s, v) <= s.len(),
    decreases s.len(),
{
    if s.len() > 0 {
        lemma_count_lt_bounds(s.drop_last(), v);
    }
}

proof fn lemma_count_eq_bound(s: Seq<u8>, v: int)
    ensures
        count_eq(s, v) <= s.len(),
    decreases s.len(),
{
    if s.len() > 0 {
        lemma_count_eq_bound(s.drop_last(), v);
    }
}

proof fn lemma_kth_unique(s: Seq<u8>, k: int, v: int, w: int)
    requires
        count_lt(s, v) <= k < count_lt(s, v + 1),
        count_lt(s, w) <= k < count_lt(s, w + 1),
    ensures
        v == w,
{
    if v < w {
        lemma_count_lt_monotone(s, v + 1, w);
    }
    if w < v {
        lemma_count_lt_monotone(s, w + 1, v);
    }
}

proof fn lemma_count_lt_monotone(s: Seq<u8>, a: int, b: int)
    requires
        a <= b,
    ensures
        count_lt(s, a) <= count_lt(s, b),
    decreases s.len(),
{
    if s.len() > 0 {
        lemma_count_lt_monotone(s.drop_last(), a, b);
    }
}

proof fn lemma_int_sqrt(x: nat, r: nat)
    requires
        r * r <= x < (r + 1) * (r + 1),
    ensures
        int_sqrt(x) == r,
{
    assert(is_int_sqrt(x, r));
    let c = int_sqrt(x);
    assert(c * c <= x && x < (c + 1) * (c + 1));
    if c < r {
        assert((c + 1) * (c + 1) <= r * r) by (nonlinear_arith)
            requires
                c + 1 <= r,
                c >= 0,
        ;
    }
    if r < c {
        assert((r + 1) * (r + 1) <= c * c) by (nonlinear_arith)
            requires
                r + 1 <= c,
                r >= 0,
        ;
    }
}

/// Integer square root of `x`.
fn int_sqrt_exec(x: u64) -> (r: u64)
    requires
        x <= 65025,
    ensures
        r == int_sqrt(x as nat),
        r <= 255,
{
    let mut r: u64 = 0;
    loop
        invariant
            r * r <= x,
            x <= 65025,
            r <= 255,
        ensures
            r * r <= x < (r + 1) * (r + 1),
            r <= 255,
        decreases 255 - r,
    {
        let next = r + 1;
        assert(next * next <= 65536) by (nonlinear_arith)
            requires
                1 <= next <= 256,
        ;
        if next * next > x {
            break;
        }
        assert(next <= 255) by (nonlinear_arith)
            requires
                next * next <= x,
                x <= 65025,
                next >= 1,
        ;
        r = next;
    }
    proof {
        lemma_int_sqrt(x as nat, r as nat);
    }
    r
}

/// Position of the greatest count among `lo..hi`, the last one of several equal ones.
fn last_argmax_exec(h: &Vec<usize>, lo: usize, hi: usize) -> (m: usize)
    requires
        lo < hi <= h@.len(),
    ensures
        m == last_argmax(h@.map_values(|c: usize| c as int), lo as int, hi as int),
        lo <= m < hi,
{
    let ghost hs = h@.map_values(|c: usize| c as int);
    let mut best = lo;
    let mut i = lo + 1;
    while i < hi
        invariant
            lo < i <= hi,
            hi <= h@.len(),
            hs == h@.map_values(|c: usize| c as int),
            best == last_argmax(hs, lo as int, i as int),
            lo <= best < i,
        decreases hi - i,
    {
        if h[i] >= h[best] {
            best = i;
        }
        i = i + 1;
    }
    best
}


proof fn lemma_push_counts(s: Seq<u8>, x: u8)
    ensures
        forall|v: int| #[trigger] count_eq(s.push(x), v) == count_eq(s, v) + if x == v {
            1nat
        } else {
            0nat
        },
        forall|v: int| #[trigger] count_lt(s.push(x), v) == count_lt(s, v) + if x < v {
            1nat
        } else {
            0nat
        },
        total(s.push(x)) == total(s) + x,
{
    assert(s.push(x).drop_last() =~= s);
}

proof fn lemma_push_deviation(s: Seq<u8>, x: u8, m: int)
    ensures
        squared_deviation(s.push(x), m) == squared_deviation(s, m) + ((x - m) * (x - m)) as nat,
{
    assert(s.push(x).drop_last() =~= s);
}

proof fn lemma_pixel_offsets(i: int, bpp: int, n: int, len: int)
    requires
        0 <= i < n,
        bpp >= 3,
        n == len / bpp,
        len % bpp == 0,
        len >= 0,
    ensures
        i * bpp + bpp <= len,
        0 <= i * bpp,
{
    lemma_fundamental_div_mod(len, bpp);
    lemma_mul_inequality(i + 1, n, bpp);
    lemma_mul_is_distributive_add_other_way(bpp, i, 1);
    lemma_mul_is_commutative(bpp, n);
    lemma_mul_nonnegative(i, bpp);
}

/// Gray levels of the pixels, their histogram and their sum.
fn gray_levels(pixels: &[u8], bpp: usize) -> (res: (Vec<u8>, Vec<usize>, u128))
    requires
        bpp >= 3,
        (pixels@.len() as int) % (bpp as int) == 0,
    ensures
        res.0@ == grays(pixels@, bpp as int),
        res.1@.len() == 256,
        forall|v: int| 0 <= v < 256 ==> #[trigger] res.1@[v] == count_eq(res.0@, v),
        res.2 == total(res.0@),
{
    let ghost gs = grays(pixels@, bpp as int);
    let n = pixels.len() / bpp;
    let mut gray_count: Vec<usize> = vec![0; 256];
    let mut gray_sum: u128 = 0;
    let mut gray_values: Vec<u8> = Vec::new();
    let mut i: usize = 0;
    while i < n
        invariant
            bpp >= 3,
            n == (pixels@.len() as int) / (bpp as int),
            (pixels@.len() as int) % (bpp as int) == 0,
            pixels@.len() <= usize::MAX,
            gs == grays(pixels@, bpp as int),
            i <= n,
            gray_values@ == gs.take(i as int),
            gray_count@.len() == 256,
            forall|v: int| 0 <= v < 256 ==> #[trigger] gray_count@[v] == count_eq(gray_values@, v),
            gray_sum == total(gray_values@),
        decreases n - i,
    {
        proof {
            lemma_pixel_offsets(i as int, bpp as int, n as int, pixels@.len() as int);
            lemma_total_bound(gray_values@);
        }
        let base = i * bpp;
        let r = pixels[base] as u32;
        let g = pixels[base + 1] as u32;
        let b = pixels[base + 2] as u32;
        let gray = (77 * r + 150 * g + 29 * b + 128) / 256;
        let ghost before = gray_values@;
        proof {
            lemma_push_counts(before, gray as u8);
            lemma_count_eq_bound(before, gray as int);
        }
        gray_count[gray as usize] = gray_count[gray as usize] + 1;
        gray_sum = gray_sum + gray as u128;
        gray_values.push(gray as u8);
        proof {
            assert(gs.take(i + 1) =~= gs.take(i as int).push(gray as u8));
        }
        i = i + 1;
    }
    proof {
        assert(gs.take(n as int) =~= gs);
    }
    (gray_values, gray_count, gray_sum)
}

/// Sum of the squared distances of the gray levels from `avg`.
fn deviation_sum(gray_values: &Vec<u8>, avg: usize) -> (dev: u128)
    requires
        avg <= 255,
    ensures
        dev == squared_deviation(gray_values@, avg as int),
{
    let ghost gs = gray_values@;
    let n = gray_values.len();
    let mut dev: u128 = 0;
    let mut j: usize = 0;
    while j < n
        invariant
            j <= n,
            gray_values@ == gs,
            gs.len() == n,
            avg <= 255,
            dev == squared_deviation(gs.take(j as int), avg as int),
        decreases n - j,
    {
        proof {
            lemma_deviation_bound(gs.take(j as int), avg as int);
            lemma_push_deviation(gs.take(j as int), gs[j as int], avg as int);
            assert(gs.take(j + 1) =~= gs.take(j as int).push(gs[j as int]));
        }
        let v = gray_values[j] as i64;
        let d = v - avg as i64;
        assert(0 <= d * d <= 65025) by (nonlinear_arith)
            requires
                -255 <= d <= 255,
        ;
        dev = dev + (d * d) as u128;
        j = j + 1;
    }
    proof {
        assert(gs.take(n as int) =~= gs);
    }
    dev
}

/// The gray level that a sort of the gray levels puts at position `k`.
fn kth_gray(gray_count: &Vec<usize>, Ghost(gs): Ghost<Seq<u8>>, k: usize) -> (med: usize)
    requires
        gray_count@.len() == 256,
        forall|v: int| 0 <= v < 256 ==> #[trigger] gray_count@[v] == count_eq(gs, v),
        k < gs.len(),
        gs.len() <= usize::MAX,
    ensures
        med == kth_smallest(gs, k as int),
        med < 256,
{
    let mut below: usize = 0;
    let mut v: usize = 0;
    let mut med: usize = 0;
    proof {
        lemma_count_lt_bounds(gs, 0);
    }
    loop
        invariant_except_break
            below == count_lt(gs, v as int),
            below <= k,
        invariant
            v < 256,
            gray_count@.len() == 256,
            forall|v: int| 0 <= v < 256 ==> #[trigger] gray_count@[v] == count_eq(gs, v),
            k < gs.len(),
            gs.len() <= usize::MAX,
        ensures
            is_kth_smallest(gs, k as int, med as int),
            med < 256,
        decreases 256 - v,
    {
        proof {
            lemma_count_lt_step(gs, v as int);
            lemma_count_lt_bounds(gs, v as int + 1);
            lemma_count_lt_bounds(gs, 256);
        }
        below = below + gray_count[v];
        if below > k {
            med = v;
            break;
        }
        v = v + 1;
    }
    proof {
        let other = kth_smallest(gs, k as int);
        assert(is_kth_smallest(gs, k as int, other));
        lemma_kth_unique(gs, k as int, med as int, other);
    }
    med
}

/// `p` is the most frequent gray level among `lo..hi` of the histogram `h`, the last one
/// where several are as frequent.
pub open spec fn is_last_peak(h: Seq<int>, lo: int, hi: int, p: int) -> bool {
    &&& lo <= p < hi
    &&& forall|q: int| lo <= q < hi ==> #[trigger] h[q] <= h[p]
    &&& forall|q: int| p < q < hi ==> #[trigger] h[q] < h[p]
}

proof fn lemma_last_argmax_is_last_peak(h: Seq<int>, lo: int, hi: int)
    requires
        lo < hi,
    ensures
        is_last_peak(h, lo, hi, last_argmax(h, lo, hi)),
    decreases hi - lo,
{
    if hi - lo > 1 {
        lemma_last_argmax_is_last_peak(h, lo, hi - 1);
    }
}

proof fn lemma_last_peak_unique(h: Seq<int>, lo: int, hi: int, p: int, q: int)
    requires
        is_last_peak(h, lo, hi, p),
        is_last_peak(h, lo, hi, q),
    ensures
        p == q,
{
    if p < q {
        assert(h[q] < h[p]);
        assert(h[p] <= h[q]);
    } else if q < p {
        assert(h[p] < h[q]);
        assert(h[q] <= h[p]);
    }
}

/// The threshold lies midway between a low and a high peak of the histogram. The first
/// peaks are the most frequent gray levels `l` below the mean and `r` from the mean on.
/// Where they are at least the standard deviation `sigma` apart, the threshold is their
/// midpoint. Where they are closer and the median lies above the mean, the low peak is
/// searched again more than `sigma` below `l` (among `0..l - sigma`), and the threshold
/// is the midpoint of that peak and `r`; where the median does not lie above the mean,
/// the high peak is searched again at `r + sigma` or above, and the threshold is the
/// midpoint of `l` and that peak.
pub proof fn law_threshold_between_peaks(s: Seq<u8>, t: u8, l: int, r: int)
    requires
        threshold_of(s) == Some(t),
        ({
            let avg = total(s) as int / (s.len() as int);
            &&& is_last_peak(histogram(s), 0, avg, l)
            &&& is_last_peak(histogram(s), avg, 256, r)
        }),
    ensures
        ({
            let n = s.len() as int;
            let avg = total(s) as int / n;
            let sigma = int_sqrt((squared_deviation(s, avg) / (n as nat)) as nat) as int;
            let h = histogram(s);
            &&& l < avg <= r
            &&& r - l >= sigma ==> t == midpoint(l, r)
            &&& r - l < sigma && kth_smallest(s, n / 2) > avg ==> exists|p: int|
                p + sigma < l && is_last_peak(h, 0, l - sigma, p) && t == midpoint(p, r)
            &&& r - l < sigma && kth_smallest(s, n / 2) <= avg ==> exists|p: int|
                p >= r + sigma && is_last_peak(h, r + sigma, 256, p) && t == midpoint(l, p)
        }),
{
    let n = s.len() as int;
    let avg = total(s) as int / n;
    let sigma = int_sqrt((squared_deviation(s, avg) / (n as nat)) as nat) as int;
    let h = histogram(s);
    let left = last_argmax(h, 0, avg);
    let right = last_argmax(h, avg, 256);
    lemma_total_bound(s);
    lemma_div_is_ordered(total(s) as int, 255 * n, n);
    lemma_div_multiples_vanish(255, n);
    lemma_mul_is_commutative(255, n);
    assert(0 < avg <= 255);
    lemma_last_argmax_is_last_peak(h, 0, avg);
    lemma_last_argmax_is_last_peak(h, avg, 256);
    lemma_last_peak_unique(h, 0, avg, l, left);
    lemma_last_peak_unique(h, avg, 256, r, right);
    assert(sigma >= 0);
    if r - l < sigma {
        if kth_smallest(s, n / 2) > avg {
            let p = last_argmax(h, 0, l - sigma);
            lemma_last_argmax_is_last_peak(h, 0, l - sigma);
            assert(t == midpoint(p, r));
        } else {
            let p = last_argmax(h, r + sigma, 256);
            lemma_last_argmax_is_last_peak(h, r + sigma, 256);
            assert(t == midpoint(l, p));
        }
    }
}

/// Computes the gray level of every pixel and the binarization threshold by the
/// bimodal histogram method, or `None` where [`calc_threshold`] cannot compute it.
pub fn calc_threshold_checked(pixels: &[u8], bpp: usize) -> (res: Option<(u8, Vec<u8>)>)
    ensures
        res is Some <==> threshold_defined(pixels@, bpp as int),
        res matches Some((t, g)) ==> g@ == grays(pixels@, bpp as int) && threshold_of(g@) == Some(t),
{
    if bpp < 3 || pixels.len() % bpp != 0 {
        return None;
    }
    let (gray_values, gray_count, gray_sum) = gray_levels(pixels, bpp);
    let ghost gs = gray_values@;
    let n = gray_values.len();
    if n == 0 {
        return None;
    }
    let avg_wide = gray_sum / (n as u128);
    proof {
        lemma_total_bound(gs);
        lemma_div_is_ordered(gray_sum as int, 255 * (n as int), n as int);
        lemma_div_multiples_vanish(255, n as int);
        lemma_mul_is_commutative(255, n as int);
    }
    let avg = avg_wide as usize;
    if avg == 0 {
        return None;
    }
    let dev = deviation_sum(&gray_values, avg);
    if dev > 0x7fff_ffff {
        return None;
    }
    proof {
        lemma_deviation_bound(gs, avg as int);
        lemma_div_is_ordered(dev as int, 65025 * (n as int), n as int);
        lemma_div_multiples_vanish(65025, n as int);
        lemma_mul_is_commutative(65025, n as int);
    }
    let spread = dev / (n as u128);
    let sigma = int_sqrt_exec(spread as u64) as usize;
    let ghost h = gray_count@.map_values(|c: usize| c as int);
    proof {
        assert(h =~= histogram(gs));
    }
    let mut left = last_argmax_exec(&gray_count, 0, avg);
    let mut right = last_argmax_exec(&gray_count, avg, 256);
    if right - left < sigma {
        let med = kth_gray(&gray_count, Ghost(gs), n / 2);
        if med > avg {
            if left < sigma + 1 {
                return None;
            }
            left = last_argmax_exec(&gray_count, 0, left - sigma);
        } else {
            if right + sigma > 255 {
                return None;
            }
            right = last_argmax_exec(&gray_count, right + sigma, 256);
        }
    }
    let threshold = (left + (right - left) / 2) as u8;
    Some((threshold, gray_values))
}

/// Computes the gray level of every pixel of an image with `bpp` bytes per pixel and a
/// threshold that separates the two peaks of the gray level histogram.
///
/// Returns (threshold, gray level of each pixel).
pub fn calc_threshold(pixels: &[u8], bpp: usize) -> (res: (u8, Vec<u8>))
    requires
        threshold_defined(pixels@, bpp as int),
    ensures
        res.1@ == grays(pixels@, bpp as int),
        threshold_of(res.1@) == Some(res.0),
{
    calc_threshold_checked(pixels, bpp).unwrap()
}

} // verus!
