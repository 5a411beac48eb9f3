use vstd::prelude::*;

verus! {

/// A block of an edge map: its left column, top row, width and height.
#[derive(Debug, Clone, Copy, PartialEq, Eq, Structural)]
pub struct SplitInfo {
    pub left: usize,
    pub top: usize,
    pub width: usize,
    pub height: usize,
}

impl SplitInfo {
    pub fn new(left: usize, top: usize, width: usize, height: usize) -> (s: SplitInfo)
        ensures
            s == (SplitInfo { left, top, width, height }),
    {
        SplitInfo { left, top, width, height }
    }
}

/// The rows of a grid as sequences.
pub open spec fn grid_of(v: Seq<Vec<u16>>) -> Seq<Seq<u16>> {
    v.map_values(|r: Vec<u16>| r@)
}

/// A grid of `h` rows of `w` cells each.
pub open spec fn grid_ok(g: Seq<Seq<u16>>, w: int, h: int) -> bool {
    &&& g.len() == h
    &&& forall|y: int| 0 <= y < h ==> #[trigger] g[y].len() == w
}

/// The rows of a `w`-wide edge map stored row after row.
pub open spec fn rows_of(e: Seq<u16>, w: int, h: int) -> Seq<Seq<u16>> {
    Seq::new(h as nat, |y: int| e.subrange(y * w, y * w + w))
}

/// Row `y` of the grid holds only background (1) in its `w` cells.
pub open spec fn row_full(g: Seq<Seq<u16>>, w: int, y: int) -> bool {
    forall|x: int| 0 <= x < w ==> #[trigger] g[y][x] == 1
}

/// Column `x` of the grid holds only background (1) in its `h` cells.
pub open spec fn col_full(g: Seq<Seq<u16>>, h: int, x: int) -> bool {
    forall|y: int| 0 <= y < h ==> #[trigger] g[y][x] == 1
}

/// For each row, whether it is all background.
pub open spec fn row_flags(g: Seq<Seq<u16>>, w: int, h: int) -> Seq<bool> {
    Seq::new(h as nat, |y: int| row_full(g, w, y))
}

/// For each column, whether it is all background.
pub open spec fn col_flags(g: Seq<Seq<u16>>, w: int, h: int) -> Seq<bool> {
    Seq::new(w as nat, |x: int| col_full(g, h, x))
}

/// The first index from `k` on whose flag is false, or the length of `s`.
pub open spec fn lead_true(s: Seq<bool>, k: int) -> int
    decreases s.len() - k,
{
    if 0 <= k < s.len() && s[k] {
        lead_true(s, k + 1)
    } else {
        k
    }
}

/// Going down from `k`, the first bound `j` with `j == 0` or a false flag at `j - 1`.
pub open spec fn trail_true(s: Seq<bool>, k: int) -> int
    decreases k,
{
    if 0 < k <= s.len() && s[k - 1] {
        trail_true(s, k - 1)
    } else {
        k
    }
}

/// The last index of each maximal run of consecutive true flags among the first `k`,
/// in increasing order.
pub open spec fn run_ends(s: Seq<bool>, k: int) -> Seq<int>
    decreases k,
{
    if k <= 0 {
        seq![]
    } else if !s[k - 1] {
        run_ends(s, k - 1)
    } else if k >= 2 && s[k - 2] {
        run_ends(s, k - 1).drop_last().push(k - 1)
    } else {
        run_ends(s, k - 1).push(k - 1)
    }
}

/// The part of a grid in rows `t..b` and columns `l..r`.
pub open spec fn crop(g: Seq<Seq<u16>>, l: int, t: int, r: int, b: int) -> Seq<Seq<u16>> {
    g.subrange(t, b).map_values(|row: Seq<u16>| row.subrange(l, r))
}

/// The height of a block is more than 1.6 times its width, or its width more than 1.6 times
/// its height.
pub open spec fn elongated(r: SplitInfo) -> bool {
    5 * r.height > 8 * r.width || 5 * r.width > 8 * r.height
}

/// The height of a block is more than 1.8 times its width.
pub open spec fn tall(r: SplitInfo) -> bool {
    5 * r.height > 9 * r.width
}

/// Some block of some list is elongated.
pub open spec fn any_elongated(sub: Seq<Seq<SplitInfo>>) -> bool {
    exists|i: int, k: int|
        0 <= i < sub.len() && 0 <= k < sub[i].len() && #[trigger] elongated(sub[i][k])
}

/// The block lists of a split have the shapes one, one; one, four; or one, one, one
/// (the shapes of characters such as 会, 杰 and 三).
pub open spec fn split_pattern(sub: Seq<Seq<SplitInfo>>) -> bool {
    ||| (sub.len() == 2 && sub[0].len() == 1 && sub[1].len() == 1)
    ||| (sub.len() == 2 && sub[0].len() == 1 && sub[1].len() == 4)
    ||| (sub.len() == 3 && sub[0].len() == 1 && sub[1].len() == 1 && sub[2].len() == 1)
}

/// `p` followed by the blocks of `o`, where there are some.
pub open spec fn prepend(p: Seq<SplitInfo>, o: Option<Seq<SplitInfo>>) -> Option<Seq<SplitInfo>> {
    match o {
        Some(r) => Some(p + r),
        None => None,
    }
}

/// The block from the top-left corner of `a` to the bottom-right corner of `b`.
pub open spec fn merged(a: SplitInfo, b: SplitInfo) -> SplitInfo {
    SplitInfo {
        left: a.left,
        top: a.top,
        width: (b.left - a.left + b.width) as usize,
        height: (b.top - a.top + b.height) as usize,
    }
}

/// The blocks of `s` from index `i` on, each pair of consecutive tall blocks merged into
/// one; `None` where the second block of such a pair starts left of or above the first.
pub open spec fn merge_tall(s: Seq<SplitInfo>, i: int) -> Option<Seq<SplitInfo>>
    decreases s.len() - i,
{
    if i < 0 || i >= s.len() {
        Some(seq![])
    } else if i + 1 < s.len() && tall(s[i]) && tall(s[i + 1]) {
        if s[i + 1].left < s[i].left || s[i + 1].top < s[i].top {
            None
        } else {
            prepend(seq![merged(s[i], s[i + 1])], merge_tall(s, i + 2))
        }
    } else {
        prepend(seq![s[i]], merge_tall(s, i + 1))
    }
}

/// The block lies in the rectangle with corner (`l`, `t`), width `w` and height `h`.
pub open spec fn inside(r: SplitInfo, l: int, t: int, w: int, h: int) -> bool {
    &&& l <= r.left
    &&& r.left + r.width <= l + w
    &&& t <= r.top
    &&& r.top + r.height <= t + h
}

/// Every block lies in the rectangle.
pub open spec fn all_inside(s: Seq<SplitInfo>, l: int, t: int, w: int, h: int) -> bool {
    forall|i: int| 0 <= i < s.len() ==> inside(#[trigger] s[i], l, t, w, h)
}

/// The blocks of a `w` by `h` edge map (1 for background, 0 for an edge point) whose
/// top-left corner lies at (`pl`, `pt`); `None` on the inputs the splitting cannot handle
/// (no column, or no row and more than one column, or a merge of blocks out of order).
///
/// Rows and columns of background are trimmed from the four sides; an all-background map
/// gives no block. What is left is split (see [`split_trimmed`]), and last, pairs of
/// consecutive tall blocks are merged (see [`merge_tall`]).
pub open spec fn filter_grid(pl: int, pt: int, g: Seq<Seq<u16>>, w: int, h: int) -> Option<
    Seq<SplitInfo>,
>
    decreases w + h, 3int, 0int,
{
    if w <= 0 {
        None
    } else if h <= 0 {
        if w >= 2 {
            None
        } else {
            Some(seq![])
        }
    } else {
        let top = lead_true(row_flags(g, w, h), 0);
        let bottom = trail_true(row_flags(g, w, h), h);
        let left = lead_true(col_flags(g, w, h), 0);
        let right = trail_true(col_flags(g, w, h), w);
        if right == 0 || bottom == 0 {
            Some(seq![])
        } else {
            match split_trimmed(
                pl + left,
                pt + top,
                crop(g, left, top, right, bottom),
                right - left,
                bottom - top,
                w,
                h,
            ) {
                None => None,
                Some(s) => merge_tall(s, 0),
            }
        }
    }
}

/// The blocks of a trimmed `nw` by `nh` map `cg` whose corner lies at (`pl`, `pt`), before
/// merging; `pw` and `ph` are the sides of the map it was trimmed from.
///
/// The last row of each run of background rows and the last column of each run of
/// background columns are separator lines; without any, the map is one block. Otherwise
/// each cell between the separators (taken in rows, left to right) is split in turn, and
/// the non-empty results are kept. Where they have the shape of [`split_pattern`] and
/// some block is [`elongated`], the map stays one block; otherwise the blocks of the
/// cells are taken in order.
pub open spec fn split_trimmed(
    pl: int,
    pt: int,
    cg: Seq<Seq<u16>>,
    nw: int,
    nh: int,
    pw: int,
    ph: int,
) -> Option<Seq<SplitInfo>>
    decreases pw + ph, 2int, 0int,
{
    let hl = run_ends(row_flags(cg, nw, nh), nh);
    let vl = run_ends(col_flags(cg, nw, nh), nw);
    let whole = SplitInfo {
        left: pl as usize,
        top: pt as usize,
        width: nw as usize,
        height: nh as usize,
    };
    if hl.len() == 0 && vl.len() == 0 {
        Some(seq![whole])
    } else {
        let hs = seq![0int] + hl + seq![nh];
        let vs = seq![0int] + vl + seq![nw];
        match grid_subs(pl, pt, cg, hs, vs, pw, ph, hs.len() - 1) {
            None => None,
            Some(sub) => if split_pattern(sub) && any_elongated(sub) {
                Some(seq![whole])
            } else {
                Some(sub.flatten())
            },
        }
    }
}

/// The non-empty block lists of the first `j` rows of cells between the separators `hs`
/// (rows) and `vs` (columns) of the grid `cg`, whose corner lies at (`pl`, `pt`).
pub open spec fn grid_subs(
    pl: int,
    pt: int,
    cg: Seq<Seq<u16>>,
    hs: Seq<int>,
    vs: Seq<int>,
    pw: int,
    ph: int,
    j: int,
) -> Option<Seq<Seq<SplitInfo>>>
    decreases pw + ph, 1int, j,
{
    if j <= 0 {
        Some(seq![])
    } else {
        match grid_subs(pl, pt, cg, hs, vs, pw, ph, j - 1) {
            None => None,
            Some(a) => match row_subs(pl, pt, cg, hs, vs, pw, ph, j, vs.len() - 1) {
                None => None,
                Some(b) => Some(a + b),
            },
        }
    }
}

/// The non-empty block lists of the first `i` cells of row `j` of cells (see
/// [`grid_subs`]).
pub open spec fn row_subs(
    pl: int,
    pt: int,
    cg: Seq<Seq<u16>>,
    hs: Seq<int>,
    vs: Seq<int>,
    pw: int,
    ph: int,
    j: int,
    i: int,
) -> Option<Seq<Seq<SplitInfo>>>
    decreases pw + ph, 0int, i,
{
    if i <= 0 {
        Some(seq![])
    } else {
        match row_subs(pl, pt, cg, hs, vs, pw, ph, j, i - 1) {
            None => None,
            Some(a) => match cell_blocks(pl, pt, cg, hs, vs, pw, ph, j, i) {
                None => None,
                Some(r) => Some(
                    if r.len() > 0 {
                        a.push(r)
                    } else {
                        a
                    },
                ),
            },
        }
    }
}

/// The blocks of cell `i` of row `j` of cells (see [`grid_subs`]), split as a map of its
/// own; each cell is smaller than the map `pw` by `ph` being split.
pub open spec fn cell_blocks(
    pl: int,
    pt: int,
    cg: Seq<Seq<u16>>,
    hs: Seq<int>,
    vs: Seq<int>,
    pw: int,
    ph: int,
    j: int,
    i: int,
) -> Option<Seq<SplitInfo>>
    decreases pw + ph, 0int, 0int,
{
    let sl = vs[i - 1];
    let st = hs[j - 1];
    let sr = vs[i];
    let sb = hs[j];
    if 0 <= sr - sl && 0 <= sb - st && (sr - sl) + (sb - st) < pw + ph {
        filter_grid(pl + sl, pt + st, crop(cg, sl, st, sr, sb), sr - sl, sb - st)
    } else {
        None
    }
}

proof fn lemma_lead_true(s: Seq<bool>, k: int)
    requires
        0 <= k <= s.len(),
    ensures
        k <= lead_true(s, k) <= s.len(),
        forall|i: int| k <= i < lead_true(s, k) ==> #[trigger] s[i],
        lead_true(s, k) < s.len() ==> !s[lead_true(s, k)],
    decreases s.len() - k,
{
    if k < s.len() && s[k] {
        lemma_lead_true(s, k + 1);
    }
}

proof fn lemma_trail_true(s: Seq<bool>, k: int)
    requires
        0 <= k <= s.len(),
    ensures
        0 <= trail_true(s, k) <= k,
        forall|i: int| trail_true(s, k) <= i < k ==> #[trigger] s[i],
        trail_true(s, k) > 0 ==> !s[trail_true(s, k) - 1],
    decreases k,
{
    if 0 < k && s[k - 1] {
        lemma_trail_true(s, k - 1);
    }
}

proof fn lemma_run_ends(s: Seq<bool>, k: int)
    requires
        0 <= k <= s.len(),
    ensures
        run_ends(s, k).len() <= k,
        forall|i: int| 0 <= i < run_ends(s, k).len() ==> 0 <= #[trigger] run_ends(s, k)[i] < k,
        forall|i: int, j: int|
            0 <= i < j < run_ends(s, k).len() ==> run_ends(s, k)[i] < run_ends(s, k)[j],
        forall|i: int| 0 <= i < run_ends(s, k).len() ==> s[#[trigger] run_ends(s, k)[i]],
        k >= 1 ==> (s[k - 1] <==> (run_ends(s, k).len() > 0 && run_ends(s, k).last() == k - 1)),
    decreases k,
{
    if k > 0 {
        lemma_run_ends(s, k - 1);
        let p = run_ends(s, k - 1);
        if !s[k - 1] {
        } else if k >= 2 && s[k - 2] {
            let q = p.drop_last().push(k - 1);
            assert(q == run_ends(s, k));
            assert forall|i: int| 0 <= i < q.len() implies 0 <= #[trigger] q[i] < k && s[q[i]] by {
                if i < q.len() - 1 {
                    assert(q[i] == p[i]);
                }
            }
            assert forall|i: int, j: int| 0 <= i < j < q.len() implies q[i] < q[j] by {
                assert(q[i] == p[i]);
                if j < q.len() - 1 {
                    assert(q[j] == p[j]);
                } else {
                    assert(p[i] < p[p.len() - 1]);
                }
            }
        } else {
            let q = p.push(k - 1);
            assert(q == run_ends(s, k));
            assert forall|i: int| 0 <= i < q.len() implies 0 <= #[trigger] q[i] < k && s[q[i]] by {
                if i < q.len() - 1 {
                    assert(q[i] == p[i]);
                }
            }
            assert forall|i: int, j: int| 0 <= i < j < q.len() implies q[i] < q[j] by {
                assert(q[i] == p[i]);
                if j < q.len() - 1 {
                    assert(q[j] == p[j]);
                }
            }
        }
    }
}

/// Whether row `y` of the grid is all background.
fn row_is_full(g: &Vec<Vec<u16>>, y: usize, w: usize) -> (b: bool)
    requires
        grid_ok(grid_of(g@), w as int, g.len() as int),
        y < g.len(),
    ensures
        b == row_full(grid_of(g@), w as int, y as int),
{
    let ghost gg = grid_of(g@);
    assert(gg[y as int] == g@[y as int]@);
    let mut x: usize = 0;
    while x < w
        invariant
            gg == grid_of(g@),
            gg[y as int] == g@[y as int]@,
            gg[y as int].len() == w,
            x <= w,
            y < g.len(),
            forall|i: int| 0 <= i < x ==> #[trigger] gg[y as int][i] == 1,
        decreases w - x,
    {
        if g[y][x] != 1 {
            return false;
        }
        x += 1;
    }
    true
}

/// Whether column `x` of the grid is all background.
fn col_is_full(g: &Vec<Vec<u16>>, x: usize, w: usize) -> (b: bool)
    requires
        grid_ok(grid_of(g@), w as int, g.len() as int),
        x < w,
    ensures
        b == col_full(grid_of(g@), g.len() as int, x as int),
{
    let ghost gg = grid_of(g@);
    let mut y: usize = 0;
    while y < g.len()
        invariant
            gg == grid_of(g@),
            grid_ok(gg, w as int, g.len() as int),
            x < w,
            y <= g.len(),
            forall|i: int| 0 <= i < y ==> #[trigger] gg[i][x as int] == 1,
        decreases g.len() - y,
    {
        assert(gg[y as int] == g@[y as int]@);
        if g[y][x] != 1 {
            return false;
        }
        y += 1;
    }
    true
}

/// The part of the grid in rows `t..b` and columns `l..r`.
fn crop_grid(g: &Vec<Vec<u16>>, l: usize, t: usize, r: usize, b: usize) -> (c: Vec<Vec<u16>>)
    requires
        l <= r,
        t <= b <= g.len(),
        forall|y: int| t <= y < b ==> r <= #[trigger] grid_of(g@)[y].len(),
    ensures
        grid_of(c@) == crop(grid_of(g@), l as int, t as int, r as int, b as int),
        grid_ok(grid_of(c@), r - l, b - t),
{
    let ghost gg = grid_of(g@);
    let mut c: Vec<Vec<u16>> = Vec::new();
    let mut y: usize = t;
    while y < b
        invariant
            gg == grid_of(g@),
            l <= r,
            t <= y <= b <= g.len(),
            forall|yy: int| t <= yy < b ==> r <= #[trigger] gg[yy].len(),
            grid_of(c@) == crop(gg, l as int, t as int, r as int, y as int),
        decreases b - y,
    {
        assert(gg[y as int] == g@[y as int]@);
        let mut row: Vec<u16> = Vec::new();
        let mut x: usize = l;
        while x < r
            invariant
                l <= x <= r,
                t <= y < b <= g.len(),
                r <= g@[y as int]@.len(),
                row@ == g@[y as int]@.subrange(l as int, x as int),
            decreases r - x,
        {
            row.push(g[y][x]);
            x += 1;
        }
        let ghost before = grid_of(c@);
        c.push(row);
        proof {
            assert(gg[y as int] == g@[y as int]@);
            assert(grid_of(c@) =~= before.push(row@));
            assert(crop(gg, l as int, t as int, r as int, y + 1) =~= crop(
                gg,
                l as int,
                t as int,
                r as int,
                y as int,
            ).push(gg[y as int].subrange(l as int, r as int)));
        }
        y += 1;
    }
    c
}

/// The last row of each run of background rows, in increasing order.
fn full_row_ends(g: &Vec<Vec<u16>>, w: usize) -> (ends: Vec<usize>)
    requires
        grid_ok(grid_of(g@), w as int, g.len() as int),
    ensures
        ends@.map_values(|v: usize| v as int) == run_ends(
            row_flags(grid_of(g@), w as int, g.len() as int),
            g.len() as int,
        ),
{
    let ghost rf = row_flags(grid_of(g@), w as int, g.len() as int);
    let mut arr: Vec<usize> = Vec::new();
    let mut count: usize = 0;
    let mut y: usize = 0;
    while y < g.len()
        invariant
            grid_ok(grid_of(g@), w as int, g.len() as int),
            rf == row_flags(grid_of(g@), w as int, g.len() as int),
            y <= g.len(),
            count == arr.len(),
            count <= y,
            arr@.map_values(|v: usize| v as int) == run_ends(rf, y as int),
        decreases g.len() - y,
    {
        proof {
            lemma_run_ends(rf, y as int);
        }
        let ghost before = arr@;
        let ghost c0 = count;
        if row_is_full(g, y, w) {
            if count == 0 {
                arr.push(y);
                count += 1;
            } else if arr[count - 1] + 1 == y {
                arr.set(count - 1, y);
            } else {
                arr.push(y);
                count += 1;
            }
            proof {
                let p = run_ends(rf, y as int);
                assert(before.map_values(|v: usize| v as int) == p);
                if y >= 1 && rf[y - 1] {
                    assert(before[count - 1] as int == p.last());
                    assert(arr@.map_values(|v: usize| v as int) =~= p.drop_last().push(y as int));
                } else {
                    if c0 > 0 {
                        assert(before[c0 - 1] as int == p.last());
                    }
                    assert(arr@.map_values(|v: usize| v as int) =~= p.push(y as int));
                }
            }
        }
        y += 1;
    }
    arr
}

/// The last column of each run of background columns, in increasing order.
fn full_col_ends(g: &Vec<Vec<u16>>, w: usize) -> (ends: Vec<usize>)
    requires
        grid_ok(grid_of(g@), w as int, g.len() as int),
    ensures
        ends@.map_values(|v: usize| v as int) == run_ends(
            col_flags(grid_of(g@), w as int, g.len() as int),
            w as int,
        ),
{
    let ghost cf = col_flags(grid_of(g@), w as int, g.len() as int);
    let mut arr: Vec<usize> = Vec::new();
    let mut count: usize = 0;
    let mut x: usize = 0;
    while x < w
        invariant
            grid_ok(grid_of(g@), w as int, g.len() as int),
            cf == col_flags(grid_of(g@), w as int, g.len() as int),
            x <= w,
            count == arr.len(),
            count <= x,
            arr@.map_values(|v: usize| v as int) == run_ends(cf, x as int),
        decreases w - x,
    {
        proof {
            lemma_run_ends(cf, x as int);
        }
        let ghost before = arr@;
        let ghost c0 = count;
        if col_is_full(g, x, w) {
            if count == 0 {
                arr.push(x);
                count += 1;
            } else if arr[count - 1] + 1 == x {
                arr.set(count - 1, x);
            } else {
                arr.push(x);
                count += 1;
            }
            proof {
                let p = run_ends(cf, x as int);
                assert(before.map_values(|v: usize| v as int) == p);
                if x >= 1 && cf[x - 1] {
                    assert(before[count - 1] as int == p.last());
                    assert(arr@.map_values(|v: usize| v as int) =~= p.drop_last().push(x as int));
                } else {
                    if c0 > 0 {
                        assert(before[c0 - 1] as int == p.last());
                    }
                    assert(arr@.map_values(|v: usize| v as int) =~= p.push(x as int));
                }
            }
        }
        x += 1;
    }
    arr
}

/// `5 * height > 9 * width`: the block is tall.
fn is_tall(r: SplitInfo) -> (b: bool)
    ensures
        b == tall(r),
{
    (r.height as u128) * 5 > (r.width as u128) * 9
}

/// `5 * height > 8 * width` or `5 * width > 8 * height`: the block is elongated.
fn is_elongated(r: SplitInfo) -> (b: bool)
    ensures
        b == elongated(r),
{
    (r.height as u128) * 5 > (r.width as u128) * 8 || (r.width as u128) * 5 > (r.height as u128)
        * 8
}

/// Every block's right and bottom edges fit `usize`.
pub open spec fn edges_fit(s: Seq<SplitInfo>) -> bool {
    forall|k: int|
        0 <= k < s.len() ==> #[trigger] s[k].left + s[k].width <= usize::MAX && s[k].top
            + s[k].height <= usize::MAX
}

/// Merges the pairs of consecutive tall blocks (see [`merge_tall`]).
fn merge_tall_blocks(s: &Vec<SplitInfo>) -> (r: Option<Vec<SplitInfo>>)
    requires
        edges_fit(s@),
    ensures
        match r {
            Some(v) => merge_tall(s@, 0) == Some(v@),
            None => merge_tall(s@, 0) is None,
        },
{
    let l = s.len();
    let mut i: usize = 0;
    let mut out: Vec<SplitInfo> = Vec::new();
    while i < l
        invariant
            l == s.len(),
            i <= l,
            edges_fit(s@),
            merge_tall(s@, 0) == prepend(out@, merge_tall(s@, i as int)),
        decreases l - i,
    {
        let a = s[i];
        if i < l - 1 {
            let b = s[i + 1];
            if is_tall(a) && is_tall(b) {
                if b.left < a.left || b.top < a.top {
                    return None;
                }
                let m = SplitInfo::new(a.left, a.top, b.left - a.left + b.width, b.top - a.top + b.height);
                proof {
                    assert(m == merged(a, b));
                    let rest = merge_tall(s@, i + 2);
                    assert(merge_tall(s@, i as int) == prepend(seq![m], rest));
                    if rest is Some {
                        assert(out@ + (seq![m] + rest.unwrap()) =~= out@.push(m) + rest.unwrap());
                    }
                }
                out.push(m);
                i += 2;
                continue;
            }
        }
        proof {
            let rest = merge_tall(s@, i + 1);
            assert(merge_tall(s@, i as int) == prepend(seq![a], rest));
            if rest is Some {
                assert(out@ + (seq![a] + rest.unwrap()) =~= out@.push(a) + rest.unwrap());
            }
        }
        out.push(SplitInfo::new(a.left, a.top, a.width, a.height));
        i += 1;
    }
    proof {
        assert(out@ + seq![] =~= out@);
    }
    Some(out)
}

/// Merging keeps every block in a rectangle that held the blocks merged.
proof fn lemma_merge_inside(s: Seq<SplitInfo>, i: int, l: int, t: int, w: int, h: int)
    requires
        all_inside(s, l, t, w, h),
        merge_tall(s, i) is Some,
        0 <= i,
    ensures
        all_inside(merge_tall(s, i).unwrap(), l, t, w, h),
    decreases s.len() - i,
{
    if i >= s.len() {
    } else if i + 1 < s.len() && tall(s[i]) && tall(s[i + 1]) {
        lemma_merge_inside(s, i + 2, l, t, w, h);
        let m = merged(s[i], s[i + 1]);
        assert(inside(s[i], l, t, w, h));
        assert(inside(s[i + 1], l, t, w, h));
        assert(inside(m, l, t, w, h));
        let rest = merge_tall(s, i + 2).unwrap();
        assert forall|k: int| 0 <= k < (seq![m] + rest).len() implies inside(
            #[trigger] (seq![m] + rest)[k],
            l,
            t,
            w,
            h,
        ) by {
            if k > 0 {
                assert((seq![m] + rest)[k] == rest[k - 1]);
            }
        }
    } else {
        lemma_merge_inside(s, i + 1, l, t, w, h);
        let rest = merge_tall(s, i + 1).unwrap();
        assert(inside(s[i], l, t, w, h));
        assert forall|k: int| 0 <= k < (seq![s[i]] + rest).len() implies inside(
            #[trigger] (seq![s[i]] + rest)[k],
            l,
            t,
            w,
            h,
        ) by {
            if k > 0 {
                assert((seq![s[i]] + rest)[k] == rest[k - 1]);
            }
        }
    }
}

/// The block lists of split cells as sequences.
pub open spec fn lists_of(v: Seq<Vec<SplitInfo>>) -> Seq<Seq<SplitInfo>> {
    v.map_values(|b: Vec<SplitInfo>| b@)
}

/// Every block of every list lies in the rectangle.
pub open spec fn lists_inside(s: Seq<Seq<SplitInfo>>, l: int, t: int, w: int, h: int) -> bool {
    forall|i: int| 0 <= i < s.len() ==> all_inside(#[trigger] s[i], l, t, w, h)
}

/// Trimming leaves a non-empty map whose first row and first column hold an edge point.
proof fn lemma_trim(g: Seq<Seq<u16>>, w: int, h: int)
    requires
        grid_ok(g, w, h),
        w > 0,
        h > 0,
        trail_true(col_flags(g, w, h), w) > 0,
        trail_true(row_flags(g, w, h), h) > 0,
    ensures
        ({
            let top = lead_true(row_flags(g, w, h), 0);
            let bottom = trail_true(row_flags(g, w, h), h);
            let left = lead_true(col_flags(g, w, h), 0);
            let right = trail_true(col_flags(g, w, h), w);
            let cg = crop(g, left, top, right, bottom);
            &&& 0 <= top < bottom <= h
            &&& 0 <= left < right <= w
            &&& !row_full(cg, right - left, 0)
            &&& !col_full(cg, bottom - top, 0)
        }),
{
    let rf = row_flags(g, w, h);
    let cf = col_flags(g, w, h);
    lemma_lead_true(rf, 0);
    lemma_trail_true(rf, h);
    lemma_lead_true(cf, 0);
    lemma_trail_true(cf, w);
    let top = lead_true(rf, 0);
    let bottom = trail_true(rf, h);
    let left = lead_true(cf, 0);
    let right = trail_true(cf, w);
    assert(!rf[bottom - 1]);
    if top >= bottom {
        assert(rf[bottom - 1]);
    }
    assert(!rf[top]);
    assert(!cf[right - 1]);
    if left >= right {
        assert(cf[right - 1]);
    }
    assert(!cf[left]);
    let cg = crop(g, left, top, right, bottom);
    assert(!row_full(g, w, top));
    let x0 = choose|x: int| 0 <= x < w && g[top][x] != 1;
    if x0 < left {
        assert(cf[x0]);
        assert(g[top][x0] == 1);
    }
    if x0 >= right {
        assert(cf[x0]);
        assert(g[top][x0] == 1);
    }
    assert(cg[0][x0 - left] == g[top][x0]);
    assert(!col_full(g, h, left));
    let y0 = choose|y: int| 0 <= y < h && g[y][left] != 1;
    if y0 < top {
        assert(rf[y0]);
        assert(g[y0][left] == 1);
    }
    if y0 >= bottom {
        assert(rf[y0]);
        assert(g[y0][left] == 1);
    }
    assert(cg[y0 - top][0] == g[y0][left]);
}

/// The separators of one direction with the two sides added: they rise from 0 to `n`, and
/// where there is a separator, each gap is below `n`.
proof fn lemma_cut_gaps(l: Seq<int>, n: int)
    requires
        n >= 1,
        forall|i: int| 0 <= i < l.len() ==> 1 <= #[trigger] l[i] < n,
        forall|i: int, j: int| 0 <= i < j < l.len() ==> l[i] < l[j],
    ensures
        ({
            let s = seq![0int] + l + seq![n];
            &&& s.len() == l.len() + 2
            &&& s[0] == 0
            &&& s[s.len() - 1] == n
            &&& forall|i: int| 1 <= i < s.len() ==> 0 < #[trigger] s[i] - s[i - 1] <= n
            &&& forall|i: int| 0 <= i < s.len() ==> 0 <= #[trigger] s[i] <= n
            &&& l.len() > 0 ==> forall|i: int| 1 <= i < s.len() ==> #[trigger] s[i] - s[i - 1] < n
        }),
{
    let s = seq![0int] + l + seq![n];
    assert forall|i: int| 0 <= i < s.len() implies 0 <= #[trigger] s[i] <= n by {
        if 1 <= i < s.len() - 1 {
            assert(s[i] == l[i - 1]);
        }
    }
    assert forall|i: int| 1 <= i < s.len() implies 0 < #[trigger] s[i] - s[i - 1] <= n && (l.len()
        > 0 ==> s[i] - s[i - 1] < n) by {
        if i == 1 {
            if l.len() > 0 {
                assert(s[1] == l[0]);
            }
        } else if i == s.len() - 1 {
            assert(s[i - 1] == l[i - 2]);
        } else {
            assert(s[i] == l[i - 1]);
            assert(s[i - 1] == l[i - 2]);
        }
    }
}

proof fn lemma_row_subs_none(
    pl: int,
    pt: int,
    cg: Seq<Seq<u16>>,
    hs: Seq<int>,
    vs: Seq<int>,
    pw: int,
    ph: int,
    j: int,
    i: int,
    i2: int,
)
    requires
        i <= i2,
        row_subs(pl, pt, cg, hs, vs, pw, ph, j, i) is None,
    ensures
        row_subs(pl, pt, cg, hs, vs, pw, ph, j, i2) is None,
    decreases i2 - i,
{
    if i < i2 {
        lemma_row_subs_none(pl, pt, cg, hs, vs, pw, ph, j, i, i2 - 1);
    }
}

proof fn lemma_grid_subs_none(
    pl: int,
    pt: int,
    cg: Seq<Seq<u16>>,
    hs: Seq<int>,
    vs: Seq<int>,
    pw: int,
    ph: int,
    j: int,
    j2: int,
)
    requires
        j <= j2,
        grid_subs(pl, pt, cg, hs, vs, pw, ph, j) is None,
    ensures
        grid_subs(pl, pt, cg, hs, vs, pw, ph, j2) is None,
    decreases j2 - j,
{
    if j < j2 {
        lemma_grid_subs_none(pl, pt, cg, hs, vs, pw, ph, j, j2 - 1);
    }
}

/// The number of leading and trailing background rows and columns of a grid, as the
/// bounds `(left, top, right, bottom)` of what is left.
fn trim_bounds(g: &Vec<Vec<u16>>, w: usize, h: usize) -> (b: (usize, usize, usize, usize))
    requires
        grid_ok(grid_of(g@), w as int, h as int),
    ensures
        b.0 == lead_true(col_flags(grid_of(g@), w as int, h as int), 0),
        b.1 == lead_true(row_flags(grid_of(g@), w as int, h as int), 0),
        b.2 == trail_true(col_flags(grid_of(g@), w as int, h as int), w as int),
        b.3 == trail_true(row_flags(grid_of(g@), w as int, h as int), h as int),
{
    let ghost rf = row_flags(grid_of(g@), w as int, h as int);
    let ghost cf = col_flags(grid_of(g@), w as int, h as int);
    let mut top: usize = 0;
    while top < h && row_is_full(g, top, w)
        invariant
            grid_ok(grid_of(g@), w as int, h as int),
            rf == row_flags(grid_of(g@), w as int, h as int),
            top <= h,
            lead_true(rf, 0) == lead_true(rf, top as int),
        decreases h - top,
    {
        top += 1;
    }
    let mut bottom: usize = h;
    while bottom > 0 && row_is_full(g, bottom - 1, w)
        invariant
            grid_ok(grid_of(g@), w as int, h as int),
            rf == row_flags(grid_of(g@), w as int, h as int),
            bottom <= h,
            trail_true(rf, h as int) == trail_true(rf, bottom as int),
        decreases bottom,
    {
        bottom -= 1;
    }
    let mut left: usize = 0;
    while left < w && col_is_full(g, left, w)
        invariant
            grid_ok(grid_of(g@), w as int, h as int),
            cf == col_flags(grid_of(g@), w as int, h as int),
            left <= w,
            lead_true(cf, 0) == lead_true(cf, left as int),
        decreases w - left,
    {
        left += 1;
    }
    let mut right: usize = w;
    while right > 0 && col_is_full(g, right - 1, w)
        invariant
            grid_ok(grid_of(g@), w as int, h as int),
            cf == col_flags(grid_of(g@), w as int, h as int),
            right <= w,
            trail_true(cf, w as int) == trail_true(cf, right as int),
        decreases right,
    {
        right -= 1;
    }
    (left, top, right, bottom)
}

/// The separators of one direction, sides included: they rise from 0 to `n` in steps of at
/// most `n`, and where there is a separator between the sides, each step is below `n`.
pub open spec fn cuts_ok(s: Seq<int>, n: int) -> bool {
    &&& s.len() >= 2
    &&& s[0] == 0
    &&& s[s.len() - 1] == n
    &&& forall|i: int| 1 <= i < s.len() ==> 0 < #[trigger] s[i] - s[i - 1] <= n
    &&& forall|i: int| 0 <= i < s.len() ==> 0 <= #[trigger] s[i] <= n
    &&& s.len() > 2 ==> forall|i: int| 1 <= i < s.len() ==> #[trigger] s[i] - s[i - 1] < n
}

/// The values of a list of indices as integers.
pub open spec fn ints(v: Seq<usize>) -> Seq<int> {
    v.map_values(|x: usize| x as int)
}

proof fn lemma_flatten_inside(sub: Seq<Seq<SplitInfo>>, l: int, t: int, w: int, h: int)
    requires
        lists_inside(sub, l, t, w, h),
    ensures
        all_inside(sub.flatten(), l, t, w, h),
    decreases sub.len(),
{
    if sub.len() > 0 {
        let rest = sub.drop_first();
        assert forall|i: int| 0 <= i < rest.len() implies all_inside(#[trigger] rest[i], l, t, w, h) by {
            assert(rest[i] == sub[i + 1]);
        }
        lemma_flatten_inside(rest, l, t, w, h);
        let f = sub.first() + rest.flatten();
        assert(all_inside(sub[0], l, t, w, h));
        assert forall|i: int| 0 <= i < f.len() implies inside(#[trigger] f[i], l, t, w, h) by {
            if i < sub.first().len() {
                assert(f[i] == sub[0][i]);
            } else {
                assert(f[i] == rest.flatten()[i - sub.first().len()]);
            }
        }
    }
}

/// The blocks kept from the split cells: the whole block where the lists have the shape of
/// [`split_pattern`] and some block is elongated, else all blocks in order.
fn gather(sub_infos: &Vec<Vec<SplitInfo>>, whole: SplitInfo) -> (infos: Vec<SplitInfo>)
    ensures
        infos@ == if split_pattern(lists_of(sub_infos@)) && any_elongated(lists_of(sub_infos@)) {
            seq![whole]
        } else {
            lists_of(sub_infos@).flatten()
        },
{
    let ghost sub = lists_of(sub_infos@);
    let n = sub_infos.len();
    let pattern = (n == 2 && sub_infos[0].len() == 1 && sub_infos[1].len() == 1) || (n == 2
        && sub_infos[0].len() == 1 && sub_infos[1].len() == 4) || (n == 3 && sub_infos[0].len() == 1
        && sub_infos[1].len() == 1 && sub_infos[2].len() == 1);
    proof {
        assert(n >= 1 ==> sub[0] == sub_infos@[0]@);
        assert(n >= 2 ==> sub[1] == sub_infos@[1]@);
        assert(n >= 3 ==> sub[2] == sub_infos@[2]@);
        assert(pattern == split_pattern(sub));
    }
    let mut error = false;
    if pattern {
        let mut i: usize = 0;
        while i < n
            invariant_except_break
                !error,
            invariant
                n == sub_infos.len(),
                sub == lists_of(sub_infos@),
                i <= n,
                forall|a: int, k: int|
                    0 <= a < i && 0 <= k < sub[a].len() ==> !#[trigger] elongated(sub[a][k]),
            ensures
                error ==> any_elongated(sub),
                !error ==> forall|a: int, k: int|
                    0 <= a < n && 0 <= k < sub[a].len() ==> !#[trigger] elongated(sub[a][k]),
            decreases n - i,
        {
            assert(sub[i as int] == sub_infos@[i as int]@);
            let mut k: usize = 0;
            while k < sub_infos[i].len()
                invariant_except_break
                    !error,
                invariant
                    n == sub_infos.len(),
                    sub == lists_of(sub_infos@),
                    i < n,
                    sub[i as int] == sub_infos@[i as int]@,
                    k <= sub_infos[i as int].len(),
                    forall|kk: int| 0 <= kk < k ==> !#[trigger] elongated(sub[i as int][kk]),
                ensures
                    error ==> any_elongated(sub),
                    !error ==> forall|kk: int|
                        0 <= kk < sub[i as int].len() ==> !#[trigger] elongated(sub[i as int][kk]),
                decreases sub_infos[i as int].len() - k,
            {
                if is_elongated(sub_infos[i][k]) {
                    error = true;
                    assert(elongated(sub[i as int][k as int]));
                    break;
                }
                k += 1;
            }
            if error {
                break;
            }
            i += 1;
        }
    }
    let mut infos: Vec<SplitInfo> = Vec::new();
    if error {
        infos.push(whole);
        return infos;
    }
    let mut i: usize = 0;
    while i < n
        invariant
            n == sub_infos.len(),
            sub == lists_of(sub_infos@),
            i <= n,
            infos@ == sub.take(i as int).flatten(),
        decreases n - i,
    {
        assert(sub[i as int] == sub_infos@[i as int]@);
        let ghost before = infos@;
        let mut k: usize = 0;
        while k < sub_infos[i].len()
            invariant
                n == sub_infos.len(),
                sub == lists_of(sub_infos@),
                i < n,
                sub[i as int] == sub_infos@[i as int]@,
                k <= sub_infos[i as int].len(),
                infos@ == before + sub[i as int].take(k as int),
            decreases sub_infos[i as int].len() - k,
        {
            infos.push(sub_infos[i][k]);
            assert(sub[i as int].take(k + 1) =~= sub[i as int].take(k as int).push(sub[i as int][k as int]));
            k += 1;
        }
        proof {
            assert(sub.take(i + 1) =~= sub.take(i as int).push(sub[i as int]));
            sub.take(i as int).lemma_flatten_push(sub[i as int]);
            assert(sub[i as int].take(k as int) =~= sub[i as int]);
        }
        i += 1;
    }
    assert(sub.take(n as int) =~= sub);
    infos
}

/// Splits cell `x` of row `y` of cells between the separators `hs` (rows) and `vs`
/// (columns) of the grid `cg`, whose corner lies at (`pl`, `pt`).
fn split_cell(
    pl: usize,
    pt: usize,
    cg: &Vec<Vec<u16>>,
    hs: &Vec<usize>,
    vs: &Vec<usize>,
    nw: usize,
    nh: usize,
    w: usize,
    h: usize,
    y: usize,
    x: usize,
) -> (r: Option<Vec<SplitInfo>>)
    requires
        grid_ok(grid_of(cg@), nw as int, nh as int),
        nw <= w,
        nh <= h,
        pl + nw <= usize::MAX,
        pt + nh <= usize::MAX,
        cuts_ok(ints(hs@), nh as int),
        cuts_ok(ints(vs@), nw as int),
        hs.len() > 2 || vs.len() > 2,
        1 <= y < hs.len(),
        1 <= x < vs.len(),
    ensures
        match r {
            Some(v) => cell_blocks(
                pl as int,
                pt as int,
                grid_of(cg@),
                ints(hs@),
                ints(vs@),
                w as int,
                h as int,
                y as int,
                x as int,
            ) == Some(v@) && all_inside(v@, pl as int, pt as int, nw as int, nh as int),
            None => cell_blocks(
                pl as int,
                pt as int,
                grid_of(cg@),
                ints(hs@),
                ints(vs@),
                w as int,
                h as int,
                y as int,
                x as int,
            ) is None,
        },
    decreases w + h, 0int,
{
    let ghost hv = ints(hs@);
    let ghost vv = ints(vs@);
    let split_left = vs[x - 1];
    let split_top = hs[y - 1];
    let split_right = vs[x];
    let split_bottom = hs[y];
    proof {
        assert(hv[y - 1] == split_top);
        assert(hv[y as int] == split_bottom);
        assert(vv[x - 1] == split_left);
        assert(vv[x as int] == split_right);
        assert(0 < hv[y as int] - hv[y - 1] <= nh);
        assert(0 < vv[x as int] - vv[x - 1] <= nw);
        assert(0 <= hv[y as int] <= nh);
        assert(0 <= vv[x as int] <= nw);
        if hs.len() > 2 {
            assert(hv[y as int] - hv[y - 1] < nh);
        } else {
            assert(vv[x as int] - vv[x - 1] < nw);
        }
    }
    let split_width = split_right - split_left;
    let split_height = split_bottom - split_top;
    let split_edges = crop_grid(cg, split_left, split_top, split_right, split_bottom);
    let sss = filter_rows(pl + split_left, pt + split_top, &split_edges, split_width, split_height);
    proof {
        if sss is Some {
            let v = sss.unwrap();
            assert forall|k: int| 0 <= k < v@.len() implies inside(
                #[trigger] v@[k],
                pl as int,
                pt as int,
                nw as int,
                nh as int,
            ) by {
                assert(inside(
                    v@[k],
                    pl + split_left,
                    pt + split_top,
                    split_width as int,
                    split_height as int,
                ));
            }
        }
    }
    sss
}

/// Splits each cell between the separators `hs` (rows) and `vs` (columns) of the grid
/// `cg`, whose corner lies at (`pl`, `pt`), row after row, keeping the non-empty results.
fn split_cells(
    pl: usize,
    pt: usize,
    cg: &Vec<Vec<u16>>,
    hs: &Vec<usize>,
    vs: &Vec<usize>,
    nw: usize,
    nh: usize,
    w: usize,
    h: usize,
) -> (r: Option<Vec<Vec<SplitInfo>>>)
    requires
        grid_ok(grid_of(cg@), nw as int, nh as int),
        nw <= w,
        nh <= h,
        pl + nw <= usize::MAX,
        pt + nh <= usize::MAX,
        cuts_ok(ints(hs@), nh as int),
        cuts_ok(ints(vs@), nw as int),
        hs.len() > 2 || vs.len() > 2,
    ensures
        match r {
            Some(v) => grid_subs(
                pl as int,
                pt as int,
                grid_of(cg@),
                ints(hs@),
                ints(vs@),
                w as int,
                h as int,
                hs.len() - 1,
            ) == Some(lists_of(v@)) && lists_inside(
                lists_of(v@),
                pl as int,
                pt as int,
                nw as int,
                nh as int,
            ),
            None => grid_subs(
                pl as int,
                pt as int,
                grid_of(cg@),
                ints(hs@),
                ints(vs@),
                w as int,
                h as int,
                hs.len() - 1,
            ) is None,
        },
    decreases w + h, 1int,
{
    let ghost g = grid_of(cg@);
    let ghost hv = ints(hs@);
    let ghost vv = ints(vs@);
    let mut sub_infos: Vec<Vec<SplitInfo>> = Vec::new();
    let mut y: usize = 1;
    while y < hs.len()
        invariant
            g == grid_of(cg@),
            hv == ints(hs@),
            vv == ints(vs@),
            grid_ok(g, nw as int, nh as int),
            nw <= w,
            nh <= h,
            pl + nw <= usize::MAX,
            pt + nh <= usize::MAX,
            cuts_ok(hv, nh as int),
            cuts_ok(vv, nw as int),
            hs.len() > 2 || vs.len() > 2,
            1 <= y <= hs.len(),
            grid_subs(pl as int, pt as int, g, hv, vv, w as int, h as int, y - 1) == Some(
                lists_of(sub_infos@),
            ),
            lists_inside(lists_of(sub_infos@), pl as int, pt as int, nw as int, nh as int),
        decreases hs.len() - y,
    {
        let ghost a_prefix = lists_of(sub_infos@);
        let ghost mut row_acc: Seq<Seq<SplitInfo>> = seq![];
        let mut x: usize = 1;
        while x < vs.len()
            invariant
                g == grid_of(cg@),
                hv == ints(hs@),
                vv == ints(vs@),
                grid_ok(g, nw as int, nh as int),
                nw <= w,
                nh <= h,
                pl + nw <= usize::MAX,
                pt + nh <= usize::MAX,
                cuts_ok(hv, nh as int),
                cuts_ok(vv, nw as int),
                hs.len() > 2 || vs.len() > 2,
                1 <= y < hs.len(),
                1 <= x <= vs.len(),
                grid_subs(pl as int, pt as int, g, hv, vv, w as int, h as int, y - 1) == Some(
                    a_prefix,
                ),
                row_subs(pl as int, pt as int, g, hv, vv, w as int, h as int, y as int, x - 1)
                    == Some(row_acc),
                lists_of(sub_infos@) == a_prefix + row_acc,
                lists_inside(lists_of(sub_infos@), pl as int, pt as int, nw as int, nh as int),
            decreases vs.len() - x,
        {
            let cell = split_cell(pl, pt, cg, hs, vs, nw, nh, w, h, y, x);
            match cell {
                None => {
                    proof {
                        lemma_row_subs_none(
                            pl as int,
                            pt as int,
                            g,
                            hv,
                            vv,
                            w as int,
                            h as int,
                            y as int,
                            x as int,
                            vs.len() - 1,
                        );
                        lemma_grid_subs_none(
                            pl as int,
                            pt as int,
                            g,
                            hv,
                            vv,
                            w as int,
                            h as int,
                            y as int,
                            hs.len() - 1,
                        );
                    }
                    return None;
                },
                Some(v) => {
                    if v.len() > 0 {
                        let ghost before = sub_infos@;
                        sub_infos.push(v);
                        proof {
                            let prev_acc = row_acc;
                            row_acc = row_acc.push(v@);
                            assert(lists_of(sub_infos@) =~= lists_of(before).push(v@));
                            assert(lists_of(sub_infos@) =~= a_prefix + row_acc);
                            assert forall|i: int|
                                0 <= i < lists_of(sub_infos@).len() implies all_inside(
                                #[trigger] lists_of(sub_infos@)[i],
                                pl as int,
                                pt as int,
                                nw as int,
                                nh as int,
                            ) by {
                                if i < lists_of(sub_infos@).len() - 1 {
                                    assert(lists_of(sub_infos@)[i] == lists_of(before)[i]);
                                }
                            }
                        }
                    }
                },
            }
            x += 1;
        }
        y += 1;
    }
    Some(sub_infos)
}

/// The separator lines of a trimmed `nw` by `nh` grid, the sides added: rows `hs` and
/// columns `vs` (see [`split_trimmed`]).
fn cut_lines(cg: &Vec<Vec<u16>>, nw: usize, nh: usize) -> (cuts: (Vec<usize>, Vec<usize>))
    requires
        grid_ok(grid_of(cg@), nw as int, nh as int),
        1 <= nw,
        1 <= nh,
        !row_full(grid_of(cg@), nw as int, 0),
        !col_full(grid_of(cg@), nh as int, 0),
    ensures
        ints(cuts.0@) == seq![0int] + run_ends(row_flags(grid_of(cg@), nw as int, nh as int), nh as int)
            + seq![nh as int],
        ints(cuts.1@) == seq![0int] + run_ends(col_flags(grid_of(cg@), nw as int, nh as int), nw as int)
            + seq![nw as int],
        cuts_ok(ints(cuts.0@), nh as int),
        cuts_ok(ints(cuts.1@), nw as int),
{
    let ghost cgg = grid_of(cg@);
    let mut horizontal_array = full_row_ends(cg, nw);
    let mut vertical_array = full_col_ends(cg, nw);
    let ghost hl = ints(horizontal_array@);
    let ghost vl = ints(vertical_array@);
    proof {
        let rf2 = row_flags(cgg, nw as int, nh as int);
        let cf2 = col_flags(cgg, nw as int, nh as int);
        lemma_run_ends(rf2, nh as int);
        lemma_run_ends(cf2, nw as int);
        assert forall|i: int| 0 <= i < hl.len() implies 1 <= #[trigger] hl[i] < nh by {
            assert(rf2[hl[i]]);
            assert(!rf2[0]);
        }
        assert forall|i: int| 0 <= i < vl.len() implies 1 <= #[trigger] vl[i] < nw by {
            assert(cf2[vl[i]]);
            assert(!cf2[0]);
        }
        lemma_cut_gaps(hl, nh as int);
        lemma_cut_gaps(vl, nw as int);
    }
    horizontal_array.insert(0, 0);
    horizontal_array.push(nh);
    vertical_array.insert(0, 0);
    vertical_array.push(nw);
    proof {
        assert(ints(horizontal_array@) =~= seq![0int] + hl + seq![nh as int]);
        assert(ints(vertical_array@) =~= seq![0int] + vl + seq![nw as int]);
    }
    (horizontal_array, vertical_array)
}

/// Splits a trimmed `nw` by `nh` grid whose corner lies at (`pl`, `pt`) (see
/// [`split_trimmed`]).
fn split_trimmed_rows(
    pl: usize,
    pt: usize,
    cg: &Vec<Vec<u16>>,
    nw: usize,
    nh: usize,
    w: usize,
    h: usize,
) -> (r: Option<Vec<SplitInfo>>)
    requires
        grid_ok(grid_of(cg@), nw as int, nh as int),
        1 <= nw <= w,
        1 <= nh <= h,
        pl + nw <= usize::MAX,
        pt + nh <= usize::MAX,
        !row_full(grid_of(cg@), nw as int, 0),
        !col_full(grid_of(cg@), nh as int, 0),
    ensures
        match r {
            Some(v) => split_trimmed(
                pl as int,
                pt as int,
                grid_of(cg@),
                nw as int,
                nh as int,
                w as int,
                h as int,
            ) == Some(v@) && all_inside(v@, pl as int, pt as int, nw as int, nh as int),
            None => split_trimmed(
                pl as int,
                pt as int,
                grid_of(cg@),
                nw as int,
                nh as int,
                w as int,
                h as int,
            ) is None,
        },
    decreases w + h, 2int,
{
    let (hs, vs) = cut_lines(cg, nw, nh);
    let whole = SplitInfo::new(pl, pt, nw, nh);
    if hs.len() == 2 && vs.len() == 2 {
        let mut infos: Vec<SplitInfo> = Vec::new();
        infos.push(whole);
        return Some(infos);
    }
    let sub = split_cells(pl, pt, cg, &hs, &vs, nw, nh, w, h);
    match sub {
        None => None,
        Some(sub_infos) => {
            let infos = gather(&sub_infos, whole);
            proof {
                lemma_flatten_inside(lists_of(sub_infos@), pl as int, pt as int, nw as int, nh as int);
                assert(inside(whole, pl as int, pt as int, nw as int, nh as int));
            }
            Some(infos)
        },
    }
}

/// Splits a `w` by `h` grid whose corner lies at (`pl`, `pt`) (see [`filter_grid`]).
fn filter_rows(pl: usize, pt: usize, g: &Vec<Vec<u16>>, w: usize, h: usize) -> (r: Option<
    Vec<SplitInfo>,
>)
    requires
        grid_ok(grid_of(g@), w as int, h as int),
        pl + w <= usize::MAX,
        pt + h <= usize::MAX,
    ensures
        match r {
            Some(v) => filter_grid(pl as int, pt as int, grid_of(g@), w as int, h as int) == Some(
                v@,
            ) && all_inside(v@, pl as int, pt as int, w as int, h as int),
            None => filter_grid(pl as int, pt as int, grid_of(g@), w as int, h as int) is None,
        },
    decreases w + h, 3int,
{
    let ghost gg = grid_of(g@);
    if w == 0 {
        return None;
    }
    if h == 0 {
        if w >= 2 {
            return None;
        }
        return Some(Vec::new());
    }
    let (left, top, right, bottom) = trim_bounds(g, w, h);
    if right == 0 || bottom == 0 {
        return Some(Vec::new());
    }
    proof {
        lemma_trim(gg, w as int, h as int);
    }
    let cg = crop_grid(g, left, top, right, bottom);
    let nw = right - left;
    let nh = bottom - top;
    let trimmed = split_trimmed_rows(pl + left, pt + top, &cg, nw, nh, w, h);
    match trimmed {
        None => None,
        Some(infos) => {
            proof {
                assert forall|k: int| 0 <= k < infos@.len() implies inside(
                    #[trigger] infos@[k],
                    pl as int,
                    pt as int,
                    w as int,
                    h as int,
                ) by {
                    assert(inside(infos@[k], pl + left, pt + top, nw as int, nh as int));
                }
                assert forall|k: int| 0 <= k < infos@.len() implies #[trigger] infos@[k].left
                    + infos@[k].width <= usize::MAX && infos@[k].top + infos@[k].height
                    <= usize::MAX by {
                    assert(inside(infos@[k], pl as int, pt as int, w as int, h as int));
                }
            }
            let merged = merge_tall_blocks(&infos);
            proof {
                if merged is Some {
                    lemma_merge_inside(infos@, 0, pl as int, pt as int, w as int, h as int);
                }
            }
            merged
        },
    }
}

/// The inputs the splitting takes: a `width` by `height` edge map stored row after row,
/// 1 for background and 0 for an edge point, whose sides fit the `u16` sums of a row or
/// a column, and whose corner at (`parent_left`, `parent_top`) leaves room in `usize` for
/// its far sides.
pub open spec fn split_input_ok(
    edges: Seq<u16>,
    width: int,
    height: int,
    parent_left: int,
    parent_top: int,
) -> bool {
    &&& edges.len() == width * height
    &&& 0 <= width <= 65535
    &&& 0 <= height <= 65535
    &&& forall|i: int| 0 <= i < edges.len() ==> #[trigger] edges[i] <= 1
    &&& 0 <= parent_left
    &&& 0 <= parent_top
    &&& parent_left + width <= usize::MAX
    &&& parent_top + height <= usize::MAX
}

/// The rows of a `w` by `h` map stored row after row.
fn rows_from(e: &[u16], w: usize, h: usize) -> (g: Vec<Vec<u16>>)
    requires
        e@.len() == w * h,
    ensures
        grid_of(g@) == rows_of(e@, w as int, h as int),
        grid_ok(grid_of(g@), w as int, h as int),
{
    assert(e@.len() == e.len());
    assert(w * h <= usize::MAX);
    let mut g: Vec<Vec<u16>> = Vec::new();
    let mut y: usize = 0;
    while y < h
        invariant
            e@.len() == w * h,
            w * h <= usize::MAX,
            y <= h,
            grid_of(g@) == rows_of(e@, w as int, h as int).take(y as int),
            grid_ok(grid_of(g@), w as int, y as int),
        decreases h - y,
    {
        assert(0 <= y * w && y * w + w <= w * h) by (nonlinear_arith)
            requires
                y < h,
        ;
        let base = y * w;
        let mut row: Vec<u16> = Vec::new();
        let mut x: usize = 0;
        while x < w
            invariant
                e@.len() == w * h,
                w * h <= usize::MAX,
                y < h,
                base == y * w,
                base + w <= w * h,
                x <= w,
                row@ == e@.subrange(base as int, base + x),
            decreases w - x,
        {
            row.push(e[base + x]);
            assert(e@.subrange(base as int, base + x + 1) =~= e@.subrange(base as int, base + x).push(
                e@[base + x],
            ));
            x += 1;
        }
        let ghost before = grid_of(g@);
        g.push(row);
        proof {
            assert(grid_of(g@) =~= before.push(row@));
            assert(rows_of(e@, w as int, h as int)[y as int] =~= row@);
            assert(rows_of(e@, w as int, h as int).take(y + 1) =~= rows_of(
                e@,
                w as int,
                h as int,
            ).take(y as int).push(row@));
        }
        y += 1;
    }
    proof {
        assert(rows_of(e@, w as int, h as int).take(h as int) =~= rows_of(e@, w as int, h as int));
    }
    g
}

/// Splits a `width` by `height` edge map whose top-left corner lies at (`parent_left`,
/// `parent_top`) into blocks, one per character (see [`filter_grid`]); `None` exactly on
/// the maps that cannot be split so (see [`filter_grid`]).
pub fn split_filter_checked(
    parent_left: usize,
    parent_top: usize,
    edges: &[u16],
    width: usize,
    height: usize,
) -> (r: Option<Vec<SplitInfo>>)
    requires
        split_input_ok(
            edges@,
            width as int,
            height as int,
            parent_left as int,
            parent_top as int,
        ),
    ensures
        match r {
            Some(v) => filter_grid(
                parent_left as int,
                parent_top as int,
                rows_of(edges@, width as int, height as int),
                width as int,
                height as int,
            ) == Some(v@) && all_inside(
                v@,
                parent_left as int,
                parent_top as int,
                width as int,
                height as int,
            ),
            None => filter_grid(
                parent_left as int,
                parent_top as int,
                rows_of(edges@, width as int, height as int),
                width as int,
                height as int,
            ) is None,
        },
{
    let g = rows_from(edges, width, height);
    filter_rows(parent_left, parent_top, &g, width, height)
}

/// Splits a `width` by `height` edge map whose top-left corner lies at (`parent_left`,
/// `parent_top`) into blocks, one per character (see [`filter_grid`]). Every block lies
/// inside the map.
pub fn split_filter(
    parent_left: usize,
    parent_top: usize,
    edges: &mut [u16],
    width: usize,
    height: usize,
) -> (infos: Vec<SplitInfo>)
    requires
        split_input_ok(
            old(edges)@,
            width as int,
            height as int,
            parent_left as int,
            parent_top as int,
        ),
        filter_grid(
            parent_left as int,
            parent_top as int,
            rows_of(old(edges)@, width as int, height as int),
            width as int,
            height as int,
        ) is Some,
    ensures
        final(edges)@ == old(edges)@,
        filter_grid(
            parent_left as int,
            parent_top as int,
            rows_of(old(edges)@, width as int, height as int),
            width as int,
            height as int,
        ) == Some(infos@),
        all_inside(infos@, parent_left as int, parent_top as int, width as int, height as int),
{
    let r = split_filter_checked(parent_left, parent_top, edges, width, height);
    r.unwrap()
}

/// Area of a block.
pub open spec fn area(r: SplitInfo) -> int {
    r.width * r.height
}

/// Total area of the blocks.
pub open spec fn area_sum(s: Seq<SplitInfo>) -> int
    decreases s.len(),
{
    if s.len() == 0 {
        0
    } else {
        area_sum(s.drop_last()) + area(s.last())
    }
}

/// The block is not elongated.
pub open spec fn regular() -> spec_fn(SplitInfo) -> bool {
    |r: SplitInfo| !elongated(r)
}

/// The block's area is at least `floor`.
pub open spec fn area_at_least(floor: int) -> spec_fn(SplitInfo) -> bool {
    |r: SplitInfo| area(r) >= floor
}

/// Two thirds of the mean area of the blocks, rounded down.
pub open spec fn area_floor(s: Seq<SplitInfo>) -> int {
    (2 * area_sum(s)) / (3 * s.len() as int)
}

/// The blocks that are not elongated and whose area is at least two thirds of the mean
/// area of those blocks (rounded down), in order.
pub open spec fn even_blocks(s: Seq<SplitInfo>) -> Seq<SplitInfo> {
    let kept = s.filter(regular());
    kept.filter(area_at_least(area_floor(kept)))
}

/// Splits a `width` by `height` edge map into blocks (see [`split_filter`]) and keeps
/// those of a regular shape and size (see [`even_blocks`]): no block kept is elongated.
pub fn split(
    parent_left: usize,
    parent_top: usize,
    edges: &mut [u16],
    width: usize,
    height: usize,
) -> (blocks: Vec<SplitInfo>)
    requires
        split_input_ok(
            old(edges)@,
            width as int,
            height as int,
            parent_left as int,
            parent_top as int,
        ),
        filter_grid(
            parent_left as int,
            parent_top as int,
            rows_of(old(edges)@, width as int, height as int),
            width as int,
            height as int,
        ) is Some,
    ensures
        final(edges)@ == old(edges)@,
        blocks@ == even_blocks(
            filter_grid(
                parent_left as int,
                parent_top as int,
                rows_of(old(edges)@, width as int, height as int),
                width as int,
                height as int,
            ).unwrap(),
        ),
        forall|k: int| 0 <= k < blocks@.len() ==> !elongated(#[trigger] blocks@[k]),
{
    let infos = split_filter(parent_left, parent_top, edges, width, height);
    let ghost all = infos@;
    let mut new_infos: Vec<SplitInfo> = Vec::new();
    let mut total_area: u128 = 0;
    let mut i: usize = 0;
    while i < infos.len()
        invariant
            all == infos@,
            all_inside(all, parent_left as int, parent_top as int, width as int, height as int),
            width <= 65535,
            height <= 65535,
            i <= infos.len(),
            new_infos@ == all.take(i as int).filter(regular()),
            total_area == area_sum(new_infos@),
            forall|k: int| 0 <= k < new_infos@.len() ==> !elongated(#[trigger] new_infos@[k]),
            total_area <= new_infos@.len() * (4294836225),
            new_infos@.len() <= i,
        decreases infos.len() - i,
    {
        let ifo = infos[i];
        proof {
            assert(all.take(i + 1) =~= all.take(i as int).push(ifo));
            all.take(i as int).lemma_filter_push(ifo, regular());
            all.take(i as int).lemma_filter_len(regular());
        }
        if is_elongated(ifo) {
            i += 1;
            continue;
        }
        proof {
            assert(inside(ifo, parent_left as int, parent_top as int, width as int, height as int));
            assert(ifo.width * ifo.height <= 4294836225) by (nonlinear_arith)
                requires
                    ifo.width <= 65535,
                    ifo.height <= 65535,
            ;
            assert(new_infos@.len() * (4294836225) <= i * (4294836225)) by (nonlinear_arith)
                requires
                    new_infos@.len() <= i,
            ;
            assert(i * (4294836225) < 0x1_0000_0000_0000_0000 * 0x1_0000_0000);
        }
        let ghost before = new_infos@;
        total_area = total_area + (ifo.width as u128) * (ifo.height as u128);
        new_infos.push(SplitInfo::new(ifo.left, ifo.top, ifo.width, ifo.height));
        proof {
            assert(new_infos@.drop_last() =~= before);
        }
        i += 1;
    }
    proof {
        assert(all.take(infos.len() as int) =~= all);
    }
    let infos = new_infos;
    let ghost kept = infos@;
    let n = infos.len();
    assert(total_area * 2 <= u128::MAX) by (nonlinear_arith)
        requires
            total_area <= n * 4294836225,
            n <= u64::MAX,
    ;
    let floor: u128 = if n > 0 {
        (2 * total_area) / (3 * (n as u128))
    } else {
        0
    };
    let mut result: Vec<SplitInfo> = Vec::new();
    let mut i: usize = 0;
    while i < n
        invariant
            kept == infos@,
            n == infos.len(),
            n > 0 ==> floor == area_floor(kept),
            i <= n,
            result@ == kept.take(i as int).filter(
                area_at_least(area_floor(kept)),
            ),
            forall|k: int| 0 <= k < kept.len() ==> !elongated(#[trigger] kept[k]),
            forall|k: int| 0 <= k < result@.len() ==> !elongated(#[trigger] result@[k]),
        decreases n - i,
    {
        let ifo = infos[i];
        proof {
            assert(kept.take(i + 1) =~= kept.take(i as int).push(ifo));
            kept.take(i as int).lemma_filter_push(ifo, area_at_least(area_floor(kept)));
        }
        assert((ifo.height as u128) * (ifo.width as u128) <= u128::MAX) by (nonlinear_arith)
            requires
                ifo.height <= u64::MAX,
                ifo.width <= u64::MAX,
        ;
        assert(!elongated(kept[i as int]));
        if (ifo.height as u128) * (ifo.width as u128) < floor {
            i += 1;
            continue;
        }
        result.push(SplitInfo::new(ifo.left, ifo.top, ifo.width, ifo.height));
        i += 1;
    }
    proof {
        assert(kept.take(n as int) =~= kept);
    }
    result
}

/// The point (`x`, `y`) lies strictly inside the block, placed with its corner offset by
/// (`left`, `top`).
pub open spec fn holds_point(b: SplitInfo, left: int, top: int, x: int, y: int) -> bool {
    &&& left + b.left < x < left + b.left + b.width
    &&& top + b.top < y < top + b.top + b.height
}

/// The index of the first block that holds the point (`x`, `y`) strictly inside, the blocks
/// placed with their corners offset by (`left`, `top`); `None` where no block holds it.
pub fn block_at(blocks: &Vec<SplitInfo>, left: usize, top: usize, x: i32, y: i32) -> (r: Option<
    usize,
>)
    ensures
        match r {
            Some(k) => k < blocks@.len() && holds_point(
                blocks@[k as int],
                left as int,
                top as int,
                x as int,
                y as int,
            ) && forall|j: int|
                0 <= j < k ==> !#[trigger] holds_point(
                    blocks@[j],
                    left as int,
                    top as int,
                    x as int,
                    y as int,
                ),
            None => forall|j: int|
                0 <= j < blocks@.len() ==> !#[trigger] holds_point(
                    blocks@[j],
                    left as int,
                    top as int,
                    x as int,
                    y as int,
                ),
        },
{
    let mut k: usize = 0;
    while k < blocks.len()
        invariant
            k <= blocks@.len(),
            forall|j: int|
                0 <= j < k ==> !#[trigger] holds_point(
                    blocks@[j],
                    left as int,
                    top as int,
                    x as int,
                    y as int,
                ),
        decreases blocks.len() - k,
    {
        let b = blocks[k];
        let sleft = (left as i128) + (b.left as i128);
        let stop = (top as i128) + (b.top as i128);
        let sright = sleft + (b.width as i128);
        let sbottom = stop + (b.height as i128);
        if sleft < (x as i128) && sright > (x as i128) && stop < (y as i128) && sbottom > (y as i128) {
            return Some(k);
        }
        k += 1;
    }
    None
}

proof fn lemma_filter_within(s: Seq<SplitInfo>, p: spec_fn(SplitInfo) -> bool)
    ensures
        forall|i: int|
            0 <= i < s.filter(p).len() ==> s.contains(#[trigger] s.filter(p)[i]) && p(s.filter(p)[i]),
    decreases s.len(),
{
    reveal(Seq::filter);
    if s.len() > 0 {
        let d = s.drop_last();
        lemma_filter_within(d, p);
        let f = s.filter(p);
        assert forall|i: int| 0 <= i < f.len() implies s.contains(#[trigger] f[i]) && p(f[i]) by {
            if i < d.filter(p).len() {
                assert(f[i] == d.filter(p)[i]);
                let j = choose|j: int| 0 <= j < d.len() && d[j] == f[i];
                assert(s[j] == f[i]);
            } else {
                assert(f[i] == s.last());
                assert(s[s.len() - 1] == f[i]);
            }
        }
    }
}

/// A character whose separators cut it into cells holding one block each, stacked two or
/// three high (会, 三), or one block over four (杰), is not split where one of those blocks
/// is elongated, as the strokes of such characters are: the trimmed map stays a single
/// block.
pub proof fn law_stacked_strokes_stay_one_character(
    pl: int,
    pt: int,
    cg: Seq<Seq<u16>>,
    nw: int,
    nh: int,
    pw: int,
    ph: int,
    sub: Seq<Seq<SplitInfo>>,
    i: int,
    k: int,
)
    requires
        ({
            let hl = run_ends(row_flags(cg, nw, nh), nh);
            let vl = run_ends(col_flags(cg, nw, nh), nw);
            let hs = seq![0int] + hl + seq![nh];
            let vs = seq![0int] + vl + seq![nw];
            &&& hl.len() > 0 || vl.len() > 0
            &&& grid_subs(pl, pt, cg, hs, vs, pw, ph, hs.len() - 1) == Some(sub)
        }),
        (sub.len() == 3 && sub[0].len() == 1 && sub[1].len() == 1 && sub[2].len() == 1) || (sub.len()
            == 2 && sub[0].len() == 1 && (sub[1].len() == 1 || sub[1].len() == 4)),
        0 <= i < sub.len(),
        0 <= k < sub[i].len(),
        5 * sub[i][k].height > 8 * sub[i][k].width || 5 * sub[i][k].width > 8 * sub[i][k].height,
    ensures
        split_trimmed(pl, pt, cg, nw, nh, pw, ph) == Some(
            seq![SplitInfo { left: pl as usize, top: pt as usize, width: nw as usize, height: nh as usize }],
        ),
{
    assert(elongated(sub[i][k]));
    assert(any_elongated(sub));
}

/// What [`split`] keeps of the blocks that [`split_filter`] found (`found`): only blocks
/// found, none of them elongated, each with an area of at least two thirds of the mean
/// area of the blocks found that are not elongated (rounded down).
pub proof fn law_split_keeps_found_blocks(found: Seq<SplitInfo>)
    ensures
        forall|k: int|
            0 <= k < even_blocks(found).len() ==> found.contains(#[trigger] even_blocks(found)[k])
                && !elongated(even_blocks(found)[k]) && area(even_blocks(found)[k]) >= area_floor(
                found.filter(regular()),
            ),
{
    let kept = found.filter(regular());
    lemma_filter_within(found, regular());
    lemma_filter_within(kept, area_at_least(area_floor(kept)));
    assert forall|k: int| 0 <= k < even_blocks(found).len() implies found.contains(
        #[trigger] even_blocks(found)[k],
    ) && !elongated(even_blocks(found)[k]) && area(even_blocks(found)[k]) >= area_floor(kept) by {
        let b = even_blocks(found)[k];
        assert(kept.contains(b));
        assert(area_at_least(area_floor(kept))(b));
        let j = choose|j: int| 0 <= j < kept.len() && kept[j] == b;
        assert(found.contains(kept[j]) && regular()(kept[j]));
    }
}

} // verus!
