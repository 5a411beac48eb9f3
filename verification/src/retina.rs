use vstd::prelude::*;

verus! {

/// A point of an edge map: column `x`, row `y`.
#[derive(Debug, Clone, Copy)]
pub struct Point {
    pub x: i16,
    pub y: i16,
}

impl Point {
    pub fn new(x: i16, y: i16) -> (p: Point)
        ensures
            p.x == x,
            p.y == y,
    {
        Point { x, y }
    }

    /// A point from `usize` coordinates, each truncated to `i16` as `as` does.
    pub fn from_usize(x: usize, y: usize) -> (p: Point)
        ensures
            p.x == x as i16,
            p.y == y as i16,
    {
        Point { x: x as i16, y: y as i16 }
    }
}

/// The coordinates of a point as integers.
pub open spec fn point_xy(p: Point) -> (int, int) {
    (p.x as int, p.y as int)
}

/// Contours as sequences of integer coordinates.
pub open spec fn contours_xy(c: Seq<Vec<Point>>) -> Seq<Seq<(int, int)>> {
    c.map_values(|v: Vec<Point>| v@.map_values(|p: Point| point_xy(p)))
}

/// A grid of edge flags, `cells()[y][x]` for column `x` of row `y`.
pub trait EdgePoints {
    spec fn cells(&self) -> Seq<Seq<bool>>;

    fn width(&self) -> (w: usize)
        ensures
            w == grid_width(self.cells()),
    ;

    fn height(&self) -> (h: usize)
        ensures
            h == self.cells().len(),
    ;

    fn widthi(&self) -> (w: i16)
        ensures
            w == grid_width(self.cells()) as i16,
    ;

    fn heighti(&self) -> (h: i16)
        ensures
            h == self.cells().len() as i16,
    ;

    fn at(&mut self, x: i16, y: i16) -> (cell: &mut bool)
        requires
            0 <= y < old(self).cells().len(),
            0 <= x < old(self).cells()[y as int].len(),
        ensures
            *cell == old(self).cells()[y as int][x as int],
            final(self).cells() == old(self).cells().update(
                y as int,
                old(self).cells()[y as int].update(x as int, *final(cell)),
            ),
    ;

    fn atu(&mut self, x: usize, y: usize) -> (cell: &mut bool)
        requires
            y < old(self).cells().len(),
            x < old(self).cells()[y as int].len(),
        ensures
            *cell == old(self).cells()[y as int][x as int],
            final(self).cells() == old(self).cells().update(
                y as int,
                old(self).cells()[y as int].update(x as int, *final(cell)),
            ),
    ;
}

/// Width of a grid: the length of its first row, 0 for a grid without rows.
pub open spec fn grid_width(g: Seq<Seq<bool>>) -> int {
    if g.len() > 0 {
        g[0].len() as int
    } else {
        0
    }
}

impl EdgePoints for Vec<Vec<bool>> {
    open spec fn cells(&self) -> Seq<Seq<bool>> {
        self@.map_values(|row: Vec<bool>| row@)
    }

    fn width(&self) -> (w: usize) {
        if self.len() > 0 {
            self[0].len()
        } else {
            0
        }
    }

    fn height(&self) -> (h: usize) {
        self.len()
    }

    fn widthi(&self) -> (w: i16) {
        if self.len() > 0 {
            self[0].len() as i16
        } else {
            0
        }
    }

    fn heighti(&self) -> (h: i16) {
        self.len() as i16
    }

    fn at(&mut self, x: i16, y: i16) -> (cell: &mut bool) {
        &mut self[y as usize][x as usize]
    }

    fn atu(&mut self, x: usize, y: usize) -> (cell: &mut bool) {
        &mut self[y][x]
    }
}


/// Column step of direction `d` of the 8-neighbourhood, counted clockwise from "down"
/// (0: (0, 1), 1: (1, 1), 2: (1, 0), 3: (1, -1), 4: (0, -1), 5: (-1, -1), 6: (-1, 0), 7: (-1, 1)).
pub open spec fn dir_dx(d: int) -> int {
    if d == 1 || d == 2 || d == 3 {
        1
    } else if d == 5 || d == 6 || d == 7 {
        -1
    } else {
        0
    }
}

/// Row step of direction `d` of the 8-neighbourhood.
pub open spec fn dir_dy(d: int) -> int {
    if d == 0 || d == 1 || d == 7 {
        1
    } else if d == 3 || d == 4 || d == 5 {
        -1
    } else {
        0
    }
}

/// `(x, y)` lies inside the border of the grid (not in its first or last row or column).
pub open spec fn interior(g: Seq<Seq<bool>>, x: int, y: int) -> bool {
    0 < x < grid_width(g) - 1 && 0 < y < g.len() - 1
}

/// `(x, y)` is an edge point inside the border of the grid.
pub open spec fn set_at(g: Seq<Seq<bool>>, x: int, y: int) -> bool {
    interior(g, x, y) && x < g[y].len() && g[y][x]
}

/// The first direction, trying `s + k`, `s + k + 1`, ... up to `s + 7` (modulo 8), in
/// which the neighbour of `(bx, by)` is an edge point inside the border.
pub open spec fn first_dir(g: Seq<Seq<bool>>, bx: int, by: int, s: int, k: int) -> Option<int>
    decreases 8 - k,
{
    if k >= 8 || k < 0 {
        None
    } else {
        let d = (s + k) % 8;
        if set_at(g, bx + dir_dx(d), by + dir_dy(d)) {
            Some(d)
        } else {
            first_dir(g, bx, by, s, k + 1)
        }
    }
}

/// The grid with `(x, y)` cleared.
pub open spec fn cleared(g: Seq<Seq<bool>>, x: int, y: int) -> Seq<Seq<bool>> {
    g.update(y, g[y].update(x, false))
}

/// Number of set flags of a row.
pub open spec fn row_count(r: Seq<bool>) -> nat
    decreases r.len(),
{
    if r.len() == 0 {
        0
    } else {
        row_count(r.drop_last()) + if r.last() {
            1nat
        } else {
            0nat
        }
    }
}

/// Number of set flags of a grid.
pub open spec fn grid_count(g: Seq<Seq<bool>>) -> nat
    decreases g.len(),
{
    if g.len() == 0 {
        0
    } else {
        grid_count(g.drop_last()) + row_count(g.last())
    }
}

/// Clearing a set flag of a row lowers its count of set flags by one.
pub proof fn lemma_row_clear(r: Seq<bool>, x: int)
    requires
        0 <= x < r.len(),
        r[x],
    ensures
        row_count(r.update(x, false)) + 1 == row_count(r),
    decreases r.len(),
{
    if x < r.len() - 1 {
        assert(r.update(x, false).drop_last() =~= r.drop_last().update(x, false));
        lemma_row_clear(r.drop_last(), x);
    } else {
        assert(r.update(x, false).drop_last() =~= r.drop_last());
    }
}

/// Clearing a set flag of a grid lowers its count of set flags by one.
pub proof fn lemma_grid_clear(g: Seq<Seq<bool>>, x: int, y: int)
    requires
        0 <= y < g.len(),
        0 <= x < g[y].len(),
        g[y][x],
    ensures
        grid_count(cleared(g, x, y)) + 1 == grid_count(g),
    decreases g.len(),
{
    if y < g.len() - 1 {
        assert(cleared(g, x, y).drop_last() =~= cleared(g.drop_last(), x, y));
        lemma_grid_clear(g.drop_last(), x, y);
    } else {
        assert(cleared(g, x, y).drop_last() =~= g.drop_last());
        lemma_row_clear(g[y], x);
    }
}

/// Follows a contour from `(bx, by)`, searching from direction `s`: the points added
/// to the contour, each cleared from the grid when it is reached, and the grid at the
/// end. From each point the search starts two directions back (counter-clockwise) from
/// the direction that led to it; the contour ends at a point without an edge point
/// around it.
pub open spec fn follow(g: Seq<Seq<bool>>, bx: int, by: int, s: int) -> (Seq<(int, int)>, Seq<Seq<bool>>)
    decreases grid_count(g),
{
    match first_dir(g, bx, by, s, 0) {
        None => (seq![], g),
        Some(d) => {
            let nx = bx + dir_dx(d);
            let ny = by + dir_dy(d);
            if set_at(g, nx, ny) {
                proof {
                    lemma_grid_clear(g, nx, ny);
                }
                let next = follow(cleared(g, nx, ny), nx, ny, (d + 6) % 8);
                (seq![(nx, ny)] + next.0, next.1)
            } else {
                (seq![], g)
            }
        },
    }
}

/// The contours found by scanning the grid column after column from column `x`, row
/// `y` on (inside a `w` by `h` border): each edge point still set when it is reached
/// starts a contour, which is cleared as it is followed.
pub open spec fn scan(g: Seq<Seq<bool>>, w: int, h: int, x: int, y: int) -> Seq<Seq<(int, int)>>
    decreases w - x, h - y,
{
    if x >= w - 1 || x < 1 {
        seq![]
    } else if y >= h - 1 || y < 1 {
        scan(g, w, h, x + 1, 1)
    } else if set_at(g, x, y) {
        let t = follow(cleared(g, x, y), x, y, 0);
        seq![seq![(x, y)] + t.0] + scan(t.1, w, h, x, y + 1)
    } else {
        scan(g, w, h, x, y + 1)
    }
}


/// The grid has a row and a column, fits `i16` coordinates, and each row inside the
/// border reaches the last column inside the border.
pub open spec fn track_grid_ok(g: Seq<Seq<bool>>) -> bool {
    &&& g.len() >= 1
    &&& grid_width(g) >= 1
    &&& g.len() <= 32767
    &&& grid_width(g) <= 32767
    &&& forall|y: int| 0 < y < g.len() - 1 ==> #[trigger] g[y].len() >= grid_width(g) - 1
}

proof fn lemma_first_dir_skip(g: Seq<Seq<bool>>, bx: int, by: int, s: int, j: int, k: int)
    requires
        0 <= j <= k <= 8,
        forall|i: int|
            j <= i < k ==> !#[trigger] set_at(g, bx + dir_dx((s + i) % 8), by + dir_dy((s + i) % 8)),
    ensures
        first_dir(g, bx, by, s, j) == first_dir(g, bx, by, s, k),
    decreases k - j,
{
    if j < k {
        lemma_first_dir_skip(g, bx, by, s, j + 1, k);
    }
}

proof fn lemma_cleared_keeps_shape(g: Seq<Seq<bool>>, x: int, y: int)
    requires
        track_grid_ok(g),
        interior(g, x, y),
    ensures
        track_grid_ok(cleared(g, x, y)),
        grid_width(cleared(g, x, y)) == grid_width(g),
        cleared(g, x, y).len() == g.len(),
{
    let c = cleared(g, x, y);
    assert forall|yy: int| 0 < yy < c.len() - 1 implies #[trigger] c[yy].len() >= grid_width(c) - 1 by {
        if yy != y {
            assert(c[yy] == g[yy]);
        }
        assert(g[yy].len() >= grid_width(g) - 1);
    }
}

fn neighbor(d: i32) -> (step: (i16, i16))
    requires
        0 <= d < 8,
    ensures
        step.0 == dir_dx(d as int),
        step.1 == dir_dy(d as int),
{
    if d == 0 {
        (0, 1)
    } else if d == 1 {
        (1, 1)
    } else if d == 2 {
        (1, 0)
    } else if d == 3 {
        (1, -1)
    } else if d == 4 {
        (0, -1)
    } else if d == 5 {
        (-1, -1)
    } else if d == 6 {
        (-1, 0)
    } else {
        (-1, 1)
    }
}

/// Follows every contour of an edge map (8-neighbourhood tracking). The map is scanned
/// column after column inside its one-pixel border; each edge point still set starts a
/// contour, which is followed and cleared point by point (see [`follow`]).
#[verifier::rlimit(60)]
pub fn edge_track(edges: Vec<Vec<bool>>) -> (result: Vec<Vec<Point>>)
    requires
        track_grid_ok(edges.cells()),
    ensures
        contours_xy(result@) == scan(
            edges.cells(),
            grid_width(edges.cells()),
            edges.cells().len() as int,
            1,
            1,
        ),
{
    let mut edges = edges;
    let ghost g0 = edges.cells();
    let ghost w = grid_width(g0);
    let ghost h = g0.len() as int;
    let mut result: Vec<Vec<Point>> = Vec::new();
    let mut curr_d: i32 = 0;
    let width = edges.width();
    let mut x: usize = 1;
    while x < width - 1
        invariant
            width == w,
            track_grid_ok(edges.cells()),
            grid_width(edges.cells()) == w,
            edges.cells().len() == h,
            1 <= x,
            curr_d == 0,
            contours_xy(result@) + scan(edges.cells(), w, h, x as int, 1) == scan(g0, w, h, 1, 1),
        decreases width - x,
    {
        let mut y: usize = 1;
        while y < edges.height() - 1
            invariant
                width == w,
                track_grid_ok(edges.cells()),
                grid_width(edges.cells()) == w,
                edges.cells().len() == h,
                1 <= x < w - 1,
                1 <= y,
                curr_d == 0,
                contours_xy(result@) + scan(edges.cells(), w, h, x as int, y as int) == scan(
                    g0,
                    w,
                    h,
                    1,
                    1,
                ),
            decreases h - y,
        {
            let ghost gs = edges.cells();
            let mut b_pt = Point::from_usize(x, y);
            let mut c_pt = Point::from_usize(x, y);
            assert(gs[y as int].len() >= w - 1);
            if *edges.atu(x, y) {
                proof {
                    assert(gs[y as int].update(x as int, gs[y as int][x as int]) =~= gs[y as int]);
                    assert(edges.cells() =~= gs);
                }
                let ghost target = follow(cleared(gs, x as int, y as int), x as int, y as int, 0);
                let mut edge_t: Vec<Point> = Vec::new();
                edge_t.push(c_pt);
                *edges.at(c_pt.x, c_pt.y) = false;
                proof {
                    assert(edges.cells() =~= cleared(gs, x as int, y as int));
                    lemma_cleared_keeps_shape(gs, x as int, y as int);
                    assert(edge_t@.map_values(|p: Point| point_xy(p)).drop_first() =~= Seq::<
                        (int, int),
                    >::empty());
                }
                loop
                    invariant_except_break
                        -2 <= curr_d < 8,
                        interior(edges.cells(), b_pt.x as int, b_pt.y as int),
                        edge_t@.map_values(|p: Point| point_xy(p)).drop_first() + follow(
                            edges.cells(),
                            b_pt.x as int,
                            b_pt.y as int,
                            (curr_d + 8) % 8,
                        ).0 == target.0,
                        follow(edges.cells(), b_pt.x as int, b_pt.y as int, (curr_d + 8) % 8).1
                            == target.1,
                    invariant
                        width == w,
                        track_grid_ok(edges.cells()),
                        grid_width(edges.cells()) == w,
                        edges.cells().len() == h,
                        1 <= x < w - 1,
                        1 <= y < h - 1,
                        edge_t@.len() >= 1,
                        edge_t@[0] == (Point { x: x as i16, y: y as i16 }),
                        contours_xy(result@) + scan(gs, w, h, x as int, y as int) == scan(
                            g0,
                            w,
                            h,
                            1,
                            1,
                        ),
                        set_at(gs, x as int, y as int),
                        target == follow(cleared(gs, x as int, y as int), x as int, y as int, 0),
                    ensures
                        edge_t@.map_values(|p: Point| point_xy(p)).drop_first() == target.0,
                        edges.cells() == target.1,
                    decreases grid_count(edges.cells()),
                {
                    let ghost gc = edges.cells();
                    let ghost s0 = (curr_d + 8) % 8;
                    let ghost bx = b_pt.x as int;
                    let ghost by = b_pt.y as int;
                    let ghost et0 = edge_t@;
                    let mut counts: usize = 0;
                    while counts < 8
                        invariant_except_break
                            edges.cells() == gc,
                            b_pt.x == bx,
                            b_pt.y == by,
                            edge_t@ == et0,
                            -2 <= curr_d <= 8,
                            (curr_d + 8) % 8 == (s0 + counts) % 8,
                        invariant
                            track_grid_ok(gc),
                            grid_width(gc) == w,
                            gc.len() == h,
                            interior(gc, bx, by),
                            0 <= s0 < 8,
                            counts <= 8,
                            forall|i: int|
                                0 <= i < counts ==> !#[trigger] set_at(
                                    gc,
                                    bx + dir_dx((s0 + i) % 8),
                                    by + dir_dy((s0 + i) % 8),
                                ),
                        ensures
                            counts < 8 ==> {
                                &&& first_dir(gc, bx, by, s0, 0) == Some((s0 + counts) % 8)
                                &&& b_pt.x == bx + dir_dx((s0 + counts) % 8)
                                &&& b_pt.y == by + dir_dy((s0 + counts) % 8)
                                &&& set_at(gc, b_pt.x as int, b_pt.y as int)
                                &&& edges.cells() == cleared(gc, b_pt.x as int, b_pt.y as int)
                                &&& curr_d == (s0 + counts) % 8 - 2
                                &&& edge_t@ == et0.push(b_pt)
                            },
                            counts == 8 ==> {
                                &&& edges.cells() == gc
                                &&& b_pt.x == bx
                                &&& b_pt.y == by
                                &&& edge_t@ == et0
                            },
                        decreases 8 - counts,
                    {
                        if curr_d >= 8 {
                            curr_d -= 8;
                        }
                        if curr_d < 0 {
                            curr_d += 8;
                        }
                        assert(curr_d == (s0 + counts) % 8);
                        let (dx, dy) = neighbor(curr_d);
                        c_pt = Point::new(b_pt.x + dx, b_pt.y + dy);
                        if c_pt.x > 0 && c_pt.x < edges.widthi() - 1 && c_pt.y > 0 && c_pt.y
                            < edges.heighti() - 1 {
                            let ghost cx = c_pt.x as int;
                            let ghost cy = c_pt.y as int;
                            assert(gc[cy].len() >= w - 1);
                            if *edges.at(c_pt.x, c_pt.y) {
                                proof {
                                    assert(gc[cy].update(cx, gc[cy][cx]) =~= gc[cy]);
                                    assert(edges.cells() =~= gc);
                                }
                                curr_d -= 2;
                                edge_t.push(c_pt);
                                *edges.at(c_pt.x, c_pt.y) = false;
                                b_pt.x = c_pt.x;
                                b_pt.y = c_pt.y;
                                proof {
                                    lemma_first_dir_skip(gc, bx, by, s0, 0, counts as int);
                                }
                                break;
                            }
                            proof {
                                assert(gc[cy].update(cx, gc[cy][cx]) =~= gc[cy]);
                                assert(edges.cells() =~= gc);
                            }
                        }
                        curr_d += 1;
                        counts += 1;
                    }
                    if counts == 8 {
                        proof {
                            lemma_first_dir_skip(gc, bx, by, s0, 0, 8);
                            assert(edge_t@.map_values(|p: Point| point_xy(p)).drop_first() + seq![]
                                =~= edge_t@.map_values(|p: Point| point_xy(p)).drop_first());
                        }
                        break;
                    }
                    proof {
                        let d = (s0 + counts) % 8;
                        let nx = b_pt.x as int;
                        let ny = b_pt.y as int;
                        lemma_grid_clear(gc, nx, ny);
                        lemma_cleared_keeps_shape(gc, nx, ny);
                        let rest = follow(edges.cells(), nx, ny, (d + 6) % 8);
                        assert(follow(gc, bx, by, s0).0 == seq![(nx, ny)] + rest.0);
                        assert(follow(gc, bx, by, s0).1 == rest.1);
                        assert((curr_d + 8) % 8 == (d + 6) % 8);
                        let prev = et0.map_values(|p: Point| point_xy(p)).drop_first();
                        assert(edge_t@.map_values(|p: Point| point_xy(p)).drop_first() =~= prev.push(
                            (nx, ny),
                        ));
                        assert(prev.push((nx, ny)) + rest.0 =~= prev + (seq![(nx, ny)] + rest.0));
                    }
                }
                curr_d = 0;
                let ghost old_result = result@;
                let ghost et = edge_t@;
                result.push(edge_t);
                proof {
                    let c = seq![(x as int, y as int)] + target.0;
                    assert(et.map_values(|p: Point| point_xy(p)) =~= c);
                    assert(contours_xy(result@) =~= contours_xy(old_result).push(c));
                    assert(scan(gs, w, h, x as int, y as int) == seq![c] + scan(
                        target.1,
                        w,
                        h,
                        x as int,
                        y as int + 1,
                    ));
                    assert(contours_xy(old_result).push(c) + scan(
                        target.1,
                        w,
                        h,
                        x as int,
                        y as int + 1,
                    ) =~= contours_xy(old_result) + (seq![c] + scan(
                        target.1,
                        w,
                        h,
                        x as int,
                        y as int + 1,
                    )));
                }
            } else {
                proof {
                    assert(gs[y as int].update(x as int, gs[y as int][x as int]) =~= gs[y as int]);
                    assert(edges.cells() =~= gs);
                }
            }
            y += 1;
        }
        x += 1;
    }
    result
}

/// Start of the last pixel of a `size`-byte image with `bytepp` bytes per pixel.
pub open spec fn last_pixel(size: int, bytepp: int) -> int {
    ((size - 1) / bytepp) * bytepp
}

/// The inputs on which [`edge_detect_f`] reads and writes only bytes of the image and of
/// the output, and computes no position beyond `usize`: an empty image, or pixels of at
/// least three bytes where the last pixel is whole, the output is at least as long as the
/// image, and the positions of the last pixel's right and lower neighbours fit.
pub open spec fn edge_scan_ok(width: u32, bytepp: usize, size: int, out_len: int) -> bool {
    ||| size == 0
    ||| {
        &&& bytepp > 0
        &&& (size - 1) % (bytepp as int) >= 2
        &&& out_len >= size
        &&& last_pixel(size, bytepp as int) + bytepp * width <= usize::MAX
        &&& last_pixel(size, bytepp as int) + bytepp <= usize::MAX
    }
}

/// Whether the pixel whose colour bytes start at `j` reaches the threshold `t` in
/// brightness (0.299 r + 0.587 g + 0.114 b, in thousandths).
pub open spec fn bright(src: Seq<u8>, j: int, t: u8) -> bool {
    299 * src[j] + 587 * src[j + 1] + 114 * src[j + 2] >= 1000 * t
}

/// Output of the bipolar cell at `j`: +1 where bright, -1 where dark.
pub open spec fn bipolar(src: Seq<u8>, j: int, t: u8) -> int {
    if bright(src, j, t) {
        1
    } else {
        -1
    }
}

/// Output of a horizontal cell at `j`: -1 where bright, +1 where dark.
pub open spec fn horizontal(src: Seq<u8>, j: int, t: u8) -> int {
    if bright(src, j, t) {
        -1
    } else {
        1
    }
}

/// The pixel starting at `p` is an edge for threshold `t`: its right and lower neighbours
/// lie in the image, and twice its bipolar output plus their horizontal outputs is not 0.
pub open spec fn edge_at(src: Seq<u8>, width: int, bytepp: int, p: int, t: u8) -> bool {
    &&& p + bytepp < src.len()
    &&& p + bytepp * width < src.len()
    &&& 2 * bipolar(src, p, t) + horizontal(src, p + bytepp, t) + horizontal(
        src,
        p + bytepp * width,
        t,
    ) != 0
}

/// The pixel starting at `p` is an edge for some threshold of `ths`.
pub open spec fn edge_for_some(src: Seq<u8>, width: int, bytepp: int, p: int, ths: Seq<u8>) -> bool {
    exists|k: int| 0 <= k < ths.len() && edge_at(src, width, bytepp, p, #[trigger] ths[k])
}

/// The output [`edge_detect_f`] makes of `prev`: the three colour bytes of each pixel of
/// the image become 0 (black) where the pixel is an edge for some threshold and 255
/// (white) elsewhere; every other byte keeps its value.
pub open spec fn edge_image(
    src: Seq<u8>,
    width: int,
    bytepp: int,
    ths: Seq<u8>,
    prev: Seq<u8>,
) -> Seq<u8> {
    Seq::new(
        prev.len(),
        |j: int|
            if j < src.len() && j % bytepp < 3 {
                if edge_for_some(src, width, bytepp, j - j % bytepp, ths) {
                    0u8
                } else {
                    255u8
                }
            } else {
                prev[j]
            },
    )
}

proof fn lemma_pixel_start(k: int, b: int, size: int)
    requires
        b > 0,
        0 <= k,
        k * b < size,
    ensures
        k * b <= last_pixel(size, b),
        (size - 1) - last_pixel(size, b) == (size - 1) % b,
{
    assert(k <= (size - 1) / b) by (nonlinear_arith)
        requires
            b > 0,
            0 <= k,
            k * b <= size - 1,
    ;
    assert(k * b <= ((size - 1) / b) * b) by (nonlinear_arith)
        requires
            b > 0,
            0 <= k <= (size - 1) / b,
    ;
    assert((size - 1) == ((size - 1) / b) * b + (size - 1) % b) by (nonlinear_arith)
        requires
            b > 0,
    ;
}

/// A byte `j` of the pixel starting at `i == k * b` lies `j - i` bytes into it.
proof fn lemma_in_pixel(k: int, b: int, j: int)
    requires
        b > 0,
        k * b <= j < k * b + b,
    ensures
        j % b == j - k * b,
{
    vstd::arithmetic::div_mod::lemma_fundamental_div_mod_converse(j, b, k, j - k * b);
}

/// A byte `j` before the pixel starting at `k * b` lies in an earlier pixel.
proof fn lemma_before_pixel(k: int, b: int, j: int)
    requires
        b > 0,
        0 <= j < k * b,
    ensures
        j - j % b + b <= k * b,
{
    vstd::arithmetic::div_mod::lemma_fundamental_div_mod(j, b);
    vstd::arithmetic::div_mod::lemma_mod_pos_bound(j, b);
    let q = j / b;
    let r = j % b;
    assert(j - r + b <= k * b) by (nonlinear_arith)
        requires
            b > 0,
            j == b * q + r,
            0 <= r,
            j < k * b,
    ;
}

/// Bipolar cell: +1 where the pixel's brightness (0.299 r + 0.587 g + 0.114 b) reaches
/// the threshold, -1 below it.
fn bipolar_cell(r: u8, g: u8, b: u8, threshold: u8) -> (out: i8)
    ensures
        out == (if 299 * r + 587 * g + 114 * b >= 1000 * threshold {
            1int
        } else {
            -1int
        }),
{
    if 299 * (r as u32) + 587 * (g as u32) + 114 * (b as u32) >= 1000 * (threshold as u32) {
        1
    } else {
        -1
    }
}

/// Horizontal cell: -1 where the pixel's brightness reaches the threshold, +1 below it.
fn horizontal_cell(r: u8, g: u8, b: u8, threshold: u8) -> (out: i8)
    ensures
        out == (if 299 * r + 587 * g + 114 * b >= 1000 * threshold {
            -1int
        } else {
            1int
        }),
{
    if 299 * (r as u32) + 587 * (g as u32) + 114 * (b as u32) >= 1000 * (threshold as u32) {
        -1
    } else {
        1
    }
}

/// Whether the pixel starting at `i` is an edge for some threshold (see [`edge_at`]).
fn pixel_is_edge(width: u32, bytepp: usize, src: &[u8], thresholds: &[u8], i: usize, Ghost(k): Ghost<int>) -> (edge: bool)
    requires
        src@.len() > 0,
        edge_scan_ok(width, bytepp, src@.len() as int, src@.len() as int),
        0 <= k,
        i == k * bytepp,
        i < src@.len(),
    ensures
        edge == edge_for_some(src@, width as int, bytepp as int, i as int, thresholds@),
{
    let size = src.len();
    proof {
        lemma_pixel_start(k, bytepp as int, size as int);
        assert((k + 1) * bytepp == i + bytepp) by (nonlinear_arith)
            requires
                i == k * bytepp,
        ;
        assert((k + width) * bytepp == i + bytepp * width) by (nonlinear_arith)
            requires
                i == k * bytepp,
        ;
        assert(0 <= bytepp * width) by (nonlinear_arith);
    }
    let hrid = i + bytepp;
    let hbid = i + bytepp * (width as usize);
    if !(hrid < size && hbid < size) {
        return false;
    }
    proof {
        lemma_pixel_start(k + 1, bytepp as int, size as int);
        assert(0 <= k + width);
        lemma_pixel_start(k + width, bytepp as int, size as int);
    }
    let mut t: usize = 0;
    while t < thresholds.len()
        invariant
            t <= thresholds@.len(),
            size == src@.len(),
            i + 2 < size,
            hrid + 2 < size,
            hbid + 2 < size,
            hrid == i + bytepp,
            hbid == i + bytepp * width,
            forall|m: int|
                0 <= m < t ==> !edge_at(src@, width as int, bytepp as int, i as int, #[trigger] thresholds@[m]),
        decreases thresholds@.len() - t,
    {
        let threshold = thresholds[t];
        let b_out = bipolar_cell(src[i], src[i + 1], src[i + 2], threshold);
        let hr_out = horizontal_cell(src[hrid], src[hrid + 1], src[hrid + 2], threshold);
        let hb_out = horizontal_cell(src[hbid], src[hbid + 1], src[hbid + 2], threshold);
        if 2 * b_out + hr_out + hb_out != 0 {
            assert(edge_at(src@, width as int, bytepp as int, i as int, thresholds@[t as int]));
            return true;
        }
        t += 1;
    }
    false
}

/// Edge detection on an RGB24/RGB32 image (`bytepp` bytes per pixel, `width` pixels per
/// row) for a set of brightness thresholds: each pixel is a bipolar cell and its right
/// and lower neighbours horizontal cells; where they disagree for some threshold, the
/// pixel is an edge. `out` receives the result, white background and black foreground:
/// the three colour bytes of each pixel become 0 on an edge and 255 elsewhere, and every
/// other byte of `out` keeps its value.
pub fn edge_detect_f(width: u32, bytepp: usize, src: &[u8], out: &mut [u8], thresholds: &[u8])
    requires
        edge_scan_ok(width, bytepp, src@.len() as int, old(out)@.len() as int),
    ensures
        final(out)@ == edge_image(src@, width as int, bytepp as int, thresholds@, old(out)@),
{
    let size = src.len();
    let ghost prev = out@;
    let mut i: usize = 0;
    let ghost mut k: int = 0;
    while i < size
        invariant
            size == src@.len(),
            edge_scan_ok(width, bytepp, size as int, prev.len() as int),
            0 <= k,
            i == k * bytepp,
            size > 0 ==> i <= last_pixel(size as int, bytepp as int) + bytepp,
            out@.len() == prev.len(),
            forall|j: int|
                0 <= j < prev.len() ==> #[trigger] out@[j] == (if j < i && j < size && j % (
                bytepp as int) < 3 {
                    if edge_for_some(src@, width as int, bytepp as int, j - j % (bytepp as int), thresholds@) {
                        0u8
                    } else {
                        255u8
                    }
                } else {
                    prev[j]
                }),
        decreases size + bytepp - i,
    {
        proof {
            lemma_pixel_start(k, bytepp as int, size as int);
        }
        let edge = pixel_is_edge(width, bytepp, src, thresholds, i, Ghost(k));
        let c: u8 = if edge {
            0
        } else {
            255
        };
        let ghost before = out@;
        out[i] = c;
        out[i + 1] = c;
        out[i + 2] = c;
        proof {
            assert forall|j: int| 0 <= j < prev.len() implies #[trigger] out@[j] == (if j < i
                + bytepp && j < size && j % (bytepp as int) < 3 {
                if edge_for_some(src@, width as int, bytepp as int, j - j % (bytepp as int), thresholds@) {
                    0u8
                } else {
                    255u8
                }
            } else {
                prev[j]
            }) by {
                if j < i {
                    lemma_before_pixel(k, bytepp as int, j);
                    vstd::arithmetic::div_mod::lemma_mod_pos_bound(j, bytepp as int);
                    assert(out@[j] == before[j]);
                } else if j < i + bytepp {
                    lemma_in_pixel(k, bytepp as int, j);
                } else {
                    assert(out@[j] == before[j]);
                }
            }
            assert((k + 1) * bytepp == i + bytepp) by (nonlinear_arith)
                requires
                    i == k * bytepp,
            ;
        }
        i += bytepp;
        proof {
            k = k + 1;
        }
    }
    proof {
        assert(out@ =~= edge_image(src@, width as int, bytepp as int, thresholds@, prev));
    }
}

/// `p` and `q` are 8-neighbours: distinct, at most one step apart in each direction.
pub open spec fn neighbours(p: (int, int), q: (int, int)) -> bool {
    &&& p != q
    &&& -1 <= p.0 - q.0 <= 1
    &&& -1 <= p.1 - q.1 <= 1
}

/// Each step of the contour goes to an 8-neighbour.
pub open spec fn chained(c: Seq<(int, int)>) -> bool {
    forall|k: int| 0 <= k < c.len() - 1 ==> neighbours(#[trigger] c[k], c[k + 1])
}

proof fn lemma_first_dir_found(g: Seq<Seq<bool>>, bx: int, by: int, s: int, k: int)
    ensures
        first_dir(g, bx, by, s, k) matches Some(d) ==> 0 <= d < 8 && set_at(
            g,
            bx + dir_dx(d),
            by + dir_dy(d),
        ),
    decreases 8 - k,
{
    if 0 <= k < 8 && !set_at(g, bx + dir_dx((s + k) % 8), by + dir_dy((s + k) % 8)) {
        lemma_first_dir_found(g, bx, by, s, k + 1);
    }
}

proof fn lemma_cleared_set_at(g: Seq<Seq<bool>>, x: int, y: int)
    requires
        0 <= y < g.len(),
        0 <= x < g[y].len(),
    ensures
        cleared(g, x, y).len() == g.len(),
        forall|yy: int| 0 <= yy < g.len() ==> #[trigger] cleared(g, x, y)[yy].len() == g[yy].len(),
        grid_width(cleared(g, x, y)) == grid_width(g),
        forall|px: int, py: int|
            #[trigger] set_at(cleared(g, x, y), px, py) <==> set_at(g, px, py) && (px, py) != (x, y),
{
    let c = cleared(g, x, y);
    assert forall|px: int, py: int|
        #[trigger] set_at(c, px, py) <==> set_at(g, px, py) && (px, py) != (x, y) by {
        if 0 <= py < g.len() && py != y {
            assert(c[py] == g[py]);
        }
    }
}

/// What following a contour gives: a chain of 8-neighbours starting next to the start
/// point, each point an edge point of the grid met once, and the grid with just those
/// points cleared.
proof fn lemma_follow(g: Seq<Seq<bool>>, bx: int, by: int, s: int)
    ensures
        ({
            let r = follow(g, bx, by, s);
            &&& r.0.len() > 0 ==> neighbours((bx, by), r.0[0])
            &&& chained(r.0)
            &&& r.0.no_duplicates()
            &&& forall|k: int| 0 <= k < r.0.len() ==> set_at(g, #[trigger] r.0[k].0, r.0[k].1)
            &&& r.1.len() == g.len()
            &&& forall|yy: int| 0 <= yy < g.len() ==> #[trigger] r.1[yy].len() == g[yy].len()
            &&& grid_width(r.1) == grid_width(g)
            &&& forall|px: int, py: int|
                #[trigger] set_at(r.1, px, py) <==> set_at(g, px, py) && !r.0.contains((px, py))
        }),
    decreases grid_count(g),
{
    lemma_first_dir_found(g, bx, by, s, 0);
    match first_dir(g, bx, by, s, 0) {
        None => {
            let r = follow(g, bx, by, s);
            assert(r.0 =~= seq![]);
        },
        Some(d) => {
            let nx = bx + dir_dx(d);
            let ny = by + dir_dy(d);
            let g1 = cleared(g, nx, ny);
            lemma_grid_clear(g, nx, ny);
            lemma_cleared_set_at(g, nx, ny);
            lemma_follow(g1, nx, ny, (d + 6) % 8);
            let rest = follow(g1, nx, ny, (d + 6) % 8);
            let r = follow(g, bx, by, s);
            assert(r.0 == seq![(nx, ny)] + rest.0);
            assert(r.1 == rest.1);
            assert(!set_at(g1, nx, ny));
            assert forall|k: int| 0 <= k < r.0.len() implies set_at(g, #[trigger] r.0[k].0, r.0[k].1) by {
                if k > 0 {
                    assert(r.0[k] == rest.0[k - 1]);
                }
            }
            assert(!rest.0.contains((nx, ny))) by {
                if rest.0.contains((nx, ny)) {
                    let k = choose|k: int| 0 <= k < rest.0.len() && rest.0[k] == (nx, ny);
                    assert(set_at(g1, rest.0[k].0, rest.0[k].1));
                }
            }
            assert forall|i: int, j: int| 0 <= i < r.0.len() && 0 <= j < r.0.len() && i != j implies r.0[i]
                != r.0[j] by {
                if i > 0 && j > 0 {
                    assert(r.0[i] == rest.0[i - 1]);
                    assert(r.0[j] == rest.0[j - 1]);
                } else if i == 0 {
                    assert(r.0[j] == rest.0[j - 1]);
                } else {
                    assert(r.0[i] == rest.0[i - 1]);
                }
            }
            assert forall|k: int| 0 <= k < r.0.len() - 1 implies neighbours(#[trigger] r.0[k], r.0[k + 1]) by {
                if k > 0 {
                    assert(r.0[k] == rest.0[k - 1]);
                    assert(r.0[k + 1] == rest.0[k]);
                } else {
                    assert(r.0[1] == rest.0[0]);
                }
            }
            assert forall|px: int, py: int|
                #[trigger] set_at(r.1, px, py) <==> set_at(g, px, py) && !r.0.contains((px, py)) by {
                if r.0.contains((px, py)) && (px, py) != (nx, ny) {
                    let k = choose|k: int| 0 <= k < r.0.len() && r.0[k] == (px, py);
                    assert(rest.0[k - 1] == (px, py));
                }
                if rest.0.contains((px, py)) {
                    let k = choose|k: int| 0 <= k < rest.0.len() && rest.0[k] == (px, py);
                    assert(r.0[k + 1] == (px, py));
                }
                assert(r.0[0] == (nx, ny));
            }
        },
    }
}

/// What scanning gives from (`x`, `y`) on, where no edge point before it is still set:
/// chains of 8-neighbours, no point met twice, and the points met are the edge points of
/// the grid inside its border.
proof fn lemma_scan(g: Seq<Seq<bool>>, w: int, h: int, x: int, y: int)
    requires
        w == grid_width(g),
        h == g.len(),
        1 <= x,
        1 <= y,
        forall|px: int, py: int| (px < x || (px == x && py < y)) ==> !#[trigger] set_at(g, px, py),
    ensures
        ({
            let cs = scan(g, w, h, x, y);
            &&& forall|i: int| 0 <= i < cs.len() ==> #[trigger] chained(cs[i])
            &&& forall|i: int| 0 <= i < cs.len() ==> #[trigger] cs[i].len() > 0
            &&& cs.flatten().no_duplicates()
            &&& forall|px: int, py: int| cs.flatten().contains((px, py)) <==> #[trigger] set_at(g, px, py)
        }),
    decreases w - x, h - y,
{
    let cs = scan(g, w, h, x, y);
    if x >= w - 1 {
        assert(cs =~= seq![]);
        assert(cs.flatten() =~= seq![]);
    } else if y >= h - 1 {
        lemma_scan(g, w, h, x + 1, 1);
    } else if set_at(g, x, y) {
        let g1 = cleared(g, x, y);
        lemma_cleared_set_at(g, x, y);
        lemma_follow(g1, x, y, 0);
        let t = follow(g1, x, y, 0);
        let c = seq![(x, y)] + t.0;
        assert forall|px: int, py: int| (px < x || (px == x && py < y + 1)) implies !#[trigger] set_at(
            t.1,
            px,
            py,
        ) by {
            if set_at(t.1, px, py) {
                assert(set_at(g1, px, py));
            }
        }
        lemma_scan(t.1, w, h, x, y + 1);
        let rest = scan(t.1, w, h, x, y + 1);
        assert(cs == seq![c] + rest);
        assert((seq![c] + rest).drop_first() =~= rest);
        assert(cs.flatten() == c + rest.flatten());
        assert(!t.0.contains((x, y))) by {
            if t.0.contains((x, y)) {
                let k = choose|k: int| 0 <= k < t.0.len() && t.0[k] == (x, y);
                assert(set_at(g1, t.0[k].0, t.0[k].1));
            }
        }
        assert forall|k: int| 0 <= k < c.len() - 1 implies neighbours(#[trigger] c[k], c[k + 1]) by {
            if k > 0 {
                assert(c[k] == t.0[k - 1]);
                assert(c[k + 1] == t.0[k]);
            } else {
                assert(c[1] == t.0[0]);
            }
        }
        assert forall|i: int| 0 <= i < cs.len() implies #[trigger] chained(cs[i]) && cs[i].len() > 0 by {
            if i > 0 {
                assert(cs[i] == rest[i - 1]);
            }
        }
        let f = c + rest.flatten();
        assert forall|px: int, py: int| f.contains((px, py)) <==> #[trigger] set_at(g, px, py) by {
            if set_at(g, px, py) {
                if (px, py) == (x, y) {
                    assert(f[0] == (x, y));
                } else if t.0.contains((px, py)) {
                    let k = choose|k: int| 0 <= k < t.0.len() && t.0[k] == (px, py);
                    assert(f[k + 1] == (px, py));
                } else {
                    assert(set_at(t.1, px, py));
                    assert(rest.flatten().contains((px, py)));
                    let k = choose|k: int| 0 <= k < rest.flatten().len() && rest.flatten()[k] == (px, py);
                    assert(f[c.len() + k] == (px, py));
                }
            }
            if f.contains((px, py)) {
                let k = choose|k: int| 0 <= k < f.len() && f[k] == (px, py);
                if k == 0 {
                } else if k < c.len() {
                    assert(t.0[k - 1] == (px, py));
                    assert(set_at(g1, px, py));
                } else {
                    assert(rest.flatten()[k - c.len()] == (px, py));
                    assert(rest.flatten().contains((px, py)));
                    assert(set_at(t.1, px, py));
                }
            }
        }
        assert forall|i: int, j: int| 0 <= i < f.len() && 0 <= j < f.len() && i != j implies f[i] != f[j] by {
            if i < c.len() && j < c.len() {
                if i > 0 && j > 0 {
                    assert(c[i] == t.0[i - 1] && c[j] == t.0[j - 1]);
                } else if i == 0 {
                    assert(c[j] == t.0[j - 1]);
                } else {
                    assert(c[i] == t.0[i - 1]);
                }
            } else if i >= c.len() && j >= c.len() {
                assert(f[i] == rest.flatten()[i - c.len()]);
                assert(f[j] == rest.flatten()[j - c.len()]);
            } else {
                let (a, b) = if i < c.len() {
                    (i, j)
                } else {
                    (j, i)
                };
                let q = f[b];
                assert(q == rest.flatten()[b - c.len()]);
                assert(rest.flatten().contains(q));
                assert(set_at(t.1, q.0, q.1));
                if a == 0 {
                    assert(!set_at(g1, x, y));
                } else {
                    assert(f[a] == t.0[a - 1]);
                    assert(t.0.contains(f[a]));
                }
            }
        }
    } else {
        lemma_scan(g, w, h, x, y + 1);
    }
}

/// The eight directions of the tracking are the eight steps to the 8-neighbours of a
/// point: each is a step to a neighbour, no two are the same, and every neighbour is
/// reached by one of them (the diagonal ones included).
pub proof fn law_directions_are_the_eight_neighbours()
    ensures
        forall|d: int| 0 <= d < 8 ==> neighbours((0, 0), (#[trigger] dir_dx(d), dir_dy(d))),
        forall|d1: int, d2: int|
            0 <= d1 < 8 && 0 <= d2 < 8 && d1 != d2 ==> (#[trigger] dir_dx(d1), dir_dy(d1)) != (
                #[trigger] dir_dx(d2),
                dir_dy(d2),
            ),
        forall|dx: int, dy: int|
            #[trigger] neighbours((0, 0), (dx, dy)) ==> exists|d: int|
                0 <= d < 8 && dir_dx(d) == dx && dir_dy(d) == dy,
{
    assert forall|dx: int, dy: int| #[trigger] neighbours((0, 0), (dx, dy)) implies exists|d: int|
        0 <= d < 8 && dir_dx(d) == dx && dir_dy(d) == dy by {
        let d = dir_of(dx, dy);
        assert(0 <= d < 8 && dir_dx(d) == dx && dir_dy(d) == dy);
    }
}

/// The direction whose step is (`dx`, `dy`), for a step to an 8-neighbour.
spec fn dir_of(dx: int, dy: int) -> int {
    if dx == 0 && dy == 1 {
        0
    } else if dx == 1 && dy == 1 {
        1
    } else if dx == 1 && dy == 0 {
        2
    } else if dx == 1 && dy == -1 {
        3
    } else if dx == 0 && dy == -1 {
        4
    } else if dx == -1 && dy == -1 {
        5
    } else if dx == -1 && dy == 0 {
        6
    } else {
        7
    }
}

/// Where the search for the next point finds nothing from try `k` on, none of the
/// directions tried is an edge point.
proof fn lemma_first_dir_none(g: Seq<Seq<bool>>, bx: int, by: int, s: int, k: int)
    requires
        0 <= k <= 8,
        first_dir(g, bx, by, s, k) is None,
    ensures
        forall|j: int|
            k <= j < 8 ==> !set_at(g, bx + dir_dx(#[trigger] ((s + j) % 8)), by + dir_dy((s + j) % 8)),
    decreases 8 - k,
{
    if k < 8 {
        lemma_first_dir_none(g, bx, by, s, k + 1);
    }
}

/// A contour stops only at a point with no edge point left around it: where an
/// 8-neighbour of the point reached (diagonal ones included) is still an edge point, the
/// contour goes on to a further point, itself an 8-neighbour of that point.
pub proof fn law_contour_stops_only_when_isolated(g: Seq<Seq<bool>>, bx: int, by: int, s: int, px: int, py: int)
    requires
        0 <= s < 8,
        neighbours((bx, by), (px, py)),
        set_at(g, px, py),
    ensures
        follow(g, bx, by, s).0.len() > 0,
        neighbours((bx, by), follow(g, bx, by, s).0[0]),
{
    lemma_first_dir_found(g, bx, by, s, 0);
    match first_dir(g, bx, by, s, 0) {
        Some(d) => {
            lemma_grid_clear(g, bx + dir_dx(d), by + dir_dy(d));
            assert(follow(g, bx, by, s).0[0] == (bx + dir_dx(d), by + dir_dy(d)));
        },
        None => {
            lemma_first_dir_none(g, bx, by, s, 0);
            let d = dir_of(px - bx, py - by);
            let j = if d >= s { d - s } else { d - s + 8 };
            assert((s + j) % 8 == d);
            assert(!set_at(g, bx + dir_dx((s + j) % 8), by + dir_dy((s + j) % 8)));
        },
    }
}

/// Edge tracking follows contours: each contour is a non-empty chain of 8-neighbours, no
/// point lies on two contours or twice on one, and the points of all contours are exactly
/// the edge points of the map inside its one-pixel border.
pub proof fn law_contours_partition_edges(g: Seq<Seq<bool>>)
    ensures
        ({
            let cs = scan(g, grid_width(g), g.len() as int, 1, 1);
            &&& forall|i: int| 0 <= i < cs.len() ==> #[trigger] chained(cs[i])
            &&& forall|i: int| 0 <= i < cs.len() ==> #[trigger] cs[i].len() > 0
            &&& cs.flatten().no_duplicates()
            &&& forall|px: int, py: int| cs.flatten().contains((px, py)) <==> #[trigger] set_at(g, px, py)
        }),
{
    lemma_scan(g, grid_width(g), g.len() as int, 1, 1);
}

} // verus!
