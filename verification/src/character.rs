use crate::edges::edge_detect_gray;
use crate::rect::{get_rect, Rect, RectCheck};
use crate::split::{block_at, split, split_filter_checked, SplitInfo};
use vstd::prelude::*;

verus! {

/// Side of the square window around a touched point in which characters are looked for.
pub const WINDOW: usize = 160;

/// The window around the point (`x`, `y`): `WINDOW` pixels square, its corner 80 pixels up
/// and to the left of the point, as a rectangle whose row and column count from 1.
pub open spec fn char_window(x: int, y: int) -> Rect {
    Rect { left: (x - 79) as usize, top: (y - 79) as usize, width: 160, height: 160 }
}

/// The edge map of a gray image `width` pixels wide: 0 at each edge pixel (see
/// `is_edge`), 1 for the background.
pub open spec fn edge_map(gray: Seq<u8>, width: int, threshold: u8) -> Seq<u16> {
    Seq::new(gray.len(), |i: int| if crate::edges::is_edge(gray, width, threshold, i) { 0u16 } else { 1u16 })
}

/// The blocks found in the window around (`x`, `y`) of a gray image `width` pixels wide:
/// the window's edge map split into blocks (see `filter_grid`), of which those of a
/// regular shape and size are kept (see `even_blocks`); `None` where the edge map cannot
/// be split.
pub open spec fn window_blocks(gray: Seq<u8>, width: int, threshold: u8, x: int, y: int) -> Option<
    Seq<SplitInfo>,
> {
    let win = crate::rect::rect_bytes(gray, width, char_window(x, y), 1);
    match crate::split::filter_grid(
        0,
        0,
        crate::split::rows_of(edge_map(win, 160, threshold), 160, 160),
        160,
        160,
    ) {
        Some(found) => Some(crate::split::even_blocks(found)),
        None => None,
    }
}

/// The blocks the splitting finds in the window around (`x`, `y`), before those of an
/// irregular shape or size are dropped; `None` where the edge map cannot be split.
pub open spec fn window_found(gray: Seq<u8>, width: int, threshold: u8, x: int, y: int) -> Option<
    Seq<SplitInfo>,
> {
    crate::split::filter_grid(
        0,
        0,
        crate::split::rows_of(
            edge_map(crate::rect::rect_bytes(gray, width, char_window(x, y), 1), 160, threshold),
            160,
            160,
        ),
        160,
        160,
    )
}

/// The block placed in the image: its corner moved by the window's corner.
pub open spec fn placed(b: SplitInfo, x: int, y: int) -> (usize, usize, usize, usize) {
    ((x - 80 + b.left) as usize, (y - 80 + b.top) as usize, b.width, b.height)
}

/// The character under the point (`x`, `y`) of a gray image `width` pixels wide, as
/// (left, top, width, height) in the image: the window around the point is cut out,
/// its edges are found with `threshold`, the edge map is split into blocks, and the first
/// block that holds the point strictly inside is returned. Blocks of an irregular shape or
/// size are never returned: the block is one the splitting found in the window, it is
/// not elongated, and its area is at least two thirds of the mean area of the found
/// blocks that are not elongated (rounded down). The errors: the window's rows
/// or columns fall outside the image, the edge map cannot be split, or no block holds
/// the point.
pub fn character_rect<'a>(gray: &[u8], width: usize, threshold: u8, x: i32, y: i32) -> (res: Result<
    (usize, usize, usize, usize),
    &'a str,
>)
    requires
        80 <= x,
        80 <= y,
    ensures
        res matches Ok(r) ==> window_found(gray@, width as int, threshold, x as int, y as int) is Some
            && exists|b: SplitInfo|
            #[trigger] window_found(gray@, width as int, threshold, x as int, y as int).unwrap().contains(
                b,
            ) && !(5 * b.height > 8 * b.width || 5 * b.width > 8 * b.height) && b.width * b.height >= (2
                * crate::split::area_sum(
                window_found(gray@, width as int, threshold, x as int, y as int).unwrap().filter(
                    crate::split::regular(),
                ),
            )) / (3 * window_found(gray@, width as int, threshold, x as int, y as int).unwrap().filter(
                crate::split::regular(),
            ).len() as int) && crate::split::holds_point(b, x - 80, y - 80, x as int, y as int)
                && r == placed(b, x as int, y as int),
        match crate::rect::rect_check(gray@.len() as int, width as int, char_window(x as int, y as int), 1) {
            RectCheck::RowsOutside => res matches Err(e) && e@ == "get_rect失败 03!"@,
            RectCheck::ColumnsOutside => res matches Err(e) && e@ == "get_rect失败 02!"@,
            RectCheck::Inside => match window_blocks(gray@, width as int, threshold, x as int, y as int) {
                None => res matches Err(e) && e@ == "无法分割文字块"@,
                Some(blocks) => match res {
                    Ok(r) => exists|k: int|
                        0 <= k < blocks.len() && crate::split::holds_point(
                            #[trigger] blocks[k],
                            x - 80,
                            y - 80,
                            x as int,
                            y as int,
                        ) && (forall|j: int|
                            0 <= j < k ==> !crate::split::holds_point(
                                #[trigger] blocks[j],
                                x - 80,
                                y - 80,
                                x as int,
                                y as int,
                            )) && r == placed(blocks[k], x as int, y as int),
                    Err(e) => e@ == "没有匹配的区域"@ && forall|j: int|
                        0 <= j < blocks.len() ==> !crate::split::holds_point(
                            #[trigger] blocks[j],
                            x - 80,
                            y - 80,
                            x as int,
                            y as int,
                        ),
                },
            },
        },
{
    let ghost win = char_window(x as int, y as int);
    let glen = gray.len();
    let left = (x as usize) - 80;
    let top = (y as usize) - 80;
    if width == 0 {
        return Err("get_rect失败 02!");
    }
    let far = (y as usize) + 80;
    assert(crate::rect::rect_end(width as int, win, 1) == width * far) by (nonlinear_arith)
        requires
            win.top == far - 159,
            win.height == 160,
            far >= 160,
    ;
    match width.checked_mul(far) {
        None => {
            assert(crate::rect::rect_check(gray@.len() as int, width as int, win, 1) is RowsOutside);
            return Err("get_rect失败 03!");
        },
        Some(_) => {},
    }
    assert(0 <= crate::rect::rect_start(width as int, win, 1) <= width * far) by (nonlinear_arith)
        requires
            crate::rect::rect_start(width as int, win, 1) == (width * 1) * (far - 160),
            far >= 160,
    ;
    let rect = Rect::new(left + 1, top + 1, WINDOW, WINDOW);
    assert(rect == win);
    let window = match get_rect(gray, width, &rect, 1) {
        Ok(v) => v,
        Err(e) => {
            return Err(e);
        },
    };
    assert(window@.len() == 25600) by (nonlinear_arith)
        requires
            window@.len() == 160 * (160 * 1),
    ;
    let mut edges: Vec<u16> = Vec::new();
    let mut i: usize = 0;
    while i < 25600
        invariant
            i <= 25600,
            edges@ == Seq::new(i as nat, |j: int| 1u16),
        decreases 25600 - i,
    {
        edges.push(1);
        i += 1;
        assert(edges@ =~= Seq::new(i as nat, |j: int| 1u16));
    }
    edge_detect_gray(window.as_slice(), edges.as_mut_slice(), WINDOW, threshold);
    let ghost emap = edge_map(window@, 160, threshold);
    assert(edges@ =~= emap);
    let found = match split_filter_checked(0, 0, edges.as_slice(), WINDOW, WINDOW) {
        Some(f) => f,
        None => {
            return Err("无法分割文字块");
        },
    };
    let blocks = split(0, 0, edges.as_mut_slice(), WINDOW, WINDOW);
    assert(crate::rect::rect_check(gray@.len() as int, width as int, win, 1) is Inside);
    assert(window_blocks(gray@, width as int, threshold, x as int, y as int) == Some(blocks@));
    proof {
        crate::split::law_split_keeps_found_blocks(found@);
    }
    match block_at(&blocks, left, top, x, y) {
        Some(k) => {
            let b: SplitInfo = blocks[k];
            proof {
                let kk = k as int;
                assert(found@.contains(blocks@[kk]));
                let j = choose|j: int| 0 <= j < found@.len() && found@[j] == blocks@[kk];
                assert(crate::split::inside(found@[j], 0, 0, 160, 160));
                assert(crate::split::holds_point(blocks@[kk], x - 80, y - 80, x as int, y as int));
            }
            let r = (left + b.left, top + b.top, b.width, b.height);
            proof {
                let wb = window_blocks(gray@, width as int, threshold, x as int, y as int).unwrap();
                assert(wb[k as int] == blocks@[k as int]);
                assert(r == placed(wb[k as int], x as int, y as int));
            }
            Ok(r)
        },
        None => Err("没有匹配的区域"),
    }
}

} // verus!
