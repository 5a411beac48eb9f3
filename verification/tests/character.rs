use lazydict::character::character_rect;

fn page(squares: &[(usize, usize, usize, usize)]) -> Vec<u8> {
    let mut img = vec![255u8; 200 * 200];
    for &(l, t, w, h) in squares {
        for r in t..t + h {
            for c in l..l + w {
                img[r * 200 + c] = 0;
            }
        }
    }
    img
}

#[test]
fn character_rect_finds_the_square_under_the_point() {
    let img = page(&[(100, 100, 20, 20)]);
    assert_eq!(character_rect(&img, 200, 128, 110, 110), Ok((99, 99, 21, 21)));
}

#[test]
fn character_rect_picks_the_block_that_holds_the_point() {
    let img = page(&[(90, 100, 15, 20), (115, 100, 15, 20)]);
    assert_eq!(character_rect(&img, 200, 128, 120, 110), Ok((114, 99, 16, 21)));
}

#[test]
fn character_rect_between_blocks_finds_none() {
    let img = page(&[(90, 100, 15, 20), (115, 100, 15, 20)]);
    assert_eq!(character_rect(&img, 200, 128, 110, 110), Err("没有匹配的区域"));
}

#[test]
fn character_rect_window_below_the_image() {
    let img = page(&[]);
    assert_eq!(character_rect(&img, 200, 128, 110, 150), Err("get_rect失败 03!"));
}

#[test]
fn character_rect_window_right_of_the_image() {
    let img = page(&[]);
    assert_eq!(character_rect(&img, 200, 128, 150, 110), Err("get_rect失败 02!"));
    assert_eq!(character_rect(&img, 0, 128, 150, 110), Err("get_rect失败 02!"));
}

#[test]
fn character_rect_blank_window_has_no_block() {
    let img = page(&[]);
    assert_eq!(character_rect(&img, 200, 128, 100, 100), Err("没有匹配的区域"));
}
