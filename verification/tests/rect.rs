use lazydict::rect::{fill_rect, get_argb_rect_rgb, get_rect, stroke_rect, Rect};

fn rows(buf: &[u8], width: usize) -> Vec<Vec<u8>> {
    buf.chunks(width).map(|r| r.to_vec()).collect()
}

#[test]
fn rect_new_keeps_fields() {
    let r = Rect::new(1, 2, 3, 4);
    assert_eq!((r.left, r.top, r.width, r.height), (1, 2, 3, 4));
}

#[test]
fn fill_rect_paints_the_pixels() {
    let mut buf = vec![0u8; 4 * 3 * 3];
    let res = fill_rect(&mut buf, 4, &Rect::new(2, 2, 2, 1), &[9, 8, 7], 3);
    assert_eq!(res, Ok(()));
    let mut expected = vec![0u8; 36];
    expected[15..21].copy_from_slice(&[9, 8, 7, 9, 8, 7]);
    assert_eq!(buf, expected);
}

#[test]
fn fill_rect_rows_outside() {
    let mut buf = vec![0u8; 36];
    let res = fill_rect(&mut buf, 4, &Rect::new(1, 4, 1, 1), &[1, 1, 1], 3);
    assert_eq!(res, Err("fill_rect失败 03!".to_string()));
    assert_eq!(buf, vec![0u8; 36]);
}

#[test]
fn fill_rect_columns_outside() {
    let mut buf = vec![0u8; 36];
    let res = fill_rect(&mut buf, 4, &Rect::new(4, 1, 2, 1), &[1, 1, 1], 3);
    assert_eq!(res, Err("fill_rect失败 02!".to_string()));
    assert_eq!(buf, vec![0u8; 36]);
}

#[test]
fn get_rect_copies_the_pixels() {
    let buf: Vec<u8> = (0u8..12).collect();
    // 4 by 3 image of one byte per pixel; the 2 by 2 block at column 2, row 2.
    let res = get_rect(&buf, 4, &Rect::new(2, 2, 2, 2), 1);
    assert_eq!(res, Ok(vec![5, 6, 9, 10]));
}

#[test]
fn get_rect_errors() {
    let buf: Vec<u8> = (0u8..12).collect();
    assert_eq!(get_rect(&buf, 4, &Rect::new(1, 3, 1, 2), 1), Err("get_rect失败 03!"));
    assert_eq!(get_rect(&buf, 4, &Rect::new(4, 1, 2, 1), 1), Err("get_rect失败 02!"));
}

#[test]
fn get_rect_empty_rect() {
    let buf: Vec<u8> = (0u8..12).collect();
    assert_eq!(get_rect(&buf, 4, &Rect::new(1, 1, 0, 0), 1), Ok(vec![]));
}

#[test]
fn get_argb_rect_rgb_adds_alpha() {
    // 2 by 2 RGB image.
    let buf = vec![1u8, 2, 3, 4, 5, 6, 7, 8, 9, 10, 11, 12];
    let res = get_argb_rect_rgb(&buf, 2, &Rect::new(2, 1, 1, 2));
    assert_eq!(res, Ok(vec![4, 5, 6, 255, 10, 11, 12, 255]));
}

#[test]
fn get_argb_rect_rgb_errors() {
    let buf = vec![0u8; 12];
    assert_eq!(
        get_argb_rect_rgb(&buf, 2, &Rect::new(1, 2, 1, 2)),
        Err("get_argb_rect_rgb失败 03!")
    );
    assert_eq!(
        get_argb_rect_rgb(&buf, 2, &Rect::new(2, 1, 2, 1)),
        Err("get_argb_rect_rgb失败 02!")
    );
}

#[test]
fn stroke_rect_thin_frame() {
    let mut buf = vec![0u8; 30];
    let res = stroke_rect(&mut buf, 6, &Rect::new(2, 2, 4, 3), &[7], 1, 1);
    assert_eq!(res, Ok(()));
    assert_eq!(
        rows(&buf, 6),
        vec![
            vec![0, 0, 0, 0, 0, 0],
            vec![0, 7, 7, 7, 7, 7],
            vec![0, 7, 0, 0, 0, 7],
            vec![0, 7, 0, 0, 0, 7],
            vec![0, 7, 7, 7, 7, 0],
        ]
    );
}

#[test]
fn stroke_rect_thick_frame() {
    let mut buf = vec![0u8; 30];
    let res = stroke_rect(&mut buf, 6, &Rect::new(2, 2, 4, 3), &[7], 2, 1);
    assert_eq!(res, Ok(()));
    assert_eq!(
        rows(&buf, 6),
        vec![
            vec![7, 7, 7, 7, 7, 7],
            vec![7, 7, 7, 7, 7, 7],
            vec![7, 7, 0, 0, 7, 7],
            vec![7, 7, 7, 7, 7, 7],
            vec![7, 7, 7, 7, 7, 7],
        ]
    );
}

#[test]
fn stroke_rect_fails_below_and_keeps_the_top_line() {
    let mut buf = vec![0u8; 30];
    let res = stroke_rect(&mut buf, 6, &Rect::new(2, 4, 4, 3), &[7], 1, 1);
    assert_eq!(res, Err("fill_rect失败 03!".to_string()));
    assert_eq!(
        rows(&buf, 6),
        vec![
            vec![0, 0, 0, 0, 0, 0],
            vec![0, 0, 0, 0, 0, 0],
            vec![0, 0, 0, 0, 0, 0],
            vec![0, 7, 7, 7, 7, 0],
            vec![0, 0, 0, 0, 0, 0],
        ]
    );
}

#[test]
fn get_rect_after_fill_rect_reads_the_colour() {
    let mut buf: Vec<u8> = (0u8..60).collect();
    let rect = Rect::new(2, 2, 3, 2);
    assert_eq!(fill_rect(&mut buf, 5, &rect, &[1, 2, 3, 4], 3), Ok(()));
    let got = get_rect(&buf, 5, &rect, 3).unwrap();
    assert_eq!(got, [1u8, 2, 3].repeat(6));
}

#[test]
fn argb_rect_is_rgb_rect_with_alpha() {
    let buf: Vec<u8> = (0..36u8).collect(); // 4 by 3 pixels of three bytes
    for (l, t, w, h) in [(1, 1, 4, 3), (2, 2, 2, 2), (4, 3, 1, 1), (3, 1, 3, 1), (1, 3, 1, 2)] {
        let r = Rect::new(l, t, w, h);
        let rgb = get_rect(&buf, 4, &r, 3);
        let rgba = get_argb_rect_rgb(&buf, 4, &r);
        assert_eq!(rgb.is_ok(), rgba.is_ok());
        if let (Ok(u), Ok(v)) = (rgb, rgba) {
            assert_eq!(v.len(), u.len() / 3 * 4);
            for p in 0..u.len() / 3 {
                assert_eq!(&v[4 * p..4 * p + 3], &u[3 * p..3 * p + 3]);
                assert_eq!(v[4 * p + 3], 255);
            }
        }
    }
}
