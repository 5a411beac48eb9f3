use lazydict::rotate::{rotate180, rotate270, rotate90};

// A 3 by 2 image (width 3, height 2), one byte triple per pixel:
//   a b c
//   d e f
fn image() -> Vec<u8> {
    vec![
        1, 1, 1, 2, 2, 2, 3, 3, 3, //
        4, 4, 4, 5, 5, 5, 6, 6, 6,
    ]
}

#[test]
fn rotate90_turns_clockwise() {
    let src = image();
    let mut out = vec![0u8; 18];
    let dims = rotate90(&src, &mut out, 3, 2);
    assert_eq!(dims, (2, 3));
    // d a / e b / f c
    assert_eq!(
        out,
        vec![4, 4, 4, 1, 1, 1, 5, 5, 5, 2, 2, 2, 6, 6, 6, 3, 3, 3]
    );
}

#[test]
fn rotate270_turns_counter_clockwise() {
    let src = image();
    let mut out = vec![0u8; 18];
    let dims = rotate270(&src, &mut out, 3, 2);
    assert_eq!(dims, (2, 3));
    // c f / b e / a d
    assert_eq!(
        out,
        vec![3, 3, 3, 6, 6, 6, 2, 2, 2, 5, 5, 5, 1, 1, 1, 4, 4, 4]
    );
}

#[test]
fn rotate180_turns_half() {
    let src = image();
    let mut out = vec![0u8; 18];
    let dims = rotate180(&src, &mut out, 3, 2);
    assert_eq!(dims, (3, 2));
    assert_eq!(
        out,
        vec![6, 6, 6, 5, 5, 5, 4, 4, 4, 3, 3, 3, 2, 2, 2, 1, 1, 1]
    );
}

#[test]
fn rotate90_then_270_gives_back_the_image() {
    let src = image();
    let mut turned = vec![0u8; 18];
    let (w, h) = rotate90(&src, &mut turned, 3, 2);
    let mut back = vec![0u8; 18];
    rotate270(&turned, &mut back, w, h);
    assert_eq!(back, src);
}

#[test]
fn rotate270_then_90_gives_back_the_image() {
    let src = image();
    let mut turned = vec![0u8; 18];
    let (w, h) = rotate270(&src, &mut turned, 3, 2);
    let mut back = vec![0u8; 18];
    rotate90(&turned, &mut back, w, h);
    assert_eq!(back, src);
}

#[test]
fn rotate90_twice_is_rotate180() {
    let src = image();
    let mut once = vec![0u8; 18];
    let (w, h) = rotate90(&src, &mut once, 3, 2);
    let mut twice = vec![0u8; 18];
    rotate90(&once, &mut twice, w, h);
    let mut half = vec![0u8; 18];
    rotate180(&src, &mut half, 3, 2);
    assert_eq!(twice, half);
}

#[test]
fn rotate180_twice_gives_back_the_image() {
    let src = image();
    let mut once = vec![0u8; 18];
    rotate180(&src, &mut once, 3, 2);
    let mut twice = vec![0u8; 18];
    rotate180(&once, &mut twice, 3, 2);
    assert_eq!(twice, src);
}

#[test]
fn rotate90_keeps_bytes_it_does_not_reach() {
    let src = vec![1u8, 2, 3];
    let mut out = vec![9u8; 6];
    let dims = rotate90(&src, &mut out, 1, 1);
    assert_eq!(dims, (1, 1));
    assert_eq!(out, vec![1, 2, 3, 9, 9, 9]);
}
