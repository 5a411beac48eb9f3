use lazydict::edges::{binary, edge_detect_gray};

#[test]
fn edge_detect_gray_marks_changes() {
    let grays = [10u8, 200, 10, 200, 10, 200];
    let mut out = [1u16; 6];
    edge_detect_gray(&grays, &mut out, 3, 100);
    assert_eq!(out, [0, 0, 0, 1, 1, 1]);
}

#[test]
fn edge_detect_gray_keeps_flat_areas() {
    let grays = [200u8; 9];
    let mut out = [1u16; 9];
    edge_detect_gray(&grays, &mut out, 3, 100);
    assert_eq!(out, [1u16; 9]);
    let dark = [5u8; 9];
    edge_detect_gray(&dark, &mut out, 3, 100);
    assert_eq!(out, [1u16; 9]);
}

#[test]
fn edge_detect_gray_threshold_is_inclusive() {
    // 100 counts as bright: a bright pixel with bright neighbours is no edge.
    let grays = [100u8, 100, 100, 100];
    let mut out = [1u16; 4];
    edge_detect_gray(&grays, &mut out, 2, 100);
    assert_eq!(out, [1, 1, 1, 1]);
    let grays = [100u8, 99, 99, 99];
    edge_detect_gray(&grays, &mut out, 2, 100);
    assert_eq!(out, [0, 1, 1, 1]);
}

#[test]
fn binary_black_on_white() {
    let grays = [200u8, 10, 100];
    let mut out = [7u8; 12];
    binary(&grays, &mut out, 4, 100);
    assert_eq!(out, [0, 0, 0, 7, 255, 255, 255, 7, 0, 0, 0, 7]);
}

#[test]
fn binary_three_bytes_a_pixel() {
    let grays = [0u8, 255];
    let mut out = [1u8; 6];
    binary(&grays, &mut out, 3, 128);
    assert_eq!(out, [255, 255, 255, 0, 0, 0]);
}

#[test]
fn binary_colours_are_black_or_white() {
    let grays = [0u8, 50, 99, 100, 101, 255];
    let mut out = [42u8; 24];
    binary(&grays, &mut out, 4, 100);
    for (j, b) in out.iter().enumerate() {
        if j % 4 < 3 {
            assert!(*b == 0 || *b == 255);
        } else {
            assert_eq!(*b, 42);
        }
    }
}
