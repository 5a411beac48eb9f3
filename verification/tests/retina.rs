use lazydict::retina::{edge_detect_f, edge_track, EdgePoints, Point};

fn grid(rows: &[&str]) -> Vec<Vec<bool>> {
    rows.iter().map(|r| r.chars().map(|c| c == '1').collect()).collect()
}

fn coords(contours: &[Vec<Point>]) -> Vec<Vec<(i16, i16)>> {
    contours.iter().map(|c| c.iter().map(|p| (p.x, p.y)).collect()).collect()
}

#[test]
fn point_constructors() {
    let p = Point::new(3, -4);
    assert_eq!((p.x, p.y), (3, -4));
    let q = Point::from_usize(7, 65536 + 9);
    assert_eq!((q.x, q.y), (7, 9));
    let r = p.clone();
    assert_eq!((r.x, r.y), (3, -4));
}

#[test]
fn edge_points_of_a_grid() {
    let mut g = grid(&["010", "001"]);
    assert_eq!(g.width(), 3);
    assert_eq!(g.height(), 2);
    assert_eq!(g.widthi(), 3);
    assert_eq!(g.heighti(), 2);
    assert!(*g.at(1, 0));
    assert!(*g.atu(2, 1));
    *g.at(1, 0) = false;
    assert!(!*g.atu(1, 0));
    let empty: Vec<Vec<bool>> = vec![];
    assert_eq!(empty.width(), 0);
    assert_eq!(empty.widthi(), 0);
}

#[test]
fn edge_track_follows_a_square() {
    let contours = edge_track(grid(&["00000", "01110", "01010", "01110", "00000"]));
    assert_eq!(
        coords(&contours),
        vec![vec![(1, 1), (1, 2), (1, 3), (2, 3), (3, 3), (3, 2), (3, 1), (2, 1)]]
    );
}

#[test]
fn edge_track_separate_contours() {
    let contours = edge_track(grid(&["000000", "011000", "000000", "000110", "000000"]));
    assert_eq!(coords(&contours), vec![vec![(1, 1), (2, 1)], vec![(3, 3), (4, 3)]]);
}

#[test]
fn edge_track_ignores_the_border() {
    let contours = edge_track(grid(&["111", "111", "111"]));
    assert_eq!(coords(&contours), vec![vec![(1, 1)]]);
    let contours = edge_track(grid(&["1111", "1111", "1111", "1111"]));
    assert_eq!(coords(&contours), vec![vec![(1, 1), (1, 2), (2, 2), (2, 1)]]);
}

#[test]
fn edge_track_small_grids_have_no_contour() {
    assert!(edge_track(grid(&["1"])).is_empty());
    assert!(edge_track(grid(&["11", "11"])).is_empty());
}

#[test]
fn edge_track_neighbours_follow_each_other() {
    let contours = edge_track(grid(&[
        "0000000", "0110110", "0100010", "0111110", "0000000",
    ]));
    for c in &contours {
        for w in c.windows(2) {
            let (dx, dy) = ((w[1].x - w[0].x).abs(), (w[1].y - w[0].y).abs());
            assert!(dx <= 1 && dy <= 1 && dx + dy > 0);
        }
    }
    let total: usize = contours.iter().map(|c| c.len()).sum();
    assert_eq!(total, 11);
    assert_eq!(contours.len(), 2);
}

#[test]
fn edge_detect_f_marks_edges_black_on_white() {
    // brightness: 123.8, 48.2 / 250, 0
    let src = [10u8, 200, 30, 40, 50, 60, 250, 250, 250, 0, 0, 0];
    let mut out = [5u8; 12];
    edge_detect_f(2, 3, &src, &mut out, &[0, 100, 255]);
    assert_eq!(out, [0, 0, 0, 0, 0, 0, 255, 255, 255, 255, 255, 255]);
}

#[test]
fn edge_detect_f_keeps_fourth_byte_and_tail() {
    let src = [255u8, 255, 255, 9, 0, 0, 0, 7];
    let mut out = [1u8; 10];
    edge_detect_f(1, 4, &src, &mut out, &[128]);
    assert_eq!(out, [0, 0, 0, 1, 255, 255, 255, 1, 1, 1]);
}

#[test]
fn edge_detect_f_without_thresholds_is_all_white() {
    let src = [255u8, 255, 255, 0, 0, 0];
    let mut out = [7u8; 6];
    edge_detect_f(1, 3, &src, &mut out, &[]);
    assert_eq!(out, [255u8; 6]);
}

#[test]
fn edge_detect_f_on_empty_image_writes_nothing() {
    let mut out = [5u8; 4];
    edge_detect_f(2, 3, &[], &mut out, &[1]);
    assert_eq!(out, [5u8; 4]);
}

#[test]
fn edge_track_meets_each_edge_point_once() {
    let rows = [
        "00000000", "01101100", "01000110", "00111010", "01000010", "00000000",
    ];
    let g = grid(&rows);
    let contours = edge_track(g.clone());
    let mut seen: Vec<(i16, i16)> = coords(&contours).concat();
    let n = seen.len();
    seen.sort();
    seen.dedup();
    assert_eq!(seen.len(), n);
    let mut inside = vec![];
    for x in 1..7i16 {
        for y in 1..5i16 {
            if g[y as usize][x as usize] {
                inside.push((x, y));
            }
        }
    }
    inside.sort();
    assert_eq!(seen, inside);
}
