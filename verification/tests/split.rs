use lazydict::split::{block_at, split, split_filter, split_filter_checked, SplitInfo};

/// An edge map from rows of '1' (background) and '0' (edge point).
fn map(rows: &[&str]) -> (Vec<u16>, usize, usize) {
    let mut e = vec![];
    for r in rows {
        for c in r.chars() {
            e.push(if c == '1' { 1u16 } else { 0u16 });
        }
    }
    (e, rows[0].len(), rows.len())
}

fn blocks(v: &[SplitInfo]) -> Vec<(usize, usize, usize, usize)> {
    v.iter().map(|b| (b.left, b.top, b.width, b.height)).collect()
}

#[test]
fn split_info_new_keeps_fields() {
    let b = SplitInfo::new(1, 2, 3, 4);
    assert_eq!(b, SplitInfo { left: 1, top: 2, width: 3, height: 4 });
}

#[test]
fn split_two_squares_side_by_side() {
    let (mut e, w, h) = map(&["11111111", "10011001", "10011001", "11111111"]);
    let before = e.clone();
    let r = split_filter(0, 0, &mut e, w, h);
    assert_eq!(blocks(&r), vec![(1, 1, 2, 2), (5, 1, 2, 2)]);
    assert_eq!(e, before);
    let s = split(0, 0, &mut e, w, h);
    assert_eq!(blocks(&s), vec![(1, 1, 2, 2), (5, 1, 2, 2)]);
}

#[test]
fn split_offsets_by_the_parent_corner() {
    let (mut e, w, h) = map(&[
        "1111111111",
        "1001111001",
        "1001111001",
        "1001111001",
        "1111111111",
    ]);
    let r = split_filter(5, 7, &mut e, w, h);
    assert_eq!(blocks(&r), vec![(6, 8, 2, 3), (12, 8, 2, 3)]);
}

#[test]
fn split_all_background_gives_nothing() {
    let (mut e, w, h) = map(&["111", "111"]);
    assert!(split_filter(0, 0, &mut e, w, h).is_empty());
    assert!(split(0, 0, &mut e, w, h).is_empty());
}

#[test]
fn split_one_block_without_separators() {
    let (mut e, w, h) = map(&["1111", "1001", "1011", "1111"]);
    assert_eq!(blocks(&split_filter(0, 0, &mut e, w, h)), vec![(1, 1, 2, 2)]);
}

#[test]
fn split_three_dots_in_a_row() {
    let (mut e, w, h) = map(&["0111011110"]);
    let r = split_filter(0, 0, &mut e, w, h);
    assert_eq!(blocks(&r), vec![(0, 0, 1, 1), (4, 0, 1, 1), (9, 0, 1, 1)]);
}

#[test]
fn split_pattern_with_an_elongated_block_stays_whole() {
    let (mut e, w, h) = map(&[
        "111111111011",
        "111111111111",
        "111111111111",
        "001111111111",
        "111111111111",
        "111111111111",
        "111111111111",
        "111111111111",
        "111111111111",
        "111111111111",
        "111111111111",
    ]);
    assert_eq!(blocks(&split_filter(0, 0, &mut e, w, h)), vec![(0, 0, 10, 4)]);
    assert!(split(0, 0, &mut e, w, h).is_empty());
}

#[test]
fn split_pattern_of_regular_blocks_is_kept() {
    let (mut e, w, h) = map(&[
        "00111111", "00111111", "00111111", "11111100", "11111100", "11111111", "11111001",
        "11111000", "11111000",
    ]);
    let expected = vec![(0, 0, 2, 3), (6, 3, 2, 2), (5, 6, 3, 3)];
    assert_eq!(blocks(&split_filter(0, 0, &mut e, w, h)), expected);
    assert_eq!(blocks(&split(0, 0, &mut e, w, h)), expected);
}

#[test]
fn split_nested_patterns() {
    let (mut e, w, h) = map(&[
        "1111111", "1111111", "1111100", "1111100", "1111100", "0011111", "0011111", "0010000",
    ]);
    assert_eq!(blocks(&split_filter(0, 0, &mut e, w, h)), vec![(0, 5, 2, 3), (3, 2, 4, 6)]);
    assert_eq!(blocks(&split(0, 0, &mut e, w, h)), vec![(3, 2, 4, 6)]);
}

#[test]
fn split_merges_tall_neighbours() {
    let (mut e, w, h) = map(&["101111111010", "101011111010"]);
    assert_eq!(
        blocks(&split_filter(0, 0, &mut e, w, h)),
        vec![(1, 0, 1, 2), (3, 1, 1, 1), (9, 0, 3, 2)]
    );
    assert_eq!(blocks(&split(0, 0, &mut e, w, h)), vec![(9, 0, 3, 2)]);
}

#[test]
fn split_merges_inside_a_pattern() {
    let (mut e, w, h) = map(&[
        "111101100110",
        "111101100111",
        "111101100100",
        "111101100100",
        "111101100100",
        "111111100111",
        "111111111111",
        "111111111111",
        "111111111111",
        "111111100011",
    ]);
    assert_eq!(
        blocks(&split_filter(0, 0, &mut e, w, h)),
        vec![(4, 0, 5, 6), (11, 0, 1, 1), (10, 2, 2, 3), (7, 9, 3, 1)]
    );
    assert_eq!(blocks(&split(0, 0, &mut e, w, h)), vec![(4, 0, 5, 6)]);
}

#[test]
fn split_merge_and_elongated_pattern() {
    let (mut e, w, h) = map(&[
        "011111111",
        "111010111",
        "111010111",
        "111011111",
        "111011111",
        "111011111",
        "111011111",
        "111011111",
        "111011111",
        "111111111",
        "100111111",
        "100111000",
    ]);
    assert_eq!(
        blocks(&split_filter(0, 0, &mut e, w, h)),
        vec![(0, 0, 6, 3), (1, 10, 2, 2), (6, 11, 3, 1)]
    );
    assert_eq!(blocks(&split(0, 0, &mut e, w, h)), vec![(1, 10, 2, 2)]);
}

#[test]
fn split_all_features() {
    let (mut e, w, h) = map(&[
        "111111111111",
        "101111111001",
        "101111111001",
        "101111111001",
        "111111111001",
        "111111111001",
        "101111111001",
        "101111111111",
        "101111000100",
        "101111000100",
        "101111000100",
    ]);
    assert_eq!(
        blocks(&split_filter(0, 0, &mut e, w, h)),
        vec![(1, 1, 10, 6), (6, 8, 3, 3), (10, 8, 2, 3)]
    );
    assert_eq!(blocks(&split(0, 0, &mut e, w, h)), vec![(6, 8, 3, 3), (10, 8, 2, 3)]);
}

#[test]
fn split_filter_checked_refuses_a_merge_out_of_order() {
    let (e, w, h) = map(&[
        "1111111111",
        "1111110111",
        "1111110100",
        "1110111100",
        "1110111111",
        "1111111111",
        "1111111111",
        "1001111111",
    ]);
    assert_eq!(split_filter_checked(0, 0, &e, w, h), None);
}

#[test]
fn split_filter_checked_edge_sizes() {
    assert_eq!(split_filter_checked(0, 0, &[], 0, 0), None);
    assert_eq!(split_filter_checked(0, 0, &[], 0, 3), None);
    assert_eq!(split_filter_checked(0, 0, &[], 1, 0), Some(vec![]));
    assert_eq!(split_filter_checked(0, 0, &[], 2, 0), None);
    assert_eq!(
        split_filter_checked(3, 4, &[0], 1, 1),
        Some(vec![SplitInfo::new(3, 4, 1, 1)])
    );
}

#[test]
fn split_blocks_lie_inside_the_map() {
    let (e, w, h) = map(&[
        "111111111111",
        "101111111001",
        "101111111001",
        "101111111001",
        "111111111001",
        "111111111001",
        "101111111001",
        "101111111111",
        "101111000100",
        "101111000100",
        "101111000100",
    ]);
    let r = split_filter_checked(2, 3, &e, w, h).unwrap();
    for b in &r {
        assert!(b.left >= 2 && b.left + b.width <= 2 + w);
        assert!(b.top >= 3 && b.top + b.height <= 3 + h);
    }
}

#[test]
fn block_at_finds_the_first_block_holding_the_point() {
    let bs = vec![SplitInfo::new(0, 0, 4, 4), SplitInfo::new(2, 2, 4, 4)];
    assert_eq!(block_at(&bs, 10, 10, 13, 13), Some(0));
    assert_eq!(block_at(&bs, 10, 10, 15, 15), Some(1));
    // On an edge is not inside.
    assert_eq!(block_at(&bs, 10, 10, 10, 12), None);
    assert_eq!(block_at(&bs, 10, 10, 20, 20), None);
    assert_eq!(block_at(&[].to_vec(), 0, 0, 1, 1), None);
}
