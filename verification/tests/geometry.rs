use textlines::geometry::{get_lines_stats, Line};

fn stats_of(pixels: Vec<(u32, u32)>) -> Line {
    let mut lines = get_lines_stats(vec![pixels]);
    assert_eq!(lines.len(), 1);
    lines.pop().unwrap()
}

#[test]
fn corners_cross_the_extreme_columns_and_rows() {
    // An L: the corners of its rectangle are no pixels of it.
    let pixels = vec![(2, 3), (2, 4), (2, 5), (3, 3), (4, 3), (5, 3)];
    let line = stats_of(pixels.clone());
    assert_eq!(line.pixels, pixels);
    assert_eq!(line.top_left, (2, 5));
    assert_eq!(line.top_right, (5, 5));
    assert_eq!(line.bottom_left, (2, 3));
    assert_eq!(line.bottom_right, (5, 3));
    assert_eq!(line.area, 12);
    assert_eq!(line.width(), 3);
    assert_eq!(line.height(), 2);
}

#[test]
fn a_single_pixel_has_area_one() {
    let line = stats_of(vec![(7, 9)]);
    assert_eq!(line.top_left, (7, 9));
    assert_eq!(line.top_right, (7, 9));
    assert_eq!(line.bottom_left, (7, 9));
    assert_eq!(line.bottom_right, (7, 9));
    assert_eq!(line.area, 1);
    assert_eq!(line.width(), 0);
    assert_eq!(line.height(), 0);
}

#[test]
fn extremes_beyond_99999_are_found() {
    let line = stats_of(vec![(200_000, 300_000), (200_004, 300_001)]);
    assert_eq!(line.top_left, (200_000, 300_001));
    assert_eq!(line.bottom_right, (200_004, 300_000));
    assert_eq!(line.area, 10);
}

#[test]
fn the_area_may_exceed_32_bits() {
    let line = stats_of(vec![(0, 0), (99_999, 99_999)]);
    assert_eq!(line.area, 10_000_000_000);
    let m = u32::MAX;
    let line = stats_of(vec![(0, 0), (m - 1, m - 1)]);
    assert_eq!(line.area, (m as u64) * (m as u64));
}

#[test]
fn the_order_of_the_pixels_does_not_change_the_rectangle() {
    let a = stats_of(vec![(1, 1), (4, 2), (2, 6), (3, 0)]);
    let b = stats_of(vec![(3, 0), (2, 6), (4, 2), (1, 1)]);
    assert_eq!((a.top_left, a.top_right, a.bottom_left, a.bottom_right, a.area),
        (b.top_left, b.top_right, b.bottom_left, b.bottom_right, b.area));
    assert_eq!(a.top_left, (1, 6));
    assert_eq!(a.bottom_right, (4, 0));
    assert_eq!(a.area, 28);
}

#[test]
fn clusters_keep_their_order() {
    let lines = get_lines_stats(vec![vec![(0, 0), (1, 0)], vec![(5, 5)], vec![(3, 1), (3, 4)]]);
    assert_eq!(lines.len(), 3);
    assert_eq!(lines[0].pixels, vec![(0, 0), (1, 0)]);
    assert_eq!(lines[0].area, 2);
    assert_eq!(lines[1].pixels, vec![(5, 5)]);
    assert_eq!(lines[1].area, 1);
    assert_eq!(lines[2].pixels, vec![(3, 1), (3, 4)]);
    assert_eq!(lines[2].area, 4);
    assert!(get_lines_stats(Vec::new()).is_empty());
}

#[test]
fn the_pixel_count_lies_between_one_and_the_area() {
    let clusters = vec![
        vec![(0, 0)],
        vec![(0, 0), (1, 1), (2, 2)],
        vec![(4, 4), (4, 5), (5, 4), (5, 5)],
        vec![(9, 1), (1, 9)],
    ];
    for line in get_lines_stats(clusters) {
        let expected = (line.top_right.0 - line.top_left.0 + 1) as u64
            * (line.top_left.1 - line.bottom_left.1 + 1) as u64;
        assert_eq!(line.area, expected);
        assert!(0 < line.pixels.len() as u64 && line.pixels.len() as u64 <= line.area);
    }
}

#[test]
fn a_line_built_by_hand_is_checked() {
    let good = stats_of(vec![(2, 3), (5, 4)]);
    assert!(good.is_well_formed());
    let line = |pixels: Vec<(u32, u32)>, left: u32, right: u32, bottom: u32, top: u32, area: u64| Line {
        pixels,
        top_left: (left, top),
        top_right: (right, top),
        bottom_left: (left, bottom),
        bottom_right: (right, bottom),
        area,
    };
    assert!(line(vec![(2, 3), (5, 4)], 2, 5, 3, 4, 8).is_well_formed());
    assert!(!line(vec![(2, 3), (5, 4)], 2, 5, 3, 4, 7).is_well_formed());
    assert!(!line(vec![(2, 3), (5, 4)], 1, 5, 3, 4, 10).is_well_formed());
    assert!(!line(vec![(2, 3), (5, 4)], 3, 5, 3, 4, 6).is_well_formed());
    assert!(!line(vec![(2, 3), (5, 4)], 2, 5, 3, 5, 12).is_well_formed());
    assert!(!line(Vec::new(), 0, 0, 0, 0, 1).is_well_formed());
    let mut skewed = stats_of(vec![(2, 3), (5, 4)]);
    skewed.bottom_right = (5, 2);
    assert!(!skewed.is_well_formed());
}

#[test]
fn a_line_as_a_whole() {
    assert_eq!(
        stats_of(vec![(3, 7), (1, 8), (2, 2)]),
        Line {
            pixels: vec![(3, 7), (1, 8), (2, 2)],
            top_left: (1, 8),
            top_right: (3, 8),
            bottom_left: (1, 2),
            bottom_right: (3, 2),
            area: 21,
        }
    );
}
