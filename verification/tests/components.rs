use textlines::bitmap::Bitmap;
use textlines::components::{get_lines, get_surrounding_pixels};

fn gray_map(width: u32, height: u32, value: impl Fn(u32, u32) -> u8) -> Bitmap {
    let mut samples = Vec::new();
    for y in 0..height {
        for x in 0..width {
            let v = value(x, y);
            samples.extend_from_slice(&[v, v, v]);
        }
    }
    Bitmap::from_raw(width, height, samples).unwrap()
}

fn sorted(mut points: Vec<(u32, u32)>) -> Vec<(u32, u32)> {
    points.sort();
    points
}

#[test]
fn surrounding_pixels_of_an_inner_pixel() {
    assert_eq!(
        get_surrounding_pixels(1, 1, 3, 3),
        vec![(0, 0), (0, 1), (0, 2), (1, 0), (1, 2), (2, 0), (2, 1), (2, 2)]
    );
}

#[test]
fn surrounding_pixels_at_the_corners() {
    assert_eq!(get_surrounding_pixels(0, 0, 3, 3), vec![(0, 1), (1, 0), (1, 1)]);
    assert_eq!(get_surrounding_pixels(2, 2, 3, 3), vec![(1, 1), (1, 2), (2, 1)]);
    assert_eq!(get_surrounding_pixels(0, 2, 3, 3), vec![(0, 1), (1, 1), (1, 2)]);
}

#[test]
fn surrounding_pixels_on_an_edge() {
    assert_eq!(get_surrounding_pixels(0, 1, 3, 3), vec![(0, 0), (0, 2), (1, 0), (1, 1), (1, 2)]);
}

#[test]
fn surrounding_pixels_in_tiny_grids() {
    assert_eq!(get_surrounding_pixels(0, 0, 1, 1), Vec::<(u32, u32)>::new());
    assert_eq!(get_surrounding_pixels(0, 0, 0, 0), Vec::<(u32, u32)>::new());
    assert_eq!(get_surrounding_pixels(0, 0, 2, 1), vec![(1, 0)]);
    assert_eq!(get_surrounding_pixels(0, 1, 1, 3), vec![(0, 0), (0, 2)]);
}

#[test]
fn surrounding_pixels_at_the_largest_coordinates() {
    let m = u32::MAX;
    assert_eq!(
        get_surrounding_pixels(m - 1, m - 1, m, m),
        vec![(m - 2, m - 2), (m - 2, m - 1), (m - 1, m - 2)]
    );
    assert_eq!(get_surrounding_pixels(m, m, m, m), vec![(m - 1, m - 1)]);
}

#[test]
fn a_square_of_nine_pixels_is_one_cluster() {
    let mut map = gray_map(10, 10, |x, y| if (3..6).contains(&x) && (4..7).contains(&y) { 255 } else { 0 });
    let lines = get_lines(&mut map, 15);
    assert_eq!(lines.len(), 1);
    assert_eq!(lines[0].len(), 9);
    assert_eq!(lines[0][0], (3, 4));
    let mut expected = Vec::new();
    for x in 3..6 {
        for y in 4..7 {
            expected.push((x, y));
        }
    }
    assert_eq!(sorted(lines[0].clone()), expected);
    assert_eq!(map.into_raw(), vec![0u8; 300]);
}

#[test]
fn pixels_below_the_threshold_are_untouched() {
    let value = |x: u32, y: u32| -> u8 {
        if y == 1 && x < 6 {
            200
        } else if y == 3 {
            14
        } else {
            (x % 3) as u8
        }
    };
    let mut map = gray_map(8, 5, value);
    let lines = get_lines(&mut map, 15);
    assert_eq!(lines.len(), 1);
    assert_eq!(sorted(lines[0].clone()), vec![(0, 1), (1, 1), (2, 1), (3, 1), (4, 1), (5, 1)]);
    for y in 0..5 {
        for x in 0..8 {
            let v = value(x, y);
            let expected = if v >= 15 { (0, 0, 0) } else { (v, v, v) };
            assert_eq!(map.get_pixel(x, y), Some(expected));
        }
    }
}

#[test]
fn only_the_first_channel_decides() {
    let mut samples = vec![0u8; 3 * 6];
    for x in 0..6 {
        samples[3 * x + 1] = 255;
        samples[3 * x + 2] = 255;
    }
    let mut map = Bitmap::from_raw(6, 1, samples.clone()).unwrap();
    assert!(get_lines(&mut map, 1).is_empty());
    assert_eq!(map.into_raw(), samples);
}

#[test]
fn a_pixel_at_the_threshold_counts() {
    let mut map = gray_map(6, 1, |_, _| 15);
    let lines = get_lines(&mut map, 15);
    assert_eq!(lines.len(), 1);
    assert_eq!(lines[0].len(), 6);
    let mut map = gray_map(6, 1, |_, _| 14);
    assert!(get_lines(&mut map, 15).is_empty());
}

#[test]
fn a_single_pixel_in_the_corner_is_discarded() {
    for threshold in [1u8, 15, 200, 255] {
        let mut map = gray_map(6, 6, |x, y| if (x, y) == (0, 0) { 255 } else { 0 });
        let lines = get_lines(&mut map, threshold);
        assert!(lines.is_empty());
        assert_eq!(map.into_raw(), vec![0u8; 108]);
    }
}

#[test]
fn a_cluster_of_four_is_discarded_and_one_of_five_is_kept() {
    let mut map = gray_map(10, 3, |x, y| if y == 1 && x < 4 { 99 } else { 0 });
    assert!(get_lines(&mut map, 50).is_empty());
    assert_eq!(map.into_raw(), vec![0u8; 90]);
    let mut map = gray_map(10, 3, |x, y| if y == 1 && x < 5 { 99 } else { 0 });
    let lines = get_lines(&mut map, 50);
    assert_eq!(lines.len(), 1);
    assert_eq!(lines[0].len(), 5);
}

#[test]
fn pixels_that_touch_at_a_corner_are_one_cluster() {
    let mut map = gray_map(6, 6, |x, y| if x == y { 80 } else { 0 });
    let lines = get_lines(&mut map, 80);
    assert_eq!(lines.len(), 1);
    assert_eq!(sorted(lines[0].clone()), vec![(0, 0), (1, 1), (2, 2), (3, 3), (4, 4), (5, 5)]);
}

#[test]
fn clusters_are_disjoint_and_come_in_scan_order() {
    // Three bars of five, six and three pixels in rows 5, 0 and 2; columns are scanned first.
    let value = |x: u32, y: u32| -> u8 {
        if (y == 5 && x < 5) || (y == 0 && (2..8).contains(&x)) || (y == 2 && (7..10).contains(&x)) {
            255
        } else {
            0
        }
    };
    let mut map = gray_map(10, 7, value);
    let lines = get_lines(&mut map, 128);
    assert_eq!(lines.len(), 2);
    assert_eq!(lines[0][0], (0, 5));
    assert_eq!(lines[1][0], (2, 0));
    assert_eq!(sorted(lines[0].clone()), vec![(0, 5), (1, 5), (2, 5), (3, 5), (4, 5)]);
    assert_eq!(sorted(lines[1].clone()), vec![(2, 0), (3, 0), (4, 0), (5, 0), (6, 0), (7, 0)]);
    for p in &lines[0] {
        assert!(!lines[1].contains(p));
    }
    let mut seen = 0;
    for y in 0..7 {
        for x in 0..10 {
            if value(x, y) == 255 {
                let holders = lines.iter().filter(|l| l.contains(&(x, y))).count();
                assert_eq!(holders, if y == 2 { 0 } else { 1 });
                seen += 1;
            }
            assert_eq!(map.get_pixel(x, y), Some((0, 0, 0)));
        }
    }
    assert_eq!(seen, 14);
}

#[test]
fn no_pixel_is_listed_twice() {
    let mut map = gray_map(7, 7, |x, y| if (x + y) % 2 == 0 || x == 3 { 255 } else { 0 });
    let lines = get_lines(&mut map, 1);
    assert_eq!(lines.len(), 1);
    let line = sorted(lines[0].clone());
    for pair in line.windows(2) {
        assert_ne!(pair[0], pair[1]);
    }
    assert_eq!(line.len(), 25 + 4);
}

#[test]
fn an_empty_map_has_no_clusters() {
    let mut map = Bitmap::from_raw(0, 0, Vec::new()).unwrap();
    assert!(get_lines(&mut map, 15).is_empty());
    let mut map = Bitmap::from_raw(0, 4, Vec::new()).unwrap();
    assert!(get_lines(&mut map, 15).is_empty());
}
