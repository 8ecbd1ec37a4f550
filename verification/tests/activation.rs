use textlines::activation::{difference_filter, get_pixel_differences};
use textlines::bitmap::Bitmap;

type Color = (u8, u8, u8);

fn image(width: u32, height: u32, color: impl Fn(u32, u32) -> Color) -> Bitmap {
    let mut samples = Vec::new();
    for y in 0..height {
        for x in 0..width {
            let c = color(x, y);
            samples.extend_from_slice(&[c.0, c.1, c.2]);
        }
    }
    Bitmap::from_raw(width, height, samples).unwrap()
}

fn channel_mean(channels: Color) -> f32 {
    let mut difference: f32 = 0.0;
    for channel in [channels.0, channels.1, channels.2] {
        difference += channel as f32 / 3 as f32;
    }
    difference
}

fn pixel_activation(buffer: &Bitmap, x: u32, y: u32) -> f32 {
    let differences = get_pixel_differences(buffer, x, y);
    let mut immediate: f32 = 0.0;
    let mut outer: f32 = 0.0;
    for channels in &differences.immediate {
        immediate += channel_mean(*channels);
    }
    for channels in &differences.outer {
        outer += channel_mean(*channels);
    }
    immediate /= differences.immediate.len() as f32;
    outer /= differences.outer.len() as f32;
    immediate * 0.6 + outer * (1.0 - 0.6)
}

fn activation_rows(buffer: &Bitmap) -> Vec<Vec<u8>> {
    let map = difference_filter(buffer, |b: &Bitmap, x: u32, y: u32| pixel_activation(b, x, y) as u8);
    assert_eq!((map.width(), map.height()), (buffer.width(), buffer.height()));
    let mut rows = Vec::new();
    for y in 0..map.height() {
        let mut row = Vec::new();
        for x in 0..map.width() {
            let (r, g, b) = map.get_pixel(x, y).unwrap();
            assert_eq!((g, b), (r, r));
            row.push(r);
        }
        rows.push(row);
    }
    rows
}

const WHITE: Color = (255, 255, 255);
const BLACK: Color = (0, 0, 0);

#[test]
fn an_inner_pixel_has_eight_and_sixteen_neighbours() {
    let img = image(5, 5, |x, y| ((10 * x + y) as u8, 0, 0));
    let d = get_pixel_differences(&img, 2, 2);
    // Columns first: x - 1 with y - 1, y, y + 1, then x, then x + 1.
    let immediate: Vec<u8> = d.immediate.iter().map(|c| c.0).collect();
    assert_eq!(immediate, vec![11, 10, 9, 1, 1, 9, 10, 11]);
    let outer: Vec<u8> = d.outer.iter().map(|c| c.0).collect();
    assert_eq!(outer, vec![22, 21, 20, 19, 18, 12, 8, 2, 2, 8, 12, 18, 19, 20, 21, 22]);
    assert!(d.immediate.iter().chain(d.outer.iter()).all(|c| c.1 == 0 && c.2 == 0));
}

#[test]
fn differences_are_taken_channel_by_channel() {
    let img = image(2, 1, |x, _| if x == 0 { (10, 200, 7) } else { (40, 100, 7) });
    let d = get_pixel_differences(&img, 0, 0);
    assert_eq!(d.immediate, vec![(30, 100, 0)]);
    assert!(d.outer.is_empty());
    let d = get_pixel_differences(&img, 1, 0);
    assert_eq!(d.immediate, vec![(30, 100, 0)]);
}

#[test]
fn a_corner_pixel_has_three_and_five_neighbours() {
    let img = image(5, 5, |x, y| ((10 * x + y) as u8, (x + y) as u8, 0));
    let d = get_pixel_differences(&img, 0, 0);
    assert_eq!(d.immediate, vec![(1, 1, 0), (10, 1, 0), (11, 2, 0)]);
    assert_eq!(d.outer, vec![(2, 2, 0), (12, 3, 0), (20, 2, 0), (21, 3, 0), (22, 4, 0)]);
    let d = get_pixel_differences(&img, 4, 4);
    assert_eq!(d.immediate.len(), 3);
    assert_eq!(d.outer.len(), 5);
}

#[test]
fn the_centre_of_three_by_three_has_no_outer_ring() {
    let img = image(3, 3, |x, _| ((40 * x) as u8, 0, 0));
    let d = get_pixel_differences(&img, 1, 1);
    assert_eq!(d.immediate.len(), 8);
    assert!(d.outer.is_empty());
    let d = get_pixel_differences(&image(1, 1, |_, _| WHITE), 0, 0);
    assert!(d.immediate.is_empty());
    assert!(d.outer.is_empty());
}

#[test]
fn a_picture_of_one_colour_has_no_contrast() {
    for (width, height) in [(5, 5), (7, 9), (6, 5), (1, 1), (2, 3), (3, 3)] {
        let img = image(width, height, |_, _| (90, 14, 201));
        for y in 0..height {
            for x in 0..width {
                let d = get_pixel_differences(&img, x, y);
                assert!(d.immediate.iter().chain(d.outer.iter()).all(|c| *c == BLACK));
            }
        }
        assert_eq!(activation_rows(&img), vec![vec![0u8; width as usize]; height as usize]);
    }
}

#[test]
fn a_white_pixel_on_black() {
    let img = image(5, 5, |x, y| if (x, y) == (2, 2) { WHITE } else { BLACK });
    assert_eq!(
        activation_rows(&img),
        vec![
            vec![20, 16, 11, 16, 20],
            vec![16, 19, 19, 19, 16],
            vec![11, 19, 255, 19, 11],
            vec![16, 19, 19, 19, 16],
            vec![20, 16, 11, 16, 20],
        ]
    );
}

#[test]
fn border_pixels_are_averaged_over_the_neighbours_they_have() {
    let img = image(4, 3, |x, y| ((10 * x + y) as u8, (3 * x) as u8, (200 - 7 * y) as u8));
    assert_eq!(
        activation_rows(&img),
        vec![vec![6, 6, 6, 6], vec![6, 7, 7, 6], vec![6, 6, 6, 6]]
    );
}

#[test]
fn a_pixel_without_an_outer_ring_has_no_activation() {
    let img = image(3, 3, |x, _| ((40 * x) as u8, 0, 0));
    assert_eq!(
        activation_rows(&img),
        vec![vec![12, 9, 12], vec![15, 0, 15], vec![12, 9, 12]]
    );
    assert_eq!(activation_rows(&image(1, 1, |_, _| (7, 217, 36))), vec![vec![0]]);
}

#[test]
fn the_activation_is_cut_off_not_rounded() {
    // At x = 1 the only outer neighbour is white: 255 * (1 - 0.6) falls just short of 102.
    let img = image(6, 1, |x, _| if x >= 3 { WHITE } else { BLACK });
    assert_eq!(activation_rows(&img), vec![vec![0, 101, 127, 127, 101, 0]]);
}

#[test]
fn the_filter_stores_what_the_function_returns() {
    let img = image(4, 3, |x, y| (x as u8, y as u8, 9));
    let map = difference_filter(&img, |b: &Bitmap, x: u32, y: u32| {
        let (r, g, _) = b.get_pixel(x, y).unwrap();
        100 + 10 * g + r
    });
    assert_eq!(map.width(), 4);
    assert_eq!(map.height(), 3);
    for y in 0..3u32 {
        for x in 0..4u32 {
            let v = (100 + 10 * y + x) as u8;
            assert_eq!(map.get_pixel(x, y), Some((v, v, v)));
        }
    }
    let empty = difference_filter(&image(0, 0, |_, _| BLACK), |_: &Bitmap, _: u32, _: u32| 1);
    assert_eq!((empty.width(), empty.height()), (0, 0));
}
