use textlines::bitmap::Bitmap;
use textlines::classify::{
    close_colors, get_line_colors, get_most_common_color, get_text_lines, DIFFERENCE_COLOR_THRESH,
};
use textlines::geometry::{get_lines_stats, Line};

type Color = (u8, u8, u8);

fn row_image(colors: &[Color]) -> Bitmap {
    let mut samples = Vec::new();
    for c in colors {
        samples.extend_from_slice(&[c.0, c.1, c.2]);
    }
    Bitmap::from_raw(colors.len() as u32, 1, samples).unwrap()
}

fn row_line(n: u32) -> Line {
    get_lines_stats(vec![(0..n).map(|x| (x, 0)).collect()]).pop().unwrap()
}

const WHITE: Color = (255, 255, 255);
const BLACK: Color = (0, 0, 0);
const RED: Color = (200, 10, 10);

#[test]
fn the_threshold() {
    assert_eq!(DIFFERENCE_COLOR_THRESH, 30);
}

#[test]
fn colours_thirty_apart_are_close() {
    assert!(close_colors((0, 0, 0), (30, 0, 0)));
    assert!(close_colors((30, 0, 0), (0, 0, 0)));
    assert!(close_colors((100, 100, 100), (118, 124, 100)));
    assert!(close_colors((7, 8, 9), (7, 8, 9)));
    assert!(!close_colors((0, 0, 0), (31, 0, 0)));
    assert!(!close_colors((100, 100, 100), (118, 124, 101)));
    assert!(!close_colors((0, 0, 0), (255, 255, 255)));
    // 17 * 17 * 3 = 867 does not exceed 900; 18 * 18 * 3 = 972 does.
    assert!(close_colors((50, 50, 50), (67, 33, 67)));
    assert!(!close_colors((50, 50, 50), (68, 32, 68)));
}

#[test]
fn buckets_stand_in_the_order_in_which_they_were_opened() {
    let colors = [WHITE, BLACK, WHITE, RED, BLACK, WHITE];
    let buckets = get_line_colors(&row_line(6), &row_image(&colors));
    assert_eq!(buckets, vec![(WHITE, 3), (BLACK, 2), (RED, 1)]);
}

#[test]
fn a_bucket_keeps_its_first_colour() {
    let colors = [(100, 100, 100), (120, 100, 100), (130, 100, 100), (131, 100, 100), (161, 100, 100)];
    let buckets = get_line_colors(&row_line(5), &row_image(&colors));
    assert_eq!(buckets, vec![((100, 100, 100), 3), ((131, 100, 100), 2)]);
}

#[test]
fn a_colour_close_to_two_buckets_goes_to_the_first() {
    let colors = [(100, 0, 0), (140, 0, 0), (120, 0, 0)];
    let buckets = get_line_colors(&row_line(3), &row_image(&colors));
    assert_eq!(buckets, vec![((100, 0, 0), 2), ((140, 0, 0), 1)]);
    let colors = [(140, 0, 0), (100, 0, 0), (120, 0, 0)];
    let buckets = get_line_colors(&row_line(3), &row_image(&colors));
    assert_eq!(buckets, vec![((140, 0, 0), 2), ((100, 0, 0), 1)]);
}

#[test]
fn only_the_pixels_of_the_line_are_counted() {
    let image = row_image(&[WHITE, RED, WHITE, BLACK, BLACK, BLACK]);
    let line = get_lines_stats(vec![vec![(2, 0), (0, 0), (1, 0)]]).pop().unwrap();
    assert_eq!(get_line_colors(&line, &image), vec![(WHITE, 2), (RED, 1)]);
}

#[test]
fn the_most_common_colour_is_the_first_of_the_most_frequent() {
    assert_eq!(get_most_common_color(&vec![(WHITE, 3), (BLACK, 5), (RED, 4)]), BLACK);
    assert_eq!(get_most_common_color(&vec![(WHITE, 5), (BLACK, 5)]), WHITE);
    assert_eq!(get_most_common_color(&vec![(RED, 1), (BLACK, 7), (WHITE, 7)]), BLACK);
    assert_eq!(get_most_common_color(&vec![(RED, 1)]), RED);
}

#[test]
fn without_a_counted_pixel_the_most_common_colour_is_black() {
    assert_eq!(get_most_common_color(&Vec::new()), BLACK);
    assert_eq!(get_most_common_color(&vec![(RED, 0), (WHITE, 0)]), BLACK);
}

#[test]
fn two_tones_are_text() {
    let image = row_image(&[WHITE, WHITE, BLACK, WHITE, BLACK, WHITE, WHITE, BLACK, WHITE]);
    let lines = vec![row_line(9)];
    let text_lines = get_text_lines(&lines, &image);
    assert_eq!(text_lines.len(), 1);
    assert_eq!(text_lines[0].stroke_color, WHITE);
    assert_eq!(text_lines[0].text, "");
    assert_eq!(text_lines[0].line.pixels, lines[0].pixels);
    assert_eq!(text_lines[0].line.area, 9);
}

#[test]
fn a_tie_goes_to_the_tone_met_first() {
    let image = row_image(&[BLACK, WHITE, WHITE, BLACK]);
    let lines = vec![row_line(4)];
    let text_lines = get_text_lines(&lines, &image);
    assert_eq!(text_lines.len(), 1);
    assert_eq!(text_lines[0].stroke_color, BLACK);
}

#[test]
fn one_tone_is_not_text() {
    let image = row_image(&[WHITE; 9]);
    assert!(get_text_lines(&vec![row_line(9)], &image).is_empty());
    // Two colours, but close to each other: one bucket.
    let image = row_image(&[(10, 10, 10), (20, 20, 20), (10, 10, 10), (27, 10, 10)]);
    assert!(get_text_lines(&vec![row_line(4)], &image).is_empty());
}

#[test]
fn three_tones_are_not_text() {
    let image = row_image(&[WHITE, BLACK, RED, WHITE, BLACK]);
    assert!(get_text_lines(&vec![row_line(5)], &image).is_empty());
    // A faint third tone is enough.
    let image = row_image(&[WHITE, BLACK, (224, 255, 255), WHITE, BLACK]);
    assert!(get_text_lines(&vec![row_line(5)], &image).is_empty());
}

#[test]
fn text_lines_keep_the_order_of_the_lines() {
    let image = row_image(&[WHITE, BLACK, WHITE, RED, RED, RED, BLACK, RED, WHITE]);
    let lines = get_lines_stats(vec![
        vec![(0, 0), (1, 0), (2, 0)],
        vec![(3, 0), (4, 0), (5, 0)],
        vec![(5, 0), (6, 0), (7, 0)],
        vec![(6, 0), (7, 0), (8, 0)],
        vec![(1, 0), (0, 0)],
    ]);
    let text_lines = get_text_lines(&lines, &image);
    assert_eq!(text_lines.len(), 3);
    assert_eq!(text_lines[0].line.pixels, vec![(0, 0), (1, 0), (2, 0)]);
    assert_eq!(text_lines[0].stroke_color, WHITE);
    assert_eq!(text_lines[1].line.pixels, vec![(5, 0), (6, 0), (7, 0)]);
    assert_eq!(text_lines[1].stroke_color, RED);
    assert_eq!(text_lines[2].line.pixels, vec![(1, 0), (0, 0)]);
    assert_eq!(text_lines[2].stroke_color, BLACK);
    assert!(get_text_lines(&Vec::new(), &image).is_empty());
}
