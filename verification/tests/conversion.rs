use image::{Rgb, RgbImage};
use textlines::bitmap::Bitmap;
use textlines::components::get_lines;

#[test]
fn a_picture_and_its_bitmap_agree_on_every_pixel() {
    let picture = RgbImage::from_fn(7, 4, |x, y| Rgb([(10 * x + y) as u8, (x * y) as u8, 200 - y as u8]));
    let bitmap = Bitmap::from_raw(picture.width(), picture.height(), picture.clone().into_raw()).unwrap();
    assert_eq!((bitmap.width(), bitmap.height()), (7, 4));
    for y in 0..4 {
        for x in 0..7 {
            let Rgb([r, g, b]) = *picture.get_pixel(x, y);
            assert_eq!(bitmap.get_pixel(x, y), Some((r, g, b)));
        }
    }
    let back = RgbImage::from_raw(7, 4, bitmap.into_raw()).unwrap();
    assert_eq!(back, picture);
}

#[test]
fn what_the_library_writes_appears_in_the_picture() {
    let mut bitmap = Bitmap::new(5, 3).unwrap();
    assert!(bitmap.put_pixel(4, 2, (1, 2, 3)));
    assert!(bitmap.put_pixel(0, 1, (9, 8, 7)));
    let picture = RgbImage::from_raw(5, 3, bitmap.into_raw()).unwrap();
    for (x, y, pixel) in picture.enumerate_pixels() {
        let expected = match (x, y) {
            (4, 2) => [1, 2, 3],
            (0, 1) => [9, 8, 7],
            _ => [0, 0, 0],
        };
        assert_eq!(pixel.0, expected);
    }
}

#[test]
fn clusters_are_blanked_in_the_picture() {
    let picture = RgbImage::from_fn(8, 3, |x, y| if y == 1 && x > 1 { Rgb([77, 77, 77]) } else { Rgb([3, 3, 3]) });
    let mut bitmap = Bitmap::from_raw(8, 3, picture.clone().into_raw()).unwrap();
    let lines = get_lines(&mut bitmap, 15);
    assert_eq!(lines.len(), 1);
    assert_eq!(lines[0].len(), 6);
    let after = RgbImage::from_raw(8, 3, bitmap.into_raw()).unwrap();
    for (x, y, pixel) in after.enumerate_pixels() {
        let expected = if y == 1 && x > 1 { [0, 0, 0] } else { [3, 3, 3] };
        assert_eq!(pixel.0, expected);
    }
}
