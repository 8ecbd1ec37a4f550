//! The pixel grid that every stage reads or writes. The pixels live in an
//! `image::RgbImage`; the library sees them through three names and a
//! handful of trusted accessors.

use vstd::prelude::*;

verus! {

/// One pixel: red, green and blue.
pub type Color = (u8, u8, u8);

/// A pixel coordinate, column first.
pub type Point = (u32, u32);

/// A grid of RGB pixels. It is an `image::RgbImage`, which the verifier
/// does not look into: what it holds is known by `bitmap_width`,
/// `bitmap_height` and `bitmap_pixels`, and only through the accessors
/// below, whose contracts are taken from the source of `image`.
#[verifier::external_body]
#[derive(Debug, PartialEq, Eq)]
pub struct Bitmap {
    inner: image::RgbImage,
}

/// Number of columns of `b`.
pub uninterp spec fn bitmap_width(b: Bitmap) -> u32;

/// Number of rows of `b`.
pub uninterp spec fn bitmap_height(b: Bitmap) -> u32;

/// The pixels of `b` by coordinate.
pub uninterp spec fn bitmap_pixels(b: Bitmap) -> Map<Point, Color>;

/// An image of this size can be allocated: the samples of one row can be
/// counted and those of all rows fit one vector.
pub open spec fn fits_a_vector(width: u32, height: u32) -> bool {
    3 * width <= usize::MAX && 3 * width * height <= isize::MAX
}

/// `count` samples are enough for an image of this size, and the samples
/// of one row can be counted.
pub open spec fn samples_suffice(width: u32, height: u32, count: nat) -> bool {
    3 * width <= usize::MAX && 3 * width * height <= count
}

/// The pixel that a row-major run of samples, three per pixel, holds for
/// `p` in an image `width` columns wide.
pub open spec fn sample_color(samples: Seq<u8>, width: u32, p: Point) -> Color {
    let at = 3 * (p.1 * width + p.0);
    (samples[at], samples[at + 1], samples[at + 2])
}

impl Bitmap {
    /// The number of columns.
    pub open spec fn spec_width(&self) -> u32 {
        bitmap_width(*self)
    }

    /// The number of rows.
    pub open spec fn spec_height(&self) -> u32 {
        bitmap_height(*self)
    }

    /// `p` names a pixel of this bitmap.
    pub open spec fn contains(&self, p: Point) -> bool {
        p.0 < self.spec_width() && p.1 < self.spec_height()
    }

    /// The colour at `p`.
    pub open spec fn at(&self, p: Point) -> Color {
        bitmap_pixels(*self)[p]
    }

    /// Both bitmaps have the same number of columns and of rows.
    pub open spec fn same_size(&self, other: Bitmap) -> bool {
        self.spec_width() == other.spec_width() && self.spec_height() == other.spec_height()
    }

    /// `ImageBuffer::width`: the number of columns.
    #[verifier::external_body]
    pub(crate) fn raw_width(&self) -> (w: u32)
        ensures
            w == bitmap_width(*self),
    {
        self.inner.width()
    }

    /// `ImageBuffer::height`: the number of rows.
    #[verifier::external_body]
    pub(crate) fn raw_height(&self) -> (h: u32)
        ensures
            h == bitmap_height(*self),
    {
        self.inner.height()
    }

    /// `ImageBuffer::get_pixel`, which panics outside the image: the three
    /// channels stored at `(x, y)`.
    #[verifier::external_body]
    pub(crate) fn raw_get(&self, x: u32, y: u32) -> (c: Color)
        requires
            x < bitmap_width(*self),
            y < bitmap_height(*self),
        ensures
            c == bitmap_pixels(*self)[(x, y)],
    {
        let p = self.inner.get_pixel(x, y);
        (p.0[0], p.0[1], p.0[2])
    }

    /// `ImageBuffer::get_pixel_mut`, which panics outside the image, and an
    /// assignment through it: the pixel at `(x, y)` becomes `c`, every
    /// other pixel and both dimensions stay.
    #[verifier::external_body]
    pub(crate) fn raw_put(&mut self, x: u32, y: u32, c: Color)
        requires
            x < bitmap_width(*old(self)),
            y < bitmap_height(*old(self)),
        ensures
            bitmap_width(*final(self)) == bitmap_width(*old(self)),
            bitmap_height(*final(self)) == bitmap_height(*old(self)),
            bitmap_pixels(*final(self)) == bitmap_pixels(*old(self)).insert((x, y), c),
    {
        *self.inner.get_pixel_mut(x, y) = image::Rgb([c.0, c.1, c.2]);
    }

    /// `ImageBuffer::new`, which panics when the number of samples, three
    /// per pixel and counted row by row, does not fit a vector: an image of
    /// the given size with every sample zero.
    #[verifier::external_body]
    pub(crate) fn raw_new(width: u32, height: u32) -> (b: Bitmap)
        requires
            fits_a_vector(width, height),
        ensures
            bitmap_width(b) == width,
            bitmap_height(b) == height,
            forall|p: Point|
                p.0 < width && p.1 < height ==> #[trigger] bitmap_pixels(b)[p] == (0u8, 0u8, 0u8),
    {
        Bitmap { inner: image::RgbImage::new(width, height) }
    }

    /// `ImageBuffer::from_raw`: an image over `samples`, row by row with
    /// three samples per pixel, unless they are too few for the size or the
    /// samples of one row are more than can be counted.
    #[verifier::external_body]
    pub(crate) fn raw_from_vec(width: u32, height: u32, samples: Vec<u8>) -> (r: Option<Bitmap>)
        ensures
            r is Some <==> samples_suffice(width, height, samples@.len()),
            r matches Some(b) ==> bitmap_width(b) == width && bitmap_height(b) == height
                && forall|p: Point|
                p.0 < width && p.1 < height ==> #[trigger] bitmap_pixels(b)[p] == sample_color(
                    samples@,
                    width,
                    p,
                ),
    {
        match image::RgbImage::from_raw(width, height, samples) {
            Some(inner) => Some(Bitmap { inner }),
            None => None,
        }
    }

    /// `ImageBuffer::into_raw`: the samples, row by row with three per
    /// pixel; there are at least as many as the size asks for.
    #[verifier::external_body]
    pub(crate) fn raw_into_vec(self) -> (samples: Vec<u8>)
        ensures
            3 * bitmap_width(self) * bitmap_height(self) <= samples@.len(),
            forall|p: Point|
                p.0 < bitmap_width(self) && p.1 < bitmap_height(self) ==> bitmap_pixels(self)[p]
                    == #[trigger] sample_color(samples@, bitmap_width(self), p),
    {
        self.inner.into_raw()
    }

    /// The number of columns.
    #[verifier::when_used_as_spec(spec_width)]
    pub fn width(&self) -> (w: u32)
        ensures
            w == self.spec_width(),
    {
        self.raw_width()
    }

    /// The number of rows.
    #[verifier::when_used_as_spec(spec_height)]
    pub fn height(&self) -> (h: u32)
        ensures
            h == self.spec_height(),
    {
        self.raw_height()
    }

    /// Whether a bitmap of this size can be allocated.
    pub fn can_allocate(width: u32, height: u32) -> (fits: bool)
        ensures
            fits == fits_a_vector(width, height),
    {
        let columns: u128 = 3 * (width as u128);
        assert(columns * height <= 0x3_0000_0000 * 0x1_0000_0000) by (nonlinear_arith)
            requires
                columns <= 0x3_0000_0000,
                height <= 0x1_0000_0000,
        ;
        let needed: u128 = columns * (height as u128);
        assert(needed == 3 * width * height) by (nonlinear_arith)
            requires
                needed == (3 * width) * height,
        ;
        columns <= usize::MAX as u128 && needed <= isize::MAX as u128
    }

    /// An all-black bitmap, or `None` where its samples would not fit one
    /// allocation.
    pub fn new(width: u32, height: u32) -> (r: Option<Bitmap>)
        ensures
            r is Some <==> fits_a_vector(width, height),
            r matches Some(b) ==> b.width() == width && b.height() == height && forall|p: Point|
                b.contains(p) ==> #[trigger] b.at(p) == (0u8, 0u8, 0u8),
    {
        if Bitmap::can_allocate(width, height) {
            Some(Bitmap::raw_new(width, height))
        } else {
            None
        }
    }

    /// A bitmap over `samples`, which hold the rows from the top, each pixel
    /// as red, green, blue. `None` where there are fewer than three samples
    /// for each pixel, or where the samples of one row are more than a
    /// `usize` can count.
    pub fn from_raw(width: u32, height: u32, samples: Vec<u8>) -> (r: Option<Bitmap>)
        ensures
            r is Some <==> samples_suffice(width, height, samples@.len()),
            r matches Some(b) ==> b.width() == width && b.height() == height && forall|p: Point|
                b.contains(p) ==> #[trigger] b.at(p) == sample_color(samples@, width, p),
    {
        Bitmap::raw_from_vec(width, height, samples)
    }

    /// The samples of this bitmap, in the layout that `from_raw` takes.
    pub fn into_raw(self) -> (samples: Vec<u8>)
        ensures
            3 * self.width() * self.height() <= samples@.len(),
            forall|p: Point|
                self.contains(p) ==> self.at(p) == #[trigger] sample_color(
                    samples@,
                    self.width(),
                    p,
                ),
    {
        self.raw_into_vec()
    }

    /// The colour at `(x, y)`, or `None` outside the bitmap.
    pub fn get_pixel(&self, x: u32, y: u32) -> (r: Option<Color>)
        ensures
            r == if self.contains((x, y)) {
                Some(self.at((x, y)))
            } else {
                None
            },
    {
        if x < self.raw_width() && y < self.raw_height() {
            Some(self.raw_get(x, y))
        } else {
            None
        }
    }

    /// Sets the colour at `(x, y)` and returns `true`; outside the bitmap
    /// it changes nothing and returns `false`.
    pub fn put_pixel(&mut self, x: u32, y: u32, c: Color) -> (done: bool)
        ensures
            done == old(self).contains((x, y)),
            final(self).same_size(*old(self)),
            forall|p: Point|
                old(self).contains(p) ==> #[trigger] final(self).at(p) == if p == (x, y) {
                    c
                } else {
                    old(self).at(p)
                },
    {
        if x < self.raw_width() && y < self.raw_height() {
            self.raw_put(x, y, c);
            true
        } else {
            false
        }
    }
}

} // verus!
