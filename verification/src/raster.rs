//! The picture that is drawn: a grid of pixels with three primaries each.

use vstd::prelude::*;
use image::GenericImageView;
use crate::point::{Point, UNITS_PER_ONE};

verus! {

/// The most pixels that a raster may have in a row or in a column: every
/// position on it must have lattice coordinates.
pub const MAX_SIDE: u32 = 21_474;

/// A picture: `height` rows of `width` pixels, row after row from the top,
/// each pixel as its red, its green and its blue.
#[derive(Clone, Debug)]
pub struct Raster {
    pub width: u32,
    pub height: u32,
    pub pixels: Vec<u8>,
}

#[verifier::external_type_specification]
#[verifier::external_body]
pub struct ExDynamicImage(image::DynamicImage);

/// The width and the height of a decoded image.
pub uninterp spec fn image_size(img: image::DynamicImage) -> (u32, u32);

/// The pixels of a decoded image, brought to three primaries of eight bits
/// each, row after row.
pub uninterp spec fn image_rgb(img: image::DynamicImage) -> Seq<u8>;

/// `GenericImageView::dimensions` of the image crate: the width and the
/// height of the image. The contract only names the result.
#[verifier::external_body]
fn image_dimensions(img: &image::DynamicImage) -> (d: (u32, u32))
    ensures
        d == image_size(*img),
{
    img.dimensions()
}

/// `DynamicImage::to_rgb8` and `ImageBuffer::into_raw` of the image crate:
/// a copy of the image as red, green and blue bytes. The contract only
/// names the result.
#[verifier::external_body]
fn image_bytes(img: &image::DynamicImage) -> (v: Vec<u8>)
    ensures
        v@ == image_rgb(*img),
{
    img.to_rgb8().into_raw()
}

/// Whether `width` by `height` pixels with the primaries `pixels` make a
/// raster.
pub open spec fn fits(width: u32, height: u32, pixels: Seq<u8>) -> bool {
    &&& 0 < width <= MAX_SIDE
    &&& 0 < height <= MAX_SIDE
    &&& pixels.len() == 3 * (width * height)
}

impl Raster {
    /// The raster is not empty, no side is longer than `MAX_SIDE`, and
    /// every pixel has its three primaries.
    pub open spec fn well_formed(&self) -> bool {
        fits(self.width, self.height, self.pixels@)
    }

    /// The place of the red of pixel `x`, `y` among the primaries.
    pub open spec fn offset(&self, x: int, y: int) -> int {
        3 * (y * self.width + x)
    }

    /// The red, green and blue of pixel `x`, `y`.
    pub open spec fn rgb(&self, x: int, y: int) -> (u8, u8, u8) {
        (
            self.pixels[self.offset(x, y)],
            self.pixels[self.offset(x, y) + 1],
            self.pixels[self.offset(x, y) + 2],
        )
    }

    /// Whether the lattice point `p` lies on the raster.
    pub open spec fn holds(&self, p: Point) -> bool {
        0 <= p.x < self.width * UNITS_PER_ONE && 0 <= p.y < self.height * UNITS_PER_ONE
    }

    /// The three primaries of a pixel lie within the raster's bytes.
    pub proof fn lemma_offset(&self, x: int, y: int)
        requires
            self.well_formed(),
            0 <= x < self.width,
            0 <= y < self.height,
        ensures
            0 <= self.offset(x, y),
            self.offset(x, y) + 2 < self.pixels.len(),
            self.pixels.len() <= 3 * (MAX_SIDE * MAX_SIDE),
    {
        let w = self.width as int;
        let h = self.height as int;
        assert(y * w + x < h * w) by (nonlinear_arith)
            requires
                0 <= x < w,
                0 <= y < h,
        ;
        assert(y * w >= 0) by (nonlinear_arith)
            requires
                y >= 0,
                w >= 0,
        ;
        assert(h * w == w * h) by (nonlinear_arith);
        assert(w * h <= 21_474 * 21_474) by (nonlinear_arith)
            requires
                0 < w <= 21_474,
                0 < h <= 21_474,
        ;
    }

    /// Makes a raster of `width` by `height` pixels, if that many fit and
    /// `pixels` holds three primaries for each of them.
    pub fn new(width: u32, height: u32, pixels: Vec<u8>) -> (r: Option<Raster>)
        ensures
            r is Some <==> fits(width, height, pixels@),
            r matches Some(raster) ==> raster.width == width && raster.height == height
                && raster.pixels == pixels,
    {
        if width == 0 || width > MAX_SIDE || height == 0 || height > MAX_SIDE {
            return None;
        }
        assert(width * height <= 21_474 * 21_474) by (nonlinear_arith)
            requires
                0 < width <= 21_474,
                0 < height <= 21_474,
        ;
        let count: u64 = 3 * (width as u64 * height as u64);
        if pixels.len() as u64 != count {
            return None;
        }
        Some(Raster { width, height, pixels })
    }

    /// Takes the pixels of a decoded image, if they make a raster.
    pub fn from_image(img: &image::DynamicImage) -> (r: Option<Raster>)
        ensures
            r is Some <==> fits(image_size(*img).0, image_size(*img).1, image_rgb(*img)),
            r matches Some(raster) ==> raster.width == image_size(*img).0 && raster.height
                == image_size(*img).1 && raster.pixels@ == image_rgb(*img),
    {
        let (width, height) = image_dimensions(img);
        let pixels = image_bytes(img);
        Raster::new(width, height, pixels)
    }

    /// The red, green and blue of pixel `x`, `y`.
    pub fn get_pixel(&self, x: u32, y: u32) -> (c: (u8, u8, u8))
        requires
            self.well_formed(),
            x < self.width,
            y < self.height,
        ensures
            c == self.rgb(x as int, y as int),
    {
        proof {
            self.lemma_offset(x as int, y as int);
        }
        let at: usize = 3 * (y as usize * self.width as usize + x as usize);
        (self.pixels[at], self.pixels[at + 1], self.pixels[at + 2])
    }
}

} // verus!
