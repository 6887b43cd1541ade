//! The rendered image: a dense row-major buffer of RGB pixels.

use vstd::prelude::*;

use crate::grid::lemma_idx_in_range;

verus! {

/// One full-color pixel.
#[derive(Debug, Clone, Copy, PartialEq, Eq, Structural)]
pub struct Rgb {
    pub r: u8,
    pub g: u8,
    pub b: u8,
}

impl Rgb {
    pub fn new(r: u8, g: u8, b: u8) -> (c: Rgb)
        ensures
            c == (Rgb { r, g, b }),
    {
        Rgb { r, g, b }
    }
}

/// A dense `width x height` buffer of RGB pixels, row-major. Produced once,
/// fully, by the renderer, and immutable afterwards.
#[derive(Debug)]
pub struct Image {
    width: u32,
    height: u32,
    pixels: Vec<Rgb>,
}

impl Image {
    pub closed spec fn spec_width(self) -> int {
        self.width as int
    }

    pub closed spec fn spec_height(self) -> int {
        self.height as int
    }

    pub closed spec fn pixels_view(self) -> Seq<Rgb> {
        self.pixels@
    }

    /// The buffer holds one pixel per coordinate.
    pub open spec fn wf(self) -> bool {
        self.pixels_view().len() == self.spec_width() * self.spec_height()
    }

    /// The pixel in column `x` of row `y`.
    pub open spec fn pixel_at(self, x: int, y: int) -> Rgb {
        self.pixels_view()[y * self.spec_width() + x]
    }

    /// Wraps a fully populated row-major pixel buffer.
    pub(crate) fn from_pixels(width: u32, height: u32, pixels: Vec<Rgb>) -> (img: Image)
        requires
            pixels@.len() == width * height,
        ensures
            img.wf(),
            img.spec_width() == width,
            img.spec_height() == height,
            img.pixels_view() == pixels@,
    {
        Image { width, height, pixels }
    }

    pub fn width(&self) -> (w: u32)
        ensures
            w == self.spec_width(),
    {
        self.width
    }

    pub fn height(&self) -> (h: u32)
        ensures
            h == self.spec_height(),
    {
        self.height
    }

    /// Reads the pixel at `(x, y)`.
    pub fn pixel(&self, x: u32, y: u32) -> (c: Rgb)
        requires
            self.wf(),
            x < self.spec_width(),
            y < self.spec_height(),
        ensures
            c == self.pixel_at(x as int, y as int),
    {
        let _vec_len = self.pixels.len();
        proof {
            lemma_idx_in_range(self.spec_width(), self.spec_height(), x as int, y as int);
        }
        self.pixels[(y as usize) * (self.width as usize) + (x as usize)]
    }
}

} // verus!
