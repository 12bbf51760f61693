use vstd::prelude::*;

use crate::ppm::{encode, ppm_text, PPM_LINE_WIDTH};
use crate::writer::{lines_fit, NEWLINE};

verus! {

/// A `width` by `height` grid of pixels, stored row by row.
pub struct Canvas<P> {
    width: usize,
    height: usize,
    pixels: Vec<P>,
}

impl<P: Copy> Canvas<P> {
    /// The pixels are exactly `width * height`.
    pub closed spec fn wf(&self) -> bool {
        self.pixels@.len() == self.width * self.height
    }

    pub closed spec fn spec_width(&self) -> nat {
        self.width as nat
    }

    pub closed spec fn spec_height(&self) -> nat {
        self.height as nat
    }

    /// The pixels in row-major order.
    pub closed spec fn view_pixels(&self) -> Seq<P> {
        self.pixels@
    }

    /// The pixel in column `x` of row `y`.
    pub open spec fn pixel(&self, x: int, y: int) -> P {
        self.view_pixels()[y * self.spec_width() + x]
    }

    /// A canvas whose every pixel is `color`.
    pub fn new_with_color(width: usize, height: usize, color: P) -> (c: Self)
        requires
            width * height <= usize::MAX,
        ensures
            c.wf(),
            c.spec_width() == width,
            c.spec_height() == height,
            c.view_pixels() == Seq::new((width * height) as nat, |i: int| color),
    {
        let n: usize = width * height;
        let mut pixels: Vec<P> = Vec::new();
        let mut i: usize = 0;
        while i < n
            invariant
                i <= n,
                pixels@ == Seq::new(i as nat, |k: int| color),
            decreases n - i,
        {
            pixels.push(color);
            proof {
                assert(pixels@ =~= Seq::new((i + 1) as nat, |k: int| color));
            }
            i = i + 1;
        }
        Canvas { width, height, pixels }
    }

    pub fn width(&self) -> (w: usize)
        ensures
            w == self.spec_width(),
    {
        self.width
    }

    pub fn height(&self) -> (h: usize)
        ensures
            h == self.spec_height(),
    {
        self.height
    }

    /// The pixels in row-major order.
    pub fn pixels(&self) -> (p: &Vec<P>)
        ensures
            p@ == self.view_pixels(),
    {
        &self.pixels
    }

    /// The pixel in column `x` of row `y`.
    pub fn pixel_at(&self, x: usize, y: usize) -> (c: P)
        requires
            self.wf(),
            x < self.spec_width(),
            y < self.spec_height(),
        ensures
            c == self.pixel(x as int, y as int),
    {
        let len: usize = self.pixels.len();
        proof {
            lemma_cell_in_grid(x as int, y as int, self.width as int, self.height as int);
            assert(y * self.width + x < len);
        }
        self.pixels[y * self.width + x]
    }

    /// Sets the pixel in column `x` of row `y` and keeps every other.
    pub fn write_pixel(&mut self, x: usize, y: usize, color: P)
        requires
            old(self).wf(),
            x < old(self).spec_width(),
            y < old(self).spec_height(),
        ensures
            final(self).wf(),
            final(self).spec_width() == old(self).spec_width(),
            final(self).spec_height() == old(self).spec_height(),
            final(self).view_pixels() == old(self).view_pixels().update(
                y * old(self).spec_width() + x,
                color,
            ),
            final(self).pixel(x as int, y as int) == color,
    {
        let len: usize = self.pixels.len();
        proof {
            lemma_cell_in_grid(x as int, y as int, self.width as int, self.height as int);
            assert(y * self.width + x < len);
        }
        let i = y * self.width + x;
        self.pixels.set(i, color);
    }
}

impl Canvas<(u8, u8, u8)> {
    /// The canvas as plain-text image, each pixel as its three 8-bit
    /// channels (see `ppm_text`): no line longer than 70 bytes, and a line
    /// break at the end.
    pub fn write_ppm(&self) -> (r: Vec<u8>)
        requires
            self.wf(),
        ensures
            r@ == ppm_text(self.spec_width(), self.spec_height(), self.view_pixels()),
            lines_fit(r@, PPM_LINE_WIDTH as nat),
            r@.len() > 0 && r@.last() == NEWLINE,
    {
        encode(self.width, self.height, &self.pixels)
    }
}

/// A cell of a `w` by `h` grid has its row-major index inside the grid.
proof fn lemma_cell_in_grid(x: int, y: int, w: int, h: int)
    requires
        0 <= x < w,
        0 <= y < h,
    ensures
        0 <= y * w <= y * w + x < w * h,
{
    assert(y * w + x < w * h) by (nonlinear_arith)
        requires
            0 <= x < w,
            0 <= y < h,
    ;
    assert(0 <= y * w) by (nonlinear_arith)
        requires
            0 <= y,
            0 <= w,
    ;
}

} // verus!
