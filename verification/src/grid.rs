//! The decoded image as a grid of pixels.

use crate::blob::Blob;
use crate::blob::Dimensions;
use crate::color::Color;
use vstd::prelude::*;

verus! {

/// A decoded image: `width * height` pixels, stored row by row.
#[derive(Debug)]
pub struct PixelGrid {
    pub colors: Vec<Color>,
    pub width: usize,
    pub height: usize,
}

impl PixelGrid {
    /// The buffer holds exactly one pixel per cell, and every coordinate fits
    /// into the 32 bits that a bounding box has for it.
    pub open spec fn wf(&self) -> bool {
        &&& self.colors@.len() == self.width * self.height
        &&& self.width <= u32::MAX
        &&& self.height <= u32::MAX
    }

    /// `(x, y)` names a cell of the grid.
    pub open spec fn in_bounds(&self, x: int, y: int) -> bool {
        0 <= x < self.width && 0 <= y < self.height
    }

    /// The pixel in column `x` of row `y`.
    pub open spec fn pixel(&self, x: int, y: int) -> Color {
        self.colors@[x + y * self.width]
    }

    /// The box is well formed and lies inside the grid.
    pub open spec fn holds(&self, blob: Blob) -> bool {
        blob.wf() && blob.x_max < self.width && blob.y_max < self.height
    }

    /// The cell `(x, y)` exists and is not background.
    pub open spec fn is_sprite(&self, x: int, y: int) -> bool {
        self.in_bounds(x, y) && !self.pixel(x, y).is_magenta()
    }

    /// A cell's position in the buffer lies inside the buffer.
    pub proof fn lemma_cell_index(&self, x: int, y: int)
        requires
            self.wf(),
            self.in_bounds(x, y),
        ensures
            0 <= y * self.width <= self.colors@.len(),
            0 <= x + y * self.width < self.colors@.len(),
    {
        let w = self.width as int;
        let h = self.height as int;
        assert(0 <= y * w && y * w + w <= w * h) by (nonlinear_arith)
            requires
                0 <= y < h,
                0 <= w,
        ;
    }

    pub fn new(colors: Vec<Color>, width: usize, height: usize) -> (grid: PixelGrid)
        requires
            colors@.len() == width * height,
            width <= u32::MAX,
            height <= u32::MAX,
        ensures
            grid.wf(),
            grid.colors == colors,
            grid.width == width,
            grid.height == height,
    {
        PixelGrid { colors, width, height }
    }

    /// The pixel at column `x`, row `y`.
    pub fn at(&self, x: usize, y: usize) -> (c: Color)
        requires
            self.wf(),
            self.in_bounds(x as int, y as int),
        ensures
            c == self.pixel(x as int, y as int),
    {
        let len = self.colors.len();
        proof {
            self.lemma_cell_index(x as int, y as int);
        }
        assert(x + y * self.width < len);
        self.colors[x + y * self.width]
    }

    /// Cells at different coordinates sit at different positions in the buffer.
    pub proof fn lemma_cell_index_distinct(&self, x: int, y: int, u: int, v: int)
        requires
            self.in_bounds(x, y),
            self.in_bounds(u, v),
            x + y * self.width == u + v * self.width,
        ensures
            x == u,
            y == v,
    {
        let w = self.width as int;
        if y < v {
            assert(v * w >= y * w + w) by (nonlinear_arith)
                requires
                    y < v,
                    w >= 0,
            ;
        } else if v < y {
            assert(y * w >= v * w + w) by (nonlinear_arith)
                requires
                    v < y,
                    w >= 0,
            ;
        }
    }

    /// The pixel at position `i` of the buffer.
    pub fn index(&self, i: usize) -> (c: Color)
        requires
            i < self.colors@.len(),
        ensures
            c == self.colors@[i as int],
    {
        self.colors[i]
    }
}

impl Dimensions for PixelGrid {
    open spec fn measurable(&self) -> bool {
        true
    }

    open spec fn spec_width(&self) -> nat {
        self.width as nat
    }

    open spec fn spec_height(&self) -> nat {
        self.height as nat
    }

    fn width(&self) -> (w: usize) {
        self.width
    }

    fn height(&self) -> (h: usize) {
        self.height
    }
}

} // verus!
