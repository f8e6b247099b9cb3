//! Bounding boxes and the measuring of things that have a width and a height.

use vstd::prelude::*;

verus! {

/// Anything with a width and a height measured in whole pixels.
pub trait Dimensions {
    /// The value is in a state in which its extent can be computed.
    spec fn measurable(&self) -> bool;

    spec fn spec_width(&self) -> nat;

    spec fn spec_height(&self) -> nat;

    fn width(&self) -> (w: usize)
        requires
            self.measurable(),
        ensures
            w == self.spec_width(),
    ;

    fn height(&self) -> (h: usize)
        requires
            self.measurable(),
        ensures
            h == self.spec_height(),
    ;

    /// Number of pixels covered: width times height.
    fn size(&self) -> (s: usize)
        requires
            self.measurable(),
            self.spec_width() * self.spec_height() <= usize::MAX,
        ensures
            s == self.spec_width() * self.spec_height(),
    {
        self.width() * self.height()
    }
}

/// An axis-aligned bounding box with inclusive corners.
#[derive(Clone, Copy, Debug, PartialEq, Eq, Structural)]
pub struct Blob {
    pub x_min: u32,
    pub y_min: u32,
    pub x_max: u32,
    pub y_max: u32,
}

impl Blob {
    /// The corners are ordered, so the box holds at least one pixel.
    pub open spec fn wf(&self) -> bool {
        self.x_min <= self.x_max && self.y_min <= self.y_max
    }

    /// The pixel `(x, y)` lies inside the box.
    pub open spec fn contains(&self, x: int, y: int) -> bool {
        self.x_min <= x <= self.x_max && self.y_min <= y <= self.y_max
    }

    /// Columns spanned; a box with disordered corners spans none.
    pub open spec fn cols(&self) -> nat {
        if self.wf() {
            (self.x_max - self.x_min + 1) as nat
        } else {
            0
        }
    }

    /// Rows spanned; a box with disordered corners spans none.
    pub open spec fn rows(&self) -> nat {
        if self.wf() {
            (self.y_max - self.y_min + 1) as nat
        } else {
            0
        }
    }

    /// Pixels covered; zero for a box with disordered corners.
    pub open spec fn area(&self) -> nat {
        self.cols() * self.rows()
    }

    pub fn new(x_min: u32, y_min: u32, x_max: u32, y_max: u32) -> (blob: Blob)
        ensures
            blob == (Blob { x_min, y_min, x_max, y_max }),
    {
        Blob { x_min, y_min, x_max, y_max }
    }

    /// No box holds more than 2^64 pixels.
    pub proof fn lemma_area_bound(&self)
        ensures
            self.area() <= 0x1_0000_0000_0000_0000,
    {
        assert(self.cols() * self.rows() <= 0x1_0000_0000 * 0x1_0000_0000) by (nonlinear_arith)
            requires
                self.cols() <= 0x1_0000_0000,
                self.rows() <= 0x1_0000_0000,
        ;
    }

    /// Columns spanned, zero for a box with disordered corners.
    pub fn col_count(&self) -> (n: u64)
        ensures
            n == self.cols(),
    {
        if self.x_min <= self.x_max && self.y_min <= self.y_max {
            (self.x_max - self.x_min) as u64 + 1
        } else {
            0
        }
    }

    /// Rows spanned, zero for a box with disordered corners.
    pub fn row_count(&self) -> (n: u64)
        ensures
            n == self.rows(),
    {
        if self.x_min <= self.x_max && self.y_min <= self.y_max {
            (self.y_max - self.y_min) as u64 + 1
        } else {
            0
        }
    }

    /// The area as a machine integer wide enough for every box.
    pub fn pixel_count(&self) -> (n: u128)
        ensures
            n == self.area(),
    {
        let w: u128 = self.col_count() as u128;
        let h: u128 = self.row_count() as u128;
        proof {
            self.lemma_area_bound();
        }
        w * h
    }
}

impl Dimensions for Blob {
    open spec fn measurable(&self) -> bool {
        self.wf() && self.x_max - self.x_min < usize::MAX && self.y_max - self.y_min < usize::MAX
    }

    open spec fn spec_width(&self) -> nat {
        self.cols()
    }

    open spec fn spec_height(&self) -> nat {
        self.rows()
    }

    fn width(&self) -> (w: usize) {
        (self.x_max - self.x_min) as usize + 1
    }

    fn height(&self) -> (h: usize) {
        (self.y_max - self.y_min) as usize + 1
    }
}

} // verus!
