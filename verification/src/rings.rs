//! The walk over the pixels of a box in concentric rings.

use crate::blob::Blob;
use vstd::prelude::*;

verus! {

/// The phase of the clockwise walk around the current ring.
#[derive(Clone, Copy, Debug, PartialEq, Eq, Structural)]
pub enum Direction {
    /// About to take the first step to the right on the next ring inward.
    Contract,
    Right,
    Down,
    Left,
    Up,
}

/// A walk over the pixels of a box in concentric rings: it starts at the
/// top-left corner, runs clockwise and moves one ring inward after each lap.
#[derive(Clone, Copy, Debug)]
pub struct BlobRings {
    pub blob: Blob,
    /// Column of the pixel that comes out next.
    pub x: u32,
    /// Row of the pixel that comes out next.
    pub y: u32,
    pub direction: Direction,
    /// How many pixels have come out so far.
    pub steps: u128,
    /// Index of the ring the walk is on; the outermost ring is 0.
    pub ring: u32,
}

impl BlobRings {
    /// The walk before its first step.
    pub open spec fn start(blob: Blob) -> BlobRings {
        BlobRings { blob, x: blob.x_min, y: blob.y_min, direction: Direction::Right, steps: 0, ring: 0 }
    }

    /// As many pixels have come out as the box holds.
    pub open spec fn done(&self) -> bool {
        self.steps >= self.blob.area()
    }

    /// The state after the pixel at `(x, y)` has come out: one move in the
    /// current direction, then a turn if the move reached the end of a side.
    pub open spec fn advance(&self) -> BlobRings {
        let steps = (self.steps + 1) as u128;
        match self.direction {
            Direction::Right | Direction::Contract => {
                let x = self.x.wrapping_add(1);
                let turn = x == self.blob.x_max.wrapping_sub(self.ring);
                let inward = !turn && self.direction == Direction::Contract;
                BlobRings {
                    blob: self.blob,
                    x,
                    y: self.y,
                    direction: if turn { Direction::Down } else { Direction::Right },
                    steps,
                    ring: if inward { self.ring.wrapping_add(1) } else { self.ring },
                }
            },
            Direction::Down => {
                let y = self.y.wrapping_add(1);
                let turn = y == self.blob.y_max.wrapping_sub(self.ring);
                BlobRings {
                    blob: self.blob,
                    x: self.x,
                    y,
                    direction: if turn { Direction::Left } else { Direction::Down },
                    steps,
                    ring: self.ring,
                }
            },
            Direction::Left => {
                let x = self.x.wrapping_sub(1);
                let turn = x == self.blob.x_min.wrapping_add(self.ring);
                BlobRings {
                    blob: self.blob,
                    x,
                    y: self.y,
                    direction: if turn { Direction::Up } else { Direction::Left },
                    steps,
                    ring: self.ring,
                }
            },
            Direction::Up => {
                let y = self.y.wrapping_sub(1);
                let turn = y == self.blob.y_min.wrapping_add(self.ring).wrapping_add(1);
                BlobRings {
                    blob: self.blob,
                    x: self.x,
                    y,
                    direction: if turn { Direction::Contract } else { Direction::Up },
                    steps,
                    ring: self.ring,
                }
            },
        }
    }

    /// Everything the walk still has to give, in order.
    pub open spec fn rest(self) -> Seq<(u32, u32, u32)>
        decreases self.blob.area() - self.steps,
        via Self::rest_terminates
    {
        if self.done() {
            Seq::empty()
        } else {
            seq![(self.x, self.y, self.ring)] + self.advance().rest()
        }
    }

    #[via_fn]
    proof fn rest_terminates(self) {
        self.blob.lemma_area_bound();
    }

    /// The whole walk over `blob`, from its top-left corner on.
    pub open spec fn walk(blob: Blob) -> Seq<(u32, u32, u32)> {
        Self::start(blob).rest()
    }

    pub fn new(blob: Blob) -> (rings: BlobRings)
        ensures
            rings == Self::start(blob),
    {
        BlobRings { blob, x: blob.x_min, y: blob.y_min, direction: Direction::Right, steps: 0, ring: 0 }
    }

    /// Hands out the next pixel as `(x, y, ring)` and moves on, or `None`
    /// once the box is exhausted.
    pub fn next(&mut self) -> (out: Option<(u32, u32, u32)>)
        ensures
            old(self).done() ==> out.is_none() && *final(self) == *old(self),
            !old(self).done() ==> out == Some((old(self).x, old(self).y, old(self).ring))
                && *final(self) == old(self).advance(),
    {
        if self.steps >= self.blob.pixel_count() {
            return None;
        }
        proof {
            self.blob.lemma_area_bound();
        }
        let out = (self.x, self.y, self.ring);
        match self.direction {
            Direction::Right | Direction::Contract => {
                self.x = self.x.wrapping_add(1);
                if self.x == self.blob.x_max.wrapping_sub(self.ring) {
                    self.direction = Direction::Down;
                }
                if self.direction == Direction::Contract {
                    self.ring = self.ring.wrapping_add(1);
                    self.direction = Direction::Right;
                }
            },
            Direction::Down => {
                self.y = self.y.wrapping_add(1);
                if self.y == self.blob.y_max.wrapping_sub(self.ring) {
                    self.direction = Direction::Left;
                }
            },
            Direction::Left => {
                self.x = self.x.wrapping_sub(1);
                if self.x == self.blob.x_min.wrapping_add(self.ring) {
                    self.direction = Direction::Up;
                }
            },
            Direction::Up => {
                self.y = self.y.wrapping_sub(1);
                if self.y == self.blob.y_min.wrapping_add(self.ring).wrapping_add(1) {
                    self.direction = Direction::Contract;
                }
            },
        }
        self.steps = self.steps + 1;
        Some(out)
    }

    /// Runs the walk to its end and gathers what it gives.
    pub fn collect(self) -> (out: Vec<(u32, u32, u32)>)
        ensures
            out@ == self.rest(),
    {
        let mut rings = self;
        let mut out: Vec<(u32, u32, u32)> = Vec::new();
        loop
            invariant
                out@ + rings.rest() == self.rest(),
                rings.blob == self.blob,
            ensures
                rings.done(),
            decreases rings.blob.area() - rings.steps,
        {
            let ghost before = rings;
            let ghost gathered = out@;
            proof {
                rings.blob.lemma_area_bound();
            }
            match rings.next() {
                Some(triple) => {
                    out.push(triple);
                    proof {
                        assert(before.rest() == seq![triple] + rings.rest());
                        assert(out@ + rings.rest() == gathered + before.rest());
                    }
                },
                None => {
                    break ;
                },
            }
        }
        proof {
            assert(rings.rest() == Seq::<(u32, u32, u32)>::empty());
            assert(out@ + rings.rest() == out@);
        }
        out
    }
}

} // verus!
