//! The frames of one atlas and the figures over them.

use crate::blob::Blob;
use crate::frames::anchored;
use crate::frames::draw_at_position;
use crate::frames::frame_at;
use crate::frames::trimmed;
use crate::frames::Anchor;
use crate::frames::Rect;
use crate::grid::PixelGrid;
use crate::meta::Metablob;
use crate::padding::infer_blob_padding;
use crate::padding::is_least_padding;
use crate::scan::find_blobs;
use crate::scan::is_frame_box;
use crate::scan::is_scan_of;
use vstd::prelude::*;

verus! {

/// Figures over the frames of one animation.
#[derive(Clone, Copy, Debug, PartialEq, Eq, Structural)]
pub struct AnimMeta {
    pub num_frames: usize,
    pub max_width: u64,
    pub max_height: u64,
    /// All widths added up; divided by `num_frames` it is the mean width.
    pub sum_width: u128,
    /// All heights added up; divided by `num_frames` it is the mean height.
    pub sum_height: u128,
    pub pad_blob: u32,
}

/// The frames of a sprite atlas and the figures that drawing needs.
#[derive(Debug)]
pub struct Anim {
    pub blobs: Vec<Blob>,
    pub meta: AnimMeta,
}

/// The greatest width among the boxes, 0 where there is none.
pub open spec fn widest(blobs: Seq<Blob>) -> nat
    decreases blobs.len(),
{
    if blobs.len() == 0 {
        0
    } else if blobs.last().cols() > widest(blobs.drop_last()) {
        blobs.last().cols()
    } else {
        widest(blobs.drop_last())
    }
}

/// The greatest height among the boxes, 0 where there is none.
pub open spec fn tallest(blobs: Seq<Blob>) -> nat
    decreases blobs.len(),
{
    if blobs.len() == 0 {
        0
    } else if blobs.last().rows() > tallest(blobs.drop_last()) {
        blobs.last().rows()
    } else {
        tallest(blobs.drop_last())
    }
}

/// The widths of the boxes added up.
pub open spec fn total_width(blobs: Seq<Blob>) -> nat
    decreases blobs.len(),
{
    if blobs.len() == 0 {
        0
    } else {
        total_width(blobs.drop_last()) + blobs.last().cols()
    }
}

/// The heights of the boxes added up.
pub open spec fn total_height(blobs: Seq<Blob>) -> nat
    decreases blobs.len(),
{
    if blobs.len() == 0 {
        0
    } else {
        total_height(blobs.drop_last()) + blobs.last().rows()
    }
}

/// The padding that goes with a scan: the one that the metadata names, or,
/// without metadata, the least border found on the frames.
pub open spec fn is_resolved_padding(
    grid: PixelGrid,
    blobs: Seq<Blob>,
    meta: Option<Metablob>,
    pad: u32,
) -> bool {
    match meta {
        Some(m) => pad == m.pad_blob,
        None => is_least_padding(grid, blobs, pad),
    }
}

/// The figures over `blobs`, with the given padding.
pub fn summarize(blobs: &[Blob], pad_blob: u32) -> (meta: AnimMeta)
    ensures
        meta.num_frames == blobs@.len(),
        meta.max_width == widest(blobs@),
        meta.max_height == tallest(blobs@),
        meta.sum_width == total_width(blobs@),
        meta.sum_height == total_height(blobs@),
        meta.pad_blob == pad_blob,
{
    let mut max_width: u64 = 0;
    let mut max_height: u64 = 0;
    let mut sum_width: u128 = 0;
    let mut sum_height: u128 = 0;
    let mut i: usize = 0;
    while i < blobs.len()
        invariant
            i <= blobs@.len(),
            max_width == widest(blobs@.take(i as int)),
            max_height == tallest(blobs@.take(i as int)),
            sum_width == total_width(blobs@.take(i as int)),
            sum_height == total_height(blobs@.take(i as int)),
            sum_width <= i * 0x1_0000_0000,
            sum_height <= i * 0x1_0000_0000,
        decreases blobs@.len() - i,
    {
        proof {
            assert(blobs@.take(i + 1).drop_last() =~= blobs@.take(i as int));
            assert(blobs@.take(i + 1).last() == blobs@[i as int]);
        }
        let width = blobs[i].col_count();
        let height = blobs[i].row_count();
        if width > max_width {
            max_width = width;
        }
        if height > max_height {
            max_height = height;
        }
        sum_width = sum_width + width as u128;
        sum_height = sum_height + height as u128;
        i = i + 1;
    }
    proof {
        assert(blobs@.take(i as int) =~= blobs@);
    }
    AnimMeta { num_frames: blobs.len(), max_width, max_height, sum_width, sum_height, pad_blob }
}

impl Anim {
    /// An animation without frames.
    pub fn new() -> (anim: Anim)
        ensures
            anim.blobs@.len() == 0,
            anim.meta == (AnimMeta {
                num_frames: 0,
                max_width: 0,
                max_height: 0,
                sum_width: 0,
                sum_height: 0,
                pad_blob: 0,
            }),
    {
        Anim {
            blobs: Vec::new(),
            meta: AnimMeta {
                num_frames: 0,
                max_width: 0,
                max_height: 0,
                sum_width: 0,
                sum_height: 0,
                pad_blob: 0,
            },
        }
    }

    /// Segments the atlas into frames and works out the figures over them.
    /// The padding is the one that the atlas names in its metadata; an atlas
    /// without metadata gets the padding inferred from its frames.
    pub fn find_blobs(&mut self, grid: &PixelGrid)
        requires
            grid.wf(),
        ensures
            exists|meta: Option<Metablob>| #[trigger]
                is_scan_of(*grid, final(self).blobs@, meta) && is_resolved_padding(
                    *grid,
                    final(self).blobs@,
                    meta,
                    final(self).meta.pad_blob,
                ),
            forall|i: int|
                0 <= i < final(self).blobs@.len() ==> is_frame_box(*grid, #[trigger] final(self).blobs@[i]),
            final(self).meta.num_frames == final(self).blobs@.len(),
            final(self).meta.max_width == widest(final(self).blobs@),
            final(self).meta.max_height == tallest(final(self).blobs@),
            final(self).meta.sum_width == total_width(final(self).blobs@),
            final(self).meta.sum_height == total_height(final(self).blobs@),
    {
        let (blobs, metablob) = find_blobs(grid);
        let pad_blob = match metablob {
            Some(m) => m.pad_blob,
            None => infer_blob_padding(grid, blobs.as_slice()),
        };
        self.meta = summarize(blobs.as_slice(), pad_blob);
        self.blobs = blobs;
        assert(is_scan_of(*grid, self.blobs@, metablob));
    }

    /// The source and destination rectangles for drawing the animation at
    /// `(x, y)` at `time`.
    pub fn draw(
        &self,
        x: i32,
        y: i32,
        scale: u16,
        anchor: Anchor,
        time: u64,
        frame_duration: u64,
    ) -> (rects: (Rect, Rect))
        requires
            frame_duration > 0,
            self.blobs@.len() > 0,
            forall|i: int| 0 <= i < self.blobs@.len() ==> (#[trigger] self.blobs@[i]).wf(),
        ensures
            rects.0 == trimmed(
                self.blobs@[frame_at(time as nat, frame_duration as nat, self.blobs@.len()) as int],
                self.meta.pad_blob,
            ),
            rects.1 == anchored(
                x,
                y,
                scale,
                anchor,
                self.blobs@[frame_at(time as nat, frame_duration as nat, self.blobs@.len()) as int],
            ),
    {
        draw_at_position(
            x,
            y,
            self.blobs.as_slice(),
            time,
            frame_duration,
            scale,
            anchor,
            self.meta.pad_blob,
        )
    }
}

} // verus!
