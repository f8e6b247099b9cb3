//! Inferring the transparent border of the frames of an atlas.

use crate::blob::Blob;
use crate::grid::PixelGrid;
use crate::rings::BlobRings;
use crate::spiral::cells_before;
use crate::spiral::lemma_cells_within_shrinks;
use crate::spiral::lemma_lap;
use crate::spiral::lemma_spiral_index_bounds;
use crate::spiral::lemma_spiral_index_injective;
use crate::spiral::lemma_start_on_track;
use crate::spiral::lemma_step_off_track;
use crate::spiral::lemma_step_on_track;
use crate::spiral::off_track;
use crate::spiral::on_track;
use crate::spiral::ring_of;
use crate::spiral::spiral_index;
use vstd::prelude::*;

verus! {

/// The highest ring on which the walk sees a transparent pixel before it
/// meets its first pixel that is not transparent, starting from `best`. The
/// walk also ends where the box is exhausted or a position falls outside the
/// grid.
pub open spec fn padding_from(grid: PixelGrid, rings: BlobRings, best: u32) -> u32
    decreases rings.blob.area() - rings.steps,
    via padding_from_terminates
{
    if rings.done() || !grid.in_bounds(rings.x as int, rings.y as int) || !grid.pixel(
        rings.x as int,
        rings.y as int,
    ).is_alpha() {
        best
    } else {
        padding_from(grid, rings.advance(), if rings.ring > best { rings.ring } else { best })
    }
}

#[via_fn]
proof fn padding_from_terminates(grid: PixelGrid, rings: BlobRings, best: u32) {
    rings.blob.lemma_area_bound();
}

/// The border that one frame tolerates: 0 where its very first pixel is opaque.
pub open spec fn blob_padding(grid: PixelGrid, blob: Blob) -> u32 {
    padding_from(grid, BlobRings::start(blob), 0)
}

/// `pad` is the least of the frames' own estimates, or 0 where there is no frame.
pub open spec fn is_least_padding(grid: PixelGrid, blobs: Seq<Blob>, pad: u32) -> bool {
    if blobs.len() == 0 {
        pad == 0
    } else {
        &&& forall|i: int| 0 <= i < blobs.len() ==> pad <= #[trigger] blob_padding(grid, blobs[i])
        &&& exists|i: int| 0 <= i < blobs.len() && pad == #[trigger] blob_padding(grid, blobs[i])
    }
}

/// Where every frame has the same estimate, that estimate is the padding of
/// the atlas; where they differ, the padding is the least of them, so it is
/// below the estimate of no frame.
pub proof fn lemma_least_padding(grid: PixelGrid, blobs: Seq<Blob>, pad: u32, each: u32)
    requires
        is_least_padding(grid, blobs, pad),
        blobs.len() > 0,
    ensures
        (forall|i: int| 0 <= i < blobs.len() ==> #[trigger] blob_padding(grid, blobs[i]) == each) ==> pad
            == each,
        forall|other: u32|
            is_least_padding(grid, blobs, other) ==> other == pad,
{
    let k = choose|i: int| 0 <= i < blobs.len() && pad == #[trigger] blob_padding(grid, blobs[i]);
    assert(pad == blob_padding(grid, blobs[k]));
    assert forall|other: u32| is_least_padding(grid, blobs, other) implies other == pad by {
        let j = choose|i: int| 0 <= i < blobs.len() && other == #[trigger] blob_padding(grid, blobs[i]);
        assert(pad <= blob_padding(grid, blobs[j]));
        assert(other <= blob_padding(grid, blobs[k]));
    }
}

/// The frame has a transparent border of exactly `p` pixels that the walk can
/// tell: all pixels on the `p` outermost rings are transparent, ring `p` holds
/// a pixel that is not, and, unless `p` is 0, the walk finds the first pixel
/// of ring `p`, its top-left corner, transparent.
pub open spec fn has_border(grid: PixelGrid, blob: Blob, p: int) -> bool {
    &&& grid.holds(blob)
    &&& 0 <= p
    &&& 2 * p < blob.cols()
    &&& 2 * p < blob.rows()
    &&& forall|x: int, y: int|
        blob.contains(x, y) && #[trigger] ring_of(blob, x, y) < p ==> grid.pixel(x, y).is_alpha()
    &&& exists|x: int, y: int|
        blob.contains(x, y) && #[trigger] ring_of(blob, x, y) == p && !grid.pixel(x, y).is_alpha()
    &&& (p == 0 || grid.pixel(blob.x_min + p, blob.y_min + p).is_alpha())
}

/// A walk that has left the spiral ends with the index of its ring, if it had
/// seen a transparent pixel on that ring and none on a ring further in.
pub proof fn lemma_off_track_walk(grid: PixelGrid, st: BlobRings)
    requires
        st.done() || off_track(st),
    ensures
        padding_from(grid, st, st.ring) == st.ring,
    decreases st.blob.area() - st.steps,
{
    st.blob.lemma_area_bound();
    if !st.done() {
        lemma_step_off_track(st);
        lemma_off_track_walk(grid, st.advance());
    }
}

/// A walk that has not yet met the pixel `(u, v)` of ring `p`, which is not
/// transparent, over a frame with a border of `p` pixels, ends with `p`.
pub proof fn lemma_border_walk(grid: PixelGrid, st: BlobRings, best: u32, p: int, u: int, v: int)
    requires
        has_border(grid, st.blob, p),
        on_track(st),
        st.blob.contains(u, v),
        ring_of(st.blob, u, v) == p,
        !grid.pixel(u, v).is_alpha(),
        st.steps <= spiral_index(st.blob, u, v),
        best <= p,
        st.steps > cells_before(st.blob, p) ==> best == p,
    ensures
        padding_from(grid, st, best) == p,
    decreases st.blob.area() - st.steps,
{
    let blob = st.blob;
    let x = st.x as int;
    let y = st.y as int;
    let r = st.ring as int;
    blob.lemma_area_bound();
    lemma_spiral_index_bounds(blob, u, v);
    lemma_step_on_track(st);
    lemma_spiral_index_bounds(blob, x, y);
    lemma_lap(blob, p);
    lemma_lap(blob, r);
    if r < p {
        lemma_cells_within_shrinks(blob, r + 1, p);
    } else if r > p {
        lemma_cells_within_shrinks(blob, p + 1, r);
    }
    if st.steps == spiral_index(blob, u, v) {
        lemma_spiral_index_injective(blob, x, y, u, v);
    }
    if st.steps == cells_before(blob, p) {
        lemma_spiral_index_bounds(blob, blob.x_min + p, blob.y_min + p);
        assert(ring_of(blob, blob.x_min + p, blob.y_min + p) == p);
        lemma_spiral_index_injective(blob, x, y, blob.x_min + p, blob.y_min + p);
    }
    if grid.pixel(x, y).is_alpha() {
        let next_best = if st.ring > best { st.ring } else { best };
        if on_track(st.advance()) {
            lemma_border_walk(grid, st.advance(), next_best, p, u, v);
        } else {
            lemma_off_track_walk(grid, st.advance());
        }
    }
}

/// A frame with a transparent border of `p` pixels is estimated at `p`.
pub proof fn lemma_border_is_padding(grid: PixelGrid, blob: Blob, p: int)
    requires
        has_border(grid, blob, p),
    ensures
        blob_padding(grid, blob) == p,
{
    let (u, v) = choose|x: int, y: int|
        blob.contains(x, y) && #[trigger] ring_of(blob, x, y) == p && !grid.pixel(x, y).is_alpha();
    lemma_start_on_track(blob);
    lemma_spiral_index_bounds(blob, u, v);
    lemma_lap(blob, p);
    lemma_cells_within_shrinks(blob, 0, p);
    lemma_border_walk(grid, BlobRings::start(blob), 0, p, u, v);
}

/// Where every frame of an atlas has a transparent border of `p` pixels, the
/// padding of the atlas is `p`.
pub proof fn lemma_uniform_border(grid: PixelGrid, blobs: Seq<Blob>, pad: u32, p: int)
    requires
        is_least_padding(grid, blobs, pad),
        blobs.len() > 0,
        forall|i: int| 0 <= i < blobs.len() ==> has_border(grid, #[trigger] blobs[i], p),
    ensures
        pad == p,
{
    let k = choose|i: int| 0 <= i < blobs.len() && pad == #[trigger] blob_padding(grid, blobs[i]);
    lemma_border_is_padding(grid, blobs[k], p);
}

/// Walks the rings of one frame until the first pixel that is not transparent.
pub fn infer_one_padding(grid: &PixelGrid, blob: &Blob) -> (pad: u32)
    requires
        grid.wf(),
    ensures
        pad == blob_padding(*grid, *blob),
{
    let mut rings = BlobRings::new(*blob);
    let mut max_ring: u32 = 0;
    loop
        invariant_except_break
            padding_from(*grid, rings, max_ring) == blob_padding(*grid, *blob),
        invariant
            grid.wf(),
            rings.blob == *blob,
        ensures
            max_ring == blob_padding(*grid, *blob),
        decreases rings.blob.area() - rings.steps,
    {
        proof {
            rings.blob.lemma_area_bound();
        }
        match rings.next() {
            Some((x, y, ring)) => {
                if x as usize >= grid.width || y as usize >= grid.height {
                    break ;
                }
                let color = grid.at(x as usize, y as usize);
                if color.a == 0 {
                    if ring > max_ring {
                        max_ring = ring;
                    }
                } else {
                    break ;
                }
            },
            None => {
                break ;
            },
        }
    }
    max_ring
}

/// The padding to trim from every frame when the atlas carries no metadata:
/// the least border found on any frame, so that no frame loses opaque pixels.
pub fn infer_blob_padding(grid: &PixelGrid, blobs: &[Blob]) -> (pad: u32)
    requires
        grid.wf(),
    ensures
        is_least_padding(*grid, blobs@, pad),
{
    if blobs.len() == 0 {
        return 0;
    }
    let mut pad: u32 = infer_one_padding(grid, &blobs[0]);
    let mut i: usize = 1;
    while i < blobs.len()
        invariant
            grid.wf(),
            1 <= i <= blobs@.len(),
            forall|k: int| 0 <= k < i ==> pad <= #[trigger] blob_padding(*grid, blobs@[k]),
            exists|k: int| 0 <= k < i && pad == #[trigger] blob_padding(*grid, blobs@[k]),
        decreases blobs@.len() - i,
    {
        let one = infer_one_padding(grid, &blobs[i]);
        if one < pad {
            pad = one;
        }
        i = i + 1;
    }
    pad
}

} // verus!
