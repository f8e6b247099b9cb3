//! Segmenting an atlas into the bounding boxes of its regions.

use crate::blob::Blob;
use crate::flood::FindBlobsData;
use crate::grid::PixelGrid;
use crate::meta::decode;
use crate::meta::try_parse_as_metablob;
use crate::meta::Metablob;
use crate::order::in_reading_order;
use crate::order::is_ordered;
use crate::order::lemma_reading_order_member;
use crate::order::lemma_reading_order_ordered;
use crate::order::lemma_reading_order_permutes;
use crate::order::sort_blobs;
use crate::region::closed;
use crate::region::connected;
use crate::region::is_census;
use crate::region::is_extent;
use crate::region::lemma_census_unique;
use crate::region::lemma_connected_self;
use crate::region::reached;
use crate::region::scanned_by;
use vstd::prelude::*;

verus! {

/// The boxes that are ordinary frames: those that do not decode as metadata.
pub open spec fn frames_among(grid: PixelGrid, boxes: Seq<Blob>) -> Seq<Blob>
    decreases boxes.len(),
{
    if boxes.len() == 0 {
        Seq::empty()
    } else if decode(grid, boxes.last()).is_none() {
        frames_among(grid, boxes.drop_last()).push(boxes.last())
    } else {
        frames_among(grid, boxes.drop_last())
    }
}

/// The metadata of the last box that decodes as metadata, if any does.
pub open spec fn last_metablob(grid: PixelGrid, boxes: Seq<Blob>) -> Option<Metablob>
    decreases boxes.len(),
{
    if boxes.len() == 0 {
        None
    } else if decode(grid, boxes.last()).is_some() {
        decode(grid, boxes.last())
    } else {
        last_metablob(grid, boxes.drop_last())
    }
}

/// What a scan of the grid has to give: nothing for a grid that is at most
/// two cells wide or high; otherwise the bounding boxes of the regions that
/// are ordinary frames, in reading order, and the metadata of the region that
/// carries any (of the last one that the scan meets, where several do).
pub open spec fn is_scan_of(grid: PixelGrid, blobs: Seq<Blob>, meta: Option<Metablob>) -> bool {
    if grid.width <= 2 || grid.height <= 2 {
        blobs.len() == 0 && meta.is_none()
    } else {
        exists|seeds: Seq<(int, int)>, boxes: Seq<Blob>| #[trigger]
            is_census(grid, seeds, boxes) && blobs == in_reading_order(frames_among(grid, boxes))
                && meta == last_metablob(grid, boxes)
    }
}

/// The state of a scan that has looked at every cell before `(x, y)`:
/// `seeds` and `boxes` list the regions met so far, and every sprite cell
/// looked at lies in one of them.
pub open spec fn scan_state(
    grid: PixelGrid,
    data: FindBlobsData,
    seeds: Seq<(int, int)>,
    boxes: Seq<Blob>,
    x: int,
    y: int,
) -> bool {
    &&& data.wf(grid)
    &&& closed(grid, data.swept(grid))
    &&& forall|u: int, v: int|
        grid.in_bounds(u, v) && (u < x || (u == x && v < y)) ==> data.seen(grid, u, v)
    &&& seeds.len() == boxes.len()
    &&& forall|i: int|
        0 <= i < seeds.len() ==> grid.is_sprite((#[trigger] seeds[i]).0, seeds[i].1) && is_extent(
            grid,
            seeds[i],
            boxes[i],
        ) && grid.holds(boxes[i]) && data.seen(grid, seeds[i].0, seeds[i].1) && (seeds[i].0 < x || (
        seeds[i].0 == x && seeds[i].1 < y))
    &&& forall|i: int, q: (int, int)|
        0 <= i < seeds.len() && #[trigger] connected(grid, seeds[i], q) ==> data.seen(grid, q.0, q.1)
            && scanned_by(seeds[i], q)
    &&& forall|i: int, j: int|
        0 <= i < j < seeds.len() ==> !scanned_by(#[trigger] seeds[j], #[trigger] seeds[i])
    &&& forall|i: int, j: int|
        0 <= i < seeds.len() && 0 <= j < seeds.len() && i != j ==> !connected(
            grid,
            #[trigger] seeds[i],
            #[trigger] seeds[j],
        )
    &&& forall|p: (int, int)| #[trigger] data.swept(grid).contains(p) ==> reached(grid, seeds, p)
}

/// A region that lay in one of the listed regions still does when another
/// seed joins the list.
pub proof fn lemma_reached_more(grid: PixelGrid, seeds: Seq<(int, int)>, seed: (int, int), p: (int, int))
    requires
        reached(grid, seeds, p),
    ensures
        reached(grid, seeds.push(seed), p),
{
    let i = choose|i: int| 0 <= i < seeds.len() && connected(grid, #[trigger] seeds[i], p);
    assert(seeds.push(seed)[i] == seeds[i]);
}

/// A cell in the region of a seed that joins the list lies in a listed region.
pub proof fn lemma_reached_last(grid: PixelGrid, seeds: Seq<(int, int)>, seed: (int, int), p: (int, int))
    requires
        connected(grid, seed, p),
    ensures
        reached(grid, seeds.push(seed), p),
{
    assert(seeds.push(seed)[seeds.len() as int] == seed);
}

/// `blob` can be a frame: it lies inside the grid, is the bounding box of a
/// region and does not decode as metadata.
pub open spec fn is_frame_box(grid: PixelGrid, blob: Blob) -> bool {
    &&& grid.holds(blob)
    &&& decode(grid, blob).is_none()
    &&& exists|seed: (int, int)| grid.is_sprite(seed.0, seed.1) && #[trigger] is_extent(grid, seed, blob)
}

/// Whatever stands among the frames is one of the boxes, and does not decode
/// as metadata.
pub proof fn lemma_frames_member(grid: PixelGrid, boxes: Seq<Blob>, i: int)
    requires
        0 <= i < frames_among(grid, boxes).len(),
    ensures
        boxes.contains(frames_among(grid, boxes)[i]),
        decode(grid, frames_among(grid, boxes)[i]).is_none(),
    decreases boxes.len(),
{
    let head = boxes.drop_last();
    let frames = frames_among(grid, boxes);
    if decode(grid, boxes.last()).is_none() && i == frames.len() - 1 {
        assert(boxes[boxes.len() - 1] == frames[i]);
    } else {
        lemma_frames_member(grid, head, i);
        let k = choose|k: int| 0 <= k < head.len() && head[k] == frames_among(grid, head)[i];
        assert(boxes[k] == frames[i]);
    }
}

/// The frames of a scan stand in reading order, and each of them is the
/// bounding box of a region of the atlas.
pub proof fn lemma_scan_frames_are_regions(grid: PixelGrid, blobs: Seq<Blob>, meta: Option<Metablob>)
    requires
        is_scan_of(grid, blobs, meta),
    ensures
        is_ordered(blobs),
        forall|i: int| 0 <= i < blobs.len() ==> is_frame_box(grid, #[trigger] blobs[i]),
{
    if grid.width > 2 && grid.height > 2 {
        let (seeds, boxes) = choose|seeds: Seq<(int, int)>, boxes: Seq<Blob>| #[trigger]
            is_census(grid, seeds, boxes) && blobs == in_reading_order(frames_among(grid, boxes))
                && meta == last_metablob(grid, boxes);
        let frames = frames_among(grid, boxes);
        lemma_reading_order_ordered(frames);
        assert forall|i: int| 0 <= i < blobs.len() implies is_frame_box(grid, #[trigger] blobs[i]) by {
            lemma_reading_order_member(frames, i);
            let j = choose|j: int| 0 <= j < frames.len() && frames[j] == blobs[i];
            lemma_frames_member(grid, boxes, j);
            let k = choose|k: int| 0 <= k < boxes.len() && boxes[k] == blobs[i];
            assert(grid.is_sprite(seeds[k].0, seeds[k].1) && is_extent(grid, seeds[k], boxes[k]));
        }
    }
}

/// A grid has one scan: what `is_scan_of` asks for leaves no choice.
pub proof fn lemma_scan_unique(
    grid: PixelGrid,
    blobs: Seq<Blob>,
    meta: Option<Metablob>,
    other_blobs: Seq<Blob>,
    other_meta: Option<Metablob>,
)
    requires
        is_scan_of(grid, blobs, meta),
        is_scan_of(grid, other_blobs, other_meta),
    ensures
        blobs == other_blobs,
        meta == other_meta,
{
    if grid.width > 2 && grid.height > 2 {
        let (seeds, boxes) = choose|seeds: Seq<(int, int)>, boxes: Seq<Blob>| #[trigger]
            is_census(grid, seeds, boxes) && blobs == in_reading_order(frames_among(grid, boxes))
                && meta == last_metablob(grid, boxes);
        let (others, other_boxes) = choose|seeds: Seq<(int, int)>, boxes: Seq<Blob>| #[trigger]
            is_census(grid, seeds, boxes) && other_blobs == in_reading_order(
                frames_among(grid, boxes),
            ) && other_meta == last_metablob(grid, boxes);
        lemma_census_unique(grid, seeds, boxes, others, other_boxes);
    } else {
        assert(blobs =~= other_blobs);
    }
}

/// Where no region of the atlas decodes as metadata, the scan gives one frame
/// for each region: with `seeds` naming the regions once each and `boxes`
/// their bounding boxes, the frames are those boxes, each as often as it is
/// the box of a region, in reading order, and there is no metadata.
pub proof fn lemma_scan_counts_regions(
    grid: PixelGrid,
    blobs: Seq<Blob>,
    meta: Option<Metablob>,
    seeds: Seq<(int, int)>,
    boxes: Seq<Blob>,
)
    requires
        grid.width > 2,
        grid.height > 2,
        is_scan_of(grid, blobs, meta),
        is_census(grid, seeds, boxes),
        forall|i: int| 0 <= i < boxes.len() ==> decode(grid, #[trigger] boxes[i]).is_none(),
    ensures
        blobs.len() == seeds.len(),
        blobs.to_multiset() == boxes.to_multiset(),
        is_ordered(blobs),
        meta.is_none(),
{
    let (found_seeds, found) = choose|seeds: Seq<(int, int)>, boxes: Seq<Blob>| #[trigger]
        is_census(grid, seeds, boxes) && blobs == in_reading_order(frames_among(grid, boxes)) && meta
            == last_metablob(grid, boxes);
    lemma_census_unique(grid, seeds, boxes, found_seeds, found);
    lemma_frames_are_all(grid, boxes);
    lemma_reading_order_permutes(boxes);
    lemma_reading_order_ordered(boxes);
}

/// Where none of the boxes decodes as metadata, all of them are frames.
pub proof fn lemma_frames_are_all(grid: PixelGrid, boxes: Seq<Blob>)
    requires
        forall|i: int| 0 <= i < boxes.len() ==> decode(grid, #[trigger] boxes[i]).is_none(),
    ensures
        frames_among(grid, boxes) == boxes,
        last_metablob(grid, boxes).is_none(),
    decreases boxes.len(),
{
    if boxes.len() > 0 {
        let head = boxes.drop_last();
        assert forall|i: int| 0 <= i < head.len() implies decode(grid, #[trigger] head[i]).is_none() by {
            assert(head[i] == boxes[i]);
        }
        lemma_frames_are_all(grid, head);
        assert(decode(grid, boxes[boxes.len() - 1]).is_none());
        assert(head.push(boxes.last()) =~= boxes);
    } else {
        assert(boxes =~= Seq::<Blob>::empty());
    }
}

/// Finds the sprite frames of an atlas: the bounding box of every region of
/// cells that are not background and hang together edge to edge. A region
/// that decodes as metadata is not a frame; its metadata is handed out
/// beside the frames.
pub fn find_blobs(grid: &PixelGrid) -> (out: (Vec<Blob>, Option<Metablob>))
    requires
        grid.wf(),
    ensures
        is_scan_of(*grid, out.0@, out.1),
        is_ordered(out.0@),
        forall|i: int| 0 <= i < out.0@.len() ==> is_frame_box(*grid, #[trigger] out.0@[i]),
{
    let mut blobs: Vec<Blob> = Vec::new();
    let mut metablob: Option<Metablob> = None;
    if grid.width <= 2 || grid.height <= 2 {
        return (blobs, metablob);
    }
    let mut data = FindBlobsData::new(grid);
    let ghost mut seeds: Seq<(int, int)> = Seq::empty();
    let ghost mut boxes: Seq<Blob> = Seq::empty();
    let mut x: usize = 0;
    while x < grid.width
        invariant
            x <= grid.width,
            scan_state(*grid, data, seeds, boxes, x as int, 0),
            blobs@ == frames_among(*grid, boxes),
            metablob == last_metablob(*grid, boxes),
        decreases grid.width - x,
    {
        let mut y: usize = 0;
        while y < grid.height
            invariant
                x < grid.width,
                y <= grid.height,
                scan_state(*grid, data, seeds, boxes, x as int, y as int),
                blobs@ == frames_among(*grid, boxes),
                metablob == last_metablob(*grid, boxes),
            decreases grid.height - y,
        {
            let ghost before = data;
            let color = data.visit(grid, x, y);
            if color.is_none() {
                proof {
                    assert(data.swept(*grid) =~= before.swept(*grid));
                }
                y = y + 1;
                continue ;
            }
            let ghost seed = (x as int, y as int);
            let ghost mid = data;
            proof {
                assert(mid.swept(*grid).remove(seed) =~= before.swept(*grid));
            }
            let blob = data.flood(grid, x, y);
            proof {
                let more = seeds.push(seed);
                lemma_connected_self(*grid, seed);
                assert forall|p: (int, int)| #[trigger]
                    data.swept(*grid).contains(p) implies reached(*grid, more, p) by {
                    if before.swept(*grid).contains(p) {
                        lemma_reached_more(*grid, seeds, seed, p);
                    } else if mid.swept(*grid).contains(p) {
                        assert(p == seed);
                        lemma_reached_last(*grid, seeds, seed, p);
                    } else {
                        lemma_reached_last(*grid, seeds, seed, p);
                    }
                }
                assert forall|i: int, q: (int, int)|
                    0 <= i < more.len() && #[trigger] connected(*grid, more[i], q) implies data.seen(
                    *grid,
                    q.0,
                    q.1,
                ) && scanned_by(more[i], q) by {
                    if i < seeds.len() {
                        assert(more[i] == seeds[i]);
                        assert(before.seen(*grid, q.0, q.1));
                    }
                }
                assert forall|i: int, j: int|
                    0 <= i < more.len() && 0 <= j < more.len() && i != j implies !connected(
                    *grid,
                    #[trigger] more[i],
                    #[trigger] more[j],
                ) by {
                    if i < seeds.len() && j < seeds.len() {
                        assert(more[i] == seeds[i] && more[j] == seeds[j]);
                    } else if i < seeds.len() {
                        assert(more[i] == seeds[i]);
                        if connected(*grid, seeds[i], seed) {
                            assert(before.seen(*grid, seed.0, seed.1));
                        }
                    } else {
                        assert(more[j] == seeds[j]);
                        assert(before.seen(*grid, seeds[j].0, seeds[j].1));
                    }
                }
                let before_boxes = boxes;
                seeds = more;
                boxes = boxes.push(blob);
                assert(boxes.drop_last() =~= before_boxes);
            }
            match try_parse_as_metablob(grid, &blob) {
                Some(new_metablob) => {
                    metablob = Some(new_metablob);
                },
                None => {
                    blobs.push(blob);
                },
            }
            y = y + 1;
        }
        x = x + 1;
    }
    let sorted = sort_blobs(&blobs);
    proof {
        assert forall|p: (int, int)| grid.is_sprite(p.0, p.1) implies #[trigger] reached(
            *grid,
            seeds,
            p,
        ) by {
            assert(data.seen(*grid, p.0, p.1));
            assert(data.swept(*grid).contains(p));
        }
        assert(is_census(*grid, seeds, boxes));
        assert(is_scan_of(*grid, sorted@, metablob));
        lemma_scan_frames_are_regions(*grid, sorted@, metablob);
    }
    (sorted, metablob)
}

} // verus!
