//! Where the ring walk is after a number of steps, in closed form.

use crate::blob::Blob;
use crate::rings::BlobRings;
use crate::rings::Direction;
use vstd::prelude::*;

verus! {

pub open spec fn least(a: int, b: int) -> int {
    if a <= b {
        a
    } else {
        b
    }
}

/// The ring of the box on which a pixel lies: its distance to the nearest side.
pub open spec fn ring_of(blob: Blob, x: int, y: int) -> int {
    least(least(x - blob.x_min, blob.x_max - x), least(y - blob.y_min, blob.y_max - y))
}

/// How many pixels lie on ring `r` or further in.
pub open spec fn cells_within(blob: Blob, r: int) -> int {
    (blob.cols() - 2 * r) * (blob.rows() - 2 * r)
}

/// How many pixels lie on the rings outside ring `r`.
pub open spec fn cells_before(blob: Blob, r: int) -> int {
    blob.area() - cells_within(blob, r)
}

/// The place of a pixel on the lap round its ring: the lap starts at the
/// top-left corner of the ring and runs along the top, down the right side,
/// back along the bottom and up the left side.
pub open spec fn lap_offset(blob: Blob, x: int, y: int) -> int {
    let r = ring_of(blob, x, y);
    let x0 = blob.x_min + r;
    let x1 = blob.x_max - r;
    let y0 = blob.y_min + r;
    let y1 = blob.y_max - r;
    let w = x1 - x0 + 1;
    let h = y1 - y0 + 1;
    if y == y0 {
        x - x0
    } else if x == x1 {
        (w - 1) + (y - y0)
    } else if y == y1 {
        (w - 1) + (h - 1) + (x1 - x)
    } else {
        2 * (w - 1) + (h - 1) + (y1 - y)
    }
}

/// The place of a pixel in the walk over the box: after all pixels of the
/// rings outside its own, at its place on the lap.
pub open spec fn spiral_index(blob: Blob, x: int, y: int) -> int {
    cells_before(blob, ring_of(blob, x, y)) + lap_offset(blob, x, y)
}

/// The walk stays inside the box. It does not for a box of odd width that is
/// higher than wide: its innermost ring is a column of several pixels, and
/// the walk sets out to the right on every ring.
pub open spec fn spirals(blob: Blob) -> bool {
    blob.wf() && !(blob.cols() % 2 == 1 && blob.rows() > blob.cols())
}

/// The walk stands where the spiral is after `steps` pixels.
pub open spec fn on_track(st: BlobRings) -> bool {
    let blob = st.blob;
    let r = st.ring as int;
    let x0 = blob.x_min + r;
    let x1 = blob.x_max - r;
    let y0 = blob.y_min + r;
    let y1 = blob.y_max - r;
    let w = x1 - x0 + 1;
    let h = y1 - y0 + 1;
    let before = cells_before(blob, r);
    &&& blob.wf()
    &&& w >= 1
    &&& h >= 1
    &&& match st.direction {
        Direction::Right => {
            &&& st.y == y0
            &&& x0 <= st.x <= x1
            &&& st.steps == before + (st.x - x0)
            &&& (st.x < x1 || w == 1)
        },
        Direction::Down => {
            &&& st.x == x1
            &&& y0 <= st.y <= y1
            &&& w >= 2
            &&& st.steps == before + (w - 1) + (st.y - y0)
            &&& (st.y < y1 || h == 1)
        },
        Direction::Left => {
            &&& st.y == y1
            &&& x0 < st.x <= x1
            &&& h >= 2
            &&& st.steps == before + (w - 1) + (h - 1) + (x1 - st.x)
        },
        Direction::Up => {
            &&& st.x == x0
            &&& w >= 2
            &&& h >= 2
            &&& st.steps == before + 2 * (w - 1) + (h - 1) + (y1 - st.y)
            &&& ((y0 + 1 < st.y <= y1) || (h == 2 && st.y == y1))
        },
        Direction::Contract => {
            &&& st.x == x0
            &&& st.y == y0 + 1
            &&& w >= 2
            &&& h >= 3
            &&& st.steps == before + 2 * w + 2 * h - 5
        },
    }
}

/// How the number of pixels within a ring depends on its sides.
pub proof fn lemma_lap(blob: Blob, r: int)
    requires
        blob.wf(),
    ensures
        cells_within(blob, 0) == blob.area(),
        cells_within(blob, r) - cells_within(blob, r + 1) == 2 * (blob.cols() - 2 * r) + 2 * (blob.rows()
            - 2 * r) - 4,
        blob.rows() - 2 * r == 1 ==> cells_within(blob, r) == blob.cols() - 2 * r,
        blob.rows() - 2 * r == 2 ==> cells_within(blob, r) == 2 * (blob.cols() - 2 * r),
        blob.cols() - 2 * r == 1 ==> cells_within(blob, r) == blob.rows() - 2 * r,
        blob.cols() - 2 * r == 2 ==> cells_within(blob, r) == 2 * (blob.rows() - 2 * r),
        blob.cols() - 2 * r >= 2 && blob.rows() - 2 * r >= 2 ==> cells_within(blob, r + 1) >= 0,
        blob.cols() - 2 * r >= 1 && blob.rows() - 2 * r >= 1 ==> cells_within(blob, r) >= 1,
{
    let w = blob.cols() - 2 * r;
    let h = blob.rows() - 2 * r;
    assert(cells_within(blob, r) == w * h);
    assert(cells_within(blob, r + 1) == (w - 2) * (h - 2));
    assert(w * h - (w - 2) * (h - 2) == 2 * w + 2 * h - 4) by (nonlinear_arith);
    assert(h == 1 ==> w * h == w) by (nonlinear_arith);
    assert(h == 2 ==> w * h == 2 * w) by (nonlinear_arith);
    assert(w == 1 ==> w * h == h) by (nonlinear_arith);
    assert(w == 2 ==> w * h == 2 * h) by (nonlinear_arith);
    assert(w >= 2 && h >= 2 ==> (w - 2) * (h - 2) >= 0) by (nonlinear_arith);
    assert(w >= 1 && h >= 1 ==> w * h >= 1) by (nonlinear_arith);
}

/// The walk has left the spiral: its ring is a column of several pixels, of
/// which it gave the topmost, and it has gone on to the right since, round the
/// end of the number range where it came to it.
pub open spec fn off_track(st: BlobRings) -> bool {
    let blob = st.blob;
    let r = st.ring as int;
    let x0 = blob.x_min + r;
    let gone = st.steps - cells_before(blob, r);
    &&& blob.wf()
    &&& st.direction == Direction::Right
    &&& blob.cols() - 2 * r == 1
    &&& blob.rows() - 2 * r > 1
    &&& 1 <= gone < 0x1_0000_0000
    &&& st.x == if x0 + gone > u32::MAX {
        x0 + gone - 0x1_0000_0000
    } else {
        x0 + gone
    }
}

/// The walk sets out on the spiral.
pub proof fn lemma_start_on_track(blob: Blob)
    requires
        blob.wf(),
    ensures
        on_track(BlobRings::start(blob)),
{
    lemma_lap(blob, 0);
}

/// A walk on the spiral gives the pixel that the spiral has at this place.
/// After the step it is on the spiral again, unless it has come to its end,
/// or has gone through the top of a ring that is a column of several pixels.
pub proof fn lemma_step_on_track(st: BlobRings)
    requires
        on_track(st),
        !st.done(),
    ensures
        st.blob.contains(st.x as int, st.y as int),
        ring_of(st.blob, st.x as int, st.y as int) == st.ring,
        spiral_index(st.blob, st.x as int, st.y as int) == st.steps,
        st.advance().done() || on_track(st.advance()) || off_track(st.advance()),
        off_track(st.advance()) ==> st.advance().ring == st.ring,
        st.advance().blob == st.blob,
        st.advance().steps == st.steps + 1,
{
    let blob = st.blob;
    let r = st.ring as int;
    blob.lemma_area_bound();
    lemma_lap(blob, r);
    lemma_lap(blob, r + 1);
}

/// A walk that has left the spiral stays on its ring for good.
pub proof fn lemma_step_off_track(st: BlobRings)
    requires
        off_track(st),
        !st.done(),
    ensures
        st.advance().done() || off_track(st.advance()),
        st.advance().ring == st.ring,
        st.advance().blob == st.blob,
        st.advance().steps == st.steps + 1,
{
    let blob = st.blob;
    blob.lemma_area_bound();
    lemma_lap(blob, st.ring as int);
}

/// How many pixels a walk still has to give.
pub proof fn lemma_rest_len(st: BlobRings)
    ensures
        st.rest().len() == if st.done() {
            0
        } else {
            st.blob.area() - st.steps
        },
    decreases st.blob.area() - st.steps,
{
    st.blob.lemma_area_bound();
    if !st.done() {
        lemma_rest_len(st.advance());
    }
}

/// What a walk on the spiral gives at each place.
pub proof fn lemma_rest_on_track(st: BlobRings, i: int)
    requires
        spirals(st.blob),
        st.done() || on_track(st),
        0 <= i < st.rest().len(),
    ensures
        st.blob.contains(st.rest()[i].0 as int, st.rest()[i].1 as int),
        st.rest()[i].2 == ring_of(st.blob, st.rest()[i].0 as int, st.rest()[i].1 as int),
        spiral_index(st.blob, st.rest()[i].0 as int, st.rest()[i].1 as int) == st.steps + i,
    decreases st.blob.area() - st.steps,
{
    st.blob.lemma_area_bound();
    if !st.done() {
        lemma_step_on_track(st);
        if i > 0 {
            lemma_rest_on_track(st.advance(), i - 1);
            assert(st.rest()[i] == st.advance().rest()[i - 1]);
        }
    }
}

/// A ring further in holds no more pixels than a ring further out.
pub proof fn lemma_cells_within_shrinks(blob: Blob, r: int, s: int)
    requires
        blob.wf(),
        r <= s,
        blob.cols() - 2 * s >= 0,
        blob.rows() - 2 * s >= 0,
    ensures
        cells_within(blob, s) <= cells_within(blob, r),
{
    let a = blob.cols() - 2 * s;
    let b = blob.rows() - 2 * s;
    let c = blob.cols() - 2 * r;
    let d = blob.rows() - 2 * r;
    assert(a * b <= c * d) by (nonlinear_arith)
        requires
            0 <= a <= c,
            0 <= b <= d,
    ;
}

/// Where a pixel of the box stands in the walk: on a place that the walk has.
pub proof fn lemma_spiral_index_bounds(blob: Blob, x: int, y: int)
    requires
        blob.wf(),
        blob.contains(x, y),
    ensures
        0 <= spiral_index(blob, x, y) < blob.area(),
        cells_before(blob, ring_of(blob, x, y)) <= spiral_index(blob, x, y),
        blob.cols() - 2 * ring_of(blob, x, y) >= 2 && blob.rows() - 2 * ring_of(blob, x, y) >= 2
            ==> spiral_index(blob, x, y) < cells_before(blob, ring_of(blob, x, y) + 1),
{
    let r = ring_of(blob, x, y);
    lemma_lap(blob, r);
    lemma_cells_within_shrinks(blob, 0, r);
}

/// Two pixels of the box do not stand at one place in the walk.
pub proof fn lemma_spiral_index_injective(blob: Blob, x: int, y: int, u: int, v: int)
    requires
        blob.wf(),
        blob.contains(x, y),
        blob.contains(u, v),
        spiral_index(blob, x, y) == spiral_index(blob, u, v),
    ensures
        x == u,
        y == v,
{
    let r = ring_of(blob, x, y);
    let s = ring_of(blob, u, v);
    lemma_spiral_index_bounds(blob, x, y);
    lemma_spiral_index_bounds(blob, u, v);
    lemma_lap(blob, r);
    lemma_lap(blob, s);
    if r < s {
        lemma_cells_within_shrinks(blob, r + 1, s);
    } else if s < r {
        lemma_cells_within_shrinks(blob, s + 1, r);
    }
}

/// The walk over a box gives as many pixels as the box holds. Where the walk
/// stays inside the box, it gives every pixel of the box once, each with the
/// index of the ring on which it lies, and in the order of the spiral: ring
/// after ring from the outside in, each ring clockwise from its top-left
/// corner.
pub proof fn lemma_walk_covers_box(blob: Blob)
    requires
        spirals(blob),
    ensures
        BlobRings::walk(blob).len() == blob.area(),
        forall|i: int|
            0 <= i < BlobRings::walk(blob).len() ==> blob.contains(
                (#[trigger] BlobRings::walk(blob)[i]).0 as int,
                BlobRings::walk(blob)[i].1 as int,
            ) && BlobRings::walk(blob)[i].2 == ring_of(
                blob,
                BlobRings::walk(blob)[i].0 as int,
                BlobRings::walk(blob)[i].1 as int,
            ) && spiral_index(blob, BlobRings::walk(blob)[i].0 as int, BlobRings::walk(blob)[i].1 as int)
                == i,
        forall|i: int, j: int|
            0 <= i < j < BlobRings::walk(blob).len() ==> !((#[trigger] BlobRings::walk(blob)[i]).0 == (
            #[trigger] BlobRings::walk(blob)[j]).0 && BlobRings::walk(blob)[i].1 == BlobRings::walk(
                blob,
            )[j].1),
        forall|x: int, y: int|
            blob.contains(x, y) ==> 0 <= #[trigger] spiral_index(blob, x, y) < BlobRings::walk(blob).len()
                && BlobRings::walk(blob)[spiral_index(blob, x, y)] == (
                x as u32,
                y as u32,
                ring_of(blob, x, y) as u32,
            ),
{
    let start = BlobRings::start(blob);
    let walk = BlobRings::walk(blob);
    lemma_rest_len(start);
    lemma_start_on_track(blob);
    assert forall|i: int| 0 <= i < walk.len() implies blob.contains(
        (#[trigger] walk[i]).0 as int,
        walk[i].1 as int,
    ) && walk[i].2 == ring_of(blob, walk[i].0 as int, walk[i].1 as int) && spiral_index(
        blob,
        walk[i].0 as int,
        walk[i].1 as int,
    ) == i by {
        lemma_rest_on_track(start, i);
    }
    assert forall|x: int, y: int| blob.contains(x, y) implies 0 <= #[trigger] spiral_index(blob, x, y)
        < walk.len() && walk[spiral_index(blob, x, y)] == (
        x as u32,
        y as u32,
        ring_of(blob, x, y) as u32,
    ) by {
        lemma_spiral_index_bounds(blob, x, y);
        let i = spiral_index(blob, x, y);
        lemma_rest_on_track(start, i);
        lemma_spiral_index_injective(blob, x, y, walk[i].0 as int, walk[i].1 as int);
    }
}

/// The walk over any box gives as many pixels as the box holds.
pub proof fn lemma_walk_len(blob: Blob)
    ensures
        BlobRings::walk(blob).len() == blob.area(),
{
    lemma_rest_len(BlobRings::start(blob));
}

} // verus!
