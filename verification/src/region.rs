//! Regions of a grid: sprite cells that hang together edge to edge.

use crate::blob::Blob;
use crate::grid::PixelGrid;
use vstd::prelude::*;

verus! {

/// Two cells share an edge.
pub open spec fn adjacent(p: (int, int), q: (int, int)) -> bool {
    (p.0 == q.0 && (p.1 == q.1 + 1 || p.1 + 1 == q.1)) || (p.1 == q.1 && (p.0 == q.0 + 1 || p.0 + 1
        == q.0))
}

/// A walk over sprite cells in which each step crosses one edge.
pub open spec fn is_path(grid: PixelGrid, path: Seq<(int, int)>) -> bool {
    &&& path.len() > 0
    &&& forall|i: int| 0 <= i < path.len() ==> grid.is_sprite((#[trigger] path[i]).0, path[i].1)
    &&& forall|i: int| 0 <= i < path.len() - 1 ==> adjacent(#[trigger] path[i], path[i + 1])
}

/// `q` can be reached from `p` over sprite cells: both lie in one region.
pub open spec fn connected(grid: PixelGrid, p: (int, int), q: (int, int)) -> bool {
    exists|path: Seq<(int, int)>| #[trigger]
        is_path(grid, path) && path[0] == p && path.last() == q
}

/// `q` shares an edge with a cell of the region of `seed`.
pub open spec fn beside(grid: PixelGrid, seed: (int, int), q: (int, int)) -> bool {
    exists|p: (int, int)| #[trigger] connected(grid, seed, p) && adjacent(p, q)
}

/// The set is closed under stepping from a member to a neighbouring sprite cell.
pub open spec fn closed(grid: PixelGrid, cells: Set<(int, int)>) -> bool {
    forall|p: (int, int), q: (int, int)|
        cells.contains(p) && #[trigger] adjacent(p, q) && grid.is_sprite(q.0, q.1)
            ==> #[trigger] cells.contains(q)
}

/// `blob` is the bounding box of the region of `seed`: every cell of the
/// region lies inside it, and the region touches each of its four sides.
pub open spec fn is_extent(grid: PixelGrid, seed: (int, int), blob: Blob) -> bool {
    &&& forall|q: (int, int)| #[trigger] connected(grid, seed, q) ==> blob.contains(q.0, q.1)
    &&& exists|q: (int, int)| #[trigger] connected(grid, seed, q) && q.0 == blob.x_min
    &&& exists|q: (int, int)| #[trigger] connected(grid, seed, q) && q.0 == blob.x_max
    &&& exists|q: (int, int)| #[trigger] connected(grid, seed, q) && q.1 == blob.y_min
    &&& exists|q: (int, int)| #[trigger] connected(grid, seed, q) && q.1 == blob.y_max
}

/// The scan looks at `p` no later than at `q`: it goes through the columns
/// from left to right and through each column from top to bottom.
pub open spec fn scanned_by(p: (int, int), q: (int, int)) -> bool {
    p.0 < q.0 || (p.0 == q.0 && p.1 <= q.1)
}

/// `p` lies in the region of one of the seeds.
pub open spec fn reached(grid: PixelGrid, seeds: Seq<(int, int)>, p: (int, int)) -> bool {
    exists|i: int| 0 <= i < seeds.len() && connected(grid, #[trigger] seeds[i], p)
}

/// `seeds` names every region of the grid once, by the cell of the region
/// that the scan looks at first, in the order in which the scan meets them;
/// `boxes` holds the bounding box of each, in the same order.
pub open spec fn is_census(grid: PixelGrid, seeds: Seq<(int, int)>, boxes: Seq<Blob>) -> bool {
    &&& seeds.len() == boxes.len()
    &&& forall|i: int|
        0 <= i < seeds.len() ==> grid.is_sprite((#[trigger] seeds[i]).0, seeds[i].1) && is_extent(
            grid,
            seeds[i],
            boxes[i],
        ) && grid.holds(boxes[i])
    &&& forall|i: int, q: (int, int)|
        0 <= i < seeds.len() && #[trigger] connected(grid, seeds[i], q) ==> scanned_by(seeds[i], q)
    &&& forall|i: int, j: int|
        0 <= i < j < seeds.len() ==> !scanned_by(#[trigger] seeds[j], #[trigger] seeds[i])
    &&& forall|i: int, j: int|
        0 <= i < seeds.len() && 0 <= j < seeds.len() && i != j ==> !connected(
            grid,
            #[trigger] seeds[i],
            #[trigger] seeds[j],
        )
    &&& forall|p: (int, int)| grid.is_sprite(p.0, p.1) ==> #[trigger] reached(grid, seeds, p)
}

/// A sprite cell is connected to itself.
pub proof fn lemma_connected_self(grid: PixelGrid, p: (int, int))
    requires
        grid.is_sprite(p.0, p.1),
    ensures
        connected(grid, p, p),
{
    let path = seq![p];
    assert(is_path(grid, path));
    assert(path[0] == p && path.last() == p);
}

/// A connection can be extended by one step to a neighbouring sprite cell.
pub proof fn lemma_connected_step(grid: PixelGrid, p: (int, int), q: (int, int), r: (int, int))
    requires
        connected(grid, p, q),
        adjacent(q, r),
        grid.is_sprite(r.0, r.1),
    ensures
        connected(grid, p, r),
{
    let path = choose|path: Seq<(int, int)>| #[trigger]
        is_path(grid, path) && path[0] == p && path.last() == q;
    let longer = path.push(r);
    assert forall|i: int| 0 <= i < longer.len() - 1 implies adjacent(
        #[trigger] longer[i],
        longer[i + 1],
    ) by {
        if i < path.len() - 1 {
            assert(longer[i] == path[i]);
            assert(longer[i + 1] == path[i + 1]);
        }
    }
    assert forall|i: int| 0 <= i < longer.len() implies grid.is_sprite(
        (#[trigger] longer[i]).0,
        longer[i].1,
    ) by {
        if i < path.len() {
            assert(longer[i] == path[i]);
        }
    }
    assert(is_path(grid, longer));
    assert(longer[0] == path[0]);
    assert(longer.last() == r);
}

/// A closed set that holds the start of a path holds its end.
pub proof fn lemma_closed_holds_path(grid: PixelGrid, cells: Set<(int, int)>, path: Seq<(int, int)>)
    requires
        closed(grid, cells),
        is_path(grid, path),
        cells.contains(path[0]),
    ensures
        cells.contains(path.last()),
    decreases path.len(),
{
    if path.len() > 1 {
        let shorter = path.drop_last();
        assert forall|i: int| 0 <= i < shorter.len() - 1 implies adjacent(
            #[trigger] shorter[i],
            shorter[i + 1],
        ) by {
            assert(shorter[i] == path[i]);
            assert(shorter[i + 1] == path[i + 1]);
        }
        assert forall|i: int| 0 <= i < shorter.len() implies grid.is_sprite(
            (#[trigger] shorter[i]).0,
            shorter[i].1,
        ) by {
            assert(shorter[i] == path[i]);
        }
        assert(is_path(grid, shorter));
        assert(shorter[0] == path[0]);
        lemma_closed_holds_path(grid, cells, shorter);
        let p = shorter.last();
        let q = path.last();
        assert(p == path[path.len() - 2]);
        assert(adjacent(path[path.len() - 2], path[path.len() - 2 + 1]));
        assert(adjacent(p, q));
        assert(grid.is_sprite(path[path.len() - 1].0, path[path.len() - 1].1));
    }
}

/// A closed set that holds a cell holds the whole region of that cell.
pub proof fn lemma_closed_holds_region(
    grid: PixelGrid,
    cells: Set<(int, int)>,
    p: (int, int),
    q: (int, int),
)
    requires
        closed(grid, cells),
        cells.contains(p),
        connected(grid, p, q),
    ensures
        cells.contains(q),
{
    let path = choose|path: Seq<(int, int)>| #[trigger]
        is_path(grid, path) && path[0] == p && path.last() == q;
    lemma_closed_holds_path(grid, cells, path);
}

/// Two connections that meet make one.
pub proof fn lemma_connected_chain(grid: PixelGrid, p: (int, int), q: (int, int), r: (int, int))
    requires
        connected(grid, p, q),
        connected(grid, q, r),
    ensures
        connected(grid, p, r),
{
    let a = choose|path: Seq<(int, int)>| #[trigger]
        is_path(grid, path) && path[0] == p && path.last() == q;
    let b = choose|path: Seq<(int, int)>| #[trigger]
        is_path(grid, path) && path[0] == q && path.last() == r;
    let tail = b.subrange(1, b.len() as int);
    let path = a + tail;
    assert forall|i: int| 0 <= i < path.len() implies grid.is_sprite(
        (#[trigger] path[i]).0,
        path[i].1,
    ) by {
        if i < a.len() {
            assert(path[i] == a[i]);
        } else {
            assert(path[i] == b[i - a.len() + 1]);
        }
    }
    assert forall|i: int| 0 <= i < path.len() - 1 implies adjacent(#[trigger] path[i], path[i + 1]) by {
        if i + 1 < a.len() {
            assert(path[i] == a[i] && path[i + 1] == a[i + 1]);
        } else if i + 1 == a.len() {
            assert(path[i] == a[i] && a[i] == b[0]);
            assert(path[i + 1] == b[1]);
            assert(adjacent(b[0int], b[0int + 1]));
        } else {
            let k = i - a.len() + 1;
            assert(path[i] == b[k] && path[i + 1] == b[k + 1]);
        }
    }
    assert(is_path(grid, path));
    assert(path[0] == a[0]);
    if tail.len() == 0 {
        assert(path.last() == a.last());
        assert(b.last() == b[0]);
    } else {
        assert(path.last() == b[b.len() - 1]);
    }
}

/// A region has one bounding box.
pub proof fn lemma_extent_unique(grid: PixelGrid, seed: (int, int), a: Blob, b: Blob)
    requires
        is_extent(grid, seed, a),
        is_extent(grid, seed, b),
    ensures
        a == b,
{
    let al = choose|q: (int, int)| #[trigger] connected(grid, seed, q) && q.0 == a.x_min;
    let ar = choose|q: (int, int)| #[trigger] connected(grid, seed, q) && q.0 == a.x_max;
    let at = choose|q: (int, int)| #[trigger] connected(grid, seed, q) && q.1 == a.y_min;
    let ab = choose|q: (int, int)| #[trigger] connected(grid, seed, q) && q.1 == a.y_max;
    let bl = choose|q: (int, int)| #[trigger] connected(grid, seed, q) && q.0 == b.x_min;
    let br = choose|q: (int, int)| #[trigger] connected(grid, seed, q) && q.0 == b.x_max;
    let bt = choose|q: (int, int)| #[trigger] connected(grid, seed, q) && q.1 == b.y_min;
    let bb = choose|q: (int, int)| #[trigger] connected(grid, seed, q) && q.1 == b.y_max;
    assert(b.contains(al.0, al.1) && b.contains(ar.0, ar.1) && b.contains(at.0, at.1) && b.contains(
        ab.0,
        ab.1,
    ));
    assert(a.contains(bl.0, bl.1) && a.contains(br.0, br.1) && a.contains(bt.0, bt.1) && a.contains(
        bb.0,
        bb.1,
    ));
}

/// A seed of one census is a seed of every other census of the grid.
pub proof fn lemma_seed_is_shared(
    grid: PixelGrid,
    seeds: Seq<(int, int)>,
    boxes: Seq<Blob>,
    others: Seq<(int, int)>,
    other_boxes: Seq<Blob>,
    i: int,
) -> (j: int)
    requires
        is_census(grid, seeds, boxes),
        is_census(grid, others, other_boxes),
        0 <= i < seeds.len(),
    ensures
        0 <= j < others.len(),
        others[j] == seeds[i],
{
    let p = seeds[i];
    assert(reached(grid, others, p));
    let j = choose|j: int| 0 <= j < others.len() && connected(grid, #[trigger] others[j], p);
    let q = others[j];
    assert(scanned_by(q, p));
    assert(reached(grid, seeds, q));
    let k = choose|k: int| 0 <= k < seeds.len() && connected(grid, #[trigger] seeds[k], q);
    lemma_connected_chain(grid, seeds[k], q, p);
    assert(k == i);
    assert(scanned_by(p, q));
    j
}

/// Two censuses of a grid have the same seed at each place.
pub proof fn lemma_census_seed(
    grid: PixelGrid,
    seeds: Seq<(int, int)>,
    boxes: Seq<Blob>,
    others: Seq<(int, int)>,
    other_boxes: Seq<Blob>,
    i: int,
)
    requires
        is_census(grid, seeds, boxes),
        is_census(grid, others, other_boxes),
        0 <= i < seeds.len(),
    ensures
        i < others.len(),
        others[i] == seeds[i],
    decreases i,
{
    let j = lemma_seed_is_shared(grid, seeds, boxes, others, other_boxes, i);
    if j < i {
        lemma_census_seed(grid, seeds, boxes, others, other_boxes, j);
        assert(scanned_by(seeds[i], seeds[j]));
    } else if j > i {
        let m = lemma_seed_is_shared(grid, others, other_boxes, seeds, boxes, i);
        if m < i {
            lemma_census_seed(grid, seeds, boxes, others, other_boxes, m);
        }
        assert(scanned_by(others[j], others[i]));
    }
}

/// A grid has one census.
pub proof fn lemma_census_unique(
    grid: PixelGrid,
    seeds: Seq<(int, int)>,
    boxes: Seq<Blob>,
    others: Seq<(int, int)>,
    other_boxes: Seq<Blob>,
)
    requires
        is_census(grid, seeds, boxes),
        is_census(grid, others, other_boxes),
    ensures
        seeds == others,
        boxes == other_boxes,
{
    if seeds.len() > 0 {
        lemma_census_seed(grid, seeds, boxes, others, other_boxes, seeds.len() - 1);
    }
    if others.len() > 0 {
        lemma_census_seed(grid, others, other_boxes, seeds, boxes, others.len() - 1);
    }
    assert forall|i: int| 0 <= i < seeds.len() implies seeds[i] == others[i] && boxes[i]
        == other_boxes[i] by {
        lemma_census_seed(grid, seeds, boxes, others, other_boxes, i);
        lemma_extent_unique(grid, seeds[i], boxes[i], other_boxes[i]);
    }
    assert(seeds =~= others);
    assert(boxes =~= other_boxes);
}

} // verus!
