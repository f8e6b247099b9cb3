//! The flood fill that grows one region from its first cell.

use crate::blob::Blob;
use crate::color::Color;
use crate::grid::PixelGrid;
use crate::region::adjacent;
use crate::region::beside;
use crate::region::closed;
use crate::region::connected;
use crate::region::is_extent;
use crate::region::lemma_closed_holds_region;
use crate::region::lemma_connected_self;
use crate::region::lemma_connected_step;
use vstd::prelude::*;

verus! {

/// Working state of the scan: which cells have been looked at, and the cells
/// that still wait to be looked at in the fill that is under way.
pub struct FindBlobsData {
    pub visited: Vec<bool>,
    pub stack: Vec<(usize, usize)>,
}

/// The cell `(x, y)` waits on the stack.
pub open spec fn on_stack(stack: Seq<(usize, usize)>, x: int, y: int) -> bool {
    exists|k: int| 0 <= k < stack.len() && (#[trigger] stack[k]).0 == x && stack[k].1 == y
}

/// The neighbours of `(x, y)` inside the grid, in the order left, right, up, down.
pub open spec fn neighbours(grid: PixelGrid, x: usize, y: usize) -> Seq<(usize, usize)> {
    let left = if x > 0 {
        seq![((x - 1) as usize, y)]
    } else {
        Seq::empty()
    };
    let right = if x + 1 < grid.width {
        seq![((x + 1) as usize, y)]
    } else {
        Seq::empty()
    };
    let up = if y > 0 {
        seq![(x, (y - 1) as usize)]
    } else {
        Seq::empty()
    };
    let down = if y + 1 < grid.height {
        seq![(x, (y + 1) as usize)]
    } else {
        Seq::empty()
    };
    left + right + up + down
}

/// How many marks are still unset.
pub open spec fn unmarked(marks: Seq<bool>) -> nat
    decreases marks.len(),
{
    if marks.len() == 0 {
        0
    } else {
        unmarked(marks.drop_last()) + if marks.last() {
            0nat
        } else {
            1nat
        }
    }
}

/// Setting an unset mark leaves one less unset.
pub proof fn lemma_unmarked_set(marks: Seq<bool>, i: int)
    requires
        0 <= i < marks.len(),
        !marks[i],
    ensures
        unmarked(marks.update(i, true)) + 1 == unmarked(marks),
    decreases marks.len(),
{
    let after = marks.update(i, true);
    if i == marks.len() - 1 {
        assert(after.drop_last() =~= marks.drop_last());
    } else {
        lemma_unmarked_set(marks.drop_last(), i);
        assert(after.drop_last() =~= marks.drop_last().update(i, true));
    }
}

/// A cell that waits on a stack still waits after more cells were put on it.
pub proof fn lemma_on_stack_grows(
    stack: Seq<(usize, usize)>,
    more: Seq<(usize, usize)>,
    x: int,
    y: int,
)
    requires
        on_stack(stack, x, y),
    ensures
        on_stack(stack + more, x, y),
{
    let k = choose|k: int| 0 <= k < stack.len() && (#[trigger] stack[k]).0 == x && stack[k].1 == y;
    assert((stack + more)[k] == stack[k]);
}

/// A cell that waits on a stack still waits after another cell was taken off.
pub proof fn lemma_on_stack_shrinks(stack: Seq<(usize, usize)>, x: int, y: int)
    requires
        on_stack(stack, x, y),
        stack.len() > 0,
        !(stack.last().0 == x && stack.last().1 == y),
    ensures
        on_stack(stack.drop_last(), x, y),
{
    let k = choose|k: int| 0 <= k < stack.len() && (#[trigger] stack[k]).0 == x && stack[k].1 == y;
    assert(stack.drop_last()[k] == stack[k]);
}

/// Each neighbour of `(x, y)` inside the grid waits on the stack once the
/// neighbours were put on it.
pub proof fn lemma_neighbours_wait(
    grid: PixelGrid,
    stack: Seq<(usize, usize)>,
    x: usize,
    y: usize,
    u: int,
    v: int,
)
    requires
        grid.in_bounds(x as int, y as int),
        grid.in_bounds(u, v),
        adjacent((x as int, y as int), (u, v)),
    ensures
        on_stack(stack + neighbours(grid, x, y), u, v),
{
    let near = neighbours(grid, x, y);
    let all = stack + near;
    let left: int = if x > 0 { 1 } else { 0 };
    let right: int = if x + 1 < grid.width { 1 } else { 0 };
    let up: int = if y > 0 { 1 } else { 0 };
    let k: int = if u + 1 == x {
        0
    } else if u == x + 1 {
        left
    } else if v + 1 == y {
        left + right
    } else {
        left + right + up
    };
    assert(0 <= k < near.len());
    assert(near[k].0 == u && near[k].1 == v);
    assert(all[stack.len() + k] == near[k]);
}

/// Every cell among the neighbours of `(x, y)` lies inside the grid next to `(x, y)`.
pub proof fn lemma_neighbours_near(grid: PixelGrid, x: usize, y: usize, k: int)
    requires
        grid.in_bounds(x as int, y as int),
        0 <= k < neighbours(grid, x, y).len(),
    ensures
        grid.in_bounds(neighbours(grid, x, y)[k].0 as int, neighbours(grid, x, y)[k].1 as int),
        adjacent(
            (x as int, y as int),
            (neighbours(grid, x, y)[k].0 as int, neighbours(grid, x, y)[k].1 as int),
        ),
{
}

impl FindBlobsData {
    /// There is one mark per cell of the grid.
    pub open spec fn wf(&self, grid: PixelGrid) -> bool {
        grid.wf() && self.visited@.len() == grid.colors@.len()
    }

    /// The cell `(x, y)` has been looked at.
    pub open spec fn seen(&self, grid: PixelGrid, x: int, y: int) -> bool {
        grid.in_bounds(x, y) && self.visited@[x + y * grid.width]
    }

    /// The sprite cells that have been looked at.
    pub open spec fn swept(&self, grid: PixelGrid) -> Set<(int, int)> {
        Set::new(|p: (int, int)| self.seen(grid, p.0, p.1) && grid.is_sprite(p.0, p.1))
    }

    /// The cell `(x, y)` needs no further attention: it lies outside the
    /// grid, has been looked at, or waits on the stack.
    pub open spec fn covered(&self, grid: PixelGrid, x: int, y: int) -> bool {
        !grid.in_bounds(x, y) || self.seen(grid, x, y) || on_stack(self.stack@, x, y)
    }

    /// All four neighbours of `p` are covered.
    pub open spec fn ringed(&self, grid: PixelGrid, p: (int, int)) -> bool {
        &&& self.covered(grid, p.0 - 1, p.1)
        &&& self.covered(grid, p.0 + 1, p.1)
        &&& self.covered(grid, p.0, p.1 - 1)
        &&& self.covered(grid, p.0, p.1 + 1)
    }

    /// A fresh state in which no cell has been looked at.
    pub fn new(grid: &PixelGrid) -> (data: FindBlobsData)
        requires
            grid.wf(),
        ensures
            data.wf(*grid),
            data.stack@.len() == 0,
            forall|x: int, y: int| !data.seen(*grid, x, y),
    {
        let n = grid.colors.len();
        let mut visited: Vec<bool> = Vec::new();
        let mut i: usize = 0;
        while i < n
            invariant
                i <= n,
                visited@.len() == i,
                forall|k: int| 0 <= k < i ==> !visited@[k],
            decreases n - i,
        {
            visited.push(false);
            i = i + 1;
        }
        let data = FindBlobsData { visited, stack: Vec::new() };
        proof {
            assert forall|x: int, y: int| !data.seen(*grid, x, y) by {
                if grid.in_bounds(x, y) {
                    grid.lemma_cell_index(x, y);
                }
            }
        }
        data
    }

    /// Looks at the cell `(x, y)`: marks it, and hands out its colour if it
    /// lies in the grid, had not been looked at before and is not background.
    pub fn visit(&mut self, grid: &PixelGrid, x: usize, y: usize) -> (out: Option<Color>)
        requires
            old(self).wf(*grid),
        ensures
            final(self).wf(*grid),
            final(self).stack == old(self).stack,
            forall|u: int, v: int|
                final(self).seen(*grid, u, v) == (old(self).seen(*grid, u, v) || (u == x && v == y
                    && grid.in_bounds(u, v))),
            out == (if grid.is_sprite(x as int, y as int) && !old(self).seen(*grid, x as int, y as int) {
                Some(grid.pixel(x as int, y as int))
            } else {
                None
            }),
            unmarked(final(self).visited@) <= unmarked(old(self).visited@),
            out.is_some() ==> unmarked(final(self).visited@) < unmarked(old(self).visited@),
    {
        if x >= grid.width || y >= grid.height {
            return None;
        }
        proof {
            grid.lemma_cell_index(x as int, y as int);
        }
        let len = self.visited.len();
        let i: usize = x + y * grid.width;
        if self.visited[i] {
            return None;
        }
        self.visited.set(i, true);
        proof {
            lemma_unmarked_set(old(self).visited@, i as int);
            assert forall|u: int, v: int|
                self.seen(*grid, u, v) == (old(self).seen(*grid, u, v) || (u == x && v == y
                    && grid.in_bounds(u, v))) by {
                if grid.in_bounds(u, v) {
                    grid.lemma_cell_index(u, v);
                    if u + v * grid.width == i {
                        grid.lemma_cell_index_distinct(u, v, x as int, y as int);
                    }
                }
            }
        }
        let color = grid.index(i);
        if color.is_magenta() {
            return None;
        }
        Some(color)
    }

    /// Puts the neighbours of `(x, y)` that lie inside the grid on the stack.
    pub fn append_neighbours(&mut self, grid: &PixelGrid, x: usize, y: usize)
        requires
            grid.in_bounds(x as int, y as int),
        ensures
            final(self).visited == old(self).visited,
            final(self).stack@ == old(self).stack@ + neighbours(*grid, x, y),
    {
        if x > 0 {
            self.stack.push((x - 1, y));
        }
        if x < grid.width - 1 {
            self.stack.push((x + 1, y));
        }
        if y > 0 {
            self.stack.push((x, y - 1));
        }
        if y < grid.height - 1 {
            self.stack.push((x, y + 1));
        }
        assert(self.stack@ =~= old(self).stack@ + neighbours(*grid, x, y));
    }

    pub fn clear_stack(&mut self)
        ensures
            final(self).visited == old(self).visited,
            final(self).stack@.len() == 0,
    {
        self.stack.clear();
    }

    /// Grows the region of the seed `(x, y)`, which has just been looked at,
    /// over every sprite cell that can be reached from it, and hands out the
    /// bounding box of what it reached. The cells that wait are kept on an
    /// explicit stack, so the depth of the call stack does not depend on the
    /// size of the region.
    pub fn flood(&mut self, grid: &PixelGrid, x: usize, y: usize) -> (blob: Blob)
        requires
            old(self).wf(*grid),
            grid.is_sprite(x as int, y as int),
            old(self).seen(*grid, x as int, y as int),
            closed(*grid, old(self).swept(*grid).remove((x as int, y as int))),
        ensures
            final(self).wf(*grid),
            forall|u: int, v: int| old(self).seen(*grid, u, v) ==> final(self).seen(*grid, u, v),
            closed(*grid, final(self).swept(*grid)),
            forall|q: (int, int)| #[trigger]
                connected(*grid, (x as int, y as int), q) ==> final(self).seen(*grid, q.0, q.1) && (q
                    == (x as int, y as int) || !old(self).seen(*grid, q.0, q.1)),
            forall|q: (int, int)|
                final(self).swept(*grid).contains(q) && !old(self).swept(*grid).contains(q)
                    ==> connected(*grid, (x as int, y as int), q),
            forall|u: int, v: int|
                final(self).seen(*grid, u, v) <==> old(self).seen(*grid, u, v) || (grid.in_bounds(u, v)
                    && (connected(*grid, (x as int, y as int), (u, v)) || beside(
                    *grid,
                    (x as int, y as int),
                    (u, v),
                ))),
            final(self).stack@.len() == 0,
            is_extent(*grid, (x as int, y as int), blob),
            grid.holds(blob),
    {
        let ghost seed = (x as int, y as int);
        let ghost base = old(self).swept(*grid).remove(seed);
        let ghost mut cur: Set<(int, int)> = Set::empty().insert(seed);
        let ghost mut left = seed;
        let ghost mut right = seed;
        let ghost mut top = seed;
        let ghost mut bottom = seed;
        let mut blob = Blob { x_min: x as u32, y_min: y as u32, x_max: x as u32, y_max: y as u32 };
        self.clear_stack();
        let ghost cleared = self.stack@;
        self.append_neighbours(grid, x, y);
        let ghost mut parents: Seq<(int, int)> = Seq::new(self.stack@.len(), |k: int| seed);
        proof {
            lemma_connected_self(*grid, seed);
            assert(self.stack@ =~= neighbours(*grid, x, y));
            assert forall|k: int| 0 <= k < self.stack@.len() implies grid.in_bounds(
                (#[trigger] self.stack@[k]).0 as int,
                self.stack@[k].1 as int,
            ) && adjacent(parents[k], (self.stack@[k].0 as int, self.stack@[k].1 as int)) by {
                lemma_neighbours_near(*grid, x, y, k);
            }
            self.lemma_ringed_after_push(*grid, cleared, x, y);
        }
        while self.stack.len() > 0
            invariant
                self.wf(*grid),
                grid.is_sprite(x as int, y as int),
                seed == (x as int, y as int),
                base == old(self).swept(*grid).remove(seed),
                closed(*grid, base),
                forall|u: int, v: int| old(self).seen(*grid, u, v) ==> self.seen(*grid, u, v),
                cur.contains(seed),
                forall|p: (int, int)| #[trigger]
                    cur.contains(p) ==> self.seen(*grid, p.0, p.1) && grid.is_sprite(p.0, p.1)
                        && connected(*grid, seed, p) && !base.contains(p) && blob.contains(p.0, p.1),
                forall|p: (int, int)| #[trigger]
                    self.swept(*grid).contains(p) ==> base.contains(p) || cur.contains(p),
                parents.len() == self.stack@.len(),
                forall|k: int|
                    0 <= k < self.stack@.len() ==> grid.in_bounds(
                        (#[trigger] self.stack@[k]).0 as int,
                        self.stack@[k].1 as int,
                    ) && adjacent(parents[k], (self.stack@[k].0 as int, self.stack@[k].1 as int)),
                forall|k: int| 0 <= k < parents.len() ==> cur.contains(#[trigger] parents[k]),
                forall|p: (int, int)| cur.contains(p) ==> #[trigger] self.ringed(*grid, p),
                forall|u: int, v: int|
                    self.seen(*grid, u, v) ==> old(self).seen(*grid, u, v) || beside(*grid, seed, (u, v)),
                grid.holds(blob),
                cur.contains(left) && left.0 == blob.x_min,
                cur.contains(right) && right.0 == blob.x_max,
                cur.contains(top) && top.1 == blob.y_min,
                cur.contains(bottom) && bottom.1 == blob.y_max,
            decreases unmarked(self.visited@), self.stack@.len(),
        {
            let ghost before = *self;
            let ghost parent = parents.last();
            let (cx, cy) = self.stack.pop().unwrap();
            let ghost cell = (cx as int, cy as int);
            proof {
                parents = parents.drop_last();
                assert(before.stack@[before.stack@.len() - 1] == (cx, cy));
                assert(grid.in_bounds(cell.0, cell.1));
                assert(adjacent(parent, cell));
            }
            let color = self.visit(grid, cx, cy);
            let ghost mid = *self;
            proof {
                assert(connected(*grid, seed, parent) && adjacent(parent, cell));
                assert(beside(*grid, seed, cell));
                assert forall|p: (int, int)| cur.contains(p) implies #[trigger] mid.ringed(*grid, p) by {
                    assert(before.ringed(*grid, p));
                    before.lemma_covered_after_visit(*grid, mid, p.0 - 1, p.1);
                    before.lemma_covered_after_visit(*grid, mid, p.0 + 1, p.1);
                    before.lemma_covered_after_visit(*grid, mid, p.0, p.1 - 1);
                    before.lemma_covered_after_visit(*grid, mid, p.0, p.1 + 1);
                }
            }
            if color.is_none() {
                proof {
                    assert forall|p: (int, int)| #[trigger]
                        mid.swept(*grid).contains(p) implies base.contains(p) || cur.contains(p) by {
                        assert(before.swept(*grid).contains(p));
                    }
                }
                continue ;
            }
            let x_u32: u32 = cx as u32;
            let y_u32: u32 = cy as u32;
            proof {
                assert(!before.seen(*grid, cell.0, cell.1));
                if base.contains(cell) {
                    assert(old(self).seen(*grid, cell.0, cell.1));
                }
                lemma_connected_step(*grid, seed, parent, cell);
                cur = cur.insert(cell);
                if x_u32 < blob.x_min {
                    left = cell;
                }
                if x_u32 > blob.x_max {
                    right = cell;
                }
                if y_u32 < blob.y_min {
                    top = cell;
                }
                if y_u32 > blob.y_max {
                    bottom = cell;
                }
            }
            if x_u32 < blob.x_min {
                blob.x_min = x_u32;
            }
            if y_u32 < blob.y_min {
                blob.y_min = y_u32;
            }
            if x_u32 > blob.x_max {
                blob.x_max = x_u32;
            }
            if y_u32 > blob.y_max {
                blob.y_max = y_u32;
            }
            self.append_neighbours(grid, cx, cy);
            proof {
                let near = neighbours(*grid, cx, cy);
                parents = parents + Seq::new(near.len(), |k: int| cell);
                assert forall|k: int| 0 <= k < self.stack@.len() implies grid.in_bounds(
                    (#[trigger] self.stack@[k]).0 as int,
                    self.stack@[k].1 as int,
                ) && adjacent(parents[k], (self.stack@[k].0 as int, self.stack@[k].1 as int)) by {
                    if k < mid.stack@.len() {
                        assert(self.stack@[k] == mid.stack@[k]);
                        assert(mid.stack@[k] == before.stack@[k]);
                    } else {
                        assert(self.stack@[k] == near[k - mid.stack@.len()]);
                        lemma_neighbours_near(*grid, cx, cy, k - mid.stack@.len());
                    }
                }
                assert forall|p: (int, int)| cur.contains(p) implies #[trigger] self.ringed(
                    *grid,
                    p,
                ) by {
                    if p == cell {
                        self.lemma_ringed_after_push(*grid, mid.stack@, cx, cy);
                    } else {
                        assert(mid.ringed(*grid, p));
                        mid.lemma_covered_after_push(*grid, *self, near, p.0 - 1, p.1);
                        mid.lemma_covered_after_push(*grid, *self, near, p.0 + 1, p.1);
                        mid.lemma_covered_after_push(*grid, *self, near, p.0, p.1 - 1);
                        mid.lemma_covered_after_push(*grid, *self, near, p.0, p.1 + 1);
                    }
                }
                assert forall|p: (int, int)| #[trigger]
                    self.swept(*grid).contains(p) implies base.contains(p) || cur.contains(p) by {
                    if p != cell {
                        assert(before.swept(*grid).contains(p));
                    }
                }
            }
        }
        proof {
            let swept = self.swept(*grid);
            assert forall|p: (int, int), q: (int, int)|
                cur.contains(p) && #[trigger] adjacent(p, q) && grid.is_sprite(
                    q.0,
                    q.1,
                ) implies #[trigger] cur.contains(q) by {
                assert(self.ringed(*grid, p));
                assert(self.covered(*grid, q.0, q.1));
                assert(self.seen(*grid, q.0, q.1));
                assert(swept.contains(q));
                if base.contains(q) {
                    assert(adjacent(q, p));
                    assert(base.contains(p));
                }
            }
            assert(closed(*grid, cur));
            assert forall|p: (int, int), q: (int, int)|
                swept.contains(p) && #[trigger] adjacent(p, q) && grid.is_sprite(
                    q.0,
                    q.1,
                ) implies #[trigger] swept.contains(q) by {
                if cur.contains(p) {
                    assert(cur.contains(q));
                } else {
                    assert(base.contains(p));
                    assert(base.contains(q));
                    assert(old(self).swept(*grid).contains(q));
                }
            }
            assert forall|q: (int, int)| #[trigger] connected(*grid, seed, q) implies cur.contains(
                q,
            ) by {
                lemma_closed_holds_region(*grid, cur, seed, q);
            }
            assert forall|q: (int, int)| #[trigger]
                connected(*grid, seed, q) implies self.seen(*grid, q.0, q.1) && (q == seed
                || !old(self).seen(*grid, q.0, q.1)) by {
                assert(cur.contains(q));
                if q != seed && old(self).seen(*grid, q.0, q.1) {
                    assert(old(self).swept(*grid).contains(q));
                    assert(base.contains(q));
                }
            }
            assert forall|u: int, v: int|
                grid.in_bounds(u, v) && beside(*grid, seed, (u, v)) implies self.seen(*grid, u, v) by {
                let p = choose|p: (int, int)| #[trigger] connected(*grid, seed, p) && adjacent(p, (u, v));
                assert(cur.contains(p));
                assert(self.ringed(*grid, p));
                assert(self.covered(*grid, u, v));
            }
            assert(connected(*grid, seed, left) && left.0 == blob.x_min);
            assert(connected(*grid, seed, right) && right.0 == blob.x_max);
            assert(connected(*grid, seed, top) && top.1 == blob.y_min);
            assert(connected(*grid, seed, bottom) && bottom.1 == blob.y_max);
            assert forall|q: (int, int)| #[trigger] connected(*grid, seed, q) implies blob.contains(
                q.0,
                q.1,
            ) by {
                assert(cur.contains(q));
            }
        }
        blob
    }

    /// What was covered stays covered when the cell on top of the stack is
    /// taken off and looked at.
    pub proof fn lemma_covered_after_visit(&self, grid: PixelGrid, after: FindBlobsData, u: int, v: int)
        requires
            self.covered(grid, u, v),
            self.stack@.len() > 0,
            grid.in_bounds(self.stack@.last().0 as int, self.stack@.last().1 as int),
            after.stack@ == self.stack@.drop_last(),
            forall|a: int, b: int|
                after.seen(grid, a, b) == (self.seen(grid, a, b) || (a == self.stack@.last().0 && b
                    == self.stack@.last().1 && grid.in_bounds(a, b))),
        ensures
            after.covered(grid, u, v),
    {
        if grid.in_bounds(u, v) && !self.seen(grid, u, v) {
            if !(self.stack@.last().0 == u && self.stack@.last().1 == v) {
                lemma_on_stack_shrinks(self.stack@, u, v);
            }
        }
    }

    /// What was covered stays covered when more cells are put on the stack.
    pub proof fn lemma_covered_after_push(
        &self,
        grid: PixelGrid,
        after: FindBlobsData,
        more: Seq<(usize, usize)>,
        u: int,
        v: int,
    )
        requires
            self.covered(grid, u, v),
            after.stack@ == self.stack@ + more,
            after.visited == self.visited,
        ensures
            after.covered(grid, u, v),
    {
        if grid.in_bounds(u, v) && !self.seen(grid, u, v) {
            lemma_on_stack_grows(self.stack@, more, u, v);
        }
    }

    /// Once the neighbours of a cell were put on the stack, all four are covered.
    pub proof fn lemma_ringed_after_push(
        &self,
        grid: PixelGrid,
        below: Seq<(usize, usize)>,
        x: usize,
        y: usize,
    )
        requires
            grid.in_bounds(x as int, y as int),
            self.stack@ == below + neighbours(grid, x, y),
        ensures
            self.ringed(grid, (x as int, y as int)),
    {
        let p = (x as int, y as int);
        if grid.in_bounds(p.0 - 1, p.1) {
            lemma_neighbours_wait(grid, below, x, y, p.0 - 1, p.1);
        }
        if grid.in_bounds(p.0 + 1, p.1) {
            lemma_neighbours_wait(grid, below, x, y, p.0 + 1, p.1);
        }
        if grid.in_bounds(p.0, p.1 - 1) {
            lemma_neighbours_wait(grid, below, x, y, p.0, p.1 - 1);
        }
        if grid.in_bounds(p.0, p.1 + 1) {
            lemma_neighbours_wait(grid, below, x, y, p.0, p.1 + 1);
        }
    }
}

} // verus!
