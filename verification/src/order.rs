//! Reading order of bounding boxes, and sorting into it.

use crate::blob::Blob;
use vstd::prelude::*;
use vstd::seq_lib::to_multiset_build;

verus! {

/// `a` does not come after `b` in reading order: its top edge is higher, or
/// the top edges are level and its left edge is not further right.
pub open spec fn reads_first(a: Blob, b: Blob) -> bool {
    a.y_min < b.y_min || (a.y_min == b.y_min && a.x_min <= b.x_min)
}

/// `b` put into a list behind every box that does not come after it; boxes
/// that were in the list keep their order among themselves.
pub open spec fn placed(list: Seq<Blob>, b: Blob) -> Seq<Blob>
    decreases list.len(),
{
    if list.len() == 0 {
        seq![b]
    } else if reads_first(list.last(), b) {
        list.push(b)
    } else {
        placed(list.drop_last(), b).push(list.last())
    }
}

/// The boxes in reading order; boxes with the same top-left corner stay in
/// the order in which they were given.
pub open spec fn in_reading_order(blobs: Seq<Blob>) -> Seq<Blob>
    decreases blobs.len(),
{
    if blobs.len() == 0 {
        Seq::empty()
    } else {
        placed(in_reading_order(blobs.drop_last()), blobs.last())
    }
}

/// Each box in the list comes no later than those behind it.
pub open spec fn is_ordered(list: Seq<Blob>) -> bool {
    forall|i: int, j: int| 0 <= i < j < list.len() ==> reads_first(list[i], list[j])
}

/// Placing a box makes the list one longer.
pub proof fn lemma_placed_len(list: Seq<Blob>, b: Blob)
    ensures
        placed(list, b).len() == list.len() + 1,
    decreases list.len(),
{
    if list.len() > 0 && !reads_first(list.last(), b) {
        lemma_placed_len(list.drop_last(), b);
    }
}

/// Whatever stands in a list after a box was placed is that box or stood in
/// the list before.
pub proof fn lemma_placed_member(list: Seq<Blob>, b: Blob, i: int)
    requires
        0 <= i <= list.len(),
    ensures
        placed(list, b).len() == list.len() + 1,
        placed(list, b)[i] == b || list.contains(placed(list, b)[i]),
    decreases list.len(),
{
    lemma_placed_len(list, b);
    if list.len() == 0 {
    } else if reads_first(list.last(), b) {
        if i < list.len() {
            assert(list[i] == placed(list, b)[i]);
        }
    } else {
        let head = list.drop_last();
        lemma_placed_len(head, b);
        if i < list.len() {
            lemma_placed_member(head, b, i);
            let e = placed(head, b)[i];
            assert(placed(list, b)[i] == e);
            if e != b {
                let j = choose|j: int| 0 <= j < head.len() && head[j] == e;
                assert(list[j] == e);
            }
        } else {
            assert(placed(list, b)[i] == list[list.len() - 1]);
        }
    }
}

/// Placing a box adds that box and changes nothing else.
pub proof fn lemma_placed_permutes(list: Seq<Blob>, b: Blob)
    ensures
        placed(list, b).to_multiset() == list.to_multiset().insert(b),
    decreases list.len(),
{
    if list.len() == 0 {
        assert(seq![b] =~= list.push(b));
        to_multiset_build(list, b);
    } else if reads_first(list.last(), b) {
        to_multiset_build(list, b);
    } else {
        let head = list.drop_last();
        lemma_placed_permutes(head, b);
        to_multiset_build(placed(head, b), list.last());
        assert(list =~= head.push(list.last()));
        to_multiset_build(head, list.last());
        assert(head.to_multiset().insert(b).insert(list.last()) =~= head.to_multiset().insert(
            list.last(),
        ).insert(b));
    }
}

/// A list in reading order is still in reading order after a box was placed.
pub proof fn lemma_placed_ordered(list: Seq<Blob>, b: Blob)
    requires
        is_ordered(list),
    ensures
        is_ordered(placed(list, b)),
    decreases list.len(),
{
    let out = placed(list, b);
    lemma_placed_len(list, b);
    if list.len() == 0 {
    } else if reads_first(list.last(), b) {
        assert forall|i: int, j: int| 0 <= i < j < out.len() implies reads_first(out[i], out[j]) by {
            if j == list.len() {
                if i < list.len() - 1 {
                    assert(reads_first(list[i], list[list.len() - 1]));
                }
            } else {
                assert(reads_first(list[i], list[j]));
            }
        }
    } else {
        let head = list.drop_last();
        assert forall|i: int, j: int| 0 <= i < j < head.len() implies reads_first(head[i], head[j]) by {
            assert(reads_first(list[i], list[j]));
        }
        lemma_placed_ordered(head, b);
        lemma_placed_len(head, b);
        let inner = placed(head, b);
        assert forall|i: int, j: int| 0 <= i < j < out.len() implies reads_first(out[i], out[j]) by {
            if j < inner.len() {
                assert(reads_first(inner[i], inner[j]));
            } else {
                lemma_placed_member(head, b, i);
                if inner[i] != b {
                    let k = choose|k: int| 0 <= k < head.len() && head[k] == inner[i];
                    assert(reads_first(list[k], list[list.len() - 1]));
                }
            }
        }
    }
}

/// Sorting gives a list in reading order.
pub proof fn lemma_reading_order_ordered(blobs: Seq<Blob>)
    ensures
        is_ordered(in_reading_order(blobs)),
    decreases blobs.len(),
{
    if blobs.len() > 0 {
        lemma_reading_order_ordered(blobs.drop_last());
        lemma_placed_ordered(in_reading_order(blobs.drop_last()), blobs.last());
    }
}

/// Sorting keeps every box, as often as it was given, and adds none.
pub proof fn lemma_reading_order_permutes(blobs: Seq<Blob>)
    ensures
        in_reading_order(blobs).to_multiset() == blobs.to_multiset(),
        in_reading_order(blobs).len() == blobs.len(),
    decreases blobs.len(),
{
    if blobs.len() == 0 {
        assert(blobs =~= Seq::<Blob>::empty());
    } else {
        let head = blobs.drop_last();
        lemma_reading_order_permutes(head);
        lemma_placed_permutes(in_reading_order(head), blobs.last());
        lemma_placed_len(in_reading_order(head), blobs.last());
        assert(blobs =~= head.push(blobs.last()));
        to_multiset_build(head, blobs.last());
    }
}

/// Whatever stands in the sorted list stood in the list that was given.
pub proof fn lemma_reading_order_member(blobs: Seq<Blob>, i: int)
    requires
        0 <= i < in_reading_order(blobs).len(),
    ensures
        blobs.contains(in_reading_order(blobs)[i]),
    decreases blobs.len(),
{
    if blobs.len() > 0 {
        let head = blobs.drop_last();
        let sorted = in_reading_order(head);
        lemma_placed_len(sorted, blobs.last());
        lemma_placed_member(sorted, blobs.last(), i);
        let e = placed(sorted, blobs.last())[i];
        if e == blobs.last() {
            assert(blobs[blobs.len() - 1] == e);
        } else {
            let j = choose|j: int| 0 <= j < sorted.len() && sorted[j] == e;
            lemma_reading_order_member(head, j);
            let k = choose|k: int| 0 <= k < head.len() && head[k] == e;
            assert(blobs[k] == e);
        }
    }
}

pub fn origin_not_after(a: &Blob, b: &Blob) -> (out: bool)
    ensures
        out == reads_first(*a, *b),
{
    a.y_min < b.y_min || (a.y_min == b.y_min && a.x_min <= b.x_min)
}

/// Puts `b` into the list at its place in reading order.
pub fn place(list: &mut Vec<Blob>, b: Blob)
    ensures
        final(list)@ == placed(old(list)@, b),
{
    let mut i: usize = list.len();
    proof {
        assert(list@.take(i as int) =~= list@);
        assert(placed(list@, b) + list@.skip(i as int) =~= placed(list@, b));
    }
    while i > 0 && !origin_not_after(&list[i - 1], &b)
        invariant
            i <= list@.len(),
            list@ == old(list)@,
            placed(list@, b) == placed(list@.take(i as int), b) + list@.skip(i as int),
        decreases i,
    {
        proof {
            let head = list@.take(i as int);
            assert(head.last() == list@[i - 1]);
            assert(head.drop_last() =~= list@.take(i - 1));
            assert(placed(head, b) == placed(list@.take(i - 1), b).push(list@[i - 1]));
            assert(placed(list@.take(i - 1), b).push(list@[i - 1]) + list@.skip(i as int) =~= placed(
                list@.take(i - 1),
                b,
            ) + list@.skip(i - 1));
        }
        i = i - 1;
    }
    proof {
        let head = list@.take(i as int);
        if i > 0 {
            assert(head.last() == list@[i - 1]);
        }
        assert(placed(head, b) == head.push(b));
        assert(head.push(b) + list@.skip(i as int) =~= list@.insert(i as int, b));
    }
    list.insert(i, b);
}

/// Sorts the boxes into reading order: top to bottom, then left to right.
pub fn sort_blobs(blobs: &Vec<Blob>) -> (out: Vec<Blob>)
    ensures
        out@ == in_reading_order(blobs@),
{
    let mut out: Vec<Blob> = Vec::new();
    let mut i: usize = 0;
    while i < blobs.len()
        invariant
            i <= blobs@.len(),
            out@ == in_reading_order(blobs@.take(i as int)),
        decreases blobs@.len() - i,
    {
        proof {
            assert(blobs@.take(i + 1).drop_last() =~= blobs@.take(i as int));
            assert(blobs@.take(i + 1).last() == blobs@[i as int]);
        }
        place(&mut out, blobs[i]);
        i = i + 1;
    }
    proof {
        assert(blobs@.take(i as int) =~= blobs@);
    }
    out
}

} // verus!
