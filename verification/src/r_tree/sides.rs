//! The two sides into which a bit pattern parts a sequence, and what
//! parting the children of a group does to its box.

use vstd::prelude::*;
use crate::bounding_box::{lemma_union_of_is_tight, tight, union_of, BoundingBox};
use crate::r_tree::model::{best_split, in_first, pick_side, TreeView, LAST_MASK, M};

verus! {

/// Taking one more item into account adds it to a side exactly when its
/// position falls on that side.
pub proof fn lemma_pick_side_step<A>(items: Seq<A>, mask: u32, first: bool, k: int)
    requires
        0 <= k < items.len(),
    ensures
        pick_side(items.take(k + 1), mask, first) == if in_first(mask, k) == first {
            pick_side(items.take(k), mask, first).push(items[k])
        } else {
            pick_side(items.take(k), mask, first)
        },
{
    assert(items.take(k + 1).drop_last() =~= items.take(k));
}

/// A side is as long whatever the items are: only positions count.
pub proof fn lemma_pick_side_len<A, B>(a: Seq<A>, b: Seq<B>, mask: u32, first: bool)
    requires
        a.len() == b.len(),
    ensures
        pick_side(a, mask, first).len() == pick_side(b, mask, first).len(),
    decreases a.len(),
{
    if a.len() > 0 {
        lemma_pick_side_len(a.drop_last(), b.drop_last(), mask, first);
    }
}

/// The two sides share out all the items.
pub proof fn lemma_pick_side_lens<A>(items: Seq<A>, mask: u32)
    ensures
        pick_side(items, mask, true).len() + pick_side(items, mask, false).len() == items.len(),
    decreases items.len(),
{
    if items.len() > 0 {
        lemma_pick_side_lens(items.drop_last(), mask);
    }
}

/// A side of items without repeats has no repeats.
pub proof fn lemma_pick_side_no_duplicates<A>(items: Seq<A>, mask: u32, first: bool)
    requires
        items.no_duplicates(),
    ensures
        pick_side(items, mask, first).no_duplicates(),
    decreases items.len(),
{
    if items.len() > 0 {
        let front = items.drop_last();
        let rest = pick_side(front, mask, first);
        lemma_pick_side_no_duplicates(front, mask, first);
        lemma_pick_side_contains(front, mask, first, items.last());
        if rest.contains(items.last()) {
            let k = choose|k: int|
                0 <= k < front.len() && #[trigger] front[k] == items.last() && in_first(mask, k)
                    == first;
            assert(items[k] == items[items.len() - 1]);
        }
    }
}

/// The boxes of a side are that side of the boxes.
pub proof fn lemma_pick_side_boxes<T>(tv: TreeView<T>, ids: Seq<usize>, mask: u32, first: bool)
    ensures
        tv.boxes_of(pick_side(ids, mask, first)) == pick_side(tv.boxes_of(ids), mask, first),
    decreases ids.len(),
{
    if ids.len() > 0 {
        lemma_pick_side_boxes(tv, ids.drop_last(), mask, first);
        assert(tv.boxes_of(ids).drop_last() =~= tv.boxes_of(ids.drop_last()));
    }
    assert(tv.boxes_of(pick_side(ids, mask, first)) =~= pick_side(tv.boxes_of(ids), mask, first));
}

/// If `outer` is the bounding box of some boxes, it is also the bounding
/// box of the unions of the two sides into which the last `boxes` of them
/// are parted, together with the boxes `fixed` that come before these.
pub proof fn lemma_split_tight(
    outer: BoundingBox,
    fixed: Seq<BoundingBox>,
    boxes: Seq<BoundingBox>,
    mask: u32,
)
    requires
        tight(outer, fixed + boxes),
        pick_side(boxes, mask, true).len() > 0,
        pick_side(boxes, mask, false).len() > 0,
    ensures
        tight(
            outer,
            fixed + seq![
                union_of(pick_side(boxes, mask, true)),
                union_of(pick_side(boxes, mask, false)),
            ],
        ),
{
    let s1 = pick_side(boxes, mask, true);
    let s2 = pick_side(boxes, mask, false);
    let u1 = union_of(s1);
    let u2 = union_of(s2);
    let whole = fixed + boxes;
    let parted = fixed + seq![u1, u2];
    let f = fixed.len() as int;
    lemma_union_of_is_tight(s1);
    lemma_union_of_is_tight(s2);
    assert(parted[f] == u1 && parted[f + 1] == u2);
    // every box of a side is one of `boxes`, which `outer` covers
    assert forall|k: int| 0 <= k < s1.len() implies outer.covers(#[trigger] s1[k]) by {
        lemma_pick_side_contains(boxes, mask, true, s1[k]);
        let w = choose|w: int|
            0 <= w < boxes.len() && #[trigger] boxes[w] == s1[k] && in_first(mask, w) == true;
        assert(whole[f + w] == boxes[w]);
    }
    assert forall|k: int| 0 <= k < s2.len() implies outer.covers(#[trigger] s2[k]) by {
        lemma_pick_side_contains(boxes, mask, false, s2[k]);
        let w = choose|w: int|
            0 <= w < boxes.len() && #[trigger] boxes[w] == s2[k] && in_first(mask, w) == false;
        assert(whole[f + w] == boxes[w]);
    }
    assert(outer.covers(u1)) by {
        let a = choose|k: int| 0 <= k < s1.len() && (#[trigger] s1[k]).min.x == u1.min.x;
        let b = choose|k: int| 0 <= k < s1.len() && (#[trigger] s1[k]).min.y == u1.min.y;
        let c = choose|k: int| 0 <= k < s1.len() && (#[trigger] s1[k]).max.x == u1.max.x;
        let d = choose|k: int| 0 <= k < s1.len() && (#[trigger] s1[k]).max.y == u1.max.y;
        assert(outer.covers(s1[a]) && outer.covers(s1[b]) && outer.covers(s1[c]) && outer.covers(
            s1[d],
        ));
    }
    assert(outer.covers(u2)) by {
        let a = choose|k: int| 0 <= k < s2.len() && (#[trigger] s2[k]).min.x == u2.min.x;
        let b = choose|k: int| 0 <= k < s2.len() && (#[trigger] s2[k]).min.y == u2.min.y;
        let c = choose|k: int| 0 <= k < s2.len() && (#[trigger] s2[k]).max.x == u2.max.x;
        let d = choose|k: int| 0 <= k < s2.len() && (#[trigger] s2[k]).max.y == u2.max.y;
        assert(outer.covers(s2[a]) && outer.covers(s2[b]) && outer.covers(s2[c]) && outer.covers(
            s2[d],
        ));
    }
    assert forall|k: int| 0 <= k < parted.len() implies outer.covers(#[trigger] parted[k]) by {
        if k < f {
            assert(whole[k] == fixed[k]);
            assert(outer.covers(whole[k]));
        }
    }
    // each side of `outer` is reached by a box that one of the unions covers
    let w0 = choose|k: int| 0 <= k < whole.len() && (#[trigger] whole[k]).min.x == outer.min.x;
    let w1 = choose|k: int| 0 <= k < whole.len() && (#[trigger] whole[k]).min.y == outer.min.y;
    let w2 = choose|k: int| 0 <= k < whole.len() && (#[trigger] whole[k]).max.x == outer.max.x;
    let w3 = choose|k: int| 0 <= k < whole.len() && (#[trigger] whole[k]).max.y == outer.max.y;
    let c0 = lemma_part_covers(fixed, boxes, mask, w0);
    let c1 = lemma_part_covers(fixed, boxes, mask, w1);
    let c2 = lemma_part_covers(fixed, boxes, mask, w2);
    let c3 = lemma_part_covers(fixed, boxes, mask, w3);
    assert(outer.covers(parted[c0]) && parted[c0].min.x == outer.min.x);
    assert(outer.covers(parted[c1]) && parted[c1].min.y == outer.min.y);
    assert(outer.covers(parted[c2]) && parted[c2].max.x == outer.max.x);
    assert(outer.covers(parted[c3]) && parted[c3].max.y == outer.max.y);
}

/// Each of the boxes `fixed + boxes` is covered by one of `fixed` followed
/// by the unions of the two sides of `boxes`; returns the position of one
/// that covers the box at `w`.
pub proof fn lemma_part_covers(
    fixed: Seq<BoundingBox>,
    boxes: Seq<BoundingBox>,
    mask: u32,
    w: int,
) -> (k: int)
    requires
        0 <= w < fixed.len() + boxes.len(),
    ensures
        0 <= k < fixed.len() + 2,
        (fixed + seq![
            union_of(pick_side(boxes, mask, true)),
            union_of(pick_side(boxes, mask, false)),
        ])[k].covers((fixed + boxes)[w]),
{
    let s1 = pick_side(boxes, mask, true);
    let s2 = pick_side(boxes, mask, false);
    let f = fixed.len() as int;
    if w < f {
        w
    } else {
        let x = boxes[w - f];
        if in_first(mask, w - f) {
            lemma_pick_side_contains(boxes, mask, true, x);
            let j = choose|j: int| 0 <= j < s1.len() && s1[j] == x;
            lemma_union_of_is_tight(s1);
            assert(union_of(s1).covers(s1[j]));
            f
        } else {
            lemma_pick_side_contains(boxes, mask, false, x);
            let j = choose|j: int| 0 <= j < s2.len() && s2[j] == x;
            lemma_union_of_is_tight(s2);
            assert(union_of(s2).covers(s2[j]));
            f + 1
        }
    }
}

/// A side holds exactly the items whose position falls on it.
pub proof fn lemma_pick_side_contains<A>(items: Seq<A>, mask: u32, first: bool, x: A)
    ensures
        pick_side(items, mask, first).contains(x) <==> exists|k: int|
            0 <= k < items.len() && #[trigger] items[k] == x && in_first(mask, k) == first,
    decreases items.len(),
{
    if items.len() > 0 {
        let front = items.drop_last();
        let n = items.len() - 1;
        lemma_pick_side_contains(front, mask, first, x);
        let side = pick_side(items, mask, first);
        let rest = pick_side(front, mask, first);
        if side.contains(x) {
            let w = choose|w: int| 0 <= w < side.len() && side[w] == x;
            if in_first(mask, n) == first && w == rest.len() {
                assert(items[n] == x);
            } else {
                assert(rest[w] == x);
                let k = choose|k: int|
                    0 <= k < front.len() && #[trigger] front[k] == x && in_first(mask, k) == first;
                assert(items[k] == x);
            }
        }
        if exists|k: int|
            0 <= k < items.len() && #[trigger] items[k] == x && in_first(mask, k) == first {
            let k = choose|k: int|
                0 <= k < items.len() && #[trigger] items[k] == x && in_first(mask, k) == first;
            if k == n {
                assert(side[rest.len() as int] == x);
            } else {
                assert(front[k] == x);
                let w = choose|w: int| 0 <= w < rest.len() && rest[w] == x;
                assert(side[w] == x);
            }
        }
    }
}

/// Every pattern from 1 to the last one puts some position on each side.
pub proof fn lemma_both_sides_taken(mask: u32)
    requires
        1 <= mask <= LAST_MASK,
    ensures
        exists|k: int| 0 <= k <= M && in_first(mask, k),
        exists|k: int| 0 <= k <= M && !in_first(mask, k),
{
    assert(1 <= mask <= 30 ==> (mask & (1u32 << 0u32) != 0 || mask & (1u32 << 1u32) != 0 || mask & (
    1u32 << 2u32) != 0 || mask & (1u32 << 3u32) != 0 || mask & (1u32 << 4u32) != 0))
        by (bit_vector);
    assert(1 <= mask <= 30 ==> (mask & (1u32 << 0u32) == 0 || mask & (1u32 << 1u32) == 0 || mask & (
    1u32 << 2u32) == 0 || mask & (1u32 << 3u32) == 0 || mask & (1u32 << 4u32) == 0))
        by (bit_vector);
    assert(in_first(mask, 0) || in_first(mask, 1) || in_first(mask, 2) || in_first(mask, 3)
        || in_first(mask, 4));
    assert(!in_first(mask, 0) || !in_first(mask, 1) || !in_first(mask, 2) || !in_first(mask, 3)
        || !in_first(mask, 4));
}

/// The cheapest pattern among `1..=upto` is one of them.
pub proof fn lemma_best_split_range(boxes: Seq<BoundingBox>, upto: u32)
    requires
        upto >= 1,
    ensures
        1 <= best_split(boxes, upto) <= upto,
    decreases upto,
{
    if upto > 1 {
        lemma_best_split_range(boxes, (upto - 1) as u32);
    }
}

/// The two sides of items without repeats part them: each item is on one
/// side and on one only.
pub proof fn lemma_sides_partition<A>(items: Seq<A>, mask: u32, x: A)
    requires
        items.no_duplicates(),
    ensures
        items.contains(x) <==> pick_side(items, mask, true).contains(x) || pick_side(
            items,
            mask,
            false,
        ).contains(x),
        !(pick_side(items, mask, true).contains(x) && pick_side(items, mask, false).contains(x)),
{
    lemma_pick_side_contains(items, mask, true, x);
    lemma_pick_side_contains(items, mask, false, x);
    if items.contains(x) {
        let k = choose|k: int| 0 <= k < items.len() && items[k] == x;
        assert(items[k] == x && (in_first(mask, k) == true || in_first(mask, k) == false));
    }
    if pick_side(items, mask, true).contains(x) {
        let k = choose|k: int|
            0 <= k < items.len() && #[trigger] items[k] == x && in_first(mask, k) == true;
        assert(items.contains(x));
        if pick_side(items, mask, false).contains(x) {
            let j = choose|j: int|
                0 <= j < items.len() && #[trigger] items[j] == x && in_first(mask, j) == false;
            assert(j != k);
        }
    }
    if pick_side(items, mask, false).contains(x) {
        let k = choose|k: int|
            0 <= k < items.len() && #[trigger] items[k] == x && in_first(mask, k) == false;
        assert(items.contains(x));
    }
}

} // verus!
