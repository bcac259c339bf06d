//! Insertion keeps a tree well formed.

use vstd::prelude::*;
use crate::bounding_box::{
    lemma_tight_grow, lemma_tight_push, lemma_union_of_is_tight, BoundingBox,
};
use crate::r_tree::links::{lemma_child_links, lemma_on_path_parent, lemma_path_child, lemma_push_fresh_no_duplicates, lemma_route_lands};
use crate::r_tree::sides::{lemma_best_split_range, lemma_both_sides_taken, lemma_pick_side_boxes, lemma_pick_side_contains, lemma_pick_side_len, lemma_pick_side_lens, lemma_pick_side_no_duplicates, lemma_sides_partition, lemma_split_tight};
use crate::r_tree::model::{in_first, pick_side, seed_box, TreeView, LAST_MASK, M};

verus! {

/// A group whose children are all stored values, and that has at least one,
/// is one edge high.
pub proof fn lemma_leaf_group_height<T>(tv: TreeView<T>, i: int, k: int)
    requires
        tv.linked(),
        0 <= i < tv.len(),
        0 <= k <= tv.children(i).len(),
        forall|j: int| 0 <= j < tv.children(i).len() ==> tv.is_data(#[trigger] tv.children(i)[j] as int),
    ensures
        tv.tall(i, k) == if k < tv.children(i).len() {
            1nat
        } else {
            0nat
        },
    decreases tv.children(i).len() - k,
{
    if k < tv.children(i).len() {
        lemma_child_links(tv, i, k);
        lemma_leaf_group_height(tv, i, k + 1);
        let c = tv.children(i)[k] as int;
        assert(tv.is_data(c));
        assert(tv.children(c).len() == 0);
        assert(!tv.descends(c, 0));
        assert(tv.height(c) == 0);
    }
}

/// After boxes grew by `b` from `t` up to the root, the box of a group
/// other than `t` whose child list did not change is still the bounding
/// box of its children.
pub proof fn lemma_grown_box_ok<T>(tv: TreeView<T>, nv: TreeView<T>, t: int, b: BoundingBox, i: int)
    requires
        tv.wf(),
        0 <= t < tv.len(),
        0 <= i < tv.len(),
        i != t,
        tv.len() <= nv.len(),
        forall|j: int| 0 <= j < tv.len() ==> #[trigger] nv.bb(j) == tv.grown_box(j, t, b),
        nv.nodes[i].node == tv.nodes[i].node,
    ensures
        nv.box_ok(i),
{
    assert(tv.box_ok(i));
    let cb = tv.child_boxes(i);
    let ncb = nv.child_boxes(i);
    assert(nv.bb(i) == tv.grown_box(i, t, b));
    if tv.on_path(i, t) {
        let ks = lemma_path_child(tv, i, t);
        let c = tv.children(i)[ks] as int;
        lemma_child_links(tv, i, ks);
        assert(ncb =~= cb.update(ks, cb[ks].spec_union(b))) by {
            assert forall|k: int| 0 <= k < ncb.len() implies ncb[k] == cb.update(
                ks,
                cb[ks].spec_union(b),
            )[k] by {
                lemma_child_links(tv, i, k);
                let ck = tv.children(i)[k] as int;
                assert(nv.bb(ck) == tv.grown_box(ck, t, b));
            }
        }
        if i == 0 {
            let boxes = seq![seed_box()] + cb;
            lemma_tight_grow(tv.bb(0), boxes, ks + 1, b);
            assert(seq![seed_box()] + ncb =~= boxes.update(ks + 1, boxes[ks + 1].spec_union(b)));
        } else {
            lemma_tight_grow(tv.bb(i), cb, ks, b);
        }
    } else {
        assert(ncb =~= cb) by {
            assert forall|k: int| 0 <= k < ncb.len() implies ncb[k] == cb[k] by {
                lemma_child_links(tv, i, k);
                let ck = tv.children(i)[k] as int;
                assert(nv.bb(ck) == tv.grown_box(ck, t, b));
                if tv.on_path(ck, t) {
                    lemma_on_path_parent(tv, ck, t);
                }
            }
        }
    }
}

/// Inserting where the group has room keeps the tree well formed.
pub proof fn lemma_insert_child_keeps_wf<T>(tv: TreeView<T>, value: T, b: BoundingBox)
    requires
        tv.wf(),
        !tv.overflows(b),
        tv.len() + 1 <= usize::MAX,
    ensures
        tv.inserted(value, b).wf(),
        tv.inserted(value, b).height(tv.route(0, b)) == 1,
{
    let t = tv.route(0, b);
    let n = tv.len();
    let nv = tv.inserted(value, b);
    lemma_route_lands(tv, 0, b);
    assert(nv.nodes == tv.with_child(t, value, b));
    assert(nv.depth == tv.depth.push(tv.depth[t] + 1));
    assert(nv.children(t) == tv.children(t).push(n as usize));
    assert(tv.fanout_ok(t));
    // links
    assert forall|i: int| 0 < i < nv.len() implies #[trigger] nv.parent_ok(i) by {
        if i == n {
            assert(nv.children(t)[tv.children(t).len() as int] == n as usize);
        } else {
            assert(tv.parent_ok(i));
            let p = tv.nodes[i].parent->0 as int;
            let k = choose|k: int| 0 <= k < tv.children(p).len() && tv.children(p)[k] == i as usize;
            assert(nv.children(p)[k] == i as usize);
        }
    }
    assert forall|i: int, k: int| 0 <= i < nv.len() && 0 <= k < nv.children(i).len() implies #[trigger] nv.child_ok(
        i,
        k,
    ) by {
        if i < n && k < tv.children(i).len() {
            assert(tv.child_ok(i, k));
        }
    }
    assert forall|i: int| 0 <= i < nv.len() implies #[trigger] nv.fanout_ok(i) by {
        if i < n {
            assert(tv.fanout_ok(i));
        }
        if i == t {
            lemma_push_fresh_no_duplicates(tv, t);
        }
    }
    assert forall|i: int| 0 <= i < nv.len() implies #[trigger] nv.depth[i] < nv.len() by {
        if i < n {
            assert(tv.depth[i] < tv.len());
        }
    }
    assert(nv.linked());
    // boxes
    assert forall|j: int| 0 <= j < tv.len() implies #[trigger] nv.bb(j) == tv.grown_box(j, t, b) by {}
    assert forall|i: int| 0 <= i < nv.len() implies #[trigger] nv.box_ok(i) by {
        if i == n {
        } else if i == t {
            assert(tv.box_ok(t));
            assert(tv.ancestor(t, 0) == Some(t));
            assert(tv.on_path(t, t));
            let cb = tv.child_boxes(t);
            assert(nv.child_boxes(t) =~= cb.push(b)) by {
                assert forall|k: int| 0 <= k < nv.child_boxes(t).len() implies nv.child_boxes(t)[k]
                    == cb.push(b)[k] by {
                    if k < cb.len() {
                        lemma_child_links(tv, t, k);
                        let ck = tv.children(t)[k] as int;
                        assert(nv.bb(ck) == tv.grown_box(ck, t, b));
                    }
                }
            }
            if t == 0 {
                lemma_tight_push(tv.bb(0), seq![seed_box()] + cb, b);
                assert(seq![seed_box()] + cb.push(b) =~= (seq![seed_box()] + cb).push(b));
            } else {
                lemma_tight_push(tv.bb(t), cb, b);
            }
        } else {
            lemma_grown_box_ok(tv, nv, t, b, i);
        }
    }
    assert(nv.boxed());
    // recorded depth
    assert forall|i: int| 0 <= i < nv.len() implies #[trigger] nv.depth[i] <= nv.max_depth by {
        if i < n {
            assert(tv.depth[i] <= tv.max_depth);
        }
    }
    if tv.depth[t] + 1 >= tv.max_depth {
        assert(nv.is_data(n) && nv.depth[n] == nv.max_depth);
    } else {
        assert(tv.len() != 1) by {
            if tv.len() == 1 {
                assert(t == 0);
            }
        }
        let w = choose|i: int|
            0 <= i < tv.len() && tv.is_data(i) && #[trigger] tv.depth[i] == tv.max_depth;
        assert(nv.is_data(w) && nv.depth[w] == nv.max_depth);
    }
    assert(nv.depth_recorded());
    // height
    assert forall|j: int| 0 <= j < nv.children(t).len() implies nv.is_data(
        #[trigger] nv.children(t)[j] as int,
    ) by {
        if j < tv.children(t).len() {
            assert(tv.is_data(tv.children(t)[j] as int));
            lemma_child_links(tv, t, j);
        }
    }
    lemma_leaf_group_height(nv, t, 0);
}

/// What the division of a full group looks like: both sides are non-empty
/// and hold at most `M` slots, without repeats.
pub proof fn lemma_split_sides<T>(tv: TreeView<T>, t: int, b: BoundingBox)
    requires
        tv.linked(),
        0 <= t < tv.len(),
        tv.children(t).len() == M,
        tv.len() + 1 <= usize::MAX,
    ensures
        1 <= tv.split_mask(t, b) <= LAST_MASK,
        ({
            let all = tv.children(t).push(tv.len() as usize);
            let first = pick_side(all, tv.split_mask(t, b), true);
            let second = pick_side(all, tv.split_mask(t, b), false);
            &&& all.no_duplicates()
            &&& 0 < first.len() <= M
            &&& 0 < second.len() <= M
            &&& first.no_duplicates()
            &&& second.no_duplicates()
        }),
{
    let all = tv.children(t).push(tv.len() as usize);
    let boxes = tv.child_boxes(t).push(b);
    let mask = tv.split_mask(t, b);
    lemma_best_split_range(boxes, LAST_MASK);
    lemma_both_sides_taken(mask);
    let k1 = choose|k: int| 0 <= k <= M && in_first(mask, k);
    let k2 = choose|k: int| 0 <= k <= M && !in_first(mask, k);
    lemma_pick_side_contains(all, mask, true, all[k1]);
    lemma_pick_side_contains(all, mask, false, all[k2]);
    lemma_pick_side_lens(all, mask);
    lemma_push_fresh_no_duplicates(tv, t);
    lemma_pick_side_no_duplicates(all, mask, true);
    lemma_pick_side_no_duplicates(all, mask, false);
}

/// Inserting where the group is full keeps the tree well formed.
pub proof fn lemma_insert_split_keeps_wf<T>(tv: TreeView<T>, value: T, b: BoundingBox)
    requires
        tv.wf(),
        tv.overflows(b),
        tv.len() + 3 <= usize::MAX,
    ensures
        tv.inserted(value, b).wf(),
        tv.inserted(value, b).height(tv.route(0, b)) == 2,
{
    let t = tv.route(0, b);
    let n = tv.len();
    let nv = tv.inserted(value, b);
    lemma_route_lands(tv, 0, b);
    assert(tv.fanout_ok(t));
    let all = tv.children(t).push(n as usize);
    let boxes = tv.child_boxes(t).push(b);
    let mask = tv.split_mask(t, b);
    let first = pick_side(all, mask, true);
    let second = pick_side(all, mask, false);
    lemma_split_sides(tv, t, b);
    assert(nv.nodes == tv.with_split(t, value, b));
    assert(all[M as int] == n as usize);
    assert(all.contains(n as usize));
    // which slots the sides hold
    assert forall|x: usize| all.contains(x) <==> (x == n || tv.children(t).contains(x)) by {
        if all.contains(x) {
            let k = choose|k: int| 0 <= k < all.len() && all[k] == x;
            if k < M {
                assert(tv.children(t)[k] == x);
            }
        }
        if tv.children(t).contains(x) {
            let k = choose|k: int| 0 <= k < tv.children(t).len() && tv.children(t)[k] == x;
            assert(all[k] == x);
        }
    }
    assert forall|x: usize|
        (#[trigger] all.contains(x) <==> first.contains(x) || second.contains(x)) && !(
        first.contains(x) && second.contains(x)) by {
        lemma_sides_partition(all, mask, x);
    }
    assert forall|x: usize| all.contains(x) implies 0 < x <= n && (x < n ==> tv.is_data(x as int)
        && tv.nodes[x as int].parent == Some(t as usize) && tv.depth[x as int] == tv.depth[t] + 1)
        by {
        if x != n {
            let k = choose|k: int| 0 <= k < tv.children(t).len() && tv.children(t)[k] == x;
            lemma_child_links(tv, t, k);
        }
    }
    assert(nv.children(t) == seq![(n + 1) as usize, (n + 2) as usize]);
    assert(nv.children(n + 1) == first);
    assert(nv.children(n + 2) == second);
    assert(!all.contains(t as usize));
    // links
    assert forall|i: int| 0 < i < nv.len() implies #[trigger] nv.parent_ok(i) by {
        if i == n {
            assert(all.contains(n as usize));
        } else if i == n + 1 {
            assert(nv.children(t)[0] == (n + 1) as usize);
        } else if i == n + 2 {
            assert(nv.children(t)[1] == (n + 2) as usize);
        } else {
            assert(tv.parent_ok(i));
            let p = tv.nodes[i].parent->0 as int;
            if all.contains(i as usize) {
            } else {
                assert(!tv.children(t).contains(i as usize));
                assert(p != t);
                assert(!all.contains(p as usize));
            }
        }
    }
    assert forall|i: int, k: int| 0 <= i < nv.len() && 0 <= k < nv.children(i).len() implies #[trigger] nv.child_ok(
        i,
        k,
    ) by {
        if i == t {
            if k == 0 {
                assert(nv.children(t)[0] == (n + 1) as usize);
            } else {
                assert(nv.children(t)[1] == (n + 2) as usize);
            }
        } else if i == n + 1 {
            assert(first.contains(first[k]));
            assert(all.contains(first[k]));
        } else if i == n + 2 {
            assert(second.contains(second[k]));
            assert(all.contains(second[k]));
        } else if i == n {
        } else {
            assert(tv.child_ok(i, k));
            let c = tv.children(i)[k];
            assert(!all.contains(c));
        }
    }
    assert forall|i: int| 0 <= i < nv.len() implies #[trigger] nv.fanout_ok(i) by {
        if i < n && i != t {
            assert(tv.fanout_ok(i));
        }
    }
    assert forall|i: int| 0 <= i < nv.len() implies #[trigger] nv.depth[i] < nv.len() by {
        if i < n {
            assert(tv.depth[i] < tv.len());
        }
        assert(tv.depth[t] < tv.len());
    }
    assert(!all.contains(0usize));
    assert(nv.depth[0] == 0);
    assert(nv.nodes[0].parent is None);
    assert(nv.is_group(0));
    assert(nv.depth.len() == nv.len());
    assert(nv.linked());
    // boxes
    assert forall|j: int| 0 <= j < tv.len() implies #[trigger] nv.bb(j) == tv.grown_box(j, t, b) by {}
    assert(nv.boxes_of(all) =~= boxes) by {
        assert forall|k: int| 0 <= k < all.len() implies nv.boxes_of(all)[k] == boxes[k] by {
            if k < M {
                lemma_child_links(tv, t, k);
                let ck = tv.children(t)[k] as int;
                assert(nv.bb(ck) == tv.grown_box(ck, t, b));
            }
        }
    }
    lemma_pick_side_boxes(nv, all, mask, true);
    lemma_pick_side_boxes(nv, all, mask, false);
    lemma_pick_side_len(all, boxes, mask, true);
    lemma_pick_side_len(all, boxes, mask, false);
    let s1 = pick_side(boxes, mask, true);
    let s2 = pick_side(boxes, mask, false);
    assert(nv.child_boxes(n + 1) =~= s1);
    assert(nv.child_boxes(n + 2) =~= s2);
    assert forall|i: int| 0 <= i < nv.len() implies #[trigger] nv.box_ok(i) by {
        if i == n {
        } else if i == n + 1 {
            lemma_union_of_is_tight(s1);
        } else if i == n + 2 {
            lemma_union_of_is_tight(s2);
        } else if i == t {
            assert(tv.box_ok(t));
            assert(tv.ancestor(t, 0) == Some(t));
            assert(tv.on_path(t, t));
            let cb = tv.child_boxes(t);
            let parts = seq![nv.bb(n + 1), nv.bb(n + 2)];
            assert(nv.child_boxes(t) =~= parts);
            if t == 0 {
                lemma_tight_push(tv.bb(0), seq![seed_box()] + cb, b);
                assert(seq![seed_box()] + boxes =~= (seq![seed_box()] + cb).push(b));
                lemma_split_tight(nv.bb(0), seq![seed_box()], boxes, mask);
            } else {
                lemma_tight_push(tv.bb(t), cb, b);
                assert(Seq::<BoundingBox>::empty() + boxes =~= boxes);
                lemma_split_tight(nv.bb(t), Seq::empty(), boxes, mask);
                assert(Seq::<BoundingBox>::empty() + parts =~= parts);
            }
        } else {
            lemma_grown_box_ok(tv, nv, t, b, i);
        }
    }
    assert(nv.boxed());
    // recorded depth
    assert forall|i: int| 0 <= i < nv.len() implies #[trigger] nv.depth[i] <= nv.max_depth by {
        if i < n {
            assert(tv.depth[i] <= tv.max_depth);
        }
    }
    if tv.depth[t] + 2 >= tv.max_depth {
        assert(nv.is_data(n) && nv.depth[n] == nv.max_depth);
    } else {
        let w = choose|i: int|
            0 <= i < tv.len() && tv.is_data(i) && #[trigger] tv.depth[i] == tv.max_depth;
        assert(!all.contains(w as usize));
        assert(nv.is_data(w) && nv.depth[w] == nv.max_depth);
    }
    assert(nv.depth_recorded());
    // height
    assert forall|j: int| 0 <= j < nv.children(n + 1).len() implies nv.is_data(
        #[trigger] nv.children(n + 1)[j] as int,
    ) by {
        assert(first.contains(first[j]));
        assert(all.contains(first[j]));
    }
    assert forall|j: int| 0 <= j < nv.children(n + 2).len() implies nv.is_data(
        #[trigger] nv.children(n + 2)[j] as int,
    ) by {
        assert(second.contains(second[j]));
        assert(all.contains(second[j]));
    }
    lemma_leaf_group_height(nv, n + 1, 0);
    lemma_leaf_group_height(nv, n + 2, 0);
    lemma_child_links(nv, t, 0);
    lemma_child_links(nv, t, 1);
    assert(nv.height(n + 1) == 1 && nv.height(n + 2) == 1);
    assert(!nv.descends(t, 2));
    assert(nv.tall(t, 2) == 0);
    assert(nv.tall(t, 1) == 2);
    assert(nv.tall(t, 0) == 2);
}

/// Inserting into a well-formed tree gives a well-formed tree, in which the
/// newcomer is the deepest slot below the group that took it.
pub proof fn lemma_insert_keeps_wf<T>(tv: TreeView<T>, value: T, b: BoundingBox)
    requires
        tv.wf(),
        tv.after_insert(value, b).len() <= usize::MAX,
    ensures
        tv.inserted(value, b).wf(),
        tv.inserted(value, b).height(tv.route(0, b)) + tv.depth[tv.route(0, b)] == tv.depth_of_new(
            b,
        ),
{
    if tv.overflows(b) {
        lemma_insert_split_keeps_wf(tv, value, b);
    } else {
        lemma_insert_child_keeps_wf(tv, value, b);
    }
}

} // verus!
