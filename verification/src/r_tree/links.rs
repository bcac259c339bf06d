//! How the slots of a well-formed tree hang together: parents and
//! children, the way from a slot up to the root, and where routing ends.

use vstd::prelude::*;
use crate::bounding_box::BoundingBox;
use crate::r_tree::model::{seed_box, TreeView};

verus! {

/// A listed child is a slot other than the root, one edge below its group,
/// and names that group as its parent.
pub proof fn lemma_child_links<T>(tv: TreeView<T>, i: int, k: int)
    requires
        tv.linked(),
        0 <= i < tv.len(),
        0 <= k < tv.children(i).len(),
    ensures
        0 < tv.children(i)[k] < tv.len(),
        tv.nodes[tv.children(i)[k] as int].parent == Some(i as usize),
        tv.depth[tv.children(i)[k] as int] == tv.depth[i] + 1,
        tv.depth[tv.children(i)[k] as int] < tv.len(),
        tv.is_group(i),
        tv.descends(i, k),
{
    assert(tv.child_ok(i, k));
    assert(tv.parent_ok(tv.children(i)[k] as int));
}

/// The box of a parent covers the box of its child.
pub proof fn lemma_parent_covers<T>(tv: TreeView<T>, i: int)
    requires
        tv.wf(),
        0 < i < tv.len(),
    ensures
        tv.nodes[i].parent is Some,
        tv.nodes[i].parent->0 < tv.len(),
        tv.bb(tv.nodes[i].parent->0 as int).covers(tv.bb(i)),
{
    assert(tv.parent_ok(i));
    let p = tv.nodes[i].parent->0 as int;
    let k = choose|k: int| 0 <= k < tv.children(p).len() && tv.children(p)[k] == i as usize;
    assert(tv.child_boxes(p)[k] == tv.bb(i));
    assert(tv.box_ok(p));
    if p == 0 {
        let boxes = seq![seed_box()] + tv.child_boxes(0);
        assert(boxes[k + 1] == tv.bb(i));
    }
}

/// What `best_child` returns is a group among the children it looked at;
/// it returns nothing only if none of them is a group.
pub proof fn lemma_best_child<T>(tv: TreeView<T>, i: int, b: BoundingBox, k: int)
    requires
        0 <= k <= tv.children(i).len(),
    ensures
        match tv.best_child(i, b, k) {
            Some(c) => exists|j: int|
                0 <= j < k && #[trigger] tv.children(i)[j] as int == c && tv.is_group(c),
            None => forall|j: int| 0 <= j < k ==> !tv.is_group(#[trigger] tv.children(i)[j] as int),
        },
    decreases k,
{
    if k > 0 {
        lemma_best_child(tv, i, b, k - 1);
        let prev = tv.best_child(i, b, k - 1);
        let c = tv.children(i)[k - 1] as int;
        match tv.best_child(i, b, k) {
            Some(r) => {
                if r == c && tv.is_group(c) {
                    assert(tv.children(i)[k - 1] as int == r);
                } else {
                    let j = choose|j: int|
                        0 <= j < k - 1 && #[trigger] tv.children(i)[j] as int == r && tv.is_group(
                            r,
                        );
                    assert(tv.children(i)[j] as int == r);
                }
            },
            None => {},
        }
    }
}

/// Routing ends at a group none of whose children is a group.
pub proof fn lemma_route_lands<T>(tv: TreeView<T>, i: int, b: BoundingBox)
    requires
        tv.linked(),
        0 <= i < tv.len(),
        tv.is_group(i),
    ensures
        0 <= tv.route(i, b) < tv.len(),
        tv.is_group(tv.route(i, b)),
        tv.depth[tv.route(i, b)] >= tv.depth[i],
        forall|k: int|
            0 <= k < tv.children(tv.route(i, b)).len() ==> tv.is_data(
                #[trigger] tv.children(tv.route(i, b))[k] as int,
            ),
    decreases tv.len() - tv.depth[i],
{
    lemma_best_child(tv, i, b, tv.children(i).len() as int);
    match tv.best_child(i, b, tv.children(i).len() as int) {
        Some(c) => {
            let j = choose|j: int|
                0 <= j < tv.children(i).len() && #[trigger] tv.children(i)[j] as int == c
                    && tv.is_group(c);
            lemma_child_links(tv, i, j);
            lemma_route_lands(tv, c, b);
        },
        None => {},
    }
}

/// Following `k` parent links from `i`, for `k` up to the depth of `i`,
/// leads to a slot `k` edges higher.
pub proof fn lemma_ancestor_valid<T>(tv: TreeView<T>, i: int, k: nat)
    requires
        tv.linked(),
        0 <= i < tv.len(),
        k <= tv.depth[i],
    ensures
        tv.ancestor(i, k) is Some,
        0 <= tv.ancestor(i, k)->0 < tv.len(),
        tv.depth[tv.ancestor(i, k)->0] + k == tv.depth[i],
    decreases k,
{
    if k > 0 {
        lemma_ancestor_valid(tv, i, (k - 1) as nat);
        let j = tv.ancestor(i, (k - 1) as nat)->0;
        assert(j != 0);
        assert(tv.parent_ok(j));
    }
}

/// The parent of a slot on the way from `t` to the root is on that way too.
pub proof fn lemma_on_path_parent<T>(tv: TreeView<T>, c: int, t: int)
    requires
        tv.linked(),
        0 < c < tv.len(),
        0 <= t < tv.len(),
        tv.on_path(c, t),
    ensures
        tv.nodes[c].parent is Some,
        tv.on_path(tv.nodes[c].parent->0 as int, t),
{
    assert(tv.parent_ok(c));
    let k = (tv.depth[t] - tv.depth[c]) as nat;
    assert(tv.ancestor(t, k + 1) == Some(tv.nodes[c].parent->0 as int));
}

/// A slot above `t` on the way to the root has exactly one child on that
/// way.
pub proof fn lemma_path_child<T>(tv: TreeView<T>, i: int, t: int) -> (k: int)
    requires
        tv.linked(),
        0 <= i < tv.len(),
        0 <= t < tv.len(),
        tv.on_path(i, t),
        i != t,
    ensures
        0 <= k < tv.children(i).len(),
        tv.on_path(tv.children(i)[k] as int, t),
        forall|j: int|
            0 <= j < tv.children(i).len() && j != k ==> !tv.on_path(
                #[trigger] tv.children(i)[j] as int,
                t,
            ),
{
    let d = (tv.depth[t] - tv.depth[i]) as nat;
    assert(d > 0) by {
        if d == 0 {
            assert(tv.ancestor(t, 0) == Some(t));
        }
    }
    lemma_ancestor_valid(tv, t, (d - 1) as nat);
    let c = tv.ancestor(t, (d - 1) as nat)->0;
    assert(tv.nodes[c].parent == Some(i as usize));
    assert(c != 0);
    assert(tv.parent_ok(c));
    let k = choose|k: int| 0 <= k < tv.children(i).len() && tv.children(i)[k] == c as usize;
    assert(tv.fanout_ok(i));
    assert forall|j: int| 0 <= j < tv.children(i).len() && j != k implies !tv.on_path(
        #[trigger] tv.children(i)[j] as int,
        t,
    ) by {
        lemma_child_links(tv, i, j);
    }
    lemma_child_links(tv, i, k);
    k
}

/// The child list of a group stays free of repeats when a slot beyond the
/// arena's end joins it.
pub proof fn lemma_push_fresh_no_duplicates<T>(tv: TreeView<T>, i: int)
    requires
        tv.linked(),
        0 <= i < tv.len(),
    ensures
        tv.children(i).push(tv.len() as usize).no_duplicates(),
{
    let s = tv.children(i).push(tv.len() as usize);
    assert(tv.fanout_ok(i));
    assert forall|a: int, b: int| 0 <= a < s.len() && 0 <= b < s.len() && a != b implies s[a]
        != s[b] by {
        if a < tv.children(i).len() {
            lemma_child_links(tv, i, a);
        }
        if b < tv.children(i).len() {
            lemma_child_links(tv, i, b);
        }
    }
}

} // verus!
