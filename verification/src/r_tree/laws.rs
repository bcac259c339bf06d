//! What holds of every well-formed tree, and so of every tree made by
//! `new` and `insert_entry`.

use vstd::prelude::*;
use crate::bounding_box::{
    lemma_covers_absorbs, lemma_tight_unique, lemma_union_of_is_tight, union_of, BoundingBox,
};
use crate::r_tree::growth::lemma_insert_keeps_wf;
use crate::r_tree::links::{lemma_path_child, lemma_route_lands};
use crate::r_tree::model::{built, empty_tree, seed_box, NodeView, TreeView, M};
use crate::r_tree::order::{
    lemma_ancestors_cover, lemma_filter_no_duplicates, lemma_root_on_path, lemma_subtree_members,
    lemma_subtree_no_duplicates, lemma_subtree_reaches,
};
use crate::r_tree::walk::WalkCallbackPayload;

verus! {

/// The empty tree is well formed.
pub proof fn lemma_empty_wf<T>()
    ensures
        empty_tree::<T>().wf(),
{
    let tv = empty_tree::<T>();
    assert(tv.children(0) =~= Seq::empty());
    assert(tv.fanout_ok(0));
    let boxes = seq![seed_box()] + tv.child_boxes(0);
    assert(boxes[0] == seed_box());
    assert(tv.box_ok(0));
}

/// Every tree made by insertions into an empty tree is well formed, as long
/// as its slots can be counted. So whatever holds of well-formed trees
/// holds after any sequence of insertions.
pub proof fn lemma_built_wf<T>(items: Seq<(T, BoundingBox)>)
    requires
        built(items).len() <= usize::MAX,
    ensures
        built(items).wf(),
    decreases items.len(),
{
    if items.len() == 0 {
        lemma_empty_wf::<T>();
    } else {
        let before = built(items.drop_last());
        assert(before.len() < built(items).len());
        lemma_built_wf(items.drop_last());
        lemma_insert_keeps_wf(before, items.last().0, items.last().1);
    }
}

/// Coverage: the box of every group but the root is the union of its
/// children's boxes, and such a group has a child.
pub proof fn lemma_group_box_is_union<T>(tv: TreeView<T>, i: int)
    requires
        tv.wf(),
        0 < i < tv.len(),
        tv.is_group(i),
    ensures
        tv.children(i).len() > 0,
        tv.bb(i) == union_of(tv.child_boxes(i)),
{
    assert(tv.box_ok(i));
    let boxes = tv.child_boxes(i);
    lemma_union_of_is_tight(boxes);
    lemma_tight_unique(tv.bb(i), union_of(boxes), boxes);
}

/// Coverage at the root: its box is the union of the seed box and of its
/// children's boxes.
pub proof fn lemma_root_box_is_union<T>(tv: TreeView<T>)
    requires
        tv.wf(),
    ensures
        tv.bb(0) == union_of(seq![seed_box()] + tv.child_boxes(0)),
{
    assert(tv.box_ok(0));
    let boxes = seq![seed_box()] + tv.child_boxes(0);
    lemma_union_of_is_tight(boxes);
    lemma_tight_unique(tv.bb(0), union_of(boxes), boxes);
}

/// Containment: the box of every slot on the way from a stored value up to
/// the root covers the value's box, so that taking the value's box in does
/// not enlarge it.
pub proof fn lemma_ancestor_box_contains<T>(tv: TreeView<T>, j: int, k: nat)
    requires
        tv.wf(),
        0 <= j < tv.len(),
        tv.is_data(j),
        tv.ancestor(j, k) is Some,
    ensures
        0 <= tv.ancestor(j, k)->0 < tv.len(),
        tv.bb(tv.ancestor(j, k)->0).covers(tv.bb(j)),
        tv.bb(tv.ancestor(j, k)->0).spec_union(tv.bb(j)) == tv.bb(tv.ancestor(j, k)->0),
{
    lemma_ancestors_cover(tv, j, k);
    lemma_covers_absorbs(tv.bb(tv.ancestor(j, k)->0), tv.bb(j));
}

/// Fan-out: no group holds more than `M` children.
pub proof fn lemma_fanout<T>(tv: TreeView<T>, i: int)
    requires
        tv.wf(),
        0 <= i < tv.len(),
    ensures
        tv.children(i).len() <= M,
{
    assert(tv.fanout_ok(i));
}

/// Fan-out after an insertion: whether or not a group was divided, no
/// group holds more than `M` children.
pub proof fn lemma_fanout_after_insert<T>(tv: TreeView<T>, value: T, b: BoundingBox, i: int)
    requires
        tv.wf(),
        tv.after_insert(value, b).len() <= usize::MAX,
        0 <= i < tv.inserted(value, b).len(),
    ensures
        tv.inserted(value, b).children(i).len() <= M,
{
    lemma_insert_keeps_wf(tv, value, b);
    lemma_fanout(tv.inserted(value, b), i);
}

/// Every slot is met by the walk from the root, and met once.
pub proof fn lemma_walk_meets_each_once<T>(tv: TreeView<T>)
    requires
        tv.wf(),
    ensures
        tv.subtree(0).no_duplicates(),
        forall|j: int| tv.subtree(0).contains(j) <==> 0 <= j < tv.len(),
{
    lemma_subtree_no_duplicates(tv, 0);
    assert forall|j: int| tv.subtree(0).contains(j) <==> 0 <= j < tv.len() by {
        if tv.subtree(0).contains(j) {
            lemma_subtree_members(tv, 0, j);
        }
        if 0 <= j < tv.len() {
            lemma_root_on_path(tv, j);
            lemma_subtree_reaches(tv, 0, j);
        }
    }
}

/// Find correctness: a query yields exactly the slots that hold a value
/// whose box meets the query box, each of them once.
pub proof fn lemma_matches_exact<T>(tv: TreeView<T>, q: BoundingBox)
    requires
        tv.wf(),
    ensures
        tv.matches(q).no_duplicates(),
        forall|j: int| tv.matches(q).contains(j) <==> 0 <= j < tv.len() && tv.is_hit(j, q),
{
    let walk = tv.subtree(0);
    let pred = tv.hit_pred(q);
    lemma_walk_meets_each_once(tv);
    lemma_filter_no_duplicates(walk, pred);
    assert forall|j: int| tv.matches(q).contains(j) <==> 0 <= j < tv.len() && tv.is_hit(j, q) by {
        if tv.matches(q).contains(j) {
            let w = choose|w: int| 0 <= w < tv.matches(q).len() && tv.matches(q)[w] == j;
            walk.lemma_filter_pred(pred, w);
            walk.lemma_filter_contains_rev(pred, j);
        }
        if 0 <= j < tv.len() && tv.is_hit(j, q) {
            assert(walk.contains(j));
            let w = choose|w: int| 0 <= w < walk.len() && walk[w] == j;
            assert(pred(walk[w]));
            walk.lemma_filter_contains(pred, w);
        }
    }
}

/// Find correctness, where nothing is to be found: if no stored box meets
/// the query box, a query yields nothing and the first hit is `None`.
pub proof fn lemma_no_hit_finds_nothing<T>(tv: TreeView<T>, q: BoundingBox)
    requires
        tv.wf(),
        forall|j: int| 0 <= j < tv.len() ==> !tv.is_hit(j, q),
    ensures
        tv.matches(q).len() == 0,
        tv.first_hit_is(q, None),
{
    lemma_matches_exact(tv, q);
    if tv.matches(q).len() > 0 {
        assert(tv.matches(q).contains(tv.matches(q)[0]));
    }
}

/// An insertion stores the value with its box in the first free slot and
/// leaves every stored value and its box as they were.
pub proof fn lemma_insert_stores<T>(tv: TreeView<T>, value: T, b: BoundingBox)
    requires
        tv.wf(),
    ensures
        tv.inserted(value, b).nodes[tv.len()].node == NodeView::Data(value),
        tv.inserted(value, b).bb(tv.len()) == b,
        forall|j: int|
            0 <= j < tv.len() && tv.is_data(j) ==> tv.inserted(value, b).nodes[j].node
                == tv.nodes[j].node && #[trigger] tv.inserted(value, b).bb(j) == tv.bb(j),
{
    let t = tv.route(0, b);
    let nv = tv.inserted(value, b);
    lemma_route_lands(tv, 0, b);
    assert forall|j: int| 0 <= j < tv.len() && tv.is_data(j) implies nv.nodes[j].node
        == tv.nodes[j].node && #[trigger] nv.bb(j) == tv.bb(j) by {
        if tv.on_path(j, t) {
            let k = lemma_path_child(tv, j, t);
        }
    }
}

/// Find correctness for an inserted pair: a value inserted with a box that
/// meets the query box is yielded by the query, once.
pub proof fn lemma_inserted_is_found<T>(tv: TreeView<T>, value: T, b: BoundingBox, q: BoundingBox)
    requires
        tv.wf(),
        tv.after_insert(value, b).len() <= usize::MAX,
        b.spec_intersects(q),
    ensures
        tv.inserted(value, b).matches(q).contains(tv.len()),
        tv.inserted(value, b).matches(q).no_duplicates(),
        tv.inserted(value, b).nodes[tv.len()].node == NodeView::Data(value),
{
    let nv = tv.inserted(value, b);
    lemma_insert_keeps_wf(tv, value, b);
    lemma_insert_stores(tv, value, b);
    lemma_matches_exact(nv, q);
    assert(tv.len() < nv.len());
    assert(nv.is_hit(tv.len(), q));
}

/// Find correctness across insertions: a stored value whose box meets the
/// query box is still yielded, once, after another value went in.
pub proof fn lemma_stored_stays_found<T>(
    tv: TreeView<T>,
    value: T,
    b: BoundingBox,
    q: BoundingBox,
    j: int,
)
    requires
        tv.wf(),
        tv.after_insert(value, b).len() <= usize::MAX,
        0 <= j < tv.len(),
        tv.is_hit(j, q),
    ensures
        tv.inserted(value, b).matches(q).contains(j),
        tv.inserted(value, b).matches(q).no_duplicates(),
        tv.inserted(value, b).nodes[j].node == tv.nodes[j].node,
{
    let nv = tv.inserted(value, b);
    lemma_insert_keeps_wf(tv, value, b);
    lemma_insert_stores(tv, value, b);
    lemma_matches_exact(nv, q);
    assert(nv.bb(j) == tv.bb(j));
    assert(tv.len() < nv.len());
    assert(nv.is_hit(j, q));
}

/// Whatever a query yields is a stop of the walk over the whole tree.
pub proof fn lemma_matches_in_walk<T>(tv: TreeView<T>, q: BoundingBox, j: int)
    requires
        tv.wf(),
        tv.matches(q).contains(j),
    ensures
        tv.subtree(0).contains(j),
        tv.is_data(j),
{
    lemma_matches_exact(tv, q);
    lemma_walk_meets_each_once(tv);
}

/// Max depth: the depth of a slot is the number of parent links from it to
/// the root; no stored value lies deeper than the recorded depth; and once
/// a value is stored, one lies exactly that deep.
pub proof fn lemma_max_depth_is_deepest<T>(tv: TreeView<T>)
    requires
        tv.wf(),
    ensures
        forall|j: int| 0 <= j < tv.len() ==> tv.ancestor(j, #[trigger] tv.depth[j]) == Some(0int),
        forall|j: int| 0 <= j < tv.len() && tv.is_data(j) ==> #[trigger] tv.depth[j] <= tv.max_depth,
        tv.len() > 1 ==> exists|j: int|
            0 <= j < tv.len() && tv.is_data(j) && #[trigger] tv.depth[j] == tv.max_depth,
{
    assert forall|j: int| 0 <= j < tv.len() implies tv.ancestor(j, #[trigger] tv.depth[j]) == Some(
        0int,
    ) by {
        lemma_root_on_path(tv, j);
    }
}

/// Repeated queries: the tree and the query box determine the first hit.
pub proof fn lemma_first_hit_determined<T>(
    tv: TreeView<T>,
    q: BoundingBox,
    first: Option<T>,
    second: Option<T>,
)
    requires
        tv.first_hit_is(q, first),
        tv.first_hit_is(q, second),
    ensures
        first == second,
{
}

/// Repeated walks: the tree determines each stop of a walk.
pub proof fn lemma_stop_determined<T>(
    tv: TreeView<T>,
    j: int,
    first: WalkCallbackPayload<T>,
    second: WalkCallbackPayload<T>,
)
    requires
        first.shows(tv, j),
        second.shows(tv, j),
    ensures
        first.0 == second.0,
        first.1 == second.1,
        first.2@ == second.2@,
{
}

} // verus!
