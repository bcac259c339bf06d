//! The order of a depth-first walk: which slots it meets, that it meets
//! each once, and what that means for queries.

use vstd::prelude::*;
use vstd::seq_lib::lemma_no_dup_in_concat;
use crate::bounding_box::BoundingBox;
use crate::r_tree::links::{lemma_ancestor_valid, lemma_child_links, lemma_on_path_parent, lemma_parent_covers, lemma_path_child};
use crate::r_tree::model::TreeView;

verus! {

/// A slot met while walking the children of `i` from position `k` on lies
/// strictly below `i`, under one of these children.
pub proof fn lemma_forest_members<T>(tv: TreeView<T>, i: int, k: int, j: int)
    requires
        tv.linked(),
        0 <= i < tv.len(),
        0 <= k,
        tv.forest(i, k).contains(j),
    ensures
        0 <= j < tv.len(),
        j != i,
        tv.on_path(i, j),
        exists|k2: int|
            k <= k2 < tv.children(i).len() && tv.on_path(#[trigger] tv.children(i)[k2] as int, j),
    decreases tv.len() - tv.depth[i], tv.children(i).len() - k,
{
    if tv.descends(i, k) {
        let c = tv.children(i)[k] as int;
        let a = tv.subtree(c);
        let b = tv.forest(i, k + 1);
        let w = choose|w: int| 0 <= w < (a + b).len() && (a + b)[w] == j;
        lemma_child_links(tv, i, k);
        if w < a.len() {
            assert(a[w] == j);
            lemma_subtree_members(tv, c, j);
            lemma_on_path_parent(tv, c, j);
            assert(tv.on_path(tv.children(i)[k] as int, j));
        } else {
            assert(b[w - a.len()] == j);
            lemma_forest_members(tv, i, k + 1, j);
        }
    }
}

/// A slot met while walking the subtree at `i` is `i` or lies below it.
pub proof fn lemma_subtree_members<T>(tv: TreeView<T>, i: int, j: int)
    requires
        tv.linked(),
        0 <= i < tv.len(),
        tv.subtree(i).contains(j),
    ensures
        0 <= j < tv.len(),
        tv.on_path(i, j),
    decreases tv.len() - tv.depth[i], tv.children(i).len() + 1,
{
    let a = seq![i];
    let b = tv.forest(i, 0);
    let w = choose|w: int| 0 <= w < (a + b).len() && (a + b)[w] == j;
    if w < 1 {
        assert(j == i);
        assert(tv.ancestor(i, 0) == Some(i));
    } else {
        assert(b[w - 1] == j);
        lemma_forest_members(tv, i, 0, j);
    }
}

/// Walking the children of `i` from position `k0` on meets everything that
/// walking the subtree of a later child `k` meets.
pub proof fn lemma_forest_includes<T>(tv: TreeView<T>, i: int, k0: int, k: int, j: int)
    requires
        tv.linked(),
        0 <= i < tv.len(),
        0 <= k0 <= k < tv.children(i).len(),
        tv.subtree(tv.children(i)[k] as int).contains(j),
    ensures
        tv.forest(i, k0).contains(j),
    decreases k - k0,
{
    lemma_child_links(tv, i, k0);
    let a = tv.subtree(tv.children(i)[k0] as int);
    let b = tv.forest(i, k0 + 1);
    if k0 == k {
        let w = choose|w: int| 0 <= w < a.len() && a[w] == j;
        assert((a + b)[w] == j);
    } else {
        lemma_forest_includes(tv, i, k0 + 1, k, j);
        let w = choose|w: int| 0 <= w < b.len() && b[w] == j;
        assert((a + b)[a.len() + w] == j);
    }
}

/// Walking the subtree at `i` meets every slot that is `i` or lies below
/// it.
pub proof fn lemma_subtree_reaches<T>(tv: TreeView<T>, i: int, j: int)
    requires
        tv.linked(),
        0 <= i < tv.len(),
        0 <= j < tv.len(),
        tv.on_path(i, j),
    ensures
        tv.subtree(i).contains(j),
    decreases tv.depth[j] - tv.depth[i],
{
    let a = seq![i];
    let b = tv.forest(i, 0);
    if i == j {
        assert((a + b)[0] == j);
    } else {
        let k = lemma_path_child(tv, i, j);
        let c = tv.children(i)[k] as int;
        lemma_child_links(tv, i, k);
        lemma_subtree_reaches(tv, c, j);
        lemma_forest_includes(tv, i, 0, k, j);
        let w = choose|w: int| 0 <= w < b.len() && b[w] == j;
        assert((a + b)[1 + w] == j);
    }
}

/// Walking the children of `i` from position `k` on meets no slot twice.
pub proof fn lemma_forest_no_duplicates<T>(tv: TreeView<T>, i: int, k: int)
    requires
        tv.linked(),
        0 <= i < tv.len(),
        0 <= k,
    ensures
        tv.forest(i, k).no_duplicates(),
    decreases tv.len() - tv.depth[i], tv.children(i).len() - k,
{
    if tv.descends(i, k) {
        let c = tv.children(i)[k] as int;
        let a = tv.subtree(c);
        let b = tv.forest(i, k + 1);
        lemma_child_links(tv, i, k);
        lemma_subtree_no_duplicates(tv, c);
        lemma_forest_no_duplicates(tv, i, k + 1);
        assert(tv.fanout_ok(i));
        assert forall|x: int, y: int| 0 <= x < a.len() && 0 <= y < b.len() implies a[x] != b[y] by {
            if a[x] == b[y] {
                let j = a[x];
                assert(a.contains(j));
                assert(b.contains(j));
                lemma_subtree_members(tv, c, j);
                lemma_forest_members(tv, i, k + 1, j);
                let k2 = choose|k2: int|
                    k + 1 <= k2 < tv.children(i).len() && tv.on_path(
                        #[trigger] tv.children(i)[k2] as int,
                        j,
                    );
                lemma_child_links(tv, i, k2);
                assert(tv.children(i)[k2] == tv.children(i)[k]);
            }
        }
        lemma_no_dup_in_concat(a, b);
    }
}

/// Walking the subtree at `i` meets no slot twice.
pub proof fn lemma_subtree_no_duplicates<T>(tv: TreeView<T>, i: int)
    requires
        tv.linked(),
        0 <= i < tv.len(),
    ensures
        tv.subtree(i).no_duplicates(),
    decreases tv.len() - tv.depth[i], tv.children(i).len() + 1,
{
    let a = seq![i];
    let b = tv.forest(i, 0);
    lemma_forest_no_duplicates(tv, i, 0);
    assert forall|x: int, y: int| 0 <= x < a.len() && 0 <= y < b.len() implies a[x] != b[y] by {
        if a[x] == b[y] {
            assert(b.contains(i));
            lemma_forest_members(tv, i, 0, i);
        }
    }
    lemma_no_dup_in_concat(a, b);
}

/// The box of a slot covers the box of every slot below it.
pub proof fn lemma_path_covers<T>(tv: TreeView<T>, a: int, j: int)
    requires
        tv.wf(),
        0 <= a < tv.len(),
        0 <= j < tv.len(),
        tv.on_path(a, j),
    ensures
        tv.bb(a).covers(tv.bb(j)),
{
    lemma_ancestors_cover(tv, j, (tv.depth[j] - tv.depth[a]) as nat);
}

/// The box of the slot reached from `j` by following `k` parent links
/// covers the box of `j`.
pub proof fn lemma_ancestors_cover<T>(tv: TreeView<T>, j: int, k: nat)
    requires
        tv.wf(),
        0 <= j < tv.len(),
        tv.ancestor(j, k) is Some,
    ensures
        0 <= tv.ancestor(j, k)->0 < tv.len(),
        tv.bb(tv.ancestor(j, k)->0).covers(tv.bb(j)),
    decreases k,
{
    if k > 0 {
        lemma_ancestors_cover(tv, j, (k - 1) as nat);
        let c = tv.ancestor(j, (k - 1) as nat)->0;
        assert(c != 0);
        lemma_parent_covers(tv, c);
    }
}

/// Every slot lies on or below the root.
pub proof fn lemma_root_on_path<T>(tv: TreeView<T>, j: int)
    requires
        tv.linked(),
        0 <= j < tv.len(),
    ensures
        tv.on_path(0, j),
{
    lemma_ancestor_valid(tv, j, tv.depth[j]);
    let r = tv.ancestor(j, tv.depth[j])->0;
    if r != 0 {
        assert(tv.parent_ok(r));
    }
}

/// Filtering keeps a sequence free of repeats.
pub proof fn lemma_filter_no_duplicates<A>(s: Seq<A>, pred: spec_fn(A) -> bool)
    requires
        s.no_duplicates(),
    ensures
        s.filter(pred).no_duplicates(),
    decreases s.len(),
{
    reveal(Seq::filter);
    if s.len() > 0 {
        let front = s.drop_last();
        lemma_filter_no_duplicates(front, pred);
        let kept = front.filter(pred);
        if pred(s.last()) {
            assert forall|x: int| 0 <= x < kept.len() implies kept[x] != s.last() by {
                assert(kept.contains(kept[x]));
                front.lemma_filter_contains_rev(pred, kept[x]);
                let w = choose|w: int| 0 <= w < front.len() && front[w] == kept[x];
                assert(s[w] == front[w]);
            }
        }
    }
}

/// Where the box of `i` misses `q`, there is no hit for `q` in the subtree
/// at `i`.
pub proof fn lemma_pruned<T>(tv: TreeView<T>, i: int, q: BoundingBox)
    requires
        tv.wf(),
        0 <= i < tv.len(),
        !tv.bb(i).spec_intersects(q),
    ensures
        tv.matches_in(i, q).len() == 0,
{
    let s = tv.subtree(i);
    let hits = tv.matches_in(i, q);
    if hits.len() > 0 {
        let j = hits[0];
        s.lemma_filter_pred(tv.hit_pred(q), 0);
        assert(hits.contains(j));
        s.lemma_filter_contains_rev(tv.hit_pred(q), j);
        lemma_subtree_members(tv, i, j);
        lemma_path_covers(tv, i, j);
    }
}

} // verus!
