//! Queries: the first stored value whose box meets a query box, and a
//! cursor that hands out all of them one at a time.

use vstd::prelude::*;
use crate::bounding_box::BoundingBox;
use crate::r_tree::links::{lemma_child_links};
use crate::r_tree::model::{NodeView, TreeView};
use crate::r_tree::order::lemma_pruned;
use crate::r_tree::{RTree, RTreeNode};

verus! {

/// A walk in progress over the hits of one query. Each frame of the stack
/// is a slot and the position of its child to visit next.
pub struct Finder<'a, T> {
    this: &'a RTree<T>,
    bb: BoundingBox,
    stack: Vec<(usize, usize)>,
}

/// The hits that one frame still stands for.
pub open spec fn frame_hits<T>(tv: TreeView<T>, q: BoundingBox, frame: (usize, usize)) -> Seq<int> {
    if frame.1 == 0 {
        tv.matches_in(frame.0 as int, q)
    } else {
        tv.matches_below(frame.0 as int, frame.1 as int, q)
    }
}

/// The hits that a stack still stands for: those of its top frame first.
pub open spec fn stack_hits<T>(tv: TreeView<T>, q: BoundingBox, stack: Seq<(usize, usize)>) -> Seq<
    int,
>
    decreases stack.len(),
{
    if stack.len() == 0 {
        Seq::empty()
    } else {
        frame_hits(tv, q, stack.last()) + stack_hits(tv, q, stack.drop_last())
    }
}

/// A bound on the steps that one frame still takes.
pub open spec fn frame_work<T>(tv: TreeView<T>, frame: (usize, usize)) -> nat {
    2 * tv.forest(frame.0 as int, frame.1 as int).len() + 1
}

/// A bound on the steps that a stack still takes.
pub open spec fn stack_work<T>(tv: TreeView<T>, stack: Seq<(usize, usize)>) -> nat
    decreases stack.len(),
{
    if stack.len() == 0 {
        0
    } else {
        frame_work(tv, stack.last()) + stack_work(tv, stack.drop_last())
    }
}

/// A frame names a slot of the tree; that of a stored value is at its
/// start.
pub open spec fn frame_ok<T>(tv: TreeView<T>, frame: (usize, usize)) -> bool {
    &&& frame.0 < tv.len()
    &&& tv.is_data(frame.0 as int) ==> frame.1 == 0
}

/// The hits in the subtree of a group are those below it.
pub proof fn lemma_group_hits<T>(tv: TreeView<T>, i: int, q: BoundingBox)
    requires
        tv.is_group(i),
    ensures
        tv.matches_in(i, q) == tv.matches_below(i, 0, q),
{
    let head = seq![i];
    let rest = tv.forest(i, 0);
    let pred = tv.hit_pred(q);
    Seq::filter_distributes_over_add(head, rest, pred);
    assert(head.filter(pred) =~= Seq::<int>::empty()) by {
        if head.filter(pred).len() > 0 {
            head.lemma_filter_pred(pred, 0);
            assert(head.filter(pred).contains(head.filter(pred)[0]));
            head.lemma_filter_contains_rev(pred, head.filter(pred)[0]);
        }
    }
    assert(head.filter(pred) + rest.filter(pred) =~= rest.filter(pred));
}

/// A stored value is the one hit of its subtree if its box meets `q`; else
/// there is none.
pub proof fn lemma_data_hits<T>(tv: TreeView<T>, i: int, q: BoundingBox)
    requires
        tv.is_data(i),
    ensures
        tv.matches_in(i, q) == if tv.bb(i).spec_intersects(q) {
            seq![i]
        } else {
            Seq::<int>::empty()
        },
{
    let pred = tv.hit_pred(q);
    assert(tv.children(i).len() == 0);
    assert(!tv.descends(i, 0));
    assert(tv.subtree(i) =~= seq![i]);
    reveal(Seq::filter);
    let s = seq![i];
    assert(s.drop_last() =~= Seq::<int>::empty());
    assert(s.drop_last().filter(pred) =~= Seq::<int>::empty());
    if tv.bb(i).spec_intersects(q) {
        assert(pred(s.last()));
        assert(s.filter(pred) =~= seq![i]);
    } else {
        assert(!pred(s.last()));
        assert(s.filter(pred) =~= Seq::<int>::empty());
    }
}

/// The hits below `i` from child `k` on are those in that child's subtree,
/// then those from the next child on.
pub proof fn lemma_hits_step<T>(tv: TreeView<T>, i: int, k: int, q: BoundingBox)
    requires
        tv.linked(),
        0 <= i < tv.len(),
        0 <= k < tv.children(i).len(),
    ensures
        tv.matches_below(i, k, q) == tv.matches_in(tv.children(i)[k] as int, q) + tv.matches_below(
            i,
            k + 1,
            q,
        ),
{
    lemma_child_links(tv, i, k);
    Seq::filter_distributes_over_add(
        tv.subtree(tv.children(i)[k] as int),
        tv.forest(i, k + 1),
        tv.hit_pred(q),
    );
}

/// Past the last child nothing is left below `i`.
pub proof fn lemma_hits_end<T>(tv: TreeView<T>, i: int, k: int, q: BoundingBox)
    requires
        k >= tv.children(i).len(),
    ensures
        tv.matches_below(i, k, q) == Seq::<int>::empty(),
        tv.forest(i, k) == Seq::<int>::empty(),
{
    assert(!tv.descends(i, k));
    reveal(Seq::filter);
    assert(tv.forest(i, k).filter(tv.hit_pred(q)) =~= Seq::<int>::empty());
}

impl<T> RTree<T> {
    /// The first hit for `bounding_box` in the subtree at `this`.
    pub(crate) fn find_rec(&self, this: usize, bounding_box: &BoundingBox) -> (r: Option<&T>)
        requires
            self.wf(),
            this < self@.len(),
        ensures
            match r {
                Some(v) => {
                    let hits = self@.matches_in(this as int, *bounding_box);
                    hits.len() > 0 && self@.nodes[hits[0]].node == NodeView::Data(*v)
                },
                None => self@.matches_in(this as int, *bounding_box).len() == 0,
            },
        decreases self@.len() - self@.depth[this as int],
    {
        let ghost tv = self@;
        let ghost q = *bounding_box;
        if self.nodes[this].bb.intersects(bounding_box) {
            match &self.nodes[this].node {
                RTreeNode::Leaf(leaf) => {
                    proof {
                        lemma_data_hits(tv, this as int, q);
                    }
                    Some(leaf)
                },
                RTreeNode::Node(children) => {
                    proof {
                        lemma_group_hits(tv, this as int, q);
                    }
                    let mut k: usize = 0;
                    while k < children.len()
                        invariant
                            tv == self@,
                            q == *bounding_box,
                            self.wf(),
                            this < tv.len(),
                            k <= children.len(),
                            children@ == tv.children(this as int),
                            tv.matches_in(this as int, q) == tv.matches_below(
                                this as int,
                                k as int,
                                q,
                            ),
                        decreases children.len() - k,
                    {
                        proof {
                            lemma_child_links(tv, this as int, k as int);
                            lemma_hits_step(tv, this as int, k as int, q);
                        }
                        let found = self.find_rec(children[k], bounding_box);
                        if found.is_some() {
                            return found;
                        }
                        proof {
                            let a = tv.matches_in(children@[k as int] as int, q);
                            let b = tv.matches_below(this as int, k + 1, q);
                            assert(a + b =~= b);
                        }
                        k += 1;
                    }
                    proof {
                        lemma_hits_end(tv, this as int, k as int, q);
                    }
                    None
                },
            }
        } else {
            proof {
                lemma_pruned(tv, this as int, q);
            }
            None
        }
    }

    /// The first stored value, in the order of a depth-first walk, whose
    /// box meets `bounding_box`; `None` if there is none.
    pub fn find(&self, bounding_box: &BoundingBox) -> (r: Option<&T>)
        requires
            self.wf(),
        ensures
            match r {
                Some(v) => self@.first_hit_is(*bounding_box, Some(*v)),
                None => self@.first_hit_is(*bounding_box, None),
            },
    {
        self.find_rec(0, bounding_box)
    }

    /// A cursor over all stored values whose box meets `bounding_box`, in
    /// the order of a depth-first walk. Nothing is searched until the cursor
    /// is asked for a value.
    pub fn find_multi(&self, bounding_box: &BoundingBox) -> (finder: Finder<'_, T>)
        requires
            self.wf(),
        ensures
            finder.wf(),
            finder.tree() == self@,
            finder.query() == *bounding_box,
            finder.remaining() == self@.matches(*bounding_box),
    {
        Finder::new(self, *bounding_box)
    }
}

impl<'a, T> Finder<'a, T> {
    /// The tree that the cursor walks.
    pub closed spec fn tree(&self) -> TreeView<T> {
        self.this@
    }

    /// The box that the cursor looks for.
    pub closed spec fn query(&self) -> BoundingBox {
        self.bb
    }

    /// The slots of the values that the cursor has yet to hand out, in
    /// order.
    pub closed spec fn remaining(&self) -> Seq<int> {
        stack_hits(self.this@, self.bb, self.stack@)
    }

    /// The cursor is over a well-formed tree and each of its frames names a
    /// slot of it.
    pub closed spec fn wf(&self) -> bool {
        &&& self.this.wf()
        &&& forall|f: int| 0 <= f < self.stack@.len() ==> frame_ok(self.this@, #[trigger] self.stack@[f])
    }

    pub(crate) fn new(this: &'a RTree<T>, bb: BoundingBox) -> (finder: Self)
        requires
            this.wf(),
        ensures
            finder.wf(),
            finder.tree() == this@,
            finder.query() == bb,
            finder.remaining() == this@.matches(bb),
    {
        let mut stack: Vec<(usize, usize)> = Vec::new();
        stack.push((0, 0));
        let finder = Self { this, bb, stack };
        proof {
            let s = finder.stack@;
            assert(s.last() == (0usize, 0usize));
            assert(s.drop_last() =~= Seq::<(usize, usize)>::empty());
            assert(stack_hits(this@, bb, s.drop_last()) =~= Seq::<int>::empty());
            assert(stack_hits(this@, bb, s) =~= this@.matches(bb));
        }
        finder
    }

    /// Hands out the next value whose box meets the query box, or `None`
    /// when all of them have been handed out. Only as much of the tree is
    /// searched as it takes to find that value.
    pub fn next(&mut self) -> (r: Option<&'a T>)
        requires
            old(self).wf(),
        ensures
            final(self).wf(),
            final(self).tree() == old(self).tree(),
            final(self).query() == old(self).query(),
            match r {
                Some(v) => {
                    &&& old(self).remaining().len() > 0
                    &&& old(self).tree().nodes[old(self).remaining()[0]].node == NodeView::Data(*v)
                    &&& final(self).remaining() == old(self).remaining().drop_first()
                },
                None => old(self).remaining().len() == 0 && final(self).remaining().len() == 0,
            },
    {
        let tree: &'a RTree<T> = self.this;
        let ghost tv = tree@;
        let ghost q = self.bb;
        loop
            invariant
                self.wf(),
                self.this == tree,
                tv == tree@,
                q == self.bb,
                self.bb == old(self).bb,
                self.this == old(self).this,
                stack_hits(tv, q, self.stack@) == stack_hits(tv, q, old(self).stack@),
            decreases stack_work(tv, self.stack@),
        {
            let ghost before = self.stack@;
            let (node, child) = match self.stack.pop() {
                Some(frame) => frame,
                None => {
                    return None;
                },
            };
            let ghost rest = self.stack@;
            proof {
                assert(rest =~= before.drop_last());
                assert(before.last() == (node, child));
                assert(frame_ok(tv, before[before.len() - 1]));
                assert forall|f: int| 0 <= f < rest.len() implies frame_ok(tv, #[trigger] rest[f]) by {
                    assert(rest[f] == before[f]);
                }
            }
            if tree.nodes[node].bb.intersects(&self.bb) {
                match &tree.nodes[node].node {
                    RTreeNode::Leaf(leaf) => {
                        proof {
                            lemma_data_hits(tv, node as int, q);
                            let hits = stack_hits(tv, q, before);
                            assert(hits =~= seq![node as int] + stack_hits(tv, q, rest));
                            assert(hits.drop_first() =~= stack_hits(tv, q, rest));
                        }
                        return Some(leaf);
                    },
                    RTreeNode::Node(children) => {
                        proof {
                            lemma_group_hits(tv, node as int, q);
                        }
                        if child < children.len() {
                            let child_id = children[child];
                            self.stack.push((node, child + 1));
                            let ghost mid = self.stack@;
                            self.stack.push((child_id, 0));
                            proof {
                                let now = self.stack@;
                                lemma_child_links(tv, node as int, child as int);
                                lemma_hits_step(tv, node as int, child as int, q);
                                assert(mid.drop_last() =~= rest);
                                assert(now.drop_last() =~= mid);
                                assert(mid.last() == (node, (child + 1) as usize));
                                assert(now.last() == (child_id, 0usize));
                                let below = tv.matches_below(node as int, child + 1, q);
                                let inside = tv.matches_in(child_id as int, q);
                                let tail = stack_hits(tv, q, rest);
                                assert(frame_hits(tv, q, before.last()) == inside + below);
                                assert(stack_hits(tv, q, mid) == below + tail);
                                assert(stack_hits(tv, q, now) == inside + (below + tail));
                                assert(stack_hits(tv, q, before) == (inside + below) + tail);
                                assert(inside + (below + tail) =~= (inside + below) + tail);
                                assert forall|f: int| 0 <= f < now.len() implies frame_ok(
                                    tv,
                                    #[trigger] now[f],
                                ) by {
                                    if f < rest.len() {
                                        assert(now[f] == rest[f]);
                                    }
                                }
                                assert(tv.forest(child_id as int, 0).len() + 1 == tv.subtree(
                                    child_id as int,
                                ).len());
                                assert(tv.forest(node as int, child as int).len() == tv.subtree(
                                    child_id as int,
                                ).len() + tv.forest(node as int, child + 1).len());
                                assert(stack_work(tv, mid) == frame_work(tv, mid.last())
                                    + stack_work(tv, rest));
                                assert(stack_work(tv, now) == frame_work(tv, now.last())
                                    + stack_work(tv, mid));
                                assert(stack_work(tv, before) == frame_work(tv, before.last())
                                    + stack_work(tv, rest));
                            }
                        } else {
                            proof {
                                lemma_hits_end(tv, node as int, child as int, q);
                                assert(stack_hits(tv, q, before) =~= stack_hits(tv, q, rest));
                            }
                        }
                    },
                }
            } else {
                proof {
                    if tv.is_data(node as int) {
                        lemma_data_hits(tv, node as int, q);
                    } else {
                        lemma_pruned(tv, node as int, q);
                        lemma_group_hits(tv, node as int, q);
                        if child > 0 {
                            lemma_below_is_suffix(tv, node as int, child as int, q);
                        }
                    }
                    assert(stack_hits(tv, q, before) =~= stack_hits(tv, q, rest));
                }
            }
        }
    }
}

/// Where nothing below `i` is a hit, nothing below it from child `k` on
/// is.
pub proof fn lemma_below_is_suffix<T>(tv: TreeView<T>, i: int, k: int, q: BoundingBox)
    requires
        tv.linked(),
        0 <= i < tv.len(),
        0 <= k,
        tv.matches_below(i, 0, q).len() == 0,
    ensures
        tv.matches_below(i, k, q).len() == 0,
    decreases k,
{
    if k > 0 {
        lemma_below_is_suffix(tv, i, k - 1, q);
        if k - 1 < tv.children(i).len() {
            lemma_hits_step(tv, i, k - 1, q);
        } else {
            lemma_hits_end(tv, i, k, q);
        }
    }
}

} // verus!
