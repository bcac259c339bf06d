//! The full depth-first walk over every slot.

use vstd::prelude::*;
use crate::r_tree::links::{lemma_child_links};
use crate::r_tree::model::TreeView;
use crate::r_tree::{RTree, RTreeEntry, RTreeNode};

verus! {

/// One stop of a walk: the slot, its depth, and what the slot holds.
pub struct WalkCallbackPayload<'a, T>(pub usize, pub usize, pub &'a RTreeEntry<T>);

impl<'a, T> WalkCallbackPayload<'a, T> {
    /// This stop is at slot `j` of `tv`: it names the slot, its depth and
    /// its content.
    pub open spec fn shows(self, tv: TreeView<T>, j: int) -> bool {
        &&& self.0 == j
        &&& self.1 == tv.depth[j]
        &&& self.2@ == tv.nodes[j]
    }
}

impl<T> RTree<T> {
    /// Appends to `out` the stops of a walk over the subtree at `node`,
    /// which lies at depth `level`.
    pub(crate) fn walk_rec<'a>(
        &'a self,
        node: usize,
        level: usize,
        out: &mut Vec<WalkCallbackPayload<'a, T>>,
    )
        requires
            self@.linked(),
            node < self@.len(),
            level == self@.depth[node as int],
        ensures
            final(out)@.len() == old(out)@.len() + self@.subtree(node as int).len(),
            forall|k: int| 0 <= k < old(out)@.len() ==> final(out)@[k] == old(out)@[k],
            forall|k: int|
                0 <= k < self@.subtree(node as int).len() ==> (#[trigger] final(out)@[old(
                    out,
                )@.len() + k]).shows(self@, self@.subtree(node as int)[k]),
        decreases self@.len() - self@.depth[node as int],
    {
        let ghost tv = self@;
        let ghost start = out@.len();
        out.push(WalkCallbackPayload(node, level, &self.nodes[node]));
        match &self.nodes[node].node {
            RTreeNode::Leaf(_) => {
                proof {
                    assert(tv.children(node as int).len() == 0);
                    assert(!tv.descends(node as int, 0));
                    assert(tv.subtree(node as int) =~= seq![node as int]);
                }
            },
            RTreeNode::Node(children) => {
                let ghost mut done: Seq<int> = Seq::empty();
                let mut k: usize = 0;
                assert(done + tv.forest(node as int, 0) =~= tv.forest(node as int, 0));
                while k < children.len()
                    invariant
                        tv == self@,
                        tv.linked(),
                        node < tv.len(),
                        level == tv.depth[node as int],
                        k <= children.len(),
                        children@ == tv.children(node as int),
                        start == old(out)@.len(),
                        tv.forest(node as int, 0) == done + tv.forest(node as int, k as int),
                        out@.len() == start + 1 + done.len(),
                        forall|x: int| 0 <= x < start ==> out@[x] == old(out)@[x],
                        out@[start as int].shows(tv, node as int),
                        forall|x: int|
                            0 <= x < done.len() ==> (#[trigger] out@[start + 1 + x]).shows(
                                tv,
                                done[x],
                            ),
                    decreases children.len() - k,
                {
                    let c = children[k];
                    proof {
                        lemma_child_links(tv, node as int, k as int);
                    }
                    let ghost prior = out@;
                    self.walk_rec(c, level + 1, out);
                    proof {
                        let sub = tv.subtree(c as int);
                        let grown = done + sub;
                        assert(grown + tv.forest(node as int, k + 1) =~= done + (sub + tv.forest(
                            node as int,
                            k + 1,
                        )));
                        assert forall|x: int| 0 <= x < grown.len() implies (#[trigger] out@[start
                            + 1 + x]).shows(tv, grown[x]) by {
                            if x < done.len() {
                                assert(out@[start + 1 + x] == prior[start + 1 + x]);
                            } else {
                                assert(out@[prior.len() + (x - done.len())].shows(
                                    tv,
                                    sub[x - done.len()],
                                ));
                            }
                        }
                        done = grown;
                    }
                    k += 1;
                }
                proof {
                    assert(!tv.descends(node as int, k as int));
                    assert(done + tv.forest(node as int, k as int) =~= done);
                    let all = tv.subtree(node as int);
                    assert(all =~= seq![node as int] + done);
                    assert forall|x: int| 0 <= x < all.len() implies (#[trigger] out@[start
                        + x]).shows(tv, all[x]) by {
                        if x > 0 {
                            assert(out@[start + 1 + (x - 1)].shows(tv, done[x - 1]));
                        }
                    }
                }
            },
        }
    }

    /// The stops of a depth-first walk over the whole tree, in order: the
    /// root first, at depth 0, then the subtree of each of its children in
    /// turn. Groups and stored values both are stops.
    pub fn walk(&self) -> (out: Vec<WalkCallbackPayload<'_, T>>)
        requires
            self.wf(),
        ensures
            out@.len() == self@.subtree(0).len(),
            forall|k: int|
                0 <= k < out@.len() ==> (#[trigger] out@[k]).shows(self@, self@.subtree(0)[k]),
    {
        let mut out: Vec<WalkCallbackPayload<'_, T>> = Vec::new();
        self.walk_rec(0, 0, &mut out);
        proof {
            assert forall|k: int| 0 <= k < out@.len() implies (#[trigger] out@[k]).shows(
                self@,
                self@.subtree(0)[k],
            ) by {
                assert(out@[0 + k].shows(self@, self@.subtree(0)[k]));
            }
        }
        out
    }
}

} // verus!
