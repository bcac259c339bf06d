//! Insertion: routing to a group, growing boxes up to the root, dividing an
//! overfull group.

use vstd::prelude::*;
use crate::bounding_box::BoundingBox;
use crate::r_tree::growth::lemma_insert_keeps_wf;
use crate::r_tree::links::{lemma_child_links, lemma_parent_covers, lemma_push_fresh_no_duplicates};
use crate::r_tree::sides::{lemma_both_sides_taken, lemma_pick_side_contains};
use crate::r_tree::model::{in_first, pick_side, EntryView, NodeView, TreeView, M};
use crate::r_tree::{arena_nodes, RTree, RTreeEntry, RTreeNode};

verus! {

impl<T> RTree<T> {
    /// Descends from `node`, which lies at depth `level`, to the group that
    /// takes a new value with the given box; returns its slot and depth.
    pub(crate) fn choose_leaf_rec(
        &self,
        node: usize,
        bounding_box: &BoundingBox,
        level: usize,
    ) -> (r: (usize, usize))
        requires
            self@.linked(),
            node < self@.len(),
            level == self@.depth[node as int],
        ensures
            r.0 == self@.route(node as int, *bounding_box),
            r.0 < self@.len(),
            r.1 == self@.depth[r.0 as int],
            self@.is_group(node as int) ==> self@.is_group(r.0 as int),
            self@.best_child(
                r.0 as int,
                *bounding_box,
                self@.children(r.0 as int).len() as int,
            ) is None,
        decreases self@.len() - self@.depth[node as int],
    {
        let ghost tv = self@;
        let ghost b = *bounding_box;
        match &self.nodes[node].node {
            RTreeNode::Leaf(_) => (node, level),
            RTreeNode::Node(children) => {
                let mut best: Option<usize> = None;
                let mut best_area: i128 = 0;
                let mut k: usize = 0;
                while k < children.len()
                    invariant
                        tv == self@,
                        tv.linked(),
                        node < tv.len(),
                        b == *bounding_box,
                        k <= children.len(),
                        children@ == tv.children(node as int),
                        match best {
                            Some(c) => {
                                &&& tv.best_child(node as int, b, k as int) == Some(c as int)
                                &&& best_area == tv.grown_area(c as int, b)
                                &&& c < tv.len()
                                &&& tv.is_group(c as int)
                                &&& tv.depth[c as int] == tv.depth[node as int] + 1
                            },
                            None => tv.best_child(node as int, b, k as int) is None,
                        },
                    decreases children.len() - k,
                {
                    let c = children[k];
                    proof {
                        lemma_child_links(tv, node as int, k as int);
                    }
                    if matches!(self.nodes[c].node, RTreeNode::Node(_)) {
                        let area = self.nodes[c].bb.get_union(bounding_box).get_area();
                        match best {
                            None => {
                                best = Some(c);
                                best_area = area;
                            },
                            Some(_) => {
                                if area < best_area {
                                    best = Some(c);
                                    best_area = area;
                                }
                            },
                        }
                    }
                    k += 1;
                }
                match best {
                    Some(c) => self.choose_leaf_rec(c, bounding_box, level + 1),
                    None => (node, level),
                }
            },
        }
    }

    /// The group under `this` that takes a new value with the given box,
    /// with its depth counted from `this`.
    pub(crate) fn choose_leaf(&self, this: usize, bounding_box: &BoundingBox) -> (r: (
        usize,
        usize,
    ))
        requires
            self@.linked(),
            this == 0,
        ensures
            r.0 == self@.route(0, *bounding_box),
            r.0 < self@.len(),
            r.1 == self@.depth[r.0 as int],
            self@.is_group(r.0 as int),
            self@.best_child(
                r.0 as int,
                *bounding_box,
                self@.children(r.0 as int).len() as int,
            ) is None,
    {
        self.choose_leaf_rec(this, bounding_box, 0)
    }

    /// Grows the box of `idx` and of every slot above it to take
    /// `bounding_box`. `base` is the well-formed tree whose parents and
    /// boxes the first slots of the arena still carry.
    pub(crate) fn update_bbox(
        &mut self,
        idx: usize,
        bounding_box: BoundingBox,
        Ghost(base): Ghost<TreeView<T>>,
    )
        requires
            base.wf(),
            idx < base.len(),
            base.len() <= old(self)@.len(),
            forall|j: int|
                0 <= j < base.len() ==> (#[trigger] old(self)@.nodes[j]).parent
                    == base.nodes[j].parent && old(self)@.nodes[j].bb == base.nodes[j].bb,
        ensures
            final(self)@.len() == old(self)@.len(),
            final(self)@.depth == old(self)@.depth,
            final(self)@.max_depth == old(self)@.max_depth,
            forall|j: int|
                0 <= j < old(self)@.len() ==> {
                    &&& (#[trigger] final(self)@.nodes[j]).parent == old(self)@.nodes[j].parent
                    &&& final(self)@.nodes[j].node == old(self)@.nodes[j].node
                    &&& final(self)@.nodes[j].bb == if j < base.len() {
                        base.grown_box(j, idx as int, bounding_box)
                    } else {
                        old(self)@.nodes[j].bb
                    }
                },
    {
        let mut parent = Some(idx);
        let mut bb = bounding_box;
        let ghost steps: nat = 0;
        let ghost prev: int = idx as int;
        loop
            invariant
                base.wf(),
                idx < base.len(),
                base.len() <= self@.len(),
                self@.len() == old(self)@.len(),
                self@.depth == old(self)@.depth,
                self@.max_depth == old(self)@.max_depth,
                forall|j: int|
                    0 <= j < base.len() ==> (#[trigger] old(self)@.nodes[j]).parent
                        == base.nodes[j].parent && old(self)@.nodes[j].bb == base.nodes[j].bb,
                match parent {
                    Some(p) => {
                        &&& p < base.len()
                        &&& base.ancestor(idx as int, steps) == Some(p as int)
                        &&& base.depth[p as int] + steps == base.depth[idx as int]
                    },
                    None => steps == base.depth[idx as int] + 1,
                },
                steps == 0 ==> bb == bounding_box,
                steps > 0 ==> {
                    &&& 0 <= prev < base.len()
                    &&& base.ancestor(idx as int, (steps - 1) as nat) == Some(prev)
                    &&& bb == base.bb(prev).spec_union(bounding_box)
                },
                forall|j: int|
                    0 <= j < self@.len() ==> {
                        &&& (#[trigger] self@.nodes[j]).parent == old(self)@.nodes[j].parent
                        &&& self@.nodes[j].node == old(self)@.nodes[j].node
                        &&& self@.nodes[j].bb == if j < base.len() && base.on_path(j, idx as int)
                            && base.depth[idx as int] - base.depth[j] < steps {
                            base.bb(j).spec_union(bounding_box)
                        } else {
                            old(self)@.nodes[j].bb
                        }
                    },
            ensures
                parent is None,
            decreases base.depth[idx as int] + 1 - steps,
        {
            let p = match parent {
                Some(p) => p,
                None => { break ; },
            };
            proof {
                if steps > 0 {
                    assert(base.nodes[prev].parent == Some(p));
                    lemma_parent_covers(base, prev);
                }
                assert(self@.nodes[p as int].bb == base.bb(p as int));
            }
            bb = self.nodes[p].bb.get_union(&bb);
            assert(bb == base.bb(p as int).spec_union(bounding_box));
            let ghost before = self@;
            self.nodes[p].bb = bb;
            parent = self.nodes[p].parent;
            proof {
                let now = self@;
                assert(now.nodes[p as int].parent == base.nodes[p as int].parent);
                if p != 0 {
                    assert(base.parent_ok(p as int));
                }
                assert forall|j: int| 0 <= j < now.len() implies {
                    &&& (#[trigger] now.nodes[j]).parent == old(self)@.nodes[j].parent
                    &&& now.nodes[j].node == old(self)@.nodes[j].node
                    &&& now.nodes[j].bb == if j < base.len() && base.on_path(j, idx as int)
                        && base.depth[idx as int] - base.depth[j] < steps + 1 {
                        base.bb(j).spec_union(bounding_box)
                    } else {
                        old(self)@.nodes[j].bb
                    }
                } by {
                    assert(before.nodes[j].parent == old(self)@.nodes[j].parent);
                    if j != p {
                        assert(now.nodes[j] == before.nodes[j]);
                    }
                }
                prev = p as int;
                steps = steps + 1;
            }
        }
        proof {
            assert forall|j: int| 0 <= j < old(self)@.len() implies {
                &&& (#[trigger] self@.nodes[j]).bb == if j < base.len() {
                    base.grown_box(j, idx as int, bounding_box)
                } else {
                    old(self)@.nodes[j].bb
                }
            } by {
                if j < base.len() {
                    assert(old(self)@.nodes[j].bb == base.nodes[j].bb);
                }
            }
        }
    }

    /// Raises `max_depth` to the depth of the deepest slot in the subtree
    /// at `id`, which lies at depth `level`, unless it is that large
    /// already. `tv` is the tree that `nodes` holds.
    pub(crate) fn update_max_depth(
        max_depth: &mut usize,
        nodes: &[RTreeEntry<T>],
        id: usize,
        level: usize,
        Ghost(tv): Ghost<TreeView<T>>,
    )
        requires
            tv.nodes == arena_nodes(nodes@),
            tv.linked(),
            id < tv.len(),
            level == tv.depth[id as int],
        ensures
            *final(max_depth) == if *old(max_depth) >= level + tv.height(id as int) {
                *old(max_depth) as int
            } else {
                level + tv.height(id as int)
            },
        decreases tv.len() - tv.depth[id as int],
    {
        if *max_depth < level {
            *max_depth = level;
        }
        match &nodes[id].node {
            RTreeNode::Node(children) => {
                let mut k: usize = 0;
                while k < children.len()
                    invariant
                        tv.nodes == arena_nodes(nodes@),
                        tv.linked(),
                        id < tv.len(),
                        level == tv.depth[id as int],
                        k <= children.len(),
                        children@ == tv.children(id as int),
                        *max_depth >= level,
                        *max_depth >= *old(max_depth),
                        (if *max_depth >= level + tv.tall(id as int, k as int) {
                            *max_depth as int
                        } else {
                            level + tv.tall(id as int, k as int)
                        }) == (if *old(max_depth) >= level + tv.height(id as int) {
                            *old(max_depth) as int
                        } else {
                            level + tv.height(id as int)
                        }),
                    decreases children.len() - k,
                {
                    let c = children[k];
                    proof {
                        lemma_child_links(tv, id as int, k as int);
                    }
                    Self::update_max_depth(max_depth, nodes, c, level + 1, Ghost(tv));
                    k += 1;
                }
            },
            RTreeNode::Leaf(_) => {},
        }
    }

    /// Appends slot `c` to the child list of group `i`; returns how many
    /// children the group has then.
    pub(crate) fn push_child(&mut self, i: usize, c: usize) -> (count: usize)
        requires
            i < old(self)@.len(),
            old(self)@.is_group(i as int),
        ensures
            final(self)@.len() == old(self)@.len(),
            final(self)@.depth == old(self)@.depth,
            final(self)@.max_depth == old(self)@.max_depth,
            count == old(self)@.children(i as int).len() + 1,
            final(self)@.nodes[i as int] == (EntryView {
                bb: old(self)@.nodes[i as int].bb,
                parent: old(self)@.nodes[i as int].parent,
                node: NodeView::<T>::Group(old(self)@.children(i as int).push(c)),
            }),
            forall|j: int|
                0 <= j < old(self)@.len() && j != i ==> #[trigger] final(self)@.nodes[j] == old(
                    self,
                )@.nodes[j],
    {
        match &mut self.nodes[i].node {
            RTreeNode::Node(children) => {
                children.push(c);
                children.len()
            },
            RTreeNode::Leaf(_) => 0,
        }
    }

    /// Stores `value` under `bounding_box`. Nothing checks that the box
    /// bounds the value: that is up to the caller.
    ///
    /// The value joins the group that routing picks; boxes grow from there
    /// up to the root; a group that would hold more than `M` children is
    /// divided in two.
    pub fn insert_entry(&mut self, value: T, bounding_box: BoundingBox)
        requires
            old(self).wf(),
        ensures
            final(self).wf(),
            final(self)@ == old(self)@.inserted(value, bounding_box),
    {
        let ghost base = self@;
        let ghost goal = base.inserted(value, bounding_box);
        let (chosen_leaf_i, level) = self.choose_leaf(0, &bounding_box);
        let ghost t = chosen_leaf_i as int;
        let idx = self.nodes.len();
        self.nodes.push(
            RTreeEntry { bb: bounding_box, parent: Some(chosen_leaf_i), node: RTreeNode::Leaf(value) },
        );
        let ghost pushed = self@;
        assert forall|j: int| 0 <= j < base.len() implies #[trigger] pushed.nodes[j]
            == base.nodes[j] by {}
        let count = self.push_child(chosen_leaf_i, idx);
        self.update_bbox(chosen_leaf_i, bounding_box, Ghost(base));
        let ghost grown = self@;
        proof {
            assert(base.fanout_ok(t));
            assert(grown.children(t) == base.children(t).push(idx));
            assert(grown.nodes =~= base.with_child(t, value, bounding_box));
        }
        if count > M {
            // Every way to part the children in two is tried: with so few
            // children that is cheap.
            let next_children = self.child_ids(chosen_leaf_i);
            proof {
                assert(next_children@.len() == M + 1);
                assert forall|k: int| 0 <= k < next_children@.len() implies #[trigger] next_children@[k]
                    < grown.len() by {
                    if k < M {
                        lemma_child_links(base, t, k);
                    }
                }
                assert(grown.boxes_of(next_children@) =~= base.child_boxes(t).push(bounding_box))
                    by {
                    assert forall|k: int| 0 <= k < next_children@.len() implies grown.boxes_of(
                        next_children@,
                    )[k] == base.child_boxes(t).push(bounding_box)[k] by {
                        if k < M {
                            lemma_child_links(base, t, k);
                        }
                    }
                }
            }
            let combi = self.choose_split(&next_children);
            let ghost first = pick_side(next_children@, combi, true);
            let ghost second = pick_side(next_children@, combi, false);
            proof {
                lemma_both_sides_taken(combi);
                let k1 = choose|k: int| 0 <= k <= M && in_first(combi, k);
                let k2 = choose|k: int| 0 <= k <= M && !in_first(combi, k);
                lemma_pick_side_contains(next_children@, combi, true, next_children@[k1]);
                lemma_pick_side_contains(next_children@, combi, false, next_children@[k2]);
            }
            let left_child = self.build_child(&next_children, combi, true, chosen_leaf_i);
            let ghost halfway = self@;
            assert(halfway.boxes_of(next_children@) =~= grown.boxes_of(next_children@));
            let right_child = self.build_child(&next_children, combi, false, chosen_leaf_i);
            let ghost built = self@;
            self.nodes[chosen_leaf_i].node = RTreeNode::Node(vec![left_child, right_child]);
            proof {
                let now = self@;
                let group = seq![left_child, right_child];
                assert(now.nodes[t].node == NodeView::<T>::Group(group));
                assert(base.overflows(bounding_box));
                assert forall|j: int| 0 <= j < now.len() implies #[trigger] now.nodes[j]
                    == goal.nodes[j] by {
                    lemma_pick_side_contains(next_children@, combi, true, j as usize);
                    lemma_pick_side_contains(next_children@, combi, false, j as usize);
                    if j != t {
                        assert(now.nodes[j] == built.nodes[j]);
                    }
                    if j < halfway.len() {
                        assert(built.nodes[j].bb == halfway.nodes[j].bb);
                    }
                    if j < grown.len() {
                        assert(halfway.nodes[j].bb == grown.nodes[j].bb);
                    }
                    if first.contains(j as usize) && second.contains(j as usize) {
                        let w1 = choose|k: int|
                            0 <= k < next_children@.len() && #[trigger] next_children@[k]
                                == j as usize && in_first(combi, k) == true;
                        let w2 = choose|k: int|
                            0 <= k < next_children@.len() && #[trigger] next_children@[k]
                                == j as usize && in_first(combi, k) == false;
                        assert(next_children@.no_duplicates()) by {
                            lemma_push_fresh_no_duplicates(base, t);
                        }
                        assert(false);
                    }
                    if j == idx {
                        assert(next_children@[M as int] == idx);
                    }
                }
                assert(now.nodes =~= goal.nodes);
            }
        }
        self.depth = Ghost(goal.depth);
        proof {
            assert(self@.nodes =~= goal.nodes);
            assert(self@.len() == self.nodes.len());
            lemma_insert_keeps_wf(base, value, bounding_box);
        }
        Self::update_max_depth(
            &mut self.max_depth,
            self.nodes.as_slice(),
            chosen_leaf_i,
            level,
            Ghost(goal),
        );
    }
}

} // verus!
