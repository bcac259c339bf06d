//! Dividing an overfull group: trying every way to part its children in two
//! and building the two groups of the cheapest one.

use vstd::prelude::*;
use crate::bounding_box::{lemma_box_area_bounds, union_of, BoundingBox};
use crate::r_tree::sides::{lemma_pick_side_len, lemma_pick_side_step};
use crate::r_tree::model::{
    best_split, in_first, pick_side, split_cost, EntryView, NodeView, LAST_MASK, M,
};
use crate::r_tree::{RTree, RTreeEntry, RTreeNode};

verus! {

/// Whether position `k` falls on the first side under `mask`.
pub(crate) fn on_first_side(mask: u32, k: usize) -> (r: bool)
    requires
        k < 32,
    ensures
        r == in_first(mask, k as int),
{
    mask & (1u32 << (k as u32)) != 0
}

impl<T> RTree<T> {
    /// A copy of the child list of group `i`.
    pub(crate) fn child_ids(&self, i: usize) -> (ids: Vec<usize>)
        requires
            i < self@.len(),
        ensures
            ids@ == self@.children(i as int),
    {
        let mut ids: Vec<usize> = Vec::new();
        match &self.nodes[i].node {
            RTreeNode::Node(children) => {
                let mut k: usize = 0;
                while k < children.len()
                    invariant
                        k <= children.len(),
                        ids@ == children@.take(k as int),
                    decreases children.len() - k,
                {
                    ids.push(children[k]);
                    assert(children@.take(k + 1) =~= children@.take(k as int).push(children@[k as int]));
                    k += 1;
                }
                assert(children@.take(k as int) =~= children@);
            },
            RTreeNode::Leaf(_) => {
                assert(self@.children(i as int) =~= ids@);
            },
        }
        ids
    }

    /// The union of the boxes of one side of `ids` under `mask`, or `None`
    /// when that side is empty.
    pub(crate) fn side_box(&self, ids: &Vec<usize>, mask: u32, first: bool) -> (r: Option<
        BoundingBox,
    >)
        requires
            ids@.len() <= M + 1,
            forall|k: int| 0 <= k < ids@.len() ==> #[trigger] ids@[k] < self@.len(),
        ensures
            match r {
                Some(b) => pick_side(self@.boxes_of(ids@), mask, first).len() > 0 && b == union_of(
                    pick_side(self@.boxes_of(ids@), mask, first),
                ),
                None => pick_side(self@.boxes_of(ids@), mask, first).len() == 0,
            },
    {
        let ghost boxes = self@.boxes_of(ids@);
        let mut acc: Option<BoundingBox> = None;
        let mut k: usize = 0;
        while k < ids.len()
            invariant
                k <= ids@.len(),
                ids@.len() <= M + 1,
                boxes == self@.boxes_of(ids@),
                forall|k: int| 0 <= k < ids@.len() ==> #[trigger] ids@[k] < self@.len(),
                match acc {
                    Some(b) => pick_side(boxes.take(k as int), mask, first).len() > 0 && b
                        == union_of(pick_side(boxes.take(k as int), mask, first)),
                    None => pick_side(boxes.take(k as int), mask, first).len() == 0,
                },
            decreases ids@.len() - k,
        {
            proof {
                lemma_pick_side_step(boxes, mask, first, k as int);
            }
            if on_first_side(mask, k) == first {
                let id = ids[k];
                let b = self.nodes[id].bb;
                assert(b == boxes[k as int]);
                let ghost side = pick_side(boxes.take(k as int), mask, first);
                assert(side.push(b).drop_last() =~= side);
                acc = match acc {
                    Some(a) => Some(a.get_union(&b)),
                    None => Some(b),
                };
            }
            k += 1;
        }
        assert(boxes.take(k as int) =~= boxes);
        acc
    }

    /// What dividing `ids` by `mask` costs: the areas of the two sides'
    /// unions together.
    pub(crate) fn cost_of_split(&self, ids: &Vec<usize>, mask: u32) -> (cost: i128)
        requires
            ids@.len() <= M + 1,
            forall|k: int| 0 <= k < ids@.len() ==> #[trigger] ids@[k] < self@.len(),
        ensures
            cost == split_cost(self@.boxes_of(ids@), mask),
    {
        let left_bb = self.side_box(ids, mask, false);
        let right_bb = self.side_box(ids, mask, true);
        let left: i128 = match left_bb {
            Some(bb) => {
                proof {
                    lemma_box_area_bounds(bb);
                }
                bb.get_area()
            },
            None => 0,
        };
        let right: i128 = match right_bb {
            Some(bb) => {
                proof {
                    lemma_box_area_bounds(bb);
                }
                bb.get_area()
            },
            None => 0,
        };
        left + right
    }

    /// The cheapest way to part `ids` in two non-empty sides; of several
    /// equally cheap ones the first tried.
    pub(crate) fn choose_split(&self, ids: &Vec<usize>) -> (mask: u32)
        requires
            ids@.len() == M + 1,
            forall|k: int| 0 <= k < ids@.len() ==> #[trigger] ids@[k] < self@.len(),
        ensures
            mask == best_split(self@.boxes_of(ids@), LAST_MASK),
            1 <= mask <= LAST_MASK,
    {
        let ghost boxes = self@.boxes_of(ids@);
        let all_combi: u32 = 1u32 << (ids.len() as u32);
        assert(1u32 << 5u32 == 32u32) by (bit_vector);
        let mut best: u32 = 1;
        let mut best_cost: i128 = self.cost_of_split(ids, 1);
        let mut combi: u32 = 2;
        while combi < all_combi - 1
            invariant
                all_combi == 32,
                2 <= combi <= 31,
                ids@.len() == M + 1,
                boxes == self@.boxes_of(ids@),
                forall|k: int| 0 <= k < ids@.len() ==> #[trigger] ids@[k] < self@.len(),
                best == best_split(boxes, (combi - 1) as u32),
                best_cost == split_cost(boxes, best),
                1 <= best < combi,
            decreases 31 - combi,
        {
            let cost = self.cost_of_split(ids, combi);
            if cost < best_cost {
                best = combi;
                best_cost = cost;
            }
            combi += 1;
        }
        best
    }

    /// Appends a group that takes over one side of `ids` under `mask`, as a
    /// child of `parent`; returns its slot.
    pub(crate) fn build_child(
        &mut self,
        ids: &Vec<usize>,
        mask: u32,
        first: bool,
        parent: usize,
    ) -> (slot: usize)
        requires
            ids@.len() <= M + 1,
            forall|k: int| 0 <= k < ids@.len() ==> #[trigger] ids@[k] < old(self)@.len(),
            pick_side(ids@, mask, first).len() > 0,
        ensures
            slot == old(self)@.len(),
            final(self)@.len() == old(self)@.len() + 1,
            final(self)@.depth == old(self)@.depth,
            final(self)@.max_depth == old(self)@.max_depth,
            final(self)@.nodes[slot as int] == (EntryView {
                bb: union_of(pick_side(old(self)@.boxes_of(ids@), mask, first)),
                parent: Some(parent),
                node: NodeView::<T>::Group(pick_side(ids@, mask, first)),
            }),
            forall|j: int|
                0 <= j < old(self)@.len() ==> {
                    &&& (#[trigger] final(self)@.nodes[j]).bb == old(self)@.nodes[j].bb
                    &&& final(self)@.nodes[j].node == old(self)@.nodes[j].node
                    &&& final(self)@.nodes[j].parent == if pick_side(ids@, mask, first).contains(
                        j as usize,
                    ) {
                        Some(slot)
                    } else {
                        old(self)@.nodes[j].parent
                    }
                },
    {
        let ghost before = self@;
        let ghost boxes = self@.boxes_of(ids@);
        let slot = self.nodes.len();
        let mut children: Vec<usize> = Vec::new();
        let mut k: usize = 0;
        while k < ids.len()
            invariant
                k <= ids@.len(),
                ids@.len() <= M + 1,
                slot == before.len(),
                self@.len() == before.len(),
                self@.depth == before.depth,
                self@.max_depth == before.max_depth,
                forall|k: int| 0 <= k < ids@.len() ==> #[trigger] ids@[k] < before.len(),
                children@ == pick_side(ids@.take(k as int), mask, first),
                forall|j: int|
                    0 <= j < before.len() ==> {
                        &&& (#[trigger] self@.nodes[j]).bb == before.nodes[j].bb
                        &&& self@.nodes[j].node == before.nodes[j].node
                        &&& self@.nodes[j].parent == if children@.contains(j as usize) {
                            Some(slot)
                        } else {
                            before.nodes[j].parent
                        }
                    },
            decreases ids@.len() - k,
        {
            proof {
                lemma_pick_side_step(ids@, mask, first, k as int);
            }
            if on_first_side(mask, k) == first {
                let id = ids[k];
                let ghost prior = self@;
                let ghost held = children@;
                self.nodes[id].parent = Some(slot);
                children.push(id);
                proof {
                    let now = self@;
                    assert forall|j: int| 0 <= j < before.len() implies {
                        &&& (#[trigger] now.nodes[j]).bb == before.nodes[j].bb
                        &&& now.nodes[j].node == before.nodes[j].node
                        &&& now.nodes[j].parent == if children@.contains(j as usize) {
                            Some(slot)
                        } else {
                            before.nodes[j].parent
                        }
                    } by {
                        assert(prior.nodes[j].bb == before.nodes[j].bb);
                        if j != id {
                            assert(now.nodes[j] == prior.nodes[j]);
                        }
                        assert(children@[held.len() as int] == id);
                        if held.contains(j as usize) {
                            let w = choose|w: int| 0 <= w < held.len() && held[w] == j as usize;
                            assert(children@[w] == j as usize);
                        }
                    }
                }
            }
            k += 1;
        }
        assert(ids@.take(k as int) =~= ids@);
        assert(self@.boxes_of(ids@) =~= boxes);
        let side = self.side_box(ids, mask, first);
        proof {
            lemma_pick_side_len(ids@, boxes, mask, first);
        }
        let bb = side.unwrap();
        let ghost prior = self@;
        self.nodes.push(RTreeEntry { bb, parent: Some(parent), node: RTreeNode::Node(children) });
        proof {
            let now = self@;
            assert forall|j: int| 0 <= j < before.len() implies (#[trigger] now.nodes[j])
                == prior.nodes[j] by {}
        }
        slot
    }
}

} // verus!
