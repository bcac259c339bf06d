//! The mathematical model of the tree: what a tree is as a value, when it is
//! well formed, and what each operation computes on it.

use vstd::prelude::*;
use crate::bounding_box::{tight, union_of, BoundingBox};
use crate::point::Point;

verus! {

/// The most children a group may keep.
pub const M: usize = 4;

/// The last bit pattern tried when an overfull group of `M + 1` children is
/// divided: every pattern from 1 up to this one leaves both sides non-empty.
pub const LAST_MASK: u32 = 30;

/// What a slot holds: a group of child slots, in order, or one stored value.
pub enum NodeView<T> {
    Group(Seq<usize>),
    Data(T),
}

/// One slot of the arena.
pub struct EntryView<T> {
    pub bb: BoundingBox,
    pub parent: Option<usize>,
    pub node: NodeView<T>,
}

/// A tree as a value: its slots, the number of edges from the root to each
/// slot, and the recorded depth of the deepest stored value.
pub struct TreeView<T> {
    pub nodes: Seq<EntryView<T>>,
    pub depth: Seq<nat>,
    pub max_depth: nat,
}

/// The box that the root of an empty tree starts with.
pub open spec fn seed_box() -> BoundingBox {
    BoundingBox { min: Point { x: -1i32, y: -1i32 }, max: Point { x: 1, y: 1 } }
}

/// The root of an empty tree: a group without children under the seed box.
pub open spec fn empty_root<T>() -> EntryView<T> {
    EntryView { bb: seed_box(), parent: None, node: NodeView::Group(Seq::empty()) }
}

/// The empty tree: just the root, with the recorded depth at 1.
pub open spec fn empty_tree<T>() -> TreeView<T> {
    TreeView { nodes: seq![empty_root::<T>()], depth: seq![0nat], max_depth: 1 }
}

/// The tree that holds the given values, each with its box, inserted in this
/// order into an empty tree.
pub open spec fn built<T>(items: Seq<(T, BoundingBox)>) -> TreeView<T>
    decreases items.len(),
{
    if items.len() == 0 {
        empty_tree()
    } else {
        built(items.drop_last()).inserted(items.last().0, items.last().1)
    }
}

/// Whether position `k` falls on the first side under the bit pattern `mask`.
pub open spec fn in_first(mask: u32, k: int) -> bool {
    mask & (1u32 << (k as u32)) != 0
}

/// The items of one side under `mask`, in the order in which they stand.
pub open spec fn pick_side<A>(items: Seq<A>, mask: u32, first: bool) -> Seq<A>
    decreases items.len(),
{
    if items.len() == 0 {
        Seq::empty()
    } else {
        let rest = pick_side(items.drop_last(), mask, first);
        if in_first(mask, items.len() - 1) == first {
            rest.push(items.last())
        } else {
            rest
        }
    }
}

/// The area of the union of one side; an empty side counts as zero.
pub open spec fn side_area(boxes: Seq<BoundingBox>, mask: u32, first: bool) -> int {
    let side = pick_side(boxes, mask, first);
    if side.len() == 0 {
        0
    } else {
        union_of(side).spec_area()
    }
}

/// What dividing `boxes` by `mask` costs: the two sides' areas together.
pub open spec fn split_cost(boxes: Seq<BoundingBox>, mask: u32) -> int {
    side_area(boxes, mask, false) + side_area(boxes, mask, true)
}

/// The cheapest pattern among `1..=upto`; of several equally cheap ones the
/// smallest.
pub open spec fn best_split(boxes: Seq<BoundingBox>, upto: u32) -> u32
    decreases upto,
{
    if upto <= 1 {
        1
    } else {
        let prev = best_split(boxes, (upto - 1) as u32);
        if split_cost(boxes, upto) < split_cost(boxes, prev) {
            upto
        } else {
            prev
        }
    }
}

impl<T> TreeView<T> {
    pub open spec fn len(self) -> int {
        self.nodes.len() as int
    }

    pub open spec fn is_group(self, i: int) -> bool {
        self.nodes[i].node is Group
    }

    pub open spec fn is_data(self, i: int) -> bool {
        self.nodes[i].node is Data
    }

    /// The child slots of a group, in order; none for a stored value.
    pub open spec fn children(self, i: int) -> Seq<usize> {
        match self.nodes[i].node {
            NodeView::Group(c) => c,
            NodeView::Data(_) => Seq::empty(),
        }
    }

    pub open spec fn bb(self, i: int) -> BoundingBox {
        self.nodes[i].bb
    }

    /// The boxes of a group's children, in child order.
    pub open spec fn child_boxes(self, i: int) -> Seq<BoundingBox> {
        Seq::new(self.children(i).len(), |k: int| self.bb(self.children(i)[k] as int))
    }

    /// Slot `i` (not the root) names a group as its parent, that group lists
    /// it, and it lies one edge deeper.
    pub open spec fn parent_ok(self, i: int) -> bool {
        match self.nodes[i].parent {
            Some(p) => {
                &&& p < self.len()
                &&& self.is_group(p as int)
                &&& self.children(p as int).contains(i as usize)
                &&& self.depth[i] == self.depth[p as int] + 1
            },
            None => false,
        }
    }

    /// The `k`-th child of group `i` is a slot other than the root whose
    /// parent is `i`.
    pub open spec fn child_ok(self, i: int, k: int) -> bool {
        let c = self.children(i)[k];
        &&& 0 < c < self.len()
        &&& self.nodes[c as int].parent == Some(i as usize)
    }

    /// A group lists no child twice and at most `M` of them.
    pub open spec fn fanout_ok(self, i: int) -> bool {
        &&& self.children(i).no_duplicates()
        &&& self.children(i).len() <= M
    }

    /// The links between slots are consistent: slot 0 is the root and a
    /// group, parents and child lists agree, and depths count edges.
    pub open spec fn linked(self) -> bool {
        &&& self.len() >= 1
        &&& self.len() <= usize::MAX
        &&& self.depth.len() == self.len()
        &&& self.nodes[0].parent is None
        &&& self.is_group(0)
        &&& self.depth[0] == 0
        &&& forall|i: int| 0 < i < self.len() ==> #[trigger] self.parent_ok(i)
        &&& forall|i: int, k: int|
            0 <= i < self.len() && 0 <= k < self.children(i).len() ==> #[trigger] self.child_ok(
                i,
                k,
            )
        &&& forall|i: int| 0 <= i < self.len() ==> #[trigger] self.fanout_ok(i)
        &&& forall|i: int| 0 <= i < self.len() ==> #[trigger] self.depth[i] < self.len()
    }

    /// The box of group `i` is exactly the bounding box of its children's
    /// boxes; for the root, of these and the seed box.
    pub open spec fn box_ok(self, i: int) -> bool {
        if i == 0 {
            tight(self.bb(0), seq![seed_box()] + self.child_boxes(0))
        } else {
            self.is_group(i) ==> tight(self.bb(i), self.child_boxes(i))
        }
    }

    /// Every group's box is the bounding box of its children.
    pub open spec fn boxed(self) -> bool {
        forall|i: int| 0 <= i < self.len() ==> #[trigger] self.box_ok(i)
    }

    /// The recorded depth is that of the deepest stored value, or 1 while
    /// nothing is stored.
    pub open spec fn depth_recorded(self) -> bool {
        &&& self.max_depth >= 1
        &&& forall|i: int| 0 <= i < self.len() ==> #[trigger] self.depth[i] <= self.max_depth
        &&& self.len() == 1 ==> self.max_depth == 1
        &&& self.len() > 1 ==> exists|i: int|
            0 <= i < self.len() && self.is_data(i) && #[trigger] self.depth[i] == self.max_depth
    }

    /// The tree is well formed.
    pub open spec fn wf(self) -> bool {
        &&& self.linked()
        &&& self.boxed()
        &&& self.depth_recorded()
    }

    /// The slot reached from `i` by following `k` parent links, if there are
    /// that many.
    pub open spec fn ancestor(self, i: int, k: nat) -> Option<int>
        decreases k,
    {
        if k == 0 {
            Some(i)
        } else {
            match self.ancestor(i, (k - 1) as nat) {
                Some(j) => match self.nodes[j].parent {
                    Some(p) => Some(p as int),
                    None => None,
                },
                None => None,
            }
        }
    }

    /// `a` is `i` itself or lies on the way from `i` up to the root.
    pub open spec fn on_path(self, a: int, i: int) -> bool {
        &&& self.depth[a] <= self.depth[i]
        &&& self.ancestor(i, (self.depth[i] - self.depth[a]) as nat) == Some(a)
    }

    /// The `k`-th child of `i` is a slot one edge below `i`.
    pub open spec fn descends(self, i: int, k: int) -> bool {
        let c = self.children(i)[k] as int;
        &&& 0 <= i < self.len()
        &&& 0 <= k < self.children(i).len()
        &&& 0 <= c < self.len()
        &&& self.depth[c] == self.depth[i] + 1
        &&& self.depth[c] < self.len()
    }

    /// The slots below `i` that hang off its children from position `k` on,
    /// each child's subtree in turn.
    pub open spec fn forest(self, i: int, k: int) -> Seq<int>
        decreases self.len() - self.depth[i], self.children(i).len() - k,
    {
        if self.descends(i, k) {
            self.subtree(self.children(i)[k] as int) + self.forest(i, k + 1)
        } else {
            Seq::empty()
        }
    }

    /// The slots of the subtree at `i` in the order of a depth-first walk:
    /// `i` first, then each child's subtree in child order.
    pub open spec fn subtree(self, i: int) -> Seq<int>
        decreases self.len() - self.depth[i], self.children(i).len() + 1,
    {
        seq![i] + self.forest(i, 0)
    }

    /// The greatest number of edges from `i` down to a slot below it that
    /// hangs off one of its children from position `k` on; 0 if there is
    /// none.
    pub open spec fn tall(self, i: int, k: int) -> nat
        decreases self.len() - self.depth[i], self.children(i).len() - k,
    {
        if self.descends(i, k) {
            let below = 1 + self.height(self.children(i)[k] as int);
            let rest = self.tall(i, k + 1);
            if below >= rest {
                below
            } else {
                rest
            }
        } else {
            0
        }
    }

    /// The greatest number of edges from `i` down to a slot of its subtree.
    pub open spec fn height(self, i: int) -> nat
        decreases self.len() - self.depth[i], self.children(i).len() + 1,
    {
        self.tall(i, 0)
    }

    /// Slot `i` holds a value whose box meets `q`.
    pub open spec fn is_hit(self, i: int, q: BoundingBox) -> bool {
        self.is_data(i) && self.bb(i).spec_intersects(q)
    }

    /// The test that picks the hits for `q` out of a sequence of slots.
    pub open spec fn hit_pred(self, q: BoundingBox) -> spec_fn(int) -> bool {
        |i: int| self.is_hit(i, q)
    }

    /// The hits for `q` in the subtree at `i`, in walk order.
    pub open spec fn matches_in(self, i: int, q: BoundingBox) -> Seq<int> {
        self.subtree(i).filter(self.hit_pred(q))
    }

    /// The hits for `q` below `i` that hang off its children from position
    /// `k` on, in walk order.
    pub open spec fn matches_below(self, i: int, k: int, q: BoundingBox) -> Seq<int> {
        self.forest(i, k).filter(self.hit_pred(q))
    }

    /// The slots that a query for `q` yields, in order: the stored values
    /// met on a depth-first walk from the root whose box meets `q`.
    pub open spec fn matches(self, q: BoundingBox) -> Seq<int> {
        self.matches_in(0, q)
    }

    /// `r` is the answer to a query for the first hit for `q`: the value
    /// of the first slot of `matches(q)`, or nothing if there is no hit.
    pub open spec fn first_hit_is(self, q: BoundingBox, r: Option<T>) -> bool {
        match r {
            Some(v) => self.matches(q).len() > 0 && self.nodes[self.matches(q)[0]].node
                == NodeView::Data(v),
            None => self.matches(q).len() == 0,
        }
    }

    /// The area that the box of slot `i` would have after growing to take
    /// `b`.
    pub open spec fn grown_area(self, i: int, b: BoundingBox) -> int {
        self.bb(i).spec_union(b).spec_area()
    }

    /// Among the first `k` children of `i`, the group that grows to the
    /// least area to take `b`; of several such the first. `None` when none
    /// of them is a group.
    pub open spec fn best_child(self, i: int, b: BoundingBox, k: int) -> Option<int>
        decreases k,
    {
        if k <= 0 {
            None
        } else {
            let prev = self.best_child(i, b, k - 1);
            let c = self.children(i)[k - 1] as int;
            if !self.is_group(c) {
                prev
            } else {
                match prev {
                    None => Some(c),
                    Some(p) => if self.grown_area(c, b) < self.grown_area(p, b) {
                        Some(c)
                    } else {
                        Some(p)
                    },
                }
            }
        }
    }

    /// The group under `i` that takes a new value with box `b`: descend
    /// into the best child group until a group has no child group.
    pub open spec fn route(self, i: int, b: BoundingBox) -> int
        decreases self.len() - self.depth[i],
    {
        match self.best_child(i, b, self.children(i).len() as int) {
            Some(c) => if 0 <= i < self.len() && 0 <= c < self.len() && self.depth[c]
                == self.depth[i] + 1 && self.depth[c] < self.len() {
                self.route(c, b)
            } else {
                i
            },
            None => i,
        }
    }

    /// The box of slot `j` after a value with box `b` went in under
    /// `target`: grown by `b` on the way from `target` to the root,
    /// unchanged elsewhere.
    pub open spec fn grown_box(self, j: int, target: int, b: BoundingBox) -> BoundingBox {
        if self.on_path(j, target) {
            self.bb(j).spec_union(b)
        } else {
            self.bb(j)
        }
    }

    /// The slots after `value` with box `b` joined the group `target`,
    /// which had room.
    pub open spec fn with_child(self, target: int, value: T, b: BoundingBox) -> Seq<EntryView<T>> {
        let n = self.len();
        Seq::new(
            (n + 1) as nat,
            |j: int|
                if j == n {
                    EntryView { bb: b, parent: Some(target as usize), node: NodeView::Data(value) }
                } else {
                    EntryView {
                        bb: self.grown_box(j, target, b),
                        parent: self.nodes[j].parent,
                        node: if j == target {
                            NodeView::Group(self.children(target).push(n as usize))
                        } else {
                            self.nodes[j].node
                        },
                    }
                },
        )
    }

    /// The pattern by which the full group `target` and a newcomer with box
    /// `b` are divided.
    pub open spec fn split_mask(self, target: int, b: BoundingBox) -> u32 {
        best_split(self.child_boxes(target).push(b), LAST_MASK)
    }

    /// The slots after `value` with box `b` joined the full group `target`:
    /// the value takes slot `n`; two new groups in slots `n + 1` and `n + 2`
    /// share the old children and the newcomer; `target` keeps just these
    /// two.
    pub open spec fn with_split(self, target: int, value: T, b: BoundingBox) -> Seq<EntryView<T>> {
        let n = self.len();
        let all = self.children(target).push(n as usize);
        let boxes = self.child_boxes(target).push(b);
        let mask = self.split_mask(target, b);
        let first = pick_side(all, mask, true);
        let second = pick_side(all, mask, false);
        Seq::new(
            (n + 3) as nat,
            |j: int|
                if j == n {
                    EntryView {
                        bb: b,
                        parent: Some(
                            if first.contains(n as usize) {
                                (n + 1) as usize
                            } else {
                                (n + 2) as usize
                            },
                        ),
                        node: NodeView::Data(value),
                    }
                } else if j == n + 1 {
                    EntryView {
                        bb: union_of(pick_side(boxes, mask, true)),
                        parent: Some(target as usize),
                        node: NodeView::Group(first),
                    }
                } else if j == n + 2 {
                    EntryView {
                        bb: union_of(pick_side(boxes, mask, false)),
                        parent: Some(target as usize),
                        node: NodeView::Group(second),
                    }
                } else {
                    EntryView {
                        bb: self.grown_box(j, target, b),
                        parent: if first.contains(j as usize) {
                            Some((n + 1) as usize)
                        } else if second.contains(j as usize) {
                            Some((n + 2) as usize)
                        } else {
                            self.nodes[j].parent
                        },
                        node: if j == target {
                            NodeView::Group(seq![(n + 1) as usize, (n + 2) as usize])
                        } else {
                            self.nodes[j].node
                        },
                    }
                },
        )
    }

    /// The boxes of the given slots, in the same order.
    pub open spec fn boxes_of(self, ids: Seq<usize>) -> Seq<BoundingBox> {
        Seq::new(ids.len(), |k: int| self.bb(ids[k] as int))
    }

    /// Whether a newcomer with box `b` makes its group overflow.
    pub open spec fn overflows(self, b: BoundingBox) -> bool {
        self.children(self.route(0, b)).len() >= M
    }

    /// The slots after inserting `value` with box `b`.
    pub open spec fn after_insert(self, value: T, b: BoundingBox) -> Seq<EntryView<T>> {
        let target = self.route(0, b);
        if self.overflows(b) {
            self.with_split(target, value, b)
        } else {
            self.with_child(target, value, b)
        }
    }

    /// The depth of the newcomer after inserting a value with box `b`.
    pub open spec fn depth_of_new(self, b: BoundingBox) -> nat {
        let target = self.route(0, b);
        if self.overflows(b) {
            self.depth[target] + 2
        } else {
            self.depth[target] + 1
        }
    }

    /// Each slot's depth after inserting a value with box `b`: the children
    /// of a divided group sink by one edge.
    pub open spec fn depth_after_insert(self, b: BoundingBox) -> Seq<nat> {
        let target = self.route(0, b);
        let n = self.len();
        if self.overflows(b) {
            Seq::new(
                (n + 3) as nat,
                |j: int|
                    if j == n {
                        self.depth[target] + 2
                    } else if j == n + 1 || j == n + 2 {
                        self.depth[target] + 1
                    } else if self.children(target).contains(j as usize) {
                        self.depth[target] + 2
                    } else {
                        self.depth[j]
                    },
            )
        } else {
            self.depth.push(self.depth[target] + 1)
        }
    }

    /// The recorded depth after inserting a value with box `b`.
    pub open spec fn max_depth_after_insert(self, b: BoundingBox) -> nat {
        if self.depth_of_new(b) > self.max_depth {
            self.depth_of_new(b)
        } else {
            self.max_depth
        }
    }

    /// The tree after inserting `value` with box `b`.
    pub open spec fn inserted(self, value: T, b: BoundingBox) -> TreeView<T> {
        TreeView {
            nodes: self.after_insert(value, b),
            depth: self.depth_after_insert(b),
            max_depth: self.max_depth_after_insert(b),
        }
    }
}

} // verus!
