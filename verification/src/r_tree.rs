//! The spatial index: an arena of slots, each a group of child slots or one
//! stored value, every slot with the box that bounds what lies below it.

use vstd::prelude::*;
use crate::bounding_box::BoundingBox;
use crate::point::Point;
use crate::r_tree::laws::lemma_empty_wf;
use crate::r_tree::model::{empty_root, empty_tree, EntryView, NodeView, TreeView};

pub mod model;
pub mod links;
pub mod sides;
pub mod insert;
pub mod split;
pub mod growth;
pub mod order;
pub mod query;
pub mod walk;
pub mod laws;
pub mod dot;

verus! {

/// What a slot holds.
#[derive(Debug)]
pub enum RTreeNode<T> {
    /// A group: the slots of its children, in order.
    Node(Vec<usize>),
    /// A stored value.
    Leaf(T),
}

/// One slot of the arena.
#[derive(Debug)]
pub struct RTreeEntry<T> {
    bb: BoundingBox,
    parent: Option<usize>,
    node: RTreeNode<T>,
}

/// The index. Slot 0 is the root; slots are only ever added.
pub struct RTree<T> {
    nodes: Vec<RTreeEntry<T>>,
    max_depth: usize,
    depth: Ghost<Seq<nat>>,
}

impl<T> View for RTreeNode<T> {
    type V = NodeView<T>;

    open spec fn view(&self) -> NodeView<T> {
        match *self {
            RTreeNode::Node(children) => NodeView::Group(children@),
            RTreeNode::Leaf(value) => NodeView::Data(value),
        }
    }
}

impl<T> View for RTreeEntry<T> {
    type V = EntryView<T>;

    closed spec fn view(&self) -> EntryView<T> {
        EntryView { bb: self.bb, parent: self.parent, node: self.node@ }
    }
}

impl<T> View for RTree<T> {
    type V = TreeView<T>;

    closed spec fn view(&self) -> TreeView<T> {
        TreeView {
            nodes: arena_nodes(self.nodes@),
            depth: self.depth@,
            max_depth: self.max_depth as nat,
        }
    }
}

/// The slots of an arena as values.
pub closed spec fn arena_nodes<T>(nodes: Seq<RTreeEntry<T>>) -> Seq<EntryView<T>> {
    Seq::new(nodes.len(), |i: int| nodes[i]@)
}

impl<T> RTreeEntry<T> {
    /// The box that bounds everything below this slot.
    pub fn bounding_box(&self) -> (b: &BoundingBox)
        ensures
            *b == self@.bb,
    {
        &self.bb
    }

    /// What this slot holds.
    pub fn node(&self) -> (n: &RTreeNode<T>)
        ensures
            n@ == self@.node,
    {
        &self.node
    }
}

impl<T> RTree<T> {
    /// The tree is well formed: links, boxes and the recorded depth are
    /// consistent.
    pub open spec fn wf(&self) -> bool {
        self@.wf()
    }

    /// An empty tree: a root group without children whose box is the seed
    /// box. The recorded depth starts at 1, the depth that the first stored
    /// value will have.
    pub fn new() -> (tree: Self)
        ensures
            tree.wf(),
            tree@ == empty_tree::<T>(),
    {
        let root = RTreeEntry {
            bb: BoundingBox { min: Point { x: -1, y: -1 }, max: Point { x: 1, y: 1 } },
            parent: None,
            node: RTreeNode::Node(Vec::new()),
        };
        let mut nodes = Vec::new();
        nodes.push(root);
        let ghost depth: Seq<nat> = seq![0nat];
        let tree = Self { nodes, max_depth: 1, depth: Ghost(depth) };
        proof {
            assert(tree@.nodes =~= seq![empty_root::<T>()]);
            lemma_empty_wf::<T>();
        }
        tree
    }

    /// The root's box: the bounding box of the seed box and of every stored
    /// value's box.
    pub fn bounding_box(&self) -> (b: BoundingBox)
        requires
            self.wf(),
        ensures
            b == self@.bb(0),
    {
        self.nodes[0].bb
    }

    /// The depth of the deepest stored value, counted in edges from the
    /// root; 1 while the tree is empty.
    pub fn max_depth(&self) -> (d: usize)
        ensures
            d == self@.max_depth,
    {
        self.max_depth
    }
}

} // verus!
