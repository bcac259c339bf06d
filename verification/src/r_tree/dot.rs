//! The tree as a graph description in the DOT language, for debugging.

use vstd::prelude::*;
use vstd::string::StringExecFns;
use crate::bounding_box::{box_text, push_box, BoundingBox};
use crate::text::{decimal_text, push_decimal};
use crate::r_tree::model::TreeView;
use crate::r_tree::{RTree, RTreeNode};

verus! {

/// The opening of the graph, with the direction in which ranks run.
pub open spec fn header_text(vertical: bool) -> Seq<char> {
    "digraph G {\nrankdir=\""@ + (if vertical {
        "TB"@
    } else {
        "LR"@
    }) + "\";\n            newrank=true;\n"@
}

/// The line that declares slot `i` as a graph node: labelled with the slot
/// and its box, filled yellow for a group and green for a stored value.
pub open spec fn node_line(i: nat, b: BoundingBox, group: bool) -> Seq<char> {
    "a"@ + decimal_text(i) + " [label=\"#"@ + decimal_text(i) + " "@ + box_text(b)
        + "\" shape=rect "@ + (if group {
        "style=filled fillcolor=\"#ffff7f\""@
    } else {
        "style=filled fillcolor=\"#7fff7f\""@
    }) + "];\n"@
}

/// The line for the edge from slot `i` to slot `c`.
pub open spec fn edge_line(i: nat, c: nat) -> Seq<char> {
    "a"@ + decimal_text(i) + " -> a"@ + decimal_text(c) + ";\n"@
}

impl<T> TreeView<T> {
    /// The node line of slot `i`.
    pub open spec fn node_text(self, i: int) -> Seq<char> {
        node_line(i as nat, self.bb(i), self.is_group(i))
    }

    /// The line for the edge from slot `i` to slot `c`.
    pub open spec fn edge_text(self, i: int, c: int) -> Seq<char> {
        edge_line(i as nat, c as nat)
    }

    /// The edge lines from slot `i` to its first `k` children.
    pub open spec fn edges_text(self, i: int, k: int) -> Seq<char>
        decreases k,
    {
        if k <= 0 {
            Seq::empty()
        } else {
            self.edges_text(i, k - 1) + self.edge_text(i, self.children(i)[k - 1] as int)
        }
    }

    /// The lines for the first `n` slots: each slot's node line, then its
    /// edge lines.
    pub open spec fn slots_text(self, n: int) -> Seq<char>
        decreases n,
    {
        if n <= 0 {
            Seq::empty()
        } else {
            self.slots_text(n - 1) + self.node_text(n - 1) + self.edges_text(
                n - 1,
                self.children(n - 1).len() as int,
            )
        }
    }

    /// The whole graph description.
    pub open spec fn dot_text(self, vertical: bool) -> Seq<char> {
        header_text(vertical) + self.slots_text(self.len()) + "}\n"@
    }
}

/// Appends the node line of slot `i`.
fn push_node_line(out: &mut String, i: usize, b: &BoundingBox, group: bool)
    ensures
        final(out)@ == old(out)@ + node_line(i as nat, *b, group),
{
    out.append("a");
    push_decimal(out, i as u64);
    out.append(" [label=\"#");
    push_decimal(out, i as u64);
    out.append(" ");
    push_box(out, b);
    out.append("\" shape=rect ");
    out.append(
        if group {
            "style=filled fillcolor=\"#ffff7f\""
        } else {
            "style=filled fillcolor=\"#7fff7f\""
        },
    );
    out.append("];\n");
    proof {
        assert(out@ =~= old(out)@ + node_line(i as nat, *b, group));
    }
}

/// Appends the line for the edge from slot `i` to slot `c`.
fn push_edge_line(out: &mut String, i: usize, c: usize)
    ensures
        final(out)@ == old(out)@ + edge_line(i as nat, c as nat),
{
    out.append("a");
    push_decimal(out, i as u64);
    out.append(" -> a");
    push_decimal(out, c as u64);
    out.append(";\n");
    proof {
        assert(out@ =~= old(out)@ + edge_line(i as nat, c as nat));
    }
}

impl<T> RTree<T> {
    /// Appends the node line of slot `i` and the edge lines to its
    /// children.
    fn push_slot(&self, out: &mut String, i: usize)
        requires
            i < self@.len(),
        ensures
            final(out)@ == old(out)@ + self@.node_text(i as int) + self@.edges_text(
                i as int,
                self@.children(i as int).len() as int,
            ),
    {
        let ghost tv = self@;
        let node = &self.nodes[i];
        push_node_line(out, i, &node.bb, matches!(node.node, RTreeNode::Node(_)));
        match &node.node {
            RTreeNode::Node(children) => {
                let mut k: usize = 0;
                assert(out@ =~= old(out)@ + tv.node_text(i as int) + tv.edges_text(i as int, 0));
                while k < children.len()
                    invariant
                        tv == self@,
                        i < tv.len(),
                        k <= children.len(),
                        children@ == tv.children(i as int),
                        out@ == old(out)@ + tv.node_text(i as int) + tv.edges_text(
                            i as int,
                            k as int,
                        ),
                    decreases children.len() - k,
                {
                    let ghost prior = out@;
                    push_edge_line(out, i, children[k]);
                    proof {
                        let head = old(out)@ + tv.node_text(i as int);
                        let done = tv.edges_text(i as int, k as int);
                        let line = tv.edge_text(i as int, children@[k as int] as int);
                        assert(tv.edges_text(i as int, k + 1) == done + line);
                        assert((head + done) + line =~= head + (done + line));
                    }
                    k += 1;
                }
            },
            RTreeNode::Leaf(_) => {
                assert(tv.children(i as int).len() == 0);
                assert(out@ =~= old(out)@ + tv.node_text(i as int) + tv.edges_text(i as int, 0));
            },
        }
    }

    /// The tree as a graph in the DOT language: one node per slot, in slot
    /// order, each followed by the edges to its children. Ranks run from top
    /// to bottom if `vertical`, else from left to right.
    pub fn dot(&self, vertical: bool) -> (out: String)
        ensures
            out@ == self@.dot_text(vertical),
    {
        let ghost tv = self@;
        let mut out = String::from_str("digraph G {\nrankdir=\"");
        out.append(if vertical { "TB" } else { "LR" });
        out.append("\";\n            newrank=true;\n");
        assert(out@ =~= header_text(vertical) + tv.slots_text(0));
        let mut i: usize = 0;
        while i < self.nodes.len()
            invariant
                tv == self@,
                i <= self.nodes.len(),
                self.nodes.len() == tv.len(),
                out@ == header_text(vertical) + tv.slots_text(i as int),
            decreases self.nodes.len() - i,
        {
            self.push_slot(&mut out, i);
            proof {
                let head = header_text(vertical);
                let done = tv.slots_text(i as int);
                let node = tv.node_text(i as int);
                let edges = tv.edges_text(i as int, tv.children(i as int).len() as int);
                assert(tv.slots_text(i + 1) == done + node + edges);
                assert(((head + done) + node) + edges =~= head + ((done + node) + edges));
            }
            i += 1;
        }
        out.append("}\n");
        out
    }
}

} // verus!
