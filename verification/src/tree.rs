//! The decision tree: an arena of nodes, and prediction by traversal.

use vstd::prelude::*;

use crate::binning::{bin_code, lemma_bin_code_threshold, BinnedView};
use crate::errors::ForustError;
use crate::fixed::LEAF_LIMIT;

verus! {

/// A node of a tree.  Children are named by their index in the arena.
#[derive(Clone, Copy, Debug, PartialEq, Eq, Structural)]
pub enum Node {
    /// Rows whose value of `feature` is at most `threshold` (bin code at most
    /// `bin`) go to `left`, the others to `right`.
    Split {
        feature: usize,
        bin: u16,
        threshold: i64,
        left: usize,
        right: usize,
        gain: i128,
        depth: usize,
    },
    /// A leaf with its output and the hessian sum of the rows that reached it.
    Leaf { value: i128, weight: i128, depth: usize },
}

/// The leaf output reached from node `i` by a row of raw feature values.
pub open spec fn walk(nodes: Seq<Node>, row: Seq<i64>, i: int) -> int
    decreases nodes.len() - i,
{
    if 0 <= i < nodes.len() {
        match nodes[i] {
            Node::Leaf { value, .. } => value as int,
            Node::Split { feature, threshold, left, right, .. } => {
                let next = if row[feature as int] <= threshold {
                    left as int
                } else {
                    right as int
                };
                if i < next < nodes.len() {
                    walk(nodes, row, next)
                } else {
                    0
                }
            },
        }
    } else {
        0
    }
}

/// The output of a tree for a row of raw feature values.
pub open spec fn tree_output(nodes: Seq<Node>, row: Seq<i64>) -> int {
    walk(nodes, row, 0)
}

/// Whether node `i` is a child of node `p`.
pub open spec fn is_child(nodes: Seq<Node>, p: int, i: int) -> bool {
    match nodes[p] {
        Node::Split { left, right, .. } => left == i || right == i,
        Node::Leaf { .. } => false,
    }
}

/// Whether some earlier node has node `i` as a child.
pub open spec fn has_parent(nodes: Seq<Node>, i: int) -> bool {
    exists|p: int| 0 <= p < i && #[trigger] is_child(nodes, p, i)
}

/// Whether node `i` is sound: a split reads an existing feature and points
/// to later nodes of the arena; a leaf output is within its limit.
pub open spec fn node_ok(nodes: Seq<Node>, cols: int, i: int) -> bool {
    match nodes[i] {
        Node::Split { feature, left, right, .. } => {
            &&& feature < cols
            &&& i < left < nodes.len()
            &&& i < right < nodes.len()
        },
        Node::Leaf { value, .. } => -LEAF_LIMIT <= value <= LEAF_LIMIT,
    }
}

/// The invariant of a tree over `cols` features: the arena is not empty,
/// every node is sound, and every node but the root is the child of an
/// earlier node, so that every node is reached from the root.
pub open spec fn tree_wf(nodes: Seq<Node>, cols: int) -> bool {
    &&& nodes.len() >= 1
    &&& forall|i: int| 0 <= i < nodes.len() ==> #[trigger] node_ok(nodes, cols, i)
    &&& forall|i: int| 1 <= i < nodes.len() ==> #[trigger] has_parent(nodes, i)
}

/// The output of a sound tree is within the limit of leaf outputs.
pub proof fn lemma_walk_bound(nodes: Seq<Node>, cols: int, row: Seq<i64>, i: int)
    requires
        tree_wf(nodes, cols),
    ensures
        -LEAF_LIMIT <= walk(nodes, row, i) <= LEAF_LIMIT,
    decreases nodes.len() - i,
{
    if 0 <= i < nodes.len() {
        assert(node_ok(nodes, cols, i));
        match nodes[i] {
            Node::Leaf { .. } => {},
            Node::Split { feature, threshold, left, right, .. } => {
                let next = if row[feature as int] <= threshold {
                    left as int
                } else {
                    right as int
                };
                lemma_walk_bound(nodes, cols, row, next);
            },
        }
    }
}

/// Whether node `i` is reached from the root by following children.
pub open spec fn reachable(nodes: Seq<Node>, i: int) -> bool
    decreases i,
{
    i == 0 || (i > 0 && exists|p: int|
        0 <= p < i && #[trigger] is_child(nodes, p, i) && reachable(nodes, p))
}

/// Every node of a sound tree, and so every leaf, is reached from the root.
pub proof fn lemma_all_reachable(nodes: Seq<Node>, cols: int, i: int)
    requires
        tree_wf(nodes, cols),
        0 <= i < nodes.len(),
    ensures
        reachable(nodes, i),
    decreases i,
{
    if i > 0 {
        assert(has_parent(nodes, i));
        let p = choose|p: int| 0 <= p < i && #[trigger] is_child(nodes, p, i);
        lemma_all_reachable(nodes, cols, p);
    }
}

/// The leaf output reached from node `i` by a row of bin codes.
pub open spec fn walk_codes(nodes: Seq<Node>, codes: Seq<int>, i: int) -> int
    decreases nodes.len() - i,
{
    if 0 <= i < nodes.len() {
        match nodes[i] {
            Node::Leaf { value, .. } => value as int,
            Node::Split { feature, bin, left, right, .. } => {
                let next = if codes[feature as int] <= bin {
                    left as int
                } else {
                    right as int
                };
                if i < next < nodes.len() {
                    walk_codes(nodes, codes, next)
                } else {
                    0
                }
            },
        }
    } else {
        0
    }
}

/// Whether every split of the arena cuts its feature at the cut point that
/// closes its bin.
pub open spec fn thresholds_ok(nodes: Seq<Node>, data: BinnedView) -> bool {
    forall|i: int|
        0 <= i < nodes.len() ==> match #[trigger] nodes[i] {
            Node::Split { feature, bin, threshold, .. } => {
                &&& feature < data.cols
                &&& bin < data.cuts[feature as int].len()
                &&& threshold == data.cuts[feature as int][bin as int]
            },
            Node::Leaf { .. } => true,
        }
}

/// The bin codes of a row of raw feature values.
pub open spec fn codes_of(data: BinnedView, row: Seq<i64>) -> Seq<int> {
    Seq::new(data.cols, |f: int| bin_code(data.cuts[f], row[f]))
}

/// A tree whose thresholds are the cut points of its bins sends every row
/// of raw values the way that the row's bin codes go: prediction on raw
/// values agrees with the binned data that the tree was grown on.
pub proof fn lemma_walk_agrees(nodes: Seq<Node>, data: BinnedView, row: Seq<i64>, i: int)
    requires
        data.wf(),
        thresholds_ok(nodes, data),
        row.len() == data.cols,
    ensures
        walk(nodes, row, i) == walk_codes(nodes, codes_of(data, row), i),
    decreases nodes.len() - i,
{
    if 0 <= i < nodes.len() {
        match nodes[i] {
            Node::Leaf { .. } => {},
            Node::Split { feature, bin, threshold, left, right, .. } => {
                let f = feature as int;
                assert(data.nunique[f] == data.cuts[f].len() + 1);
                lemma_bin_code_threshold(data.cuts[f], row[f], bin as int);
                let next = if row[f] <= threshold {
                    left as int
                } else {
                    right as int
                };
                if i < next < nodes.len() {
                    lemma_walk_agrees(nodes, data, row, next);
                }
            },
        }
    }
}

/// A fitted decision tree over a fixed number of features.
pub struct Tree {
    pub(crate) nodes: Vec<Node>,
    pub(crate) cols: usize,
}

impl Tree {
    /// The arena of nodes; node 0 is the root.
    pub open(crate) spec fn view(&self) -> Seq<Node> {
        self.nodes@
    }

    /// The number of features of the rows that the tree reads.
    pub open(crate) spec fn spec_cols(&self) -> int {
        self.cols as int
    }

    /// The arena is a sound tree.
    #[verifier::type_invariant]
    pub open(crate) spec fn inv(&self) -> bool {
        tree_wf(self@, self.spec_cols())
    }

    /// The arena of nodes; node 0 is the root.
    pub fn nodes(&self) -> (nodes: &Vec<Node>)
        ensures
            nodes@ == self@,
            tree_wf(self@, self.spec_cols()),
    {
        proof {
            use_type_invariant(self);
        }
        &self.nodes
    }

    /// The number of features of the rows that the tree reads.
    pub fn cols(&self) -> (cols: usize)
        ensures
            cols == self.spec_cols(),
    {
        self.cols
    }

    /// The output of the tree for a row that has one value per feature.
    pub fn output(&self, row: &[i64]) -> (out: i128)
        requires
            row@.len() == self.spec_cols(),
        ensures
            out == tree_output(self@, row@),
            -LEAF_LIMIT <= out <= LEAF_LIMIT,
    {
        proof {
            use_type_invariant(self);
            lemma_walk_bound(self@, self.spec_cols(), row@, 0);
        }
        let mut i: usize = 0;
        loop
            invariant
                tree_wf(self@, self.spec_cols()),
                row@.len() == self.spec_cols(),
                i < self.nodes@.len(),
                walk(self@, row@, i as int) == tree_output(self@, row@),
            decreases self.nodes@.len() - i,
        {
            assert(node_ok(self@, self.spec_cols(), i as int));
            match self.nodes[i] {
                Node::Leaf { value, .. } => {
                    return value;
                },
                Node::Split { feature, threshold, left, right, .. } => {
                    if row[feature] <= threshold {
                        i = left;
                    } else {
                        i = right;
                    }
                },
            }
        }
    }

    /// The output of the tree for `row`, or `ShapeError` where the row does
    /// not have one value per feature.
    pub fn predict_row(&self, row: &[i64]) -> (out: Result<i128, ForustError>)
        ensures
            row@.len() != self.spec_cols() ==> out == Err::<i128, ForustError>(
                ForustError::ShapeError,
            ),
            row@.len() == self.spec_cols() ==> out == Ok::<i128, ForustError>(
                tree_output(self@, row@) as i128,
            ) && -LEAF_LIMIT <= tree_output(self@, row@) <= LEAF_LIMIT,
    {
        if row.len() != self.cols {
            Err(ForustError::ShapeError)
        } else {
            Ok(self.output(row))
        }
    }
}

} // verus!
