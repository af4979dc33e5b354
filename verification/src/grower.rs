//! Tree growth: a frontier of splittable leaves, expanded one split at a
//! time until no leaf can be split or the leaf budget is spent.

use vstd::prelude::*;

use crate::binning::BinnedData;
use crate::errors::ForustError;
use crate::fixed::{div_trunc, values_within, LEAF_LIMIT, LIMIT, SCALE};
use crate::splitter::{
    leaf_weight, score, split_gain, SplitInfo, SplitInput, Splitter, SCORE_LIMIT, SUM_LIMIT,
};
use crate::tree::{has_parent, is_child, node_ok, thresholds_ok, tree_wf, Node, Tree};

verus! {

/// A leaf that can be split: its node, its depth, the rows that reached it
/// and its best split.
pub struct Candidate {
    pub node: int,
    pub depth: int,
    pub rows: Seq<usize>,
    pub split: SplitInfo,
}

/// A tree under construction: the arena so far, the leaves that can still be
/// split, and the number of leaves.
pub struct GrowthState {
    pub nodes: Seq<Node>,
    pub frontier: Seq<Candidate>,
    pub leaves: int,
}

/// Everything that tree growth reads, as mathematical values.
pub struct GrowInput {
    pub split: SplitInput,
    /// No node at this depth is split; the root has depth 0.
    pub max_depth: int,
    /// No split is made once the tree has this many leaves.
    pub max_leaves: int,
    /// Whether the leaf of largest gain is split first, rather than the oldest.
    pub best_first: bool,
}

/// The index of the largest gain among the first `k` candidates, the first
/// such index among equals.
pub open spec fn first_max(frontier: Seq<Candidate>, k: int) -> int
    decreases k,
{
    if k <= 1 {
        0
    } else {
        let m = first_max(frontier, k - 1);
        if frontier[k - 1].split.gain > frontier[m].split.gain {
            k - 1
        } else {
            m
        }
    }
}

/// The number of splits that the candidates can still lead to, at most:
/// each candidate with `m` rows counts `m - 1`.
pub open spec fn potential(frontier: Seq<Candidate>) -> int
    decreases frontier.len(),
{
    if frontier.len() == 0 {
        0
    } else {
        potential(frontier.drop_last()) + frontier.last().rows.len() - 1
    }
}

/// The index of the largest gain lies among the candidates.
proof fn lemma_first_max_range(frontier: Seq<Candidate>, k: int)
    requires
        1 <= k,
    ensures
        0 <= first_max(frontier, k) < k,
    decreases k,
{
    if k > 1 {
        lemma_first_max_range(frontier, k - 1);
    }
}

/// A candidate with `m` rows adds `m - 1` to the potential.
proof fn lemma_potential_push(frontier: Seq<Candidate>, c: Candidate)
    ensures
        potential(frontier.push(c)) == potential(frontier) + c.rows.len() - 1,
{
    assert(frontier.push(c).drop_last() =~= frontier);
}

/// Taking out a candidate with `m` rows takes `m - 1` off the potential.
proof fn lemma_potential_remove(frontier: Seq<Candidate>, i: int)
    requires
        0 <= i < frontier.len(),
    ensures
        potential(frontier.remove(i)) == potential(frontier) - (frontier[i].rows.len() - 1),
    decreases frontier.len(),
{
    if i == frontier.len() - 1 {
        assert(frontier.remove(i) =~= frontier.drop_last());
    } else {
        lemma_potential_remove(frontier.drop_last(), i);
        assert(frontier.remove(i).drop_last() =~= frontier.drop_last().remove(i));
        assert(frontier.remove(i).last() == frontier.last());
    }
}

/// Candidates of two rows or more have a potential of one each, at least.
proof fn lemma_potential_lower(frontier: Seq<Candidate>)
    requires
        forall|j: int| 0 <= j < frontier.len() ==> (#[trigger] frontier[j]).rows.len() >= 2,
    ensures
        potential(frontier) >= frontier.len(),
    decreases frontier.len(),
{
    if frontier.len() > 0 {
        assert forall|j: int| 0 <= j < frontier.drop_last().len() implies (
        #[trigger] frontier.drop_last()[j]).rows.len() >= 2 by {
            assert(frontier.drop_last()[j] == frontier[j]);
        }
        lemma_potential_lower(frontier.drop_last());
    }
}

impl SplitInput {
    /// Those of the first `k` rows of `rows` whose code for feature `f` lies
    /// in `lo..=hi`, in their order.
    pub open spec fn rows_in_range(self, rows: Seq<usize>, f: int, lo: int, hi: int, k: int) -> Seq<
        usize,
    >
        decreases k,
    {
        if k <= 0 {
            Seq::empty()
        } else {
            let p = self.rows_in_range(rows, f, lo, hi, k - 1);
            if lo <= self.data.code(rows[k - 1] as int, f) <= hi {
                p.push(rows[k - 1])
            } else {
                p
            }
        }
    }

    /// The rows that go left under split `s`.
    pub open spec fn left_rows(self, rows: Seq<usize>, s: SplitInfo) -> Seq<usize> {
        self.rows_in_range(rows, s.feature as int, 0, s.bin as int, rows.len() as int)
    }

    /// The rows that go right under split `s`.
    pub open spec fn right_rows(self, rows: Seq<usize>, s: SplitInfo) -> Seq<usize> {
        self.rows_in_range(rows, s.feature as int, s.bin + 1, 65535, rows.len() as int)
    }

    /// A sum over rows reads only the rows it counts.
    proof fn lemma_total_prefix(self, vals: Seq<i64>, a: Seq<usize>, b: Seq<usize>, k: int)
        requires
            forall|j: int| 0 <= j < k ==> a[j] == b[j],
        ensures
            self.total(vals, a, k) == self.total(vals, b, k),
        decreases k,
    {
        if k > 0 {
            self.lemma_total_prefix(vals, a, b, k - 1);
        }
    }

    /// The selected rows are rows of the matrix, no more than were offered,
    /// and their sum is the range sum.
    proof fn lemma_rows_in_range(
        self,
        vals: Seq<i64>,
        rows: Seq<usize>,
        f: int,
        lo: int,
        hi: int,
        k: int,
    )
        requires
            self.rows_ok(rows),
            0 <= k <= rows.len(),
        ensures
            self.rows_in_range(rows, f, lo, hi, k).len() <= k,
            self.rows_ok(self.rows_in_range(rows, f, lo, hi, k)),
            self.total(
                vals,
                self.rows_in_range(rows, f, lo, hi, k),
                self.rows_in_range(rows, f, lo, hi, k).len() as int,
            ) == self.range_sum(vals, rows, f, lo, hi, k),
        decreases k,
    {
        if k > 0 {
            self.lemma_rows_in_range(vals, rows, f, lo, hi, k - 1);
            let p = self.rows_in_range(rows, f, lo, hi, k - 1);
            let q = self.rows_in_range(rows, f, lo, hi, k);
            if lo <= self.data.code(rows[k - 1] as int, f) <= hi {
                assert(q == p.push(rows[k - 1]));
                self.lemma_total_prefix(vals, q, p, p.len() as int);
                assert(q[q.len() - 1] == rows[k - 1]);
            }
        }
    }

    /// The two sides of a cut share out the rows.
    proof fn lemma_partition_len(self, rows: Seq<usize>, f: int, b: int, k: int)
        requires
            -1 <= b <= 65535,
        ensures
            self.rows_in_range(rows, f, 0, b, k).len() + self.rows_in_range(
                rows,
                f,
                b + 1,
                65535,
                k,
            ).len() == if k <= 0 {
                0
            } else {
                k
            },
        decreases k,
    {
        if k > 0 {
            self.lemma_partition_len(rows, f, b, k - 1);
        }
    }

    /// The structure score is between zero and `SCORE_LIMIT`.
    proof fn lemma_score_bound(g: int, h: int, l2: int)
        requires
            -SUM_LIMIT <= g <= SUM_LIMIT,
            0 <= h,
            0 <= l2,
        ensures
            0 <= score(g, h, l2) <= SCORE_LIMIT,
            g == 0 ==> score(g, h, l2) == 0,
    {
        assert(0 <= g * g <= 21_267_647_932_558_653_966_460_912_964_485_513_216) by (nonlinear_arith)
            requires
                -4_611_686_018_427_387_904 <= g <= 4_611_686_018_427_387_904,
        ;
        if h + l2 > 0 {
            vstd::arithmetic::div_mod::lemma_div_pos_is_pos(g * g, h + l2);
            vstd::arithmetic::div_mod::lemma_div_is_ordered_by_denominator(g * g, 1, h + l2);
            if g == 0 {
                assert(g * g == 0);
                vstd::arithmetic::div_mod::lemma_div_basics(h + l2);
            }
        }
    }

    /// An admissible cut leaves rows on both sides.
    pub proof fn lemma_candidate_sides(self, rows: Seq<usize>, f: int, b: int)
        requires
            self.wf(),
            self.rows_ok(rows),
            self.is_candidate(rows, f, b),
        ensures
            self.rows_in_range(rows, f, 0, b, rows.len() as int).len() >= 1,
            self.rows_in_range(rows, f, b + 1, 65535, rows.len() as int).len() >= 1,
            self.rows_in_range(rows, f, 0, b, rows.len() as int).len() + self.rows_in_range(
                rows,
                f,
                b + 1,
                65535,
                rows.len() as int,
            ).len() == rows.len(),
            rows.len() >= 2,
    {
        let n = rows.len() as int;
        let left = self.rows_in_range(rows, f, 0, b, n);
        let right = self.rows_in_range(rows, f, b + 1, 65535, n);
        self.lemma_partition_len(rows, f, b, n);
        self.lemma_side_bounds(rows, f, b);
        self.lemma_rows_in_range(self.grad, rows, f, 0, b, n);
        self.lemma_rows_in_range(self.hess, rows, f, 0, b, n);
        self.lemma_rows_in_range(self.grad, rows, f, b + 1, 65535, n);
        self.lemma_rows_in_range(self.hess, rows, f, b + 1, 65535, n);
        let g = self.node_grad(rows);
        let h = self.node_hess(rows);
        let gl = self.left_grad(rows, f, b);
        let hl = self.left_hess(rows, f, b);
        Self::lemma_score_bound(g, h, self.l2);
        Self::lemma_score_bound(gl, hl, self.l2);
        Self::lemma_score_bound(g - gl, h - hl, self.l2);
        if left.len() == 0 {
            assert(gl == 0 && hl == 0);
            assert(self.gain_at(rows, f, b) <= 0);
        }
        if right.len() == 0 {
            assert(g - gl == 0 && h - hl == 0);
            assert(self.gain_at(rows, f, b) <= 0);
        }
    }

    /// The record of an admissible cut holds its gain and sums unchanged.
    proof fn lemma_split_info_records(self, rows: Seq<usize>, f: int, b: int)
        requires
            self.wf(),
            self.rows_ok(rows),
            self.is_candidate(rows, f, b),
        ensures
            self.split_info(rows, f, b).feature == f,
            self.split_info(rows, f, b).bin == b,
            self.records(rows, self.split_info(rows, f, b)),
    {
        self.lemma_side_bounds(rows, f, b);
        let g = self.node_grad(rows);
        let h = self.node_hess(rows);
        let gl = self.left_grad(rows, f, b);
        let hl = self.left_hess(rows, f, b);
        Self::lemma_score_bound(g, h, self.l2);
        Self::lemma_score_bound(gl, hl, self.l2);
        Self::lemma_score_bound(g - gl, h - hl, self.l2);
    }

    /// What the best split of a node is, where it has one.
    proof fn lemma_best_split_some(self, rows: Seq<usize>)
        requires
            self.wf(),
            self.rows_ok(rows),
            self.best_split(rows) is Some,
        ensures
            self.is_candidate(
                rows,
                self.best_split(rows)->0.feature as int,
                self.best_split(rows)->0.bin as int,
            ),
            self.records(rows, self.best_split(rows)->0),
    {
        let (f, b) = choose|f: int, b: int| self.is_best(rows, f, b);
        self.lemma_split_info_records(rows, f, b);
    }
}

impl GrowInput {
    /// The search input is well formed and the matrix has a row.
    pub open spec fn wf(self) -> bool {
        &&& self.split.wf()
        &&& self.split.data.rows >= 1
        &&& 0 <= self.max_depth <= usize::MAX
        &&& 0 <= self.max_leaves
    }

    /// A leaf at `depth` for rows with gradient sum `g` and hessian sum `h`.
    pub open spec fn leaf(self, g: int, h: int, depth: int) -> Node {
        Node::Leaf {
            value: leaf_weight(g, h, self.split.l2) as i128,
            weight: h as i128,
            depth: depth as usize,
        }
    }

    /// The candidate that a new leaf gives rise to: none at the depth limit
    /// or where no cut is admissible.
    pub open spec fn candidates(self, node: int, depth: int, rows: Seq<usize>) -> Seq<Candidate> {
        if depth < self.max_depth {
            match self.split.best_split(rows) {
                Some(s) => seq![Candidate { node, depth, rows, split: s }],
                None => Seq::empty(),
            }
        } else {
            Seq::empty()
        }
    }

    /// All rows of the matrix, in order.
    pub open spec fn all_rows(self) -> Seq<usize> {
        Seq::new(self.split.data.rows, |i: int| i as usize)
    }

    /// The tree before any split: the root as a leaf over all rows.
    pub open spec fn initial(self) -> GrowthState {
        let rows = self.all_rows();
        GrowthState {
            nodes: seq![
                self.leaf(self.split.node_grad(rows), self.split.node_hess(rows), 0),
            ],
            frontier: self.candidates(0, 0, rows),
            leaves: 1,
        }
    }

    /// The candidate to split next: the one of largest gain, or the oldest.
    pub open spec fn pick(self, frontier: Seq<Candidate>) -> int {
        if self.best_first {
            first_max(frontier, frontier.len() as int)
        } else {
            0
        }
    }

    /// The split node that candidate `c` becomes.
    pub open spec fn split_node(self, c: Candidate, left: int) -> Node {
        Node::Split {
            feature: c.split.feature,
            bin: c.split.bin,
            threshold: self.split.data.cuts[c.split.feature as int][c.split.bin as int],
            left: left as usize,
            right: (left + 1) as usize,
            gain: c.split.gain,
            depth: c.depth as usize,
        }
    }

    /// One split: the picked candidate becomes a split node, its two
    /// children are appended as leaves, and each child that can be split
    /// joins the frontier.
    pub open spec fn expand(self, st: GrowthState) -> GrowthState {
        let i = self.pick(st.frontier);
        let c = st.frontier[i];
        let s = c.split;
        let left = st.nodes.len() as int;
        GrowthState {
            nodes: st.nodes.update(c.node, self.split_node(c, left)).push(
                self.leaf(s.left_grad as int, s.left_hess as int, c.depth + 1),
            ).push(self.leaf(s.right_grad as int, s.right_hess as int, c.depth + 1)),
            frontier: st.frontier.remove(i) + self.candidates(
                left,
                c.depth + 1,
                self.split.left_rows(c.rows, s),
            ) + self.candidates(left + 1, c.depth + 1, self.split.right_rows(c.rows, s)),
            leaves: st.leaves + 1,
        }
    }

    /// Growth from `st`: splits are made while a candidate is left and the
    /// leaf budget allows, at most `fuel` of them.
    pub open spec fn grow(self, st: GrowthState, fuel: nat) -> GrowthState
        decreases fuel,
    {
        if fuel == 0 || st.frontier.len() == 0 || st.leaves >= self.max_leaves {
            st
        } else {
            self.grow(self.expand(st), (fuel - 1) as nat)
        }
    }

    /// The grown tree.  A tree over `n` rows has fewer than `n` splits, so
    /// growth never stops for want of fuel.
    pub open spec fn grown(self) -> Seq<Node> {
        self.grow(self.initial(), self.split.data.rows).nodes
    }

    /// Whether a candidate is sound: its node is a leaf of the arena, it is
    /// above the depth limit, and its split is an admissible cut of its rows.
    pub open spec fn candidate_ok(self, nodes: Seq<Node>, c: Candidate) -> bool {
        &&& 0 <= c.node < nodes.len()
        &&& nodes[c.node] is Leaf
        &&& 0 <= c.depth < self.max_depth
        &&& self.split.rows_ok(c.rows)
        &&& c.rows.len() >= 2
        &&& self.split.is_candidate(c.rows, c.split.feature as int, c.split.bin as int)
        &&& self.split.records(c.rows, c.split)
    }

    /// The invariant of growth.
    pub open spec fn state_ok(self, st: GrowthState, fuel: nat) -> bool {
        &&& tree_wf(st.nodes, self.split.data.cols as int)
        &&& thresholds_ok(st.nodes, self.split.data)
        &&& forall|j: int|
            0 <= j < st.frontier.len() ==> self.candidate_ok(st.nodes, #[trigger] st.frontier[j])
        &&& forall|j: int, k: int|
            0 <= j < k < st.frontier.len() ==> (#[trigger] st.frontier[j]).node != (
            #[trigger] st.frontier[k]).node
        &&& potential(st.frontier) + 1 <= fuel
        &&& st.nodes.len() + 2 * potential(st.frontier) <= 2 * self.split.data.rows
        &&& 1 <= st.leaves
    }

    /// A leaf made from sums within their limits has an output within its limit.
    proof fn lemma_leaf_ok(self, g: int, h: int, depth: int)
        requires
            self.wf(),
            -SUM_LIMIT <= g <= SUM_LIMIT,
            0 <= h <= SUM_LIMIT,
        ensures
            -LEAF_LIMIT <= leaf_weight(g, h, self.split.l2) <= LEAF_LIMIT,
            self.leaf(g, h, depth) is Leaf,
            self.leaf(g, h, depth)->value == leaf_weight(g, h, self.split.l2),
    {
        assert(-4_611_686_018_427_387_904_000_000 <= -(g * SCALE) <= 4_611_686_018_427_387_904_000_000)
            by (nonlinear_arith)
            requires
                -4_611_686_018_427_387_904 <= g <= 4_611_686_018_427_387_904,
                SCALE == 1_000_000,
        ;
        if h + self.split.l2 > 0 {
            crate::fixed::lemma_div_trunc_bound(-(g * SCALE), h + self.split.l2);
        }
    }

    /// A new leaf's candidate, where there is one, is sound.
    proof fn lemma_candidates_ok(self, nodes: Seq<Node>, node: int, depth: int, rows: Seq<usize>)
        requires
            self.wf(),
            self.split.rows_ok(rows),
            0 <= node < nodes.len(),
            nodes[node] is Leaf,
            0 <= depth,
        ensures
            self.candidates(node, depth, rows).len() <= 1,
            forall|j: int|
                0 <= j < self.candidates(node, depth, rows).len() ==> {
                    &&& self.candidate_ok(nodes, #[trigger] self.candidates(node, depth, rows)[j])
                    &&& self.candidates(node, depth, rows)[j].node == node
                    &&& self.candidates(node, depth, rows)[j].rows == rows
                },
    {
        if depth < self.max_depth && self.split.best_split(rows) is Some {
            self.split.lemma_best_split_some(rows);
            let s = self.split.best_split(rows)->0;
            self.split.lemma_candidate_sides(rows, s.feature as int, s.bin as int);
        }
    }

    /// A split keeps the arena a sound tree.
    proof fn lemma_expand_nodes(self, st: GrowthState, fuel: nat)
        requires
            self.wf(),
            self.state_ok(st, fuel),
            st.frontier.len() > 0,
        ensures
            0 <= self.pick(st.frontier) < st.frontier.len(),
            tree_wf(self.expand(st).nodes, self.split.data.cols as int),
            thresholds_ok(self.expand(st).nodes, self.split.data),
            self.expand(st).nodes.len() == st.nodes.len() + 2,
            self.expand(st).nodes[st.nodes.len() as int] is Leaf,
            self.expand(st).nodes[st.nodes.len() as int + 1] is Leaf,
            forall|j: int|
                0 <= j < st.nodes.len() && j != st.frontier[self.pick(st.frontier)].node
                    ==> self.expand(st).nodes[j] == st.nodes[j],
    {
        let cols = self.split.data.cols as int;
        let i = self.pick(st.frontier);
        if self.best_first {
            lemma_first_max_range(st.frontier, st.frontier.len() as int);
        }
        let c = st.frontier[i];
        assert(self.candidate_ok(st.nodes, c));
        assert forall|j: int| 0 <= j < st.frontier.len() implies (#[trigger] st.frontier[j]).rows.len()
            >= 2 by {
            assert(self.candidate_ok(st.nodes, st.frontier[j]));
        }
        lemma_potential_lower(st.frontier);
        let s = c.split;
        let f = s.feature as int;
        let b = s.bin as int;
        self.split.lemma_side_bounds(c.rows, f, b);
        let left = st.nodes.len() as int;
        assert(left + 2 <= usize::MAX);
        let n1 = self.expand(st).nodes;
        self.lemma_leaf_ok(s.left_grad as int, s.left_hess as int, c.depth + 1);
        self.lemma_leaf_ok(s.right_grad as int, s.right_hess as int, c.depth + 1);
        assert(n1.len() == left + 2);
        assert(n1[c.node] == self.split_node(c, left));
        assert(n1[left] == self.leaf(s.left_grad as int, s.left_hess as int, c.depth + 1));
        assert(n1[left + 1] == self.leaf(s.right_grad as int, s.right_hess as int, c.depth + 1));
        assert forall|j: int| 0 <= j < n1.len() implies #[trigger] node_ok(n1, cols, j) by {
            if j < left && j != c.node {
                assert(n1[j] == st.nodes[j]);
                assert(node_ok(st.nodes, cols, j));
            }
        }
        assert forall|j: int| 0 <= j < n1.len() implies match #[trigger] n1[j] {
            Node::Split { feature, bin, threshold, .. } => {
                &&& feature < self.split.data.cols
                &&& bin < self.split.data.cuts[feature as int].len()
                &&& threshold == self.split.data.cuts[feature as int][bin as int]
            },
            Node::Leaf { .. } => true,
        } by {
            if j < left && j != c.node {
                assert(n1[j] == st.nodes[j]);
            } else if j == c.node {
                assert(self.split.data.nunique[f] == self.split.data.cuts[f].len() + 1);
            }
        }
        assert forall|j: int| 1 <= j < n1.len() implies #[trigger] has_parent(n1, j) by {
            if j < left {
                assert(has_parent(st.nodes, j));
                let p = choose|p: int| 0 <= p < j && #[trigger] is_child(st.nodes, p, j);
                assert(p != c.node);
                assert(n1[p] == st.nodes[p]);
                assert(is_child(n1, p, j));
            } else {
                assert(is_child(n1, c.node, j));
            }
        }
    }

    /// A split lowers the potential of the frontier.
    proof fn lemma_expand_potential(self, st: GrowthState, fuel: nat)
        requires
            self.wf(),
            self.state_ok(st, fuel),
            st.frontier.len() > 0,
        ensures
            potential(st.frontier) >= 1,
            potential(self.expand(st).frontier) <= potential(st.frontier) - 1,
    {
        self.lemma_expand_nodes(st, fuel);
        let i = self.pick(st.frontier);
        let c = st.frontier[i];
        assert(self.candidate_ok(st.nodes, c));
        let s = c.split;
        let f = s.feature as int;
        let b = s.bin as int;
        let m = c.rows.len() as int;
        let left = st.nodes.len() as int;
        let st1 = self.expand(st);
        let lrows = self.split.left_rows(c.rows, s);
        let rrows = self.split.right_rows(c.rows, s);
        self.split.lemma_candidate_sides(c.rows, f, b);
        self.split.lemma_rows_in_range(self.split.grad, c.rows, f, 0, b, m);
        self.split.lemma_rows_in_range(self.split.grad, c.rows, f, b + 1, 65535, m);
        let rem = st.frontier.remove(i);
        let cl = self.candidates(left, c.depth + 1, lrows);
        let cr = self.candidates(left + 1, c.depth + 1, rrows);
        self.lemma_candidates_ok(st1.nodes, left, c.depth + 1, lrows);
        self.lemma_candidates_ok(st1.nodes, left + 1, c.depth + 1, rrows);
        assert forall|j: int| 0 <= j < st.frontier.len() implies (#[trigger] st.frontier[j]).rows.len()
            >= 2 by {
            assert(self.candidate_ok(st.nodes, st.frontier[j]));
        }
        lemma_potential_lower(st.frontier);
        lemma_potential_remove(st.frontier, i);
        let mid = rem + cl;
        if cl.len() == 0 {
            assert(mid =~= rem);
        } else {
            assert(mid =~= rem.push(cl[0]));
            lemma_potential_push(rem, cl[0]);
        }
        if cr.len() == 0 {
            assert(mid + cr =~= mid);
        } else {
            assert(mid + cr =~= mid.push(cr[0]));
            lemma_potential_push(mid, cr[0]);
        }
    }

    /// After a split every candidate is sound, the old ones name old nodes
    /// and the new ones name the new leaves.
    proof fn lemma_expand_frontier(self, st: GrowthState, fuel: nat, j: int)
        requires
            self.wf(),
            self.state_ok(st, fuel),
            st.frontier.len() > 0,
            0 <= j < self.expand(st).frontier.len(),
        ensures
            self.candidate_ok(self.expand(st).nodes, self.expand(st).frontier[j]),
            j < st.frontier.len() - 1 ==> self.expand(st).frontier[j] == st.frontier[if j
                < self.pick(st.frontier) {
                j
            } else {
                j + 1
            }],
            j >= st.frontier.len() - 1 ==> self.expand(st).frontier[j].node >= st.nodes.len(),
            j > st.frontier.len() - 1 ==> self.expand(st).frontier[j].node == st.nodes.len() + 1,
    {
        self.lemma_expand_nodes(st, fuel);
        let i = self.pick(st.frontier);
        let c = st.frontier[i];
        assert(self.candidate_ok(st.nodes, c));
        let s = c.split;
        let f = s.feature as int;
        let b = s.bin as int;
        let m = c.rows.len() as int;
        let left = st.nodes.len() as int;
        let st1 = self.expand(st);
        let lrows = self.split.left_rows(c.rows, s);
        let rrows = self.split.right_rows(c.rows, s);
        self.split.lemma_rows_in_range(self.split.grad, c.rows, f, 0, b, m);
        self.split.lemma_rows_in_range(self.split.grad, c.rows, f, b + 1, 65535, m);
        let rem = st.frontier.remove(i);
        let cl = self.candidates(left, c.depth + 1, lrows);
        let cr = self.candidates(left + 1, c.depth + 1, rrows);
        self.lemma_candidates_ok(st1.nodes, left, c.depth + 1, lrows);
        self.lemma_candidates_ok(st1.nodes, left + 1, c.depth + 1, rrows);
        assert(st1.frontier == rem + cl + cr);
        assert(rem.len() == st.frontier.len() - 1);
        if j < rem.len() {
            let k = if j < i {
                j
            } else {
                j + 1
            };
            assert(st1.frontier[j] == st.frontier[k]);
            assert(self.candidate_ok(st.nodes, st.frontier[k]));
            assert(st.frontier[k].node != c.node);
        } else if j < rem.len() + cl.len() {
            assert(st1.frontier[j] == cl[j - rem.len()]);
        } else {
            assert(st1.frontier[j] == cr[j - rem.len() - cl.len()]);
        }
    }

    /// A split keeps the invariant and uses one unit of fuel.
    proof fn lemma_expand_ok(self, st: GrowthState, fuel: nat)
        requires
            self.wf(),
            self.state_ok(st, fuel),
            st.frontier.len() > 0,
        ensures
            fuel >= 1,
            self.state_ok(self.expand(st), (fuel - 1) as nat),
    {
        self.lemma_expand_nodes(st, fuel);
        self.lemma_expand_potential(st, fuel);
        let st1 = self.expand(st);
        let i = self.pick(st.frontier);
        assert(st1.nodes.len() == st.nodes.len() + 2);
        assert(st1.leaves == st.leaves + 1);
        assert forall|j: int| 0 <= j < st1.frontier.len() implies self.candidate_ok(
            st1.nodes,
            #[trigger] st1.frontier[j],
        ) by {
            self.lemma_expand_frontier(st, fuel, j);
        }
        assert forall|j: int, k: int| 0 <= j < k < st1.frontier.len() implies (
        #[trigger] st1.frontier[j]).node != (#[trigger] st1.frontier[k]).node by {
            self.lemma_expand_frontier(st, fuel, j);
            self.lemma_expand_frontier(st, fuel, k);
            if k < st.frontier.len() - 1 {
                let j0 = if j < i {
                    j
                } else {
                    j + 1
                };
                let k0 = if k < i {
                    k
                } else {
                    k + 1
                };
                assert(st.frontier[j0].node != st.frontier[k0].node);
            } else if j < st.frontier.len() - 1 {
                let j0 = if j < i {
                    j
                } else {
                    j + 1
                };
                assert(self.candidate_ok(st.nodes, st.frontier[j0]));
            }
        }
    }
}

/// What the growth of a tree reads, from what [`Tree::fit`] is given.
pub open spec fn grow_input(
    data: crate::binning::BinnedView,
    grad: Seq<i64>,
    hess: Seq<i64>,
    params: TreeParams,
) -> GrowInput {
    GrowInput {
        split: SplitInput {
            data,
            grad,
            hess,
            l2: params.l2 as int,
            gamma: params.gamma as int,
            min_leaf_weight: params.min_leaf_weight as int,
        },
        max_depth: params.max_depth as int,
        max_leaves: params.max_leaves as int,
        best_first: params.max_leaves < usize::MAX,
    }
}

/// The regularization and the shape limits of one tree.
#[derive(Clone, Copy, Debug)]
pub struct TreeParams {
    /// Added to every hessian sum in scores and leaf outputs.
    pub l2: i64,
    /// Subtracted from every gain.
    pub gamma: i64,
    /// The least hessian sum that a child may have.
    pub min_leaf_weight: i64,
    /// No node at this depth is split; the root has depth 0.
    pub max_depth: usize,
    /// No split is made once the tree has this many leaves.  `usize::MAX`
    /// means no budget, and then leaves are split oldest first; under a
    /// budget the leaf of largest gain is split first.
    pub max_leaves: usize,
}

/// A splittable leaf that awaits its turn.
pub struct Pending {
    pub node: usize,
    pub depth: usize,
    pub rows: Vec<usize>,
    pub split: SplitInfo,
}

impl Pending {
    /// The candidate that the entry holds.
    pub open spec fn view(&self) -> Candidate {
        Candidate {
            node: self.node as int,
            depth: self.depth as int,
            rows: self.rows@,
            split: self.split,
        }
    }
}

/// The candidates that a frontier holds.
pub open spec fn frontier_view(v: Seq<Pending>) -> Seq<Candidate> {
    Seq::new(v.len(), |j: int| v[j]@)
}

/// Computes the output of a leaf.
pub fn leaf_value(g: i128, h: i128, l2: i64) -> (v: i128)
    requires
        -SUM_LIMIT <= g <= SUM_LIMIT,
        0 <= h <= SUM_LIMIT,
        0 <= l2 <= LIMIT,
    ensures
        v == leaf_weight(g as int, h as int, l2 as int),
        -LEAF_LIMIT <= v <= LEAF_LIMIT,
{
    let d: i128 = h + l2 as i128;
    if d > 0 {
        proof {
            assert(-4_611_686_018_427_387_904_000_000 <= -((g as int) * SCALE)
                <= 4_611_686_018_427_387_904_000_000) by (nonlinear_arith)
                requires
                    -4_611_686_018_427_387_904 <= g as int <= 4_611_686_018_427_387_904,
                    SCALE == 1_000_000,
            ;
            crate::fixed::lemma_div_trunc_bound(-((g as int) * SCALE), d as int);
        }
        let num: i128 = -(g * 1_000_000);
        num / d
    } else {
        0
    }
}

/// Picks the candidate to split next.
pub fn pick_next(frontier: &Vec<Pending>, best_first: bool) -> (i: usize)
    requires
        frontier@.len() >= 1,
    ensures
        i < frontier@.len(),
        i == if best_first {
            first_max(frontier_view(frontier@), frontier@.len() as int)
        } else {
            0
        },
{
    if !best_first {
        return 0;
    }
    let mut m: usize = 0;
    let mut k: usize = 1;
    while k < frontier.len()
        invariant
            1 <= k <= frontier@.len(),
            m < k,
            m == first_max(frontier_view(frontier@), k as int),
        decreases frontier@.len() - k,
    {
        if frontier[k].split.gain > frontier[m].split.gain {
            m = k;
        }
        k += 1;
    }
    m
}

impl<'a> Splitter<'a> {
    /// The sum of `vals` over `rows`.
    pub fn sum_rows(&self, vals: &[i64], rows: &Vec<usize>) -> (s: i128)
        requires
            self@.rows_ok(rows@),
            vals@.len() == self@.data.rows,
            forall|r: int| 0 <= r < vals@.len() ==> -LIMIT <= #[trigger] vals@[r] <= LIMIT,
        ensures
            s == self@.total(vals@, rows@, rows@.len() as int),
    {
        let mut s: i128 = 0;
        let mut k: usize = 0;
        while k < rows.len()
            invariant
                self@.rows_ok(rows@),
                vals@.len() == self@.data.rows,
                forall|r: int| 0 <= r < vals@.len() ==> -LIMIT <= #[trigger] vals@[r] <= LIMIT,
                k <= rows@.len(),
                s == self@.total(vals@, rows@, k as int),
            decreases rows@.len() - k,
        {
            proof {
                self@.lemma_total_is_full_range(vals@, rows@, 0, k as int);
                self@.lemma_range_sum_bound(vals@, rows@, 0, 0, 65535, k as int);
                assert(k * LIMIT <= SUM_LIMIT) by (nonlinear_arith)
                    requires
                        0 <= k <= 4_194_304,
                        LIMIT == 1_099_511_627_776,
                        SUM_LIMIT == 4_611_686_018_427_387_904,
                ;
                assert(-k * LIMIT >= -SUM_LIMIT) by (nonlinear_arith)
                    requires
                        0 <= k <= 4_194_304,
                        LIMIT == 1_099_511_627_776,
                        SUM_LIMIT == 4_611_686_018_427_387_904,
                ;
            }
            s = s + vals[rows[k]] as i128;
            k += 1;
        }
        s
    }

    /// Shares out `rows` between the two sides of cutting feature `f` after bin `b`.
    pub fn partition(&self, rows: &Vec<usize>, f: usize, b: u16) -> (sides: (Vec<usize>, Vec<usize>))
        requires
            self@.data.wf(),
            self@.rows_ok(rows@),
            f < self@.data.cols,
        ensures
            sides.0@ == self@.rows_in_range(rows@, f as int, 0, b as int, rows@.len() as int),
            sides.1@ == self@.rows_in_range(rows@, f as int, b + 1, 65535, rows@.len() as int),
    {
        let mut left: Vec<usize> = Vec::new();
        let mut right: Vec<usize> = Vec::new();
        let mut k: usize = 0;
        while k < rows.len()
            invariant
                self@.data.wf(),
                self@.rows_ok(rows@),
                f < self@.data.cols,
                k <= rows@.len(),
                left@ == self@.rows_in_range(rows@, f as int, 0, b as int, k as int),
                right@ == self@.rows_in_range(rows@, f as int, b + 1, 65535, k as int),
            decreases rows@.len() - k,
        {
            let r: usize = rows[k];
            if self.binned.code(r, f) <= b {
                left.push(r);
            } else {
                right.push(r);
            }
            k += 1;
        }
        (left, right)
    }
}

/// Grows one tree from binned data, gradients and hessians.
pub fn grow_tree(splitter: &Splitter, max_depth: usize, max_leaves: usize) -> (tree: Tree)
    requires
        splitter@.wf(),
        splitter@.data.rows >= 1,
    ensures
        tree@ == (GrowInput {
            split: splitter@,
            max_depth: max_depth as int,
            max_leaves: max_leaves as int,
            best_first: max_leaves < usize::MAX,
        }).grown(),
        tree.spec_cols() == splitter@.data.cols,
{
    let ghost inp: GrowInput = GrowInput {
        split: splitter@,
        max_depth: max_depth as int,
        max_leaves: max_leaves as int,
        best_first: max_leaves < usize::MAX,
    };
    let best_first: bool = max_leaves < usize::MAX;
    let n: usize = splitter.binned.rows();
    let cols: usize = splitter.binned.cols();
    let mut rows: Vec<usize> = Vec::new();
    let mut r: usize = 0;
    while r < n
        invariant
            r <= n,
            rows@.len() == r,
            forall|j: int| 0 <= j < r ==> rows@[j] == j,
        decreases n - r,
    {
        rows.push(r);
        r += 1;
    }
    let ghost rows0: Seq<usize> = rows@;
    assert(rows0 =~= inp.all_rows());
    let g: i128 = splitter.sum_rows(splitter.grad, &rows);
    let h: i128 = splitter.sum_rows(splitter.hess, &rows);
    proof {
        inp.split.lemma_side_bounds(rows0, 0, 0);
        inp.lemma_leaf_ok(g as int, h as int, 0);
    }
    let mut nodes: Vec<Node> = Vec::new();
    nodes.push(Node::Leaf { value: leaf_value(g, h, splitter.l2), weight: h, depth: 0 });
    let mut frontier: Vec<Pending> = Vec::new();
    if 0 < max_depth {
        match splitter.best_split(&rows, g, h) {
            Some(s) => {
                frontier.push(Pending { node: 0, depth: 0, rows, split: s });
            },
            None => {},
        }
    }
    let mut leaves: usize = 1;
    let ghost mut fuel: nat = n as nat;
    let ghost mut st: GrowthState = inp.initial();
    proof {
        assert(nodes@ =~= st.nodes);
        assert(frontier_view(frontier@) =~= st.frontier);
        lemma_initial_ok(inp);
    }
    while frontier.len() > 0 && leaves < max_leaves
        invariant
            inp.wf(),
            inp.split == splitter@,
            inp.max_depth == max_depth,
            inp.max_leaves == max_leaves,
            inp.best_first == best_first,
            cols == inp.split.data.cols,
            n == inp.split.data.rows,
            st.nodes == nodes@,
            st.frontier == frontier_view(frontier@),
            st.leaves == leaves,
            inp.state_ok(st, fuel),
            inp.grow(st, fuel) == inp.grow(inp.initial(), n as nat),
        decreases fuel,
    {
        proof {
            inp.lemma_expand_ok(st, fuel);
            inp.lemma_expand_nodes(st, fuel);
        }
        let ghost old_frontier: Seq<Pending> = frontier@;
        let i: usize = pick_next(&frontier, best_first);
        let c: Pending = frontier.remove(i);
        let ghost cm: Candidate = c@;
        assert(cm == st.frontier[i as int]);
        assert(inp.candidate_ok(st.nodes, cm));
        let s: SplitInfo = c.split;
        proof {
            inp.split.lemma_side_bounds(cm.rows, s.feature as int, s.bin as int);
            inp.split.lemma_rows_in_range(
                inp.split.grad,
                cm.rows,
                s.feature as int,
                0,
                s.bin as int,
                cm.rows.len() as int,
            );
            inp.split.lemma_rows_in_range(
                inp.split.hess,
                cm.rows,
                s.feature as int,
                0,
                s.bin as int,
                cm.rows.len() as int,
            );
            inp.split.lemma_rows_in_range(
                inp.split.grad,
                cm.rows,
                s.feature as int,
                s.bin + 1,
                65535,
                cm.rows.len() as int,
            );
            inp.split.lemma_rows_in_range(
                inp.split.hess,
                cm.rows,
                s.feature as int,
                s.bin + 1,
                65535,
                cm.rows.len() as int,
            );
        }
        let sides: (Vec<usize>, Vec<usize>) = splitter.partition(&c.rows, s.feature, s.bin);
        let lrows: Vec<usize> = sides.0;
        let rrows: Vec<usize> = sides.1;
        let threshold: i64 = splitter.binned.cuts()[s.feature][s.bin as usize];
        let depth: usize = c.depth + 1;
        let left: usize = nodes.len();
        nodes.push(
            Node::Leaf {
                value: leaf_value(s.left_grad, s.left_hess, splitter.l2),
                weight: s.left_hess,
                depth,
            },
        );
        let right: usize = nodes.len();
        nodes.push(
            Node::Leaf {
                value: leaf_value(s.right_grad, s.right_hess, splitter.l2),
                weight: s.right_hess,
                depth,
            },
        );
        nodes.set(
            c.node,
            Node::Split {
                feature: s.feature,
                bin: s.bin,
                threshold,
                left,
                right,
                gain: s.gain,
                depth: c.depth,
            },
        );
        let ghost mid: Seq<Pending> = frontier@;
        if depth < max_depth {
            match splitter.best_split(&lrows, s.left_grad, s.left_hess) {
                Some(s2) => {
                    frontier.push(Pending { node: left, depth, rows: lrows, split: s2 });
                },
                None => {},
            }
            match splitter.best_split(&rrows, s.right_grad, s.right_hess) {
                Some(s2) => {
                    frontier.push(Pending { node: right, depth, rows: rrows, split: s2 });
                },
                None => {},
            }
        }
        leaves += 1;
        proof {
            let st1 = inp.expand(st);
            assert(inp.pick(st.frontier) == i);
            assert(frontier_view(mid) =~= st.frontier.remove(i as int));
            assert(nodes@ =~= st1.nodes);
            assert(frontier_view(frontier@) =~= st1.frontier);
            st = st1;
            fuel = (fuel - 1) as nat;
        }
    }
    Tree { nodes, cols }
}

/// The tree before any split satisfies the invariant of growth.
proof fn lemma_initial_ok(inp: GrowInput)
    requires
        inp.wf(),
    ensures
        inp.state_ok(inp.initial(), inp.split.data.rows),
{
    let st = inp.initial();
    let rows = inp.all_rows();
    let cols = inp.split.data.cols as int;
    assert(inp.split.rows_ok(rows));
    inp.split.lemma_side_bounds(rows, 0, 0);
    inp.lemma_leaf_ok(inp.split.node_grad(rows), inp.split.node_hess(rows), 0);
    inp.lemma_candidates_ok(st.nodes, 0, 0, rows);
    if st.frontier.len() > 0 {
        assert(st.frontier =~= Seq::<Candidate>::empty().push(st.frontier[0]));
        lemma_potential_push(Seq::<Candidate>::empty(), st.frontier[0]);
    }
    assert(node_ok(st.nodes, cols, 0));
}

/// Growth keeps its invariant.
proof fn lemma_grow_ok(inp: GrowInput, st: GrowthState, fuel: nat)
    requires
        inp.wf(),
        inp.state_ok(st, fuel),
    ensures
        tree_wf(inp.grow(st, fuel).nodes, inp.split.data.cols as int),
        thresholds_ok(inp.grow(st, fuel).nodes, inp.split.data),
    decreases fuel,
{
    if !(fuel == 0 || st.frontier.len() == 0 || st.leaves >= inp.max_leaves) {
        inp.lemma_expand_ok(st, fuel);
        lemma_grow_ok(inp, inp.expand(st), (fuel - 1) as nat);
    }
}

/// The grown tree is a sound tree, and each of its splits cuts its feature
/// at the cut point that closes its bin.
pub proof fn lemma_grown_ok(inp: GrowInput)
    requires
        inp.wf(),
    ensures
        tree_wf(inp.grown(), inp.split.data.cols as int),
        thresholds_ok(inp.grown(), inp.split.data),
{
    lemma_initial_ok(inp);
    lemma_grow_ok(inp, inp.initial(), inp.split.data.rows);
}

/// Where the root cannot be split, the grown tree is its root alone, a
/// leaf with the output of all rows: so it is where no cut of the root is
/// admissible (as under a `gamma` that no gain exceeds), at depth limit
/// zero, and under a leaf budget of one.
pub proof fn lemma_unsplit_root(inp: GrowInput)
    requires
        inp.wf(),
        inp.split.best_split(inp.all_rows()) is None || inp.max_depth <= 0 || inp.max_leaves <= 1,
    ensures
        inp.grown() == seq![
            inp.leaf(
                inp.split.node_grad(inp.all_rows()),
                inp.split.node_hess(inp.all_rows()),
                0,
            ),
        ],
{
    let st = inp.initial();
    if !(inp.max_leaves <= 1) {
        assert(st.frontier.len() == 0);
    }
    assert(inp.grow(st, inp.split.data.rows) == st);
}

/// A node has no best split where none of its cuts is admissible.
pub proof fn lemma_no_candidate_no_split(inp: SplitInput, rows: Seq<usize>)
    requires
        forall|f: int, b: int| !inp.is_candidate(rows, f, b),
    ensures
        inp.best_split(rows) is None,
{
    assert forall|f: int, b: int| !inp.is_best(rows, f, b) by {
        assert(!inp.is_candidate(rows, f, b));
    }
}

/// A leaf over rows whose gradients sum to zero has output zero.
pub proof fn lemma_zero_gradient_leaf(h: int, l2: int)
    ensures
        leaf_weight(0, h, l2) == 0,
{
    assert(0 * SCALE == 0);
}

impl Tree {
    /// Grows one tree from binned data, one gradient and one hessian per
    /// row, and the regularization and shape limits in `params`.
    ///
    /// Fails with `InvalidInput` where the matrix has no row, where there is
    /// not one gradient and one hessian per row, where a gradient is beyond
    /// `LIMIT` in magnitude or a hessian is negative or above `LIMIT`, or
    /// where `l2`, `gamma` or `min_leaf_weight` is negative or above `LIMIT`.
    pub fn fit(binned: &BinnedData, grad: &[i64], hess: &[i64], params: &TreeParams) -> (r: Result<
        Tree,
        ForustError,
    >)
        ensures
            match r {
                Ok(tree) => {
                    &&& grow_input(binned@, grad@, hess@, *params).wf()
                    &&& tree@ == grow_input(binned@, grad@, hess@, *params).grown()
                    &&& tree.spec_cols() == binned@.cols
                },
                Err(e) => e == ForustError::InvalidInput && !grow_input(
                    binned@,
                    grad@,
                    hess@,
                    *params,
                ).wf(),
            },
    {
        let n: usize = binned.rows();
        if n == 0 || grad.len() != n || hess.len() != n {
            return Err(ForustError::InvalidInput);
        }
        if params.l2 < 0 || params.l2 > LIMIT || params.gamma < 0 || params.gamma > LIMIT
            || params.min_leaf_weight < 0 || params.min_leaf_weight > LIMIT {
            return Err(ForustError::InvalidInput);
        }
        if !values_within(grad, -LIMIT, LIMIT) || !values_within(hess, 0, LIMIT) {
            return Err(ForustError::InvalidInput);
        }
        let splitter = Splitter {
            binned,
            grad,
            hess,
            l2: params.l2,
            gamma: params.gamma,
            min_leaf_weight: params.min_leaf_weight,
        };
        Ok(grow_tree(&splitter, params.max_depth, params.max_leaves))
    }
}

} // verus!
