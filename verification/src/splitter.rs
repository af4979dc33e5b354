//! Split search: per-feature histograms of gradient and hessian sums, and the
//! choice of the boundary with the largest regularized gain.

use vstd::prelude::*;

use crate::binning::{BinnedData, BinnedView};
use crate::fixed::{div_trunc, LIMIT, MAX_ROWS, SCALE};

verus! {

/// Largest magnitude of a sum of gradients or hessians over rows (2^62).
pub const SUM_LIMIT: i128 = 4_611_686_018_427_387_904;

/// Largest structure score (2^124).
pub const SCORE_LIMIT: i128 = 21_267_647_932_558_653_966_460_912_964_485_513_216;

/// The structure score `g^2 / (h + l2)` of a node with gradient sum `g` and
/// hessian sum `h`; zero where the denominator vanishes.
pub open spec fn score(g: int, h: int, l2: int) -> int {
    if h + l2 > 0 {
        (g * g) / (h + l2)
    } else {
        0
    }
}

/// The gain of splitting a node with sums `(g, h)` so that the left child
/// gets `(gl, hl)`: half the improvement of the score, less the penalty `gamma`.
pub open spec fn split_gain(gl: int, hl: int, g: int, h: int, l2: int, gamma: int) -> int {
    (score(gl, hl, l2) + score(g - gl, h - hl, l2) - score(g, h, l2)) / 2 - gamma
}

/// The output `-g / (h + l2)` of a leaf, as a fixed-point number rounded
/// toward zero; zero where the denominator vanishes.
pub open spec fn leaf_weight(g: int, h: int, l2: int) -> int {
    if h + l2 > 0 {
        div_trunc(-(g * SCALE), h + l2)
    } else {
        0
    }
}

/// A chosen split: the feature, the last bin that goes left, the gain, and
/// the gradient and hessian sums on either side.
#[derive(Clone, Copy, Debug, PartialEq, Eq, Structural)]
pub struct SplitInfo {
    pub feature: usize,
    pub bin: u16,
    pub gain: i128,
    pub left_grad: i128,
    pub left_hess: i128,
    pub right_grad: i128,
    pub right_hess: i128,
}

/// Whether the pair `(f1, b1)` comes before `(f2, b2)` in scan order.
pub open spec fn scans_before(f1: int, b1: int, f2: int, b2: int) -> bool {
    f1 < f2 || (f1 == f2 && b1 < b2)
}

/// Everything a split search reads, as mathematical values.
pub struct SplitInput {
    pub data: BinnedView,
    pub grad: Seq<i64>,
    pub hess: Seq<i64>,
    pub l2: int,
    pub gamma: int,
    pub min_leaf_weight: int,
}

impl SplitInput {
    /// The binned matrix is well formed, there is one gradient and one
    /// hessian per row, and every number is within its limit.
    pub open spec fn wf(self) -> bool {
        &&& self.data.wf()
        &&& self.grad.len() == self.data.rows
        &&& self.hess.len() == self.data.rows
        &&& forall|r: int| 0 <= r < self.grad.len() ==> -LIMIT <= #[trigger] self.grad[r] <= LIMIT
        &&& forall|r: int| 0 <= r < self.hess.len() ==> 0 <= #[trigger] self.hess[r] <= LIMIT
        &&& 0 <= self.l2 <= LIMIT
        &&& 0 <= self.gamma <= LIMIT
        &&& 0 <= self.min_leaf_weight <= LIMIT
    }

    /// `rows` lists rows of the matrix, and not more than a matrix can have.
    pub open spec fn rows_ok(self, rows: Seq<usize>) -> bool {
        &&& rows.len() <= MAX_ROWS
        &&& forall|k: int| 0 <= k < rows.len() ==> #[trigger] rows[k] < self.data.rows
    }

    /// The sum of `vals` over those of the first `k` rows of `rows` whose
    /// code for feature `f` lies in `lo..=hi`.
    pub open spec fn range_sum(
        self,
        vals: Seq<i64>,
        rows: Seq<usize>,
        f: int,
        lo: int,
        hi: int,
        k: int,
    ) -> int
        decreases k,
    {
        if k <= 0 {
            0
        } else {
            let r = rows[k - 1] as int;
            self.range_sum(vals, rows, f, lo, hi, k - 1) + if lo <= self.data.code(r, f) <= hi {
                vals[r] as int
            } else {
                0
            }
        }
    }

    /// The sum of `vals` over the first `k` rows of `rows`.
    pub open spec fn total(self, vals: Seq<i64>, rows: Seq<usize>, k: int) -> int
        decreases k,
    {
        if k <= 0 {
            0
        } else {
            self.total(vals, rows, k - 1) + vals[rows[k - 1] as int]
        }
    }

    /// Gradient sum of the rows of `rows` that go left when feature `f` is cut after bin `b`.
    pub open spec fn left_grad(self, rows: Seq<usize>, f: int, b: int) -> int {
        self.range_sum(self.grad, rows, f, 0, b, rows.len() as int)
    }

    /// Hessian sum of the rows of `rows` that go left when feature `f` is cut after bin `b`.
    pub open spec fn left_hess(self, rows: Seq<usize>, f: int, b: int) -> int {
        self.range_sum(self.hess, rows, f, 0, b, rows.len() as int)
    }

    /// Gradient sum of all of `rows`.
    pub open spec fn node_grad(self, rows: Seq<usize>) -> int {
        self.total(self.grad, rows, rows.len() as int)
    }

    /// Hessian sum of all of `rows`.
    pub open spec fn node_hess(self, rows: Seq<usize>) -> int {
        self.total(self.hess, rows, rows.len() as int)
    }

    /// The gain of cutting feature `f` after bin `b` in a node that holds `rows`.
    pub open spec fn gain_at(self, rows: Seq<usize>, f: int, b: int) -> int {
        split_gain(
            self.left_grad(rows, f, b),
            self.left_hess(rows, f, b),
            self.node_grad(rows),
            self.node_hess(rows),
            self.l2,
            self.gamma,
        )
    }

    /// Whether cutting feature `f` after bin `b` is admissible: the boundary
    /// lies inside the feature's bins, both sides carry at least the minimum
    /// hessian weight, and the gain is positive.
    pub open spec fn is_candidate(self, rows: Seq<usize>, f: int, b: int) -> bool {
        &&& 0 <= f < self.data.cols
        &&& 0 <= b < self.data.nunique[f] - 1
        &&& self.left_hess(rows, f, b) >= self.min_leaf_weight
        &&& self.node_hess(rows) - self.left_hess(rows, f, b) >= self.min_leaf_weight
        &&& self.gain_at(rows, f, b) > 0
    }

    /// Whether `(f1, b1)` is chosen over `(f2, b2)`: by larger gain, and on
    /// equal gain by lower feature, then lower bin.
    pub open spec fn prefers(self, rows: Seq<usize>, f1: int, b1: int, f2: int, b2: int) -> bool {
        self.gain_at(rows, f1, b1) > self.gain_at(rows, f2, b2) || (self.gain_at(rows, f1, b1)
            == self.gain_at(rows, f2, b2) && scans_before(f1, b1, f2, b2))
    }

    /// Whether `(f, b)` is admissible and chosen over every other admissible cut.
    pub open spec fn is_best(self, rows: Seq<usize>, f: int, b: int) -> bool {
        &&& self.is_candidate(rows, f, b)
        &&& forall|f2: int, b2: int|
            #[trigger] self.is_candidate(rows, f2, b2) && (f2 != f || b2 != b) ==> self.prefers(
                rows,
                f,
                b,
                f2,
                b2,
            )
    }

    /// Whether `s` holds the gain and the side sums of the cut that it names.
    pub open spec fn records(self, rows: Seq<usize>, s: SplitInfo) -> bool {
        let f = s.feature as int;
        let b = s.bin as int;
        &&& s.gain == self.gain_at(rows, f, b)
        &&& s.left_grad == self.left_grad(rows, f, b)
        &&& s.left_hess == self.left_hess(rows, f, b)
        &&& s.right_grad == self.node_grad(rows) - self.left_grad(rows, f, b)
        &&& s.right_hess == self.node_hess(rows) - self.left_hess(rows, f, b)
    }

    /// The record of cutting feature `f` after bin `b`.
    pub open spec fn split_info(self, rows: Seq<usize>, f: int, b: int) -> SplitInfo {
        SplitInfo {
            feature: f as usize,
            bin: b as u16,
            gain: self.gain_at(rows, f, b) as i128,
            left_grad: self.left_grad(rows, f, b) as i128,
            left_hess: self.left_hess(rows, f, b) as i128,
            right_grad: (self.node_grad(rows) - self.left_grad(rows, f, b)) as i128,
            right_hess: (self.node_hess(rows) - self.left_hess(rows, f, b)) as i128,
        }
    }

    /// The best split of a node that holds `rows`, if any cut is admissible.
    pub open spec fn best_split(self, rows: Seq<usize>) -> Option<SplitInfo> {
        if exists|f: int, b: int| self.is_best(rows, f, b) {
            let (f, b) = choose|f: int, b: int| self.is_best(rows, f, b);
            Some(self.split_info(rows, f, b))
        } else {
            None
        }
    }

    /// A range sum over `k` rows is at most `k * LIMIT` in magnitude, and is
    /// not negative where no value is.
    pub(crate) proof fn lemma_range_sum_bound(
        self,
        vals: Seq<i64>,
        rows: Seq<usize>,
        f: int,
        lo: int,
        hi: int,
        k: int,
    )
        requires
            0 <= k <= rows.len(),
            self.rows_ok(rows),
            vals.len() == self.data.rows,
            forall|r: int| 0 <= r < vals.len() ==> -LIMIT <= #[trigger] vals[r] <= LIMIT,
        ensures
            -k * LIMIT <= self.range_sum(vals, rows, f, lo, hi, k) <= k * LIMIT,
            (forall|r: int| 0 <= r < vals.len() ==> 0 <= #[trigger] vals[r]) ==> 0
                <= self.range_sum(vals, rows, f, lo, hi, k),
        decreases k,
    {
        if k > 0 {
            self.lemma_range_sum_bound(vals, rows, f, lo, hi, k - 1);
            let r = rows[k - 1] as int;
            assert(0 <= r < vals.len());
            assert(-LIMIT <= vals[r] <= LIMIT);
            assert(-k * LIMIT == -(k - 1) * LIMIT - LIMIT) by (nonlinear_arith);
            assert(k * LIMIT == (k - 1) * LIMIT + LIMIT) by (nonlinear_arith);
        }
    }

    /// A range sum splits at any point of the range.
    proof fn lemma_range_sum_split(
        self,
        vals: Seq<i64>,
        rows: Seq<usize>,
        f: int,
        lo: int,
        mid: int,
        hi: int,
        k: int,
    )
        requires
            lo - 1 <= mid <= hi,
        ensures
            self.range_sum(vals, rows, f, lo, hi, k) == self.range_sum(vals, rows, f, lo, mid, k)
                + self.range_sum(vals, rows, f, mid + 1, hi, k),
        decreases k,
    {
        if k > 0 {
            self.lemma_range_sum_split(vals, rows, f, lo, mid, hi, k - 1);
        }
    }

    /// A sum over an empty range of codes is zero.
    proof fn lemma_range_sum_empty(
        self,
        vals: Seq<i64>,
        rows: Seq<usize>,
        f: int,
        lo: int,
        hi: int,
        k: int,
    )
        requires
            lo > hi,
        ensures
            self.range_sum(vals, rows, f, lo, hi, k) == 0,
        decreases k,
    {
        if k > 0 {
            self.lemma_range_sum_empty(vals, rows, f, lo, hi, k - 1);
        }
    }

    /// The sum over all codes is the sum over all rows.
    pub(crate) proof fn lemma_total_is_full_range(self, vals: Seq<i64>, rows: Seq<usize>, f: int, k: int)
        ensures
            self.total(vals, rows, k) == self.range_sum(vals, rows, f, 0, 65535, k),
        decreases k,
    {
        if k > 0 {
            self.lemma_total_is_full_range(vals, rows, f, k - 1);
        }
    }

    /// The sums of a node and of the left side of any cut are within `SUM_LIMIT`,
    /// and so are those of the right side; hessian sums are not negative.
    pub(crate) proof fn lemma_side_bounds(self, rows: Seq<usize>, f: int, b: int)
        requires
            self.wf(),
            self.rows_ok(rows),
        ensures
            -SUM_LIMIT <= self.node_grad(rows) <= SUM_LIMIT,
            0 <= self.node_hess(rows) <= SUM_LIMIT,
            -SUM_LIMIT <= self.left_grad(rows, f, b) <= SUM_LIMIT,
            0 <= self.left_hess(rows, f, b) <= SUM_LIMIT,
            -SUM_LIMIT <= self.node_grad(rows) - self.left_grad(rows, f, b) <= SUM_LIMIT,
            0 <= self.node_hess(rows) - self.left_hess(rows, f, b) <= SUM_LIMIT,
            self.node_grad(rows) - self.left_grad(rows, f, b) == self.range_sum(
                self.grad,
                rows,
                f,
                b + 1,
                65535,
                rows.len() as int,
            ),
            self.node_hess(rows) - self.left_hess(rows, f, b) == self.range_sum(
                self.hess,
                rows,
                f,
                b + 1,
                65535,
                rows.len() as int,
            ),
    {
        let n = rows.len() as int;
        assert(n * LIMIT <= SUM_LIMIT) by (nonlinear_arith)
            requires
                0 <= n <= 4_194_304,
                LIMIT == 1_099_511_627_776,
                SUM_LIMIT == 4_611_686_018_427_387_904,
        ;
        self.lemma_total_is_full_range(self.grad, rows, f, n);
        self.lemma_total_is_full_range(self.hess, rows, f, n);
        self.lemma_range_sum_bound(self.grad, rows, f, 0, 65535, n);
        self.lemma_range_sum_bound(self.hess, rows, f, 0, 65535, n);
        self.lemma_range_sum_bound(self.grad, rows, f, 0, b, n);
        self.lemma_range_sum_bound(self.hess, rows, f, 0, b, n);
        self.lemma_range_sum_bound(self.grad, rows, f, b + 1, 65535, n);
        self.lemma_range_sum_bound(self.hess, rows, f, b + 1, 65535, n);
        if -1 <= b <= 65535 {
            self.lemma_range_sum_split(self.grad, rows, f, 0, b, 65535, n);
            self.lemma_range_sum_split(self.hess, rows, f, 0, b, 65535, n);
        } else if b < -1 {
            self.lemma_range_sum_empty(self.grad, rows, f, 0, b, n);
            self.lemma_range_sum_empty(self.hess, rows, f, 0, b, n);
            self.lemma_range_sum_outside(self.grad, rows, f, b + 1, 0, 65535, n);
            self.lemma_range_sum_outside(self.hess, rows, f, b + 1, 0, 65535, n);
        } else {
            self.lemma_range_sum_empty(self.grad, rows, f, b + 1, 65535, n);
            self.lemma_range_sum_empty(self.hess, rows, f, b + 1, 65535, n);
            self.lemma_range_sum_outside(self.grad, rows, f, 0, 0, b, n);
            self.lemma_range_sum_outside(self.hess, rows, f, 0, 0, b, n);
        }
    }

    /// Widening a range beyond the codes that exist does not change the sum.
    proof fn lemma_range_sum_outside(
        self,
        vals: Seq<i64>,
        rows: Seq<usize>,
        f: int,
        lo: int,
        lo2: int,
        hi: int,
        k: int,
    )
        requires
            (lo <= 0 && lo2 <= 0) || lo == lo2,
            hi >= 65535,
        ensures
            self.range_sum(vals, rows, f, lo, hi, k) == self.range_sum(
                vals,
                rows,
                f,
                lo2,
                65535,
                k,
            ),
        decreases k,
    {
        if k > 0 {
            self.lemma_range_sum_outside(vals, rows, f, lo, lo2, hi, k - 1);
        }
    }

    /// At most one cut is the best.
    pub proof fn lemma_best_unique(self, rows: Seq<usize>, f1: int, b1: int, f2: int, b2: int)
        requires
            self.is_best(rows, f1, b1),
            self.is_best(rows, f2, b2),
        ensures
            f1 == f2,
            b1 == b2,
    {
        if f1 != f2 || b1 != b2 {
            assert(self.prefers(rows, f1, b1, f2, b2));
            assert(self.prefers(rows, f2, b2, f1, b1));
        }
    }
}

/// Computes the structure score of a node.
pub fn score_of(g: i128, h: i128, l2: i64) -> (s: i128)
    requires
        -SUM_LIMIT <= g <= SUM_LIMIT,
        0 <= h <= SUM_LIMIT,
        0 <= l2 <= LIMIT,
    ensures
        s == score(g as int, h as int, l2 as int),
        0 <= s <= SCORE_LIMIT,
{
    let d: i128 = h + l2 as i128;
    proof {
        assert(0 <= (g as int) * (g as int) <= 21_267_647_932_558_653_966_460_912_964_485_513_216)
            by (nonlinear_arith)
            requires
                -4_611_686_018_427_387_904 <= g as int <= 4_611_686_018_427_387_904,
        ;
    }
    if d > 0 {
        proof {
            vstd::arithmetic::div_mod::lemma_div_pos_is_pos((g as int) * (g as int), d as int);
            vstd::arithmetic::div_mod::lemma_div_is_ordered_by_denominator(
                (g as int) * (g as int),
                1,
                d as int,
            );
        }
        (g * g) / d
    } else {
        0
    }
}

/// The data and the regularization that a split search works with.
pub struct Splitter<'a> {
    pub binned: &'a BinnedData,
    pub grad: &'a [i64],
    pub hess: &'a [i64],
    pub l2: i64,
    pub gamma: i64,
    pub min_leaf_weight: i64,
}

impl<'a> Splitter<'a> {
    /// The mathematical content of the search input.
    pub open spec fn view(&self) -> SplitInput {
        SplitInput {
            data: self.binned@,
            grad: self.grad@,
            hess: self.hess@,
            l2: self.l2 as int,
            gamma: self.gamma as int,
            min_leaf_weight: self.min_leaf_weight as int,
        }
    }

    /// The histogram of `vals` over the bins of feature `f`, restricted to `rows`.
    pub fn histogram(&self, vals: &[i64], rows: &Vec<usize>, f: usize) -> (hist: Vec<i128>)
        requires
            self@.data.wf(),
            self@.rows_ok(rows@),
            f < self@.data.cols,
            vals@.len() == self@.data.rows,
            forall|r: int| 0 <= r < vals@.len() ==> -LIMIT <= #[trigger] vals@[r] <= LIMIT,
        ensures
            hist@.len() == self@.data.nunique[f as int],
            forall|c: int|
                0 <= c < hist@.len() ==> #[trigger] hist@[c] == self@.range_sum(
                    vals@,
                    rows@,
                    f as int,
                    c,
                    c,
                    rows@.len() as int,
                ),
    {
        let nb: usize = self.binned.nunique()[f];
        let mut hist: Vec<i128> = vec![0i128; nb];
        let mut k: usize = 0;
        while k < rows.len()
            invariant
                self@.data.wf(),
                self@.rows_ok(rows@),
                f < self@.data.cols,
                vals@.len() == self@.data.rows,
                forall|r: int| 0 <= r < vals@.len() ==> -LIMIT <= #[trigger] vals@[r] <= LIMIT,
                k <= rows.len(),
                nb == self@.data.nunique[f as int],
                hist@.len() == nb,
                forall|c: int|
                    0 <= c < hist@.len() ==> #[trigger] hist@[c] == self@.range_sum(
                        vals@,
                        rows@,
                        f as int,
                        c,
                        c,
                        k as int,
                    ),
            decreases rows.len() - k,
        {
            let r: usize = rows[k];
            let c: usize = self.binned.code(r, f) as usize;
            proof {
                self@.lemma_range_sum_bound(vals@, rows@, f as int, c as int, c as int, k as int);
                assert(k * LIMIT <= SUM_LIMIT) by (nonlinear_arith)
                    requires
                        0 <= k <= 4_194_304,
                        LIMIT == 1_099_511_627_776,
                        SUM_LIMIT == 4_611_686_018_427_387_904,
                ;
                assert(-k * LIMIT >= -SUM_LIMIT) by (nonlinear_arith)
                    requires
                        0 <= k <= 4_194_304,
                        LIMIT == 1_099_511_627_776,
                        SUM_LIMIT == 4_611_686_018_427_387_904,
                ;
            }
            let old_sum: i128 = hist[c];
            hist.set(c, old_sum + vals[r] as i128);
            k += 1;
        }
        hist
    }

    /// Finds the best split of a node that holds `rows` and has gradient sum
    /// `g` and hessian sum `h`: the admissible cut of largest gain, the first
    /// in scan order among equals.
    pub fn best_split(&self, rows: &Vec<usize>, g: i128, h: i128) -> (best: Option<SplitInfo>)
        requires
            self@.wf(),
            self@.rows_ok(rows@),
            g == self@.node_grad(rows@),
            h == self@.node_hess(rows@),
        ensures
            best == self@.best_split(rows@),
            best is Some ==> self@.is_best(rows@, best->0.feature as int, best->0.bin as int)
                && self@.records(rows@, best->0),
    {
        let ghost inp: SplitInput = self@;
        let ghost n: int = rows@.len() as int;
        proof {
            inp.lemma_side_bounds(rows@, 0, 0);
        }
        let parent: i128 = score_of(g, h, self.l2);
        let cols: usize = self.binned.cols();
        let mut best: Option<SplitInfo> = None;
        let mut f: usize = 0;
        while f < cols
            invariant
                inp == self@,
                inp.wf(),
                inp.rows_ok(rows@),
                n == rows@.len(),
                g == inp.node_grad(rows@),
                h == inp.node_hess(rows@),
                parent == score(g as int, h as int, inp.l2),
                0 <= parent <= SCORE_LIMIT,
                cols == inp.data.cols,
                f <= cols,
                forall|f2: int, b2: int|
                    f2 < f && #[trigger] inp.is_candidate(rows@, f2, b2) ==> best is Some && (
                    inp.prefers(rows@, best->0.feature as int, best->0.bin as int, f2, b2) || (
                    best->0.feature == f2 && best->0.bin == b2)),
                best is Some ==> best->0.feature < f && inp.is_candidate(
                    rows@,
                    best->0.feature as int,
                    best->0.bin as int,
                ) && inp.records(rows@, best->0),
            decreases cols - f,
        {
            let hist_g: Vec<i128> = self.histogram(self.grad, rows, f);
            let hist_h: Vec<i128> = self.histogram(self.hess, rows, f);
            let nb: usize = hist_g.len();
            let mut gl: i128 = 0;
            let mut hl: i128 = 0;
            let mut b: usize = 0;
            proof {
                inp.lemma_range_sum_empty(inp.grad, rows@, f as int, 0, -1, n);
                inp.lemma_range_sum_empty(inp.hess, rows@, f as int, 0, -1, n);
            }
            while b + 1 < nb
                invariant
                    inp == self@,
                    inp.wf(),
                    inp.rows_ok(rows@),
                    n == rows@.len(),
                    g == inp.node_grad(rows@),
                    h == inp.node_hess(rows@),
                    parent == score(g as int, h as int, inp.l2),
                    0 <= parent <= SCORE_LIMIT,
                    cols == inp.data.cols,
                    f < cols,
                    nb == inp.data.nunique[f as int],
                    hist_g@.len() == nb,
                    hist_h@.len() == nb,
                    b < nb,
                    forall|c: int|
                        0 <= c < nb ==> #[trigger] hist_g@[c] == inp.range_sum(
                            inp.grad,
                            rows@,
                            f as int,
                            c,
                            c,
                            n,
                        ),
                    forall|c: int|
                        0 <= c < nb ==> #[trigger] hist_h@[c] == inp.range_sum(
                            inp.hess,
                            rows@,
                            f as int,
                            c,
                            c,
                            n,
                        ),
                    gl == inp.range_sum(inp.grad, rows@, f as int, 0, b - 1, n),
                    hl == inp.range_sum(inp.hess, rows@, f as int, 0, b - 1, n),
                    forall|f2: int, b2: int|
                        scans_before(f2, b2, f as int, b as int) && #[trigger] inp.is_candidate(
                            rows@,
                            f2,
                            b2,
                        ) ==> best is Some && (inp.prefers(
                            rows@,
                            best->0.feature as int,
                            best->0.bin as int,
                            f2,
                            b2,
                        ) || (best->0.feature == f2 && best->0.bin == b2)),
                    best is Some ==> scans_before(
                        best->0.feature as int,
                        best->0.bin as int,
                        f as int,
                        b as int,
                    ) && inp.is_candidate(rows@, best->0.feature as int, best->0.bin as int)
                        && inp.records(rows@, best->0),
                decreases nb - b,
            {
                proof {
                    inp.lemma_range_sum_split(inp.grad, rows@, f as int, 0, b - 1, b as int, n);
                    inp.lemma_range_sum_split(inp.hess, rows@, f as int, 0, b - 1, b as int, n);
                    inp.lemma_side_bounds(rows@, f as int, b as int);
                    assert(hist_g@[b as int] == inp.range_sum(
                        inp.grad,
                        rows@,
                        f as int,
                        b as int,
                        b as int,
                        n,
                    ));
                    assert(hist_h@[b as int] == inp.range_sum(
                        inp.hess,
                        rows@,
                        f as int,
                        b as int,
                        b as int,
                        n,
                    ));
                }
                gl = gl + hist_g[b];
                hl = hl + hist_h[b];
                let gr: i128 = g - gl;
                let hr: i128 = h - hl;
                let ghost prev: Option<SplitInfo> = best;
                if hl >= self.min_leaf_weight as i128 && hr >= self.min_leaf_weight as i128 {
                    let sl: i128 = score_of(gl, hl, self.l2);
                    let sr: i128 = score_of(gr, hr, self.l2);
                    if sl + sr > parent {
                        let gain: i128 = (sl + sr - parent) / 2 - self.gamma as i128;
                        assert(gain == inp.gain_at(rows@, f as int, b as int));
                        if gain > 0 {
                            let replace: bool = match best {
                                None => true,
                                Some(s) => gain > s.gain,
                            };
                            if replace {
                                best = Some(
                                    SplitInfo {
                                        feature: f,
                                        bin: b as u16,
                                        gain,
                                        left_grad: gl,
                                        left_hess: hl,
                                        right_grad: gr,
                                        right_hess: hr,
                                    },
                                );
                            }
                        }
                    }
                }
                proof {
                    let bf: int = f as int;
                    let bb: int = b as int;
                    assert(gl == inp.left_grad(rows@, bf, bb));
                    assert(hl == inp.left_hess(rows@, bf, bb));
                    assert(inp.is_candidate(rows@, bf, bb) ==> best is Some);
                    assert forall|f2: int, b2: int|
                        scans_before(f2, b2, bf, bb + 1) && #[trigger] inp.is_candidate(
                            rows@,
                            f2,
                            b2,
                        ) implies best is Some && (inp.prefers(
                        rows@,
                        best->0.feature as int,
                        best->0.bin as int,
                        f2,
                        b2,
                    ) || (best->0.feature == f2 && best->0.bin == b2)) by {
                        if scans_before(f2, b2, bf, bb) {
                            assert(prev is Some);
                        }
                    }
                }
                b += 1;
            }
            proof {
                assert forall|f2: int, b2: int|
                    f2 < f + 1 && #[trigger] inp.is_candidate(rows@, f2, b2) implies best is Some
                    && (inp.prefers(rows@, best->0.feature as int, best->0.bin as int, f2, b2) || (
                best->0.feature == f2 && best->0.bin == b2)) by {
                    assert(scans_before(f2, b2, f as int, b as int));
                }
            }
            f += 1;
        }
        proof {
            match best {
                Some(s) => {
                    assert(inp.is_best(rows@, s.feature as int, s.bin as int));
                    assert(s == inp.split_info(rows@, s.feature as int, s.bin as int));
                    let (cf, cb) = choose|cf: int, cb: int| inp.is_best(rows@, cf, cb);
                    inp.lemma_best_unique(rows@, s.feature as int, s.bin as int, cf, cb);
                },
                None => {
                    assert forall|f2: int, b2: int| !inp.is_best(rows@, f2, b2) by {
                        if inp.is_best(rows@, f2, b2) {
                            assert(inp.is_candidate(rows@, f2, b2));
                        }
                    }
                },
            }
        }
        best
    }
}

} // verus!
