//! Quantile binning of a matrix into small integer codes.

use vstd::prelude::*;

use crate::data::{lemma_cell_index, Matrix};
use crate::errors::ForustError;
use crate::fixed::{all_within, values_within, LIMIT, MAX_ROWS};
use crate::percentile::{
    argsort, cumulative, percentile_from, percentile_input_ok, weighted_percentile,
};

verus! {

/// Whether `s` is strictly increasing.
pub open spec fn strictly_increasing(s: Seq<i64>) -> bool {
    forall|i: int, j: int| 0 <= i < j < s.len() ==> s[i] < s[j]
}

/// The first index at or after `k` whose cut `x` does not exceed, or
/// `cuts.len()` where `x` exceeds all cuts from `k` on.
pub open spec fn first_at_least(cuts: Seq<i64>, x: i64, k: int) -> int
    decreases cuts.len() - k,
{
    if k >= cuts.len() || x <= cuts[k] {
        k
    } else {
        first_at_least(cuts, x, k + 1)
    }
}

/// The bin of `x` under cut points `cuts`: the index of the first cut that
/// `x` does not exceed, or `cuts.len()` when `x` exceeds them all.
pub open spec fn bin_code(cuts: Seq<i64>, x: i64) -> int {
    first_at_least(cuts, x, 0)
}

/// The bin of `x` is `c` where every cut before `c` is below `x` and the
/// cut at `c`, if there is one, is not.
proof fn lemma_bin_code_is(cuts: Seq<i64>, x: i64, c: int, k: int)
    requires
        0 <= k <= c <= cuts.len(),
        forall|j: int| 0 <= j < c ==> #[trigger] cuts[j] < x,
        c < cuts.len() ==> x <= cuts[c],
    ensures
        first_at_least(cuts, x, k) == c,
    decreases c - k,
{
    if k < c {
        assert(cuts[k] < x);
        lemma_bin_code_is(cuts, x, c, k + 1);
    }
}

/// The bin of a value is at most `cuts.len()`, every cut before it is
/// below the value, and the cut at it is not.
proof fn lemma_bin_code_props(cuts: Seq<i64>, x: i64, k: int)
    requires
        0 <= k <= cuts.len(),
    ensures
        k <= first_at_least(cuts, x, k) <= cuts.len(),
        forall|j: int| k <= j < first_at_least(cuts, x, k) ==> #[trigger] cuts[j] < x,
        first_at_least(cuts, x, k) < cuts.len() ==> x <= cuts[first_at_least(cuts, x, k)],
    decreases cuts.len() - k,
{
    if !(k >= cuts.len() || x <= cuts[k]) {
        lemma_bin_code_props(cuts, x, k + 1);
    }
}

/// Comparing a value with a cut is comparing its bin with the cut's index:
/// a tree that splits on bins and one that splits on the cut values send
/// every value the same way.
pub proof fn lemma_bin_code_threshold(cuts: Seq<i64>, x: i64, b: int)
    requires
        strictly_increasing(cuts),
        0 <= b < cuts.len(),
    ensures
        bin_code(cuts, x) <= b <==> x <= cuts[b],
{
    lemma_bin_code_props(cuts, x, 0);
    let c = bin_code(cuts, x);
    if c <= b {
        if c < b {
            assert(cuts[c] < cuts[b]);
        }
    } else {
        assert(cuts[b] < x);
    }
}

/// The candidate cut points of a column: its weighted percentiles
/// `1 / nbins, 2 / nbins, ..., 1`.
pub open spec fn cut_candidates(col: Seq<i64>, w: Seq<i64>, nbins: int) -> Seq<i64> {
    Seq::new(nbins as nat, |k: int| weighted_percentile(col, w, k + 1, nbins) as i64)
}

/// Of the first `k` candidates, those that exceed every candidate kept before them.
pub open spec fn increasing_prefix(cands: Seq<i64>, k: int) -> Seq<i64>
    decreases k,
{
    if k <= 0 {
        Seq::empty()
    } else {
        let kept = increasing_prefix(cands, k - 1);
        if kept.len() == 0 || cands[k - 1] > kept.last() {
            kept.push(cands[k - 1])
        } else {
            kept
        }
    }
}

/// The cut points of a column: the distinct candidates in increasing order,
/// without the largest, above which the last bin lies.
pub open spec fn column_cuts(col: Seq<i64>, w: Seq<i64>, nbins: int) -> Seq<i64> {
    increasing_prefix(cut_candidates(col, w, nbins), nbins).drop_last()
}

/// Whether a matrix, weights and a bin budget can be given to [`bin_matrix`].
pub open spec fn binning_input_ok(data: Matrix<'_, i64>, w: Seq<i64>, nbins: u16) -> bool {
    &&& nbins >= 1
    &&& data.wf()
    &&& w.len() == data.rows
    &&& 1 <= data.rows <= MAX_ROWS
    &&& all_within(w, 0, LIMIT as int)
}

/// Whether `b` is the binning of `data` under weights `w` with `nbins` bins
/// per feature at most.
pub open spec fn is_binning(data: Matrix<'_, i64>, w: Seq<i64>, nbins: u16, b: BinnedView) -> bool {
    &&& b.wf()
    &&& b.rows == data.rows
    &&& b.cols == data.cols
    &&& forall|f: int|
        0 <= f < b.cols ==> #[trigger] b.cuts[f] == column_cuts(data.col(f), w, nbins as int)
    &&& forall|f: int| 0 <= f < b.cols ==> #[trigger] b.nunique[f] <= nbins
    &&& forall|r: int, f: int|
        0 <= r < b.rows && 0 <= f < b.cols ==> #[trigger] b.code(r, f) == bin_code(
            b.cuts[f],
            data.cell(r, f),
        )
}

/// What a binned matrix holds, as mathematical values.
pub struct BinnedView {
    /// Bin codes, row-major: the code of row `r`, feature `f` is `codes[r * cols + f]`.
    pub codes: Seq<u16>,
    pub rows: nat,
    pub cols: nat,
    /// Per feature, the increasing cut points between bins.
    pub cuts: Seq<Seq<i64>>,
    /// Per feature, the number of bins.
    pub nunique: Seq<usize>,
}

impl BinnedView {
    /// The bin code of row `r` for feature `f`.
    pub open spec fn code(self, r: int, f: int) -> int {
        self.codes[r * self.cols + f] as int
    }

    /// Shapes agree, cuts increase, each feature has one more bin than cuts,
    /// and every code is below its feature's bin count.
    pub open spec fn wf(self) -> bool {
        &&& self.rows <= MAX_ROWS
        &&& self.cols <= usize::MAX
        &&& self.codes.len() == self.rows * self.cols
        &&& self.cuts.len() == self.cols
        &&& self.nunique.len() == self.cols
        &&& forall|f: int|
            0 <= f < self.cols ==> {
                &&& (#[trigger] self.nunique[f]) == self.cuts[f].len() + 1
                &&& self.nunique[f] <= 65536
                &&& strictly_increasing(self.cuts[f])
            }
        &&& forall|r: int, f: int|
            0 <= r < self.rows && 0 <= f < self.cols ==> (#[trigger] self.code(r, f))
                < self.nunique[f]
    }
}

/// A matrix of bin codes with the cut points that produced them.
pub struct BinnedData {
    pub(crate) codes: Vec<u16>,
    pub(crate) rows: usize,
    pub(crate) cols: usize,
    pub(crate) cuts: Vec<Vec<i64>>,
    pub(crate) nunique: Vec<usize>,
}

impl BinnedData {
    /// The mathematical content of the binned matrix.
    pub open(crate) spec fn view(&self) -> BinnedView {
        BinnedView {
            codes: self.codes@,
            rows: self.rows as nat,
            cols: self.cols as nat,
            cuts: Seq::new(self.cuts@.len(), |f: int| self.cuts@[f]@),
            nunique: self.nunique@,
        }
    }

    /// The binned matrix is well formed.
    #[verifier::type_invariant]
    pub open(crate) spec fn inv(&self) -> bool {
        self@.wf()
    }

    /// Number of rows.
    pub fn rows(&self) -> (n: usize)
        ensures
            n == self@.rows,
            self@.wf(),
    {
        proof {
            use_type_invariant(self);
        }
        self.rows
    }

    /// Number of features.
    pub fn cols(&self) -> (n: usize)
        ensures
            n == self@.cols,
    {
        self.cols
    }

    /// The bin codes, row-major.
    pub fn binned_data(&self) -> (codes: &Vec<u16>)
        ensures
            codes@ == self@.codes,
    {
        &self.codes
    }

    /// The number of bins of each feature.
    pub fn nunique(&self) -> (n: &Vec<usize>)
        ensures
            n@ == self@.nunique,
    {
        &self.nunique
    }

    /// The cut points of each feature.
    pub fn cuts(&self) -> (cuts: &Vec<Vec<i64>>)
        ensures
            cuts@.len() == self@.cuts.len(),
            forall|f: int| 0 <= f < cuts@.len() ==> (#[trigger] cuts@[f])@ == self@.cuts[f],
    {
        &self.cuts
    }

    /// The bin code of row `r` for feature `f`.
    pub fn code(&self, r: usize, f: usize) -> (c: u16)
        requires
            r < self@.rows,
            f < self@.cols,
        ensures
            c == self@.code(r as int, f as int),
            c < self@.nunique[f as int],
    {
        proof {
            use_type_invariant(self);
            lemma_cell_index(r as int, f as int, self.rows as int, self.cols as int);
            assert(self@.codes.len() == self@.rows * self@.cols);
            assert(self.codes@.len() == (self.rows as int) * (self.cols as int));
            assert(self.codes@.len() == self.codes.len());
        }
        self.codes[r * self.cols + f]
    }

    /// Takes the binned matrix apart: codes, cut points, bin counts.
    pub fn into_parts(self) -> (parts: (Vec<u16>, Vec<Vec<i64>>, Vec<usize>))
        ensures
            parts.0@ == self@.codes,
            parts.1@.len() == self@.cuts.len(),
            forall|f: int| 0 <= f < parts.1@.len() ==> (#[trigger] parts.1@[f])@ == self@.cuts[f],
            parts.2@ == self@.nunique,
    {
        (self.codes, self.cuts, self.nunique)
    }
}

/// The bin of `x` under the cut points `cuts`, by binary search.
pub fn bin_of(cuts: &Vec<i64>, x: i64) -> (c: usize)
    requires
        strictly_increasing(cuts@),
    ensures
        c == bin_code(cuts@, x),
        c <= cuts@.len(),
{
    let mut lo: usize = 0;
    let mut hi: usize = cuts.len();
    while lo < hi
        invariant
            strictly_increasing(cuts@),
            lo <= hi <= cuts@.len(),
            forall|j: int| 0 <= j < lo ==> #[trigger] cuts@[j] < x,
            hi < cuts@.len() ==> x <= cuts@[hi as int],
        decreases hi - lo,
    {
        let mid: usize = lo + (hi - lo) / 2;
        if cuts[mid] < x {
            assert forall|j: int| 0 <= j < mid + 1 implies #[trigger] cuts@[j] < x by {
                if j < mid {
                    assert(cuts@[j] < cuts@[mid as int]);
                }
            }
            lo = mid + 1;
        } else {
            hi = mid;
        }
    }
    proof {
        lemma_bin_code_is(cuts@, x, lo as int, 0);
    }
    lo
}

/// The kept candidates increase, and there are no more of them than candidates read.
proof fn lemma_increasing_prefix(cands: Seq<i64>, k: int)
    requires
        0 <= k,
    ensures
        strictly_increasing(increasing_prefix(cands, k)),
        increasing_prefix(cands, k).len() <= k,
        k >= 1 ==> increasing_prefix(cands, k).len() >= 1,
    decreases k,
{
    if k > 0 {
        lemma_increasing_prefix(cands, k - 1);
        let kept = increasing_prefix(cands, k - 1);
        if kept.len() == 0 || cands[k - 1] > kept.last() {
            let next = kept.push(cands[k - 1]);
            assert forall|i: int, j: int| 0 <= i < j < next.len() implies next[i] < next[j] by {
                if j == kept.len() {
                    if i < kept.len() - 1 {
                        assert(kept[i] < kept[kept.len() - 1]);
                    }
                }
            }
        }
    }
}

/// The cut points of one column.
pub fn cuts_of_column(col: &Vec<i64>, w: &[i64], nbins: u16) -> (cuts: Vec<i64>)
    requires
        percentile_input_ok(col@, w@),
        nbins >= 1,
    ensures
        cuts@ == column_cuts(col@, w@, nbins as int),
        strictly_increasing(cuts@),
        cuts@.len() < nbins,
{
    let idx: Vec<usize> = argsort(col.as_slice());
    let cum: Vec<i128> = cumulative(w, &idx);
    let ghost cands: Seq<i64> = cut_candidates(col@, w@, nbins as int);
    let mut kept: Vec<i64> = Vec::new();
    let mut k: u16 = 0;
    while k < nbins
        invariant
            percentile_input_ok(col@, w@),
            nbins >= 1,
            crate::percentile::is_stable_order(col@, idx@),
            idx@ == crate::percentile::stable_order(col@),
            cum@.len() == idx@.len(),
            forall|j: int|
                0 <= j < cum@.len() ==> #[trigger] cum@[j] == crate::percentile::cum_weight(
                    w@,
                    idx@,
                    j,
                ),
            cands == cut_candidates(col@, w@, nbins as int),
            k <= nbins,
            kept@ == increasing_prefix(cands, k as int),
        decreases nbins - k,
    {
        let x: i64 = percentile_from(
            col.as_slice(),
            w,
            &idx,
            &cum,
            (k + 1) as i64,
            nbins as i64,
        );
        assert(x == cands[k as int]);
        let n: usize = kept.len();
        if n == 0 || x > kept[n - 1] {
            kept.push(x);
        }
        k += 1;
    }
    proof {
        lemma_increasing_prefix(cands, nbins as int);
    }
    let ghost full: Seq<i64> = kept@;
    kept.pop();
    assert(kept@ =~= full.drop_last());
    kept
}

/// Bins a matrix: per feature, cut points at the weighted percentiles
/// `1 / nbins, ..., 1` of the column, duplicates and the largest removed,
/// and for every cell the index of the first cut that its value does not
/// exceed.
///
/// Fails with `InvalidInput` where `nbins` is zero, the buffer does not
/// have `rows * cols` values, there is not one weight per row, there is no
/// row or more than `MAX_ROWS`, or a weight is negative or above `LIMIT`.
pub fn bin_matrix(data: &Matrix<'_, i64>, sample_weight: &[i64], nbins: u16) -> (r: Result<
    BinnedData,
    ForustError,
>)
    ensures
        match r {
            Ok(b) => binning_input_ok(*data, sample_weight@, nbins) && is_binning(
                *data,
                sample_weight@,
                nbins,
                b@,
            ),
            Err(e) => e == ForustError::InvalidInput && !binning_input_ok(
                *data,
                sample_weight@,
                nbins,
            ),
        },
{
    if nbins == 0 || !data.is_valid() || sample_weight.len() != data.rows || data.rows == 0
        || data.rows > MAX_ROWS {
        return Err(ForustError::InvalidInput);
    }
    if !values_within(sample_weight, 0, LIMIT) {
        return Err(ForustError::InvalidInput);
    }
    let rows: usize = data.rows;
    let cols: usize = data.cols;
    let mut cuts: Vec<Vec<i64>> = Vec::new();
    let mut nunique: Vec<usize> = Vec::new();
    let mut f: usize = 0;
    while f < cols
        invariant
            binning_input_ok(*data, sample_weight@, nbins),
            rows == data.rows,
            cols == data.cols,
            f <= cols,
            cuts@.len() == f,
            nunique@.len() == f,
            forall|j: int|
                0 <= j < f ==> {
                    &&& (#[trigger] cuts@[j])@ == column_cuts(
                        data.col(j),
                        sample_weight@,
                        nbins as int,
                    )
                    &&& strictly_increasing(cuts@[j]@)
                    &&& cuts@[j]@.len() < nbins
                    &&& nunique@[j] == cuts@[j]@.len() + 1
                },
        decreases cols - f,
    {
        let col: Vec<i64> = data.get_col(f);
        let c: Vec<i64> = cuts_of_column(&col, sample_weight, nbins);
        nunique.push(c.len() + 1);
        cuts.push(c);
        f += 1;
    }
    let mut codes: Vec<u16> = Vec::new();
    let mut r: usize = 0;
    while r < rows
        invariant
            binning_input_ok(*data, sample_weight@, nbins),
            rows == data.rows,
            cols == data.cols,
            r <= rows,
            cuts@.len() == cols,
            forall|j: int|
                0 <= j < cols ==> strictly_increasing((#[trigger] cuts@[j])@) && cuts@[j]@.len()
                    < nbins,
            codes@.len() == r * cols,
            forall|r2: int, f2: int|
                0 <= r2 < r && 0 <= f2 < cols ==> (#[trigger] codes@[r2 * cols + f2]) == bin_code(
                    cuts@[f2]@,
                    data.cell(r2, f2),
                ),
        decreases rows - r,
    {
        let mut f: usize = 0;
        while f < cols
            invariant
                binning_input_ok(*data, sample_weight@, nbins),
                rows == data.rows,
                cols == data.cols,
                r < rows,
                f <= cols,
                cuts@.len() == cols,
                forall|j: int|
                    0 <= j < cols ==> strictly_increasing((#[trigger] cuts@[j])@)
                        && cuts@[j]@.len() < nbins,
                codes@.len() == r * cols + f,
                forall|r2: int, f2: int|
                    0 <= r2 < r && 0 <= f2 < cols ==> (#[trigger] codes@[r2 * cols + f2])
                        == bin_code(cuts@[f2]@, data.cell(r2, f2)),
                forall|f2: int|
                    0 <= f2 < f ==> (#[trigger] codes@[r * cols + f2]) == bin_code(
                        cuts@[f2]@,
                        data.cell(r as int, f2),
                    ),
            decreases cols - f,
        {
            let x: i64 = *data.get(r, f);
            let c: usize = bin_of(&cuts[f], x);
            let ghost before: Seq<u16> = codes@;
            codes.push(c as u16);
            proof {
                assert forall|r2: int, f2: int| 0 <= r2 < r && 0 <= f2 < cols implies (
                #[trigger] codes@[r2 * cols + f2]) == bin_code(
                    cuts@[f2]@,
                    data.cell(r2, f2),
                ) by {
                    lemma_cell_index(r2, f2, r as int, cols as int);
                    assert(codes@[r2 * cols + f2] == before[r2 * cols + f2]);
                }
                assert forall|f2: int| 0 <= f2 < f + 1 implies (#[trigger] codes@[r * cols + f2])
                    == bin_code(cuts@[f2]@, data.cell(r as int, f2)) by {
                    if f2 < f {
                        assert(codes@[r * cols + f2] == before[r * cols + f2]);
                    }
                }
            }
            f += 1;
        }
        proof {
            assert((r + 1) * cols == r * cols + cols) by (nonlinear_arith);
            assert forall|r2: int, f2: int| 0 <= r2 < r + 1 && 0 <= f2 < cols implies (
            #[trigger] codes@[r2 * cols + f2]) == bin_code(cuts@[f2]@, data.cell(r2, f2)) by {}
        }
        r += 1;
    }
    let ghost view: BinnedView = BinnedView {
        codes: codes@,
        rows: rows as nat,
        cols: cols as nat,
        cuts: Seq::new(cuts@.len(), |f: int| cuts@[f]@),
        nunique: nunique@,
    };
    proof {
        assert forall|r2: int, f2: int| 0 <= r2 < view.rows && 0 <= f2 < view.cols implies (
        #[trigger] view.code(r2, f2)) < view.nunique[f2] && view.code(r2, f2) == bin_code(
            view.cuts[f2],
            data.cell(r2, f2),
        ) by {
            assert(codes@[r2 * cols + f2] == bin_code(cuts@[f2]@, data.cell(r2, f2)));
            lemma_bin_code_props(cuts@[f2]@, data.cell(r2, f2), 0);
        }
        assert(view.wf());
        assert(is_binning(*data, sample_weight@, nbins, view));
    }
    Ok(BinnedData { codes, rows, cols, cuts, nunique })
}

/// Binning is a function of its input: two binnings of the same matrix
/// under the same weights and bin budget are the same.
pub proof fn lemma_binning_unique(
    data: Matrix<'_, i64>,
    w: Seq<i64>,
    nbins: u16,
    a: BinnedView,
    b: BinnedView,
)
    requires
        is_binning(data, w, nbins, a),
        is_binning(data, w, nbins, b),
    ensures
        a == b,
{
    assert(a.cuts =~= b.cuts);
    assert(a.nunique =~= b.nunique);
    let cols = a.cols as int;
    let rows = a.rows as int;
    assert forall|c: int| 0 <= c < a.codes.len() implies a.codes[c] == b.codes[c] by {
        if cols <= 0 {
            assert(rows * cols == 0) by (nonlinear_arith)
                requires
                    cols == 0,
            ;
        } else {
            let r = c / cols;
            let f = c % cols;
            vstd::arithmetic::div_mod::lemma_fundamental_div_mod(c, cols);
            vstd::arithmetic::div_mod::lemma_mod_bound(c, cols);
            assert(cols * r == r * cols) by (nonlinear_arith);
            assert(0 <= r < rows) by (nonlinear_arith)
                requires
                    c == r * cols + f,
                    0 <= f < cols,
                    0 <= c < rows * cols,
            ;
            assert(a.code(r, f) == b.code(r, f));
        }
    }
    assert(a.codes =~= b.codes);
}

/// Every code of a binning lies below the bin count of its feature.
pub proof fn lemma_codes_in_range(
    data: Matrix<'_, i64>,
    w: Seq<i64>,
    nbins: u16,
    b: BinnedView,
    r: int,
    f: int,
)
    requires
        is_binning(data, w, nbins, b),
        0 <= r < b.rows,
        0 <= f < b.cols,
    ensures
        0 <= b.code(r, f) < b.nunique[f] <= nbins,
{
}

} // verus!
