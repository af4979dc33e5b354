//! The ensemble: binning once, then one tree per round against the
//! gradients of the running predictions.

use vstd::prelude::*;

use crate::binning::{bin_matrix, binning_input_ok, is_binning, lemma_binning_unique, BinnedView};
use crate::data::Matrix;
use crate::dump::render_tree;
use crate::errors::ForustError;
use crate::fixed::{
    all_within, lemma_mul_fixed_bound, mul_fixed, mul_scaled, values_within, LEAF_LIMIT, LIMIT,
    MAX_ROWS, MAX_TREES, TARGET_LIMIT, TERM_LIMIT,
};
use crate::grower::{grow_input, grow_tree, TreeParams};
use crate::objective::{objective_from_name, objective_named, ObjectiveType, PRED_LIMIT};
use crate::splitter::Splitter;
use crate::tree::{tree_output, tree_wf, lemma_walk_bound, Node, Tree};

verus! {

/// The hyperparameters of a booster.
#[derive(Clone, Copy, Debug)]
pub struct BoosterConfig {
    pub objective_type: ObjectiveType,
    /// The number of trees that `fit` grows.
    pub iterations: usize,
    /// The factor by which each tree's output enters the prediction.
    pub learning_rate: i64,
    pub max_depth: usize,
    pub max_leaves: usize,
    pub l2: i64,
    pub gamma: i64,
    pub min_leaf_weight: i64,
    /// The initial prediction; where there is none, `fit` derives it from
    /// the targets by the rule of the loss.
    pub base_score: Option<i64>,
    /// The bin budget per feature.
    pub nbins: u16,
    /// Advisory only: results never depend on it.
    pub parallel: bool,
}

/// What a fitted booster holds: the initial prediction, the number of
/// features it was fitted on, and the arenas of its trees in fitting order.
pub struct Model {
    pub base: int,
    pub n_features: int,
    pub trees: Seq<Seq<Node>>,
}

/// The hyperparameters that `new` sets for the arguments it is given.
pub open spec fn config_from(
    objective_type: ObjectiveType,
    iterations: Option<usize>,
    learning_rate: Option<i64>,
    max_depth: Option<usize>,
    max_leaves: Option<usize>,
    l2: Option<i64>,
    gamma: Option<i64>,
    min_leaf_weight: Option<i64>,
    base_score: Option<i64>,
    nbins: Option<u16>,
    parallel: Option<bool>,
) -> BoosterConfig {
    BoosterConfig {
        objective_type,
        iterations: if iterations is Some {
            iterations->0
        } else {
            100
        },
        learning_rate: if learning_rate is Some {
            learning_rate->0
        } else {
            300_000
        },
        max_depth: if max_depth is Some {
            max_depth->0
        } else {
            5
        },
        max_leaves: if max_leaves is Some {
            max_leaves->0
        } else {
            usize::MAX
        },
        l2: if l2 is Some {
            l2->0
        } else {
            1_000_000
        },
        gamma: if gamma is Some {
            gamma->0
        } else {
            0
        },
        min_leaf_weight: if min_leaf_weight is Some {
            min_leaf_weight->0
        } else {
            0
        },
        base_score,
        nbins: if nbins is Some {
            nbins->0
        } else {
            256
        },
        parallel: if parallel is Some {
            parallel->0
        } else {
            true
        },
    }
}

/// Whether the hyperparameters are in range: a positive learning rate,
/// regularization that is not negative, a bin budget, all within `LIMIT`,
/// at most `MAX_TREES` rounds, and a base score within `TARGET_LIMIT`.
pub open spec fn config_ok(cfg: BoosterConfig) -> bool {
    &&& 0 < cfg.learning_rate <= LIMIT
    &&& 0 <= cfg.l2 <= LIMIT
    &&& 0 <= cfg.gamma <= LIMIT
    &&& 0 <= cfg.min_leaf_weight <= LIMIT
    &&& cfg.nbins >= 1
    &&& cfg.iterations <= MAX_TREES
    &&& cfg.base_score is Some ==> -TARGET_LIMIT <= cfg.base_score->0 <= TARGET_LIMIT
}

/// Whether the training data has a sound shape: a well-formed matrix with
/// at least one row and one feature and at most `MAX_ROWS` rows, and one
/// target and one weight per row.
pub open spec fn shapes_ok(data: Matrix<'_, i64>, y: Seq<i64>, w: Seq<i64>) -> bool {
    &&& data.wf()
    &&& 1 <= data.rows <= MAX_ROWS
    &&& 1 <= data.cols
    &&& y.len() == data.rows
    &&& w.len() == data.rows
}

/// The tree parameters among the hyperparameters.
pub open spec fn tree_params(cfg: BoosterConfig) -> TreeParams {
    TreeParams {
        l2: cfg.l2,
        gamma: cfg.gamma,
        min_leaf_weight: cfg.min_leaf_weight,
        max_depth: cfg.max_depth,
        max_leaves: cfg.max_leaves,
    }
}

/// The binning of a matrix.
pub open spec fn binning_of(data: Matrix<'_, i64>, w: Seq<i64>, nbins: u16) -> BinnedView {
    choose|b: BinnedView| is_binning(data, w, nbins, b)
}

/// The sum over the first `k` trees of `rate` times the tree's output for `row`.
pub open spec fn ensemble_sum(trees: Seq<Seq<Node>>, rate: int, row: Seq<i64>, k: int) -> int
    decreases k,
{
    if k <= 0 {
        0
    } else {
        ensemble_sum(trees, rate, row, k - 1) + mul_fixed(rate, tree_output(trees[k - 1], row))
    }
}

/// The prediction for a row: the base score plus the learning rate times
/// each tree's output.
pub open spec fn predict_value(base: int, rate: int, trees: Seq<Seq<Node>>, row: Seq<i64>) -> int {
    base + ensemble_sum(trees, rate, row, trees.len() as int)
}

/// The predictions for all rows of a matrix.
pub open spec fn predictions(
    base: int,
    rate: int,
    trees: Seq<Seq<Node>>,
    data: Matrix<'_, i64>,
) -> Seq<i128> {
    Seq::new(
        data.rows as nat,
        |i: int| predict_value(base, rate, trees, data.row(i)) as i128,
    )
}

/// The initial prediction: the configured base score, or the one that the
/// loss derives from the targets.
pub open spec fn base_for(cfg: BoosterConfig, y: Seq<i64>, w: Seq<i64>) -> Option<int> {
    if cfg.base_score is Some {
        Some(cfg.base_score->0 as int)
    } else {
        cfg.objective_type.initial_value(y, w)
    }
}

/// The tree of one round: grown against the gradients and hessians of the
/// predictions of the trees before it.
pub open spec fn round_tree(
    cfg: BoosterConfig,
    binned: BinnedView,
    data: Matrix<'_, i64>,
    y: Seq<i64>,
    base: int,
    trees: Seq<Seq<Node>>,
) -> Seq<Node> {
    let preds = predictions(base, cfg.learning_rate as int, trees, data);
    grow_input(
        binned,
        cfg.objective_type.gradients(preds, y),
        cfg.objective_type.hessians(preds, y),
        tree_params(cfg),
    ).grown()
}

/// `rounds` more rounds of boosting after `trees`; `None` where a gradient
/// leaves its range in some round.
pub open spec fn boost(
    cfg: BoosterConfig,
    binned: BinnedView,
    data: Matrix<'_, i64>,
    y: Seq<i64>,
    base: int,
    trees: Seq<Seq<Node>>,
    rounds: nat,
) -> Option<Seq<Seq<Node>>>
    decreases rounds,
{
    if rounds == 0 {
        Some(trees)
    } else if !cfg.objective_type.gradients_ok(
        predictions(base, cfg.learning_rate as int, trees, data),
        y,
    ) {
        None
    } else {
        boost(
            cfg,
            binned,
            data,
            y,
            base,
            trees.push(round_tree(cfg, binned, data, y, base, trees)),
            (rounds - 1) as nat,
        )
    }
}

/// What `fit` does with its input: the model it leaves, or the failure.
pub open spec fn fit_outcome(
    cfg: BoosterConfig,
    data: Matrix<'_, i64>,
    y: Seq<i64>,
    w: Seq<i64>,
) -> Result<Model, ForustError> {
    if !config_ok(cfg) {
        Err(ForustError::InvalidInput)
    } else if !shapes_ok(data, y, w) {
        Err(ForustError::FitError)
    } else if !all_within(w, 0, LIMIT as int) {
        Err(ForustError::InvalidInput)
    } else if !all_within(y, -TARGET_LIMIT, TARGET_LIMIT as int) {
        Err(ForustError::FitError)
    } else if base_for(cfg, y, w) is None {
        Err(ForustError::FitError)
    } else {
        let base = base_for(cfg, y, w)->0;
        let trees = boost(
            cfg,
            binning_of(data, w, cfg.nbins),
            data,
            y,
            base,
            Seq::empty(),
            cfg.iterations as nat,
        );
        if trees is None {
            Err(ForustError::FitError)
        } else {
            Ok(Model { base, n_features: data.cols as int, trees: trees->0 })
        }
    }
}

/// The arenas of a sequence of trees.
pub open spec fn arenas(trees: Seq<Tree>) -> Seq<Seq<Node>> {
    Seq::new(trees.len(), |t: int| trees[t]@)
}

/// The sum over trees reads only the trees it counts.
proof fn lemma_ensemble_prefix(
    a: Seq<Seq<Node>>,
    b: Seq<Seq<Node>>,
    rate: int,
    row: Seq<i64>,
    k: int,
)
    requires
        forall|t: int| 0 <= t < k ==> a[t] == b[t],
    ensures
        ensemble_sum(a, rate, row, k) == ensemble_sum(b, rate, row, k),
    decreases k,
{
    if k > 0 {
        lemma_ensemble_prefix(a, b, rate, row, k - 1);
    }
}

/// The sum over `k` sound trees is within `k * TERM_LIMIT`.
proof fn lemma_ensemble_bound(
    trees: Seq<Seq<Node>>,
    cols: int,
    rate: int,
    row: Seq<i64>,
    k: int,
)
    requires
        0 <= k <= trees.len(),
        -LIMIT <= rate <= LIMIT,
        forall|t: int| 0 <= t < trees.len() ==> tree_wf(#[trigger] trees[t], cols),
    ensures
        -k * TERM_LIMIT <= ensemble_sum(trees, rate, row, k) <= k * TERM_LIMIT,
    decreases k,
{
    if k > 0 {
        lemma_ensemble_bound(trees, cols, rate, row, k - 1);
        assert(tree_wf(trees[k - 1], cols));
        lemma_walk_bound(trees[k - 1], cols, row, 0);
        lemma_mul_fixed_bound(rate, tree_output(trees[k - 1], row));
        assert(k * TERM_LIMIT == (k - 1) * TERM_LIMIT + TERM_LIMIT) by (nonlinear_arith);
        assert(-k * TERM_LIMIT == -(k - 1) * TERM_LIMIT - TERM_LIMIT) by (nonlinear_arith);
    } else {
        assert(k * TERM_LIMIT == 0) by (nonlinear_arith)
            requires
                k == 0,
        ;
        assert(-k * TERM_LIMIT == 0) by (nonlinear_arith)
            requires
                k == 0,
        ;
    }
}

/// The sum over the first `k` trees of `rate` times the value of the root,
/// for trees whose root is a leaf.
pub open spec fn root_sum(trees: Seq<Seq<Node>>, rate: int, k: int) -> int
    decreases k,
{
    if k <= 0 {
        0
    } else {
        root_sum(trees, rate, k - 1) + mul_fixed(rate, trees[k - 1][0]->value as int)
    }
}

/// Whether every tree is a single leaf.
pub open spec fn all_single_leaf(trees: Seq<Seq<Node>>) -> bool {
    forall|t: int| 0 <= t < trees.len() ==> (#[trigger] trees[t]).len() >= 1 && trees[t][0] is Leaf
}

/// An ensemble without trees predicts the base score for every row.
pub proof fn lemma_no_trees_predict_base(base: int, rate: int, row: Seq<i64>)
    ensures
        predict_value(base, rate, Seq::empty(), row) == base,
{
}

/// Boosting adds one tree per round.
pub proof fn lemma_boost_len(
    cfg: BoosterConfig,
    binned: BinnedView,
    data: Matrix<'_, i64>,
    y: Seq<i64>,
    base: int,
    trees: Seq<Seq<Node>>,
    rounds: nat,
)
    ensures
        boost(cfg, binned, data, y, base, trees, rounds) is Some ==> boost(
            cfg,
            binned,
            data,
            y,
            base,
            trees,
            rounds,
        )->0.len() == trees.len() + rounds,
    decreases rounds,
{
    if rounds > 0 {
        lemma_boost_len(
            cfg,
            binned,
            data,
            y,
            base,
            trees.push(round_tree(cfg, binned, data, y, base, trees)),
            (rounds - 1) as nat,
        );
    }
}

/// Fitting with zero rounds leaves a model that predicts its base score
/// for every row.
pub proof fn lemma_zero_rounds_predict_base(
    cfg: BoosterConfig,
    data: Matrix<'_, i64>,
    y: Seq<i64>,
    w: Seq<i64>,
    row: Seq<i64>,
)
    requires
        cfg.iterations == 0,
        fit_outcome(cfg, data, y, w) is Ok,
    ensures
        predict_value(
            fit_outcome(cfg, data, y, w)->Ok_0.base,
            cfg.learning_rate as int,
            fit_outcome(cfg, data, y, w)->Ok_0.trees,
            row,
        ) == fit_outcome(cfg, data, y, w)->Ok_0.base,
{
}

/// An ensemble of single leaves predicts, for every row and whatever its
/// feature values, the base score plus the learning rate times each leaf.
pub proof fn lemma_single_leaves_predict(base: int, rate: int, trees: Seq<Seq<Node>>, row: Seq<i64>)
    requires
        all_single_leaf(trees),
    ensures
        predict_value(base, rate, trees, row) == base + root_sum(trees, rate, trees.len() as int),
{
    lemma_single_leaves_sum(rate, trees, row, trees.len() as int);
}

proof fn lemma_single_leaves_sum(rate: int, trees: Seq<Seq<Node>>, row: Seq<i64>, k: int)
    requires
        all_single_leaf(trees),
        0 <= k <= trees.len(),
    ensures
        ensemble_sum(trees, rate, row, k) == root_sum(trees, rate, k),
    decreases k,
{
    if k > 0 {
        lemma_single_leaves_sum(rate, trees, row, k - 1);
        assert(trees[k - 1].len() >= 1 && trees[k - 1][0] is Leaf);
    }
}

/// An ensemble of single leaves that are all zero predicts the base score
/// for every row.
pub proof fn lemma_zero_leaves_predict_base(
    base: int,
    rate: int,
    trees: Seq<Seq<Node>>,
    row: Seq<i64>,
)
    requires
        all_single_leaf(trees),
        forall|t: int| 0 <= t < trees.len() ==> (#[trigger] trees[t])[0]->value == 0,
    ensures
        predict_value(base, rate, trees, row) == base,
{
    lemma_single_leaves_predict(base, rate, trees, row);
    lemma_zero_root_sum(rate, trees, trees.len() as int);
}

proof fn lemma_zero_root_sum(rate: int, trees: Seq<Seq<Node>>, k: int)
    requires
        0 <= k <= trees.len(),
        forall|t: int| 0 <= t < trees.len() ==> (#[trigger] trees[t])[0]->value == 0,
    ensures
        root_sum(trees, rate, k) == 0,
    decreases k,
{
    if k > 0 {
        lemma_zero_root_sum(rate, trees, k - 1);
        assert(trees[k - 1][0]->value == 0);
        assert(rate * 0 == 0) by (nonlinear_arith);
    }
}

/// One round whose root cannot be split: after `fit`, the prediction for
/// every row is the base score plus the learning rate times the output of
/// the single leaf, whatever the row's feature values.
pub proof fn lemma_fit_single_leaf(
    cfg: BoosterConfig,
    data: Matrix<'_, i64>,
    y: Seq<i64>,
    w: Seq<i64>,
    row: Seq<i64>,
)
    requires
        cfg.iterations == 1,
        fit_outcome(cfg, data, y, w) is Ok,
        ({
            let base = fit_outcome(cfg, data, y, w)->Ok_0.base;
            let preds = predictions(base, cfg.learning_rate as int, Seq::empty(), data);
            let inp = grow_input(
                binning_of(data, w, cfg.nbins),
                cfg.objective_type.gradients(preds, y),
                cfg.objective_type.hessians(preds, y),
                tree_params(cfg),
            );
            inp.wf() && (inp.split.best_split(inp.all_rows()) is None || inp.max_depth <= 0
                || inp.max_leaves <= 1)
        }),
    ensures
        ({
            let model = fit_outcome(cfg, data, y, w)->Ok_0;
            let preds = predictions(model.base, cfg.learning_rate as int, Seq::empty(), data);
            let inp = grow_input(
                binning_of(data, w, cfg.nbins),
                cfg.objective_type.gradients(preds, y),
                cfg.objective_type.hessians(preds, y),
                tree_params(cfg),
            );
            let leaf = inp.leaf(
                inp.split.node_grad(inp.all_rows()),
                inp.split.node_hess(inp.all_rows()),
                0,
            );
            &&& model.trees == seq![seq![leaf]]
            &&& predict_value(model.base, cfg.learning_rate as int, model.trees, row) == model.base
                + mul_fixed(cfg.learning_rate as int, leaf->value as int)
        }),
{
    let base = fit_outcome(cfg, data, y, w)->Ok_0.base;
    let binned = binning_of(data, w, cfg.nbins);
    let none = Seq::<Seq<Node>>::empty();
    let preds = predictions(base, cfg.learning_rate as int, none, data);
    let inp = grow_input(
        binned,
        cfg.objective_type.gradients(preds, y),
        cfg.objective_type.hessians(preds, y),
        tree_params(cfg),
    );
    crate::grower::lemma_unsplit_root(inp);
    let tree = round_tree(cfg, binned, data, y, base, none);
    assert(tree == inp.grown());
    let one = none.push(tree);
    assert(boost(cfg, binned, data, y, base, none, 1) == boost(cfg, binned, data, y, base, one, 0));
    assert(one =~= seq![tree]);
    let leaf = inp.leaf(inp.split.node_grad(inp.all_rows()), inp.split.node_hess(inp.all_rows()), 0);
    assert(tree =~= seq![leaf]);
    assert(all_single_leaf(one));
    lemma_single_leaves_predict(base, cfg.learning_rate as int, one, row);
    assert(root_sum(one, cfg.learning_rate as int, 1) == root_sum(one, cfg.learning_rate as int, 0)
        + mul_fixed(cfg.learning_rate as int, one[0][0]->value as int));
}

/// Largest magnitude of the sum of the trees' shares of a prediction:
/// `MAX_TREES * TERM_LIMIT` (2^122).
pub const ENSEMBLE_LIMIT: i128 = 5_316_911_983_139_663_491_615_228_241_121_378_304;

/// The sum over at most `MAX_TREES` sound trees is within `ENSEMBLE_LIMIT`,
/// and with room for one more tree where there are fewer.
proof fn lemma_ensemble_limit(
    trees: Seq<Seq<Node>>,
    cols: int,
    rate: int,
    row: Seq<i64>,
    k: int,
)
    requires
        0 <= k <= trees.len(),
        k <= MAX_TREES,
        -LIMIT <= rate <= LIMIT,
        forall|t: int| 0 <= t < trees.len() ==> tree_wf(#[trigger] trees[t], cols),
    ensures
        -ENSEMBLE_LIMIT <= ensemble_sum(trees, rate, row, k) <= ENSEMBLE_LIMIT,
        k < MAX_TREES ==> -(ENSEMBLE_LIMIT - TERM_LIMIT) <= ensemble_sum(trees, rate, row, k)
            <= ENSEMBLE_LIMIT - TERM_LIMIT,
{
    lemma_ensemble_bound(trees, cols, rate, row, k);
    assert(k * TERM_LIMIT <= 1_048_576 * TERM_LIMIT) by (nonlinear_arith)
        requires
            0 <= k <= 1_048_576,
    ;
    assert(-k * TERM_LIMIT >= -1_048_576 * TERM_LIMIT) by (nonlinear_arith)
        requires
            0 <= k <= 1_048_576,
    ;
    if k < MAX_TREES {
        assert(k * TERM_LIMIT <= 1_048_575 * TERM_LIMIT) by (nonlinear_arith)
            requires
                0 <= k <= 1_048_575,
        ;
        assert(-k * TERM_LIMIT >= -1_048_575 * TERM_LIMIT) by (nonlinear_arith)
            requires
                0 <= k <= 1_048_575,
        ;
    }
}

/// The running sums with the base score added.
fn with_base(base: i64, sums: &Vec<i128>) -> (preds: Vec<i128>)
    requires
        -TARGET_LIMIT <= base <= TARGET_LIMIT,
        forall|i: int| 0 <= i < sums@.len() ==> -ENSEMBLE_LIMIT <= #[trigger] sums@[i] <= ENSEMBLE_LIMIT,
    ensures
        preds@.len() == sums@.len(),
        forall|i: int|
            0 <= i < preds@.len() ==> #[trigger] preds@[i] == base + sums@[i] && -PRED_LIMIT
                <= preds@[i] <= PRED_LIMIT,
{
    let mut preds: Vec<i128> = Vec::new();
    let mut i: usize = 0;
    while i < sums.len()
        invariant
            -TARGET_LIMIT <= base <= TARGET_LIMIT,
            forall|k: int|
                0 <= k < sums@.len() ==> -ENSEMBLE_LIMIT <= #[trigger] sums@[k] <= ENSEMBLE_LIMIT,
            i <= sums@.len(),
            preds@.len() == i,
            forall|k: int|
                0 <= k < i ==> #[trigger] preds@[k] == base + sums@[k] && -PRED_LIMIT <= preds@[k]
                    <= PRED_LIMIT,
        decreases sums@.len() - i,
    {
        assert(-ENSEMBLE_LIMIT <= sums@[i as int] <= ENSEMBLE_LIMIT);
        preds.push(base as i128 + sums[i]);
        i += 1;
    }
    preds
}

/// Adds to each running sum the learning rate times the tree's output for its row.
fn add_outputs(tree: &Tree, data: &Matrix<'_, i64>, rate: i128, sums: &mut Vec<i128>)
    requires
        data.wf(),
        tree.spec_cols() == data.cols,
        old(sums)@.len() == data.rows,
        -LIMIT <= rate <= LIMIT,
        forall|i: int|
            0 <= i < old(sums)@.len() ==> -(ENSEMBLE_LIMIT - TERM_LIMIT) <= #[trigger] old(sums)@[i]
                <= ENSEMBLE_LIMIT - TERM_LIMIT,
    ensures
        final(sums)@.len() == data.rows,
        forall|i: int|
            0 <= i < data.rows ==> #[trigger] final(sums)@[i] == old(sums)@[i] + mul_fixed(
                rate as int,
                tree_output(tree@, data.row(i)),
            ),
{
    let rows: usize = data.rows;
    let mut k: usize = 0;
    while k < rows
        invariant
            data.wf(),
            tree.spec_cols() == data.cols,
            rows == data.rows,
            sums@.len() == rows,
            old(sums)@.len() == rows,
            -LIMIT <= rate <= LIMIT,
            k <= rows,
            forall|j: int|
                0 <= j < k ==> #[trigger] sums@[j] == old(sums)@[j] + mul_fixed(
                    rate as int,
                    tree_output(tree@, data.row(j)),
                ),
            forall|j: int| k <= j < rows ==> #[trigger] sums@[j] == old(sums)@[j],
            forall|i: int|
                0 <= i < old(sums)@.len() ==> -(ENSEMBLE_LIMIT - TERM_LIMIT) <= #[trigger] old(
                    sums,
                )@[i] <= ENSEMBLE_LIMIT - TERM_LIMIT,
        decreases rows - k,
    {
        let row: &[i64] = data.get_row(k);
        let leaf: i128 = tree.output(row);
        let term: i128 = mul_scaled(rate, leaf);
        assert(sums@[k as int] == old(sums)@[k as int]);
        assert(-(ENSEMBLE_LIMIT - TERM_LIMIT) <= old(sums)@[k as int] <= ENSEMBLE_LIMIT - TERM_LIMIT);
        let updated: i128 = sums[k] + term;
        sums.set(k, updated);
        k += 1;
    }
}

/// Whether `sums` holds, for every row of `data`, the sum of the shares of
/// `trees`, all of them sound trees over the features of `data`.
pub open spec fn sums_match(
    data: Matrix<'_, i64>,
    rate: int,
    trees: Seq<Tree>,
    sums: Seq<i128>,
) -> bool {
    &&& sums.len() == data.rows
    &&& forall|t: int| 0 <= t < trees.len() ==> (#[trigger] trees[t]).spec_cols() == data.cols
    &&& forall|t: int|
        0 <= t < trees.len() ==> tree_wf(#[trigger] arenas(trees)[t], data.cols as int)
    &&& forall|i: int|
        0 <= i < data.rows ==> #[trigger] sums[i] == ensemble_sum(
            arenas(trees),
            rate,
            data.row(i),
            trees.len() as int,
        )
}

/// One round of boosting: grows the next tree and adds its share to the
/// running sums, unless a gradient is out of range.
fn boost_round(
    cfg: &BoosterConfig,
    binned: &crate::binning::BinnedData,
    data: &Matrix<'_, i64>,
    y: &[i64],
    base: i64,
    trees: &mut Vec<Tree>,
    sums: &mut Vec<i128>,
) -> (ok: bool)
    requires
        config_ok(*cfg),
        data.wf(),
        1 <= data.rows,
        y@.len() == data.rows,
        all_within(y@, -TARGET_LIMIT, TARGET_LIMIT as int),
        -TARGET_LIMIT <= base <= TARGET_LIMIT,
        binned@.wf(),
        binned@.rows == data.rows,
        binned@.cols == data.cols,
        old(trees)@.len() < MAX_TREES,
        sums_match(*data, cfg.learning_rate as int, old(trees)@, old(sums)@),
    ensures
        ok <==> cfg.objective_type.gradients_ok(
            predictions(base as int, cfg.learning_rate as int, arenas(old(trees)@), *data),
            y@,
        ),
        ok ==> {
            &&& final(trees)@.len() == old(trees)@.len() + 1
            &&& arenas(final(trees)@) == arenas(old(trees)@).push(
                round_tree(*cfg, binned@, *data, y@, base as int, arenas(old(trees)@)),
            )
            &&& sums_match(*data, cfg.learning_rate as int, final(trees)@, final(sums)@)
        },
{
    let rate: i128 = cfg.learning_rate as i128;
    let ghost before: Seq<Seq<Node>> = arenas(trees@);
    let ghost old_sums: Seq<i128> = sums@;
    let ghost round: int = trees@.len() as int;
    let ghost cols: int = data.cols as int;
    proof {
        assert forall|i: int| 0 <= i < data.rows implies -(ENSEMBLE_LIMIT - TERM_LIMIT)
            <= #[trigger] sums@[i] <= ENSEMBLE_LIMIT - TERM_LIMIT by {
            lemma_ensemble_limit(before, cols, rate as int, data.row(i), round);
        }
    }
    let preds: Vec<i128> = with_base(base, sums);
    assert(preds@ =~= predictions(base as int, rate as int, before, *data));
    let pair: (Vec<i64>, Vec<i64>) = match cfg.objective_type.grad_hess(y, &preds) {
        Some(pair) => pair,
        None => {
            return false;
        },
    };
    let grad: Vec<i64> = pair.0;
    let hess: Vec<i64> = pair.1;
    let splitter = Splitter {
        binned,
        grad: grad.as_slice(),
        hess: hess.as_slice(),
        l2: cfg.l2,
        gamma: cfg.gamma,
        min_leaf_weight: cfg.min_leaf_weight,
    };
    let tree: Tree = grow_tree(&splitter, cfg.max_depth, cfg.max_leaves);
    proof {
        use_type_invariant(&tree);
        assert(tree@ == round_tree(*cfg, binned@, *data, y@, base as int, before));
    }
    add_outputs(&tree, data, rate, sums);
    let ghost grown: Seq<Node> = tree@;
    trees.push(tree);
    proof {
        let after = arenas(trees@);
        assert(after =~= before.push(grown));
        assert forall|t: int| 0 <= t < trees@.len() implies tree_wf(
            #[trigger] arenas(trees@)[t],
            cols,
        ) by {
            if t < round {
                assert(after[t] == before[t]);
            }
        }
        assert forall|i: int| 0 <= i < data.rows implies #[trigger] sums@[i] == ensemble_sum(
            after,
            rate as int,
            data.row(i),
            round + 1,
        ) by {
            lemma_ensemble_prefix(after, before, rate as int, data.row(i), round);
            assert(old_sums[i] == ensemble_sum(before, rate as int, data.row(i), round));
            assert(after[round] == grown);
        }
    }
    true
}

/// A gradient boosted ensemble of decision trees.
pub struct GradientBooster {
    pub(crate) config: BoosterConfig,
    pub(crate) base: i64,
    pub(crate) n_features: Option<usize>,
    pub(crate) trees: Vec<Tree>,
}

impl GradientBooster {
    /// The hyperparameters.
    pub open(crate) spec fn spec_config(&self) -> BoosterConfig {
        self.config
    }

    /// The initial prediction in effect.
    pub open(crate) spec fn spec_base(&self) -> int {
        self.base as int
    }

    /// The number of features that the ensemble was fitted on, if it was.
    pub open(crate) spec fn spec_n_features(&self) -> Option<usize> {
        self.n_features
    }

    /// The arenas of the trees, in fitting order.
    pub open(crate) spec fn spec_trees(&self) -> Seq<Seq<Node>> {
        arenas(self.trees@)
    }

    /// The prediction of the booster for a row of raw feature values.
    pub open spec fn spec_predict(&self, row: Seq<i64>) -> int {
        predict_value(
            self.spec_base(),
            self.spec_config().learning_rate as int,
            self.spec_trees(),
            row,
        )
    }

    /// Whether the booster takes matrices of `cols` features: any before it
    /// is fitted, afterwards those of the width it was fitted on.
    pub open spec fn accepts(&self, cols: usize) -> bool {
        self.spec_n_features() is None || self.spec_n_features() == Some(cols)
    }

    /// There are at most `MAX_TREES` trees, all over the features that the
    /// booster was fitted on, and where there is a tree the learning rate is
    /// in range.
    #[verifier::type_invariant]
    pub open(crate) spec fn inv(&self) -> bool {
        &&& self.trees@.len() <= MAX_TREES
        &&& -TARGET_LIMIT <= self.base <= TARGET_LIMIT
        &&& self.trees@.len() > 0 ==> {
            &&& self.n_features is Some
            &&& 0 < self.config.learning_rate <= LIMIT
        }
        &&& forall|t: int|
            0 <= t < self.trees@.len() ==> (#[trigger] self.trees@[t]).spec_cols()
                == self.n_features->0
    }

    /// A booster with the given hyperparameters, each `None` replaced by its
    /// default: logistic loss, 100 rounds, learning rate 0.3, depth 5, no
    /// leaf budget, `l2` 1, `gamma` 0, no minimum leaf weight, a base score
    /// derived from the targets, 256 bins, parallel.
    ///
    /// Fails with `InvalidObjective` where the name of the loss is unknown.
    pub fn new(
        objective_type: Option<&str>,
        iterations: Option<usize>,
        learning_rate: Option<i64>,
        max_depth: Option<usize>,
        max_leaves: Option<usize>,
        l2: Option<i64>,
        gamma: Option<i64>,
        min_leaf_weight: Option<i64>,
        base_score: Option<i64>,
        nbins: Option<u16>,
        parallel: Option<bool>,
    ) -> (r: Result<Self, ForustError>)
        ensures
            match r {
                Ok(b) => {
                    &&& objective_type is Some ==> objective_named(objective_type->0@) is Ok
                    &&& b.spec_config() == config_from(
                        if objective_type is Some {
                            objective_named(objective_type->0@)->Ok_0
                        } else {
                            ObjectiveType::LogLoss
                        },
                        iterations,
                        learning_rate,
                        max_depth,
                        max_leaves,
                        l2,
                        gamma,
                        min_leaf_weight,
                        base_score,
                        nbins,
                        parallel,
                    )
                    &&& b.spec_trees() == Seq::<Seq<Node>>::empty()
                    &&& b.spec_n_features() is None
                    &&& b.spec_base() == 0
                },
                Err(e) => e == ForustError::InvalidObjective && objective_type is Some
                    && objective_named(objective_type->0@) is Err,
            },
    {
        let objective: ObjectiveType = match objective_type {
            None => ObjectiveType::LogLoss,
            Some(name) => match objective_from_name(name) {
                Ok(o) => o,
                Err(e) => {
                    return Err(e);
                },
            },
        };
        let config = BoosterConfig {
            objective_type: objective,
            iterations: match iterations {
                Some(x) => x,
                None => 100,
            },
            learning_rate: match learning_rate {
                Some(x) => x,
                None => 300_000,
            },
            max_depth: match max_depth {
                Some(x) => x,
                None => 5,
            },
            max_leaves: match max_leaves {
                Some(x) => x,
                None => usize::MAX,
            },
            l2: match l2 {
                Some(x) => x,
                None => 1_000_000,
            },
            gamma: match gamma {
                Some(x) => x,
                None => 0,
            },
            min_leaf_weight: match min_leaf_weight {
                Some(x) => x,
                None => 0,
            },
            base_score,
            nbins: match nbins {
                Some(x) => x,
                None => 256,
            },
            parallel: match parallel {
                Some(x) => x,
                None => true,
            },
        };
        let trees: Vec<Tree> = Vec::new();
        assert(arenas(trees@) =~= Seq::<Seq<Node>>::empty());
        Ok(GradientBooster { config, base: 0, n_features: None, trees })
    }

    /// The hyperparameters.
    pub fn config(&self) -> (cfg: BoosterConfig)
        ensures
            cfg == self.spec_config(),
    {
        self.config
    }

    /// The initial prediction in effect: zero before `fit`.
    pub fn base_score(&self) -> (base: i64)
        ensures
            base == self.spec_base(),
    {
        self.base
    }

    /// The trees, in fitting order.
    pub fn trees(&self) -> (trees: &Vec<Tree>)
        ensures
            arenas(trees@) == self.spec_trees(),
    {
        &self.trees
    }

    /// The text of every tree, in fitting order; see [`Tree::dump`].
    pub fn text_dump(&self) -> (out: Vec<String>)
        ensures
            out@.len() == self.spec_trees().len(),
            forall|t: int|
                0 <= t < out@.len() ==> (#[trigger] out@[t])@ == render_tree(self.spec_trees()[t]),
    {
        let mut out: Vec<String> = Vec::new();
        let mut t: usize = 0;
        while t < self.trees.len()
            invariant
                t <= self.trees@.len(),
                out@.len() == t,
                forall|k: int|
                    0 <= k < t ==> (#[trigger] out@[k])@ == render_tree(self.spec_trees()[k]),
            decreases self.trees@.len() - t,
        {
            out.push(self.trees[t].dump());
            t += 1;
        }
        out
    }

    /// Predicts every row of `data`: the base score plus the learning rate
    /// times the output of each tree.  `parallel` is advisory and does not
    /// change the result.
    ///
    /// Fails with `ShapeError` where the buffer does not have `rows * cols`
    /// values or the booster was fitted on another number of features.
    pub fn predict(&self, data: &Matrix<'_, i64>, parallel: bool) -> (r: Result<
        Vec<i128>,
        ForustError,
    >)
        ensures
            match r {
                Ok(out) => {
                    &&& data.wf()
                    &&& self.accepts(data.cols)
                    &&& out@.len() == data.rows
                    &&& forall|i: int|
                        0 <= i < out@.len() ==> #[trigger] out@[i] == self.spec_predict(data.row(i))
                },
                Err(e) => e == ForustError::ShapeError && !(data.wf() && self.accepts(data.cols)),
            },
    {
        proof {
            use_type_invariant(self);
        }
        if !data.is_valid() {
            return Err(ForustError::ShapeError);
        }
        match self.n_features {
            Some(n) => {
                if n != data.cols {
                    return Err(ForustError::ShapeError);
                }
            },
            None => {},
        }
        let rate: i128 = self.config.learning_rate as i128;
        let ghost views: Seq<Seq<Node>> = self.spec_trees();
        let mut out: Vec<i128> = Vec::new();
        let mut i: usize = 0;
        while i < data.rows
            invariant
                self.inv(),
                data.wf(),
                self.accepts(data.cols),
                rate == self.config.learning_rate,
                views == self.spec_trees(),
                i <= data.rows,
                out@.len() == i,
                forall|k: int| 0 <= k < i ==> #[trigger] out@[k] == self.spec_predict(data.row(k)),
            decreases data.rows - i,
        {
            let row: &[i64] = data.get_row(i);
            let mut acc: i128 = 0;
            let mut t: usize = 0;
            while t < self.trees.len()
                invariant
                    self.inv(),
                    self.accepts(data.cols),
                    rate == self.config.learning_rate,
                    views == self.spec_trees(),
                    row@.len() == data.cols,
                    t <= self.trees@.len(),
                    acc == ensemble_sum(views, rate as int, row@, t as int),
                    -t * TERM_LIMIT <= acc <= t * TERM_LIMIT,
                decreases self.trees@.len() - t,
            {
                let tree: &Tree = &self.trees[t];
                assert(tree.spec_cols() == self.n_features->0);
                let leaf: i128 = tree.output(row);
                let term: i128 = mul_scaled(rate, leaf);
                proof {
                    assert(views[t as int] == tree@);
                    assert((t + 1) * TERM_LIMIT == t * TERM_LIMIT + TERM_LIMIT) by (nonlinear_arith);
                    assert(-(t + 1) * TERM_LIMIT == -t * TERM_LIMIT - TERM_LIMIT)
                        by (nonlinear_arith);
                    assert(t * TERM_LIMIT <= 1_048_576 * TERM_LIMIT) by (nonlinear_arith)
                        requires
                            0 <= t <= 1_048_576,
                    ;
                    assert(-t * TERM_LIMIT >= -1_048_576 * TERM_LIMIT) by (nonlinear_arith)
                        requires
                            0 <= t <= 1_048_576,
                    ;
                }
                acc = acc + term;
                t += 1;
            }
            proof {
                assert(t * TERM_LIMIT <= 1_048_576 * TERM_LIMIT) by (nonlinear_arith)
                    requires
                        0 <= t <= 1_048_576,
                ;
                assert(-t * TERM_LIMIT >= -1_048_576 * TERM_LIMIT) by (nonlinear_arith)
                    requires
                        0 <= t <= 1_048_576,
                ;
            }
            out.push(self.base as i128 + acc);
            i += 1;
        }
        Ok(out)
    }

    /// Trains the ensemble: derives the base score, bins the matrix once,
    /// and grows `iterations` trees, each against the gradients and
    /// hessians of the predictions of the trees before it.  The trees of an
    /// earlier call are replaced.  `parallel` is advisory and does not
    /// change the result.
    ///
    /// Fails, leaving the booster as it was:
    /// with `InvalidInput` where a hyperparameter is out of range or a
    /// weight is negative or above `LIMIT`; with `FitError` where the data
    /// is empty or mismatched in length, where a target is beyond
    /// `TARGET_LIMIT`, where the targets admit no base score, or where a
    /// gradient leaves `LIMIT` in some round.
    pub fn fit(
        &mut self,
        data: &Matrix<'_, i64>,
        y: &[i64],
        sample_weight: &[i64],
        parallel: bool,
    ) -> (r: Result<(), ForustError>)
        ensures
            match fit_outcome(old(self).spec_config(), *data, y@, sample_weight@) {
                Ok(model) => {
                    &&& r is Ok
                    &&& final(self).spec_config() == old(self).spec_config()
                    &&& final(self).spec_base() == model.base
                    &&& final(self).spec_n_features() == Some(model.n_features as usize)
                    &&& final(self).spec_trees() == model.trees
                },
                Err(e) => r == Err::<(), ForustError>(e) && *final(self) == *old(self),
            },
    {
        let cfg: BoosterConfig = self.config;
        if !(0 < cfg.learning_rate && cfg.learning_rate <= LIMIT && 0 <= cfg.l2 && cfg.l2 <= LIMIT
            && 0 <= cfg.gamma && cfg.gamma <= LIMIT && 0 <= cfg.min_leaf_weight
            && cfg.min_leaf_weight <= LIMIT && cfg.nbins >= 1 && cfg.iterations <= MAX_TREES) {
            return Err(ForustError::InvalidInput);
        }
        match cfg.base_score {
            Some(b) => {
                if b < -TARGET_LIMIT || b > TARGET_LIMIT {
                    return Err(ForustError::InvalidInput);
                }
            },
            None => {},
        }
        if !data.is_valid() || data.rows == 0 || data.rows > MAX_ROWS || data.cols == 0 || y.len()
            != data.rows || sample_weight.len() != data.rows {
            return Err(ForustError::FitError);
        }
        if !values_within(sample_weight, 0, LIMIT) {
            return Err(ForustError::InvalidInput);
        }
        if !values_within(y, -TARGET_LIMIT, TARGET_LIMIT) {
            return Err(ForustError::FitError);
        }
        let base: i64 = match cfg.base_score {
            Some(b) => b,
            None => match cfg.objective_type.initial_value_of(y, sample_weight) {
                Some(b) => b,
                None => {
                    return Err(ForustError::FitError);
                },
            },
        };
        let binned = match bin_matrix(data, sample_weight, cfg.nbins) {
            Ok(b) => b,
            Err(_) => {
                // not reached: the checks above cover every reason for binning to fail
                return Err(ForustError::FitError);
            },
        };
        let rows: usize = data.rows;
        let cols: usize = data.cols;
        let rate: i128 = cfg.learning_rate as i128;
        let ghost bview: BinnedView = binned@;
        proof {
            lemma_binning_unique(
                *data,
                sample_weight@,
                cfg.nbins,
                bview,
                binning_of(*data, sample_weight@, cfg.nbins),
            );
        }
        let mut trees: Vec<Tree> = Vec::new();
        let mut sums: Vec<i128> = vec![0i128; rows];
        let mut round: usize = 0;
        assert(arenas(trees@) =~= Seq::<Seq<Node>>::empty());
        while round < cfg.iterations
            invariant
                config_ok(cfg),
                shapes_ok(*data, y@, sample_weight@),
                all_within(y@, -TARGET_LIMIT, TARGET_LIMIT as int),
                -TARGET_LIMIT <= base <= TARGET_LIMIT,
                *self == *old(self),
                cfg == old(self).spec_config(),
                all_within(sample_weight@, 0, LIMIT as int),
                base_for(cfg, y@, sample_weight@) == Some(base as int),
                bview == binning_of(*data, sample_weight@, cfg.nbins),
                bview == binned@,
                bview.wf(),
                bview.rows == data.rows,
                bview.cols == data.cols,
                round <= cfg.iterations,
                trees@.len() == round,
                sums_match(*data, cfg.learning_rate as int, trees@, sums@),
                boost(
                    cfg,
                    bview,
                    *data,
                    y@,
                    base as int,
                    arenas(trees@),
                    (cfg.iterations - round) as nat,
                ) == boost(
                    cfg,
                    bview,
                    *data,
                    y@,
                    base as int,
                    Seq::empty(),
                    cfg.iterations as nat,
                ),
            decreases cfg.iterations - round,
        {
            let ghost before: Seq<Seq<Node>> = arenas(trees@);
            let ghost left: nat = (cfg.iterations - round) as nat;
            let ok: bool = boost_round(&cfg, &binned, data, y, base, &mut trees, &mut sums);
            if !ok {
                assert(boost(cfg, bview, *data, y@, base as int, before, left) is None);
                return Err(ForustError::FitError);
            }
            assert(boost(cfg, bview, *data, y@, base as int, before, left) == boost(
                cfg,
                bview,
                *data,
                y@,
                base as int,
                arenas(trees@),
                (left - 1) as nat,
            ));
            round += 1;
        }
        *self = GradientBooster { config: cfg, base, n_features: Some(cols), trees };
        Ok(())
    }
}

} // verus!
