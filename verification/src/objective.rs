//! Loss functions: per-sample gradient and hessian, and the initial prediction.

use vstd::prelude::*;

use vstd::arithmetic::power2::{lemma2_to64, lemma_pow2_strictly_increases, pow2};

use crate::errors::ForustError;
use crate::fixed::{
    all_within, div_trunc, lemma_div_trunc_bound, LIMIT, MAX_ROWS, SCALE, TARGET_LIMIT,
};

verus! {

/// The natural logarithm of two, as a fixed-point number.
pub const LN2: i64 = 693_147;

/// Largest magnitude of a prediction that a loss is asked about (2^123).
pub const PRED_LIMIT: i128 = 10_633_823_966_279_326_983_230_456_482_242_756_608;

/// The loss that training minimizes.
#[derive(Clone, Copy, Debug, PartialEq, Eq, Structural)]
pub enum ObjectiveType {
    /// Logistic loss, for targets that are zero or one.
    LogLoss,
    /// Squared error, for regression.
    SquaredLoss,
}

/// The loss that a name stands for.
pub open spec fn objective_named(name: Seq<char>) -> Result<ObjectiveType, ForustError> {
    if name == "LogLoss"@ {
        Ok(ObjectiveType::LogLoss)
    } else if name == "SquaredLoss"@ {
        Ok(ObjectiveType::SquaredLoss)
    } else {
        Err(ForustError::InvalidObjective)
    }
}

/// Reads the name of a loss: `"LogLoss"` or `"SquaredLoss"`; any other
/// name fails with `InvalidObjective`.
pub fn objective_from_name(name: &str) -> (r: Result<ObjectiveType, ForustError>)
    ensures
        r == objective_named(name@),
{
    let given: String = name.to_owned();
    let log_loss: String = "LogLoss".to_owned();
    let squared_loss: String = "SquaredLoss".to_owned();
    if given == log_loss {
        Ok(ObjectiveType::LogLoss)
    } else if given == squared_loss {
        Ok(ObjectiveType::SquaredLoss)
    } else {
        Err(ForustError::InvalidObjective)
    }
}

/// The series `1 - r/i * (1 - r/(i+1) * (...))` cut off after the tenth
/// factor: for `i = 1` the fixed-point value of `exp(-r)`.
pub open spec fn taylor(r: int, i: int) -> int
    decreases 11 - i,
{
    if i > 10 {
        SCALE as int
    } else {
        SCALE - (r * taylor(r, i + 1)) / (i * SCALE)
    }
}

/// `t` halved `k` times.
pub open spec fn halve(t: int, k: int) -> int
    decreases k,
{
    if k <= 0 {
        t
    } else {
        halve(t / 2, k - 1)
    }
}

/// The fixed-point value of `exp(-x)` for a fixed-point `x` that is not
/// negative: `x` is split into a multiple of `ln 2` and a rest, the series
/// gives the power of the rest, and each `ln 2` halves it.
pub open spec fn exp_neg(x: int) -> int {
    let k = x / (LN2 as int);
    let r = x % (LN2 as int);
    if k >= 20 {
        0
    } else {
        halve(taylor(r, 1), k)
    }
}

/// The fixed-point logistic function `1 / (1 + exp(-x))`.
pub open spec fn sigmoid(x: int) -> int {
    if x >= 0 {
        (SCALE * SCALE) / (SCALE + exp_neg(x))
    } else {
        SCALE - (SCALE * SCALE) / (SCALE + exp_neg(-x))
    }
}

/// How often `y` is doubled until it reaches one.
pub open spec fn doublings(y: int) -> int
    decreases 2 * SCALE - y,
{
    if y <= 0 || y >= SCALE {
        0
    } else {
        1 + doublings(2 * y)
    }
}

/// `y` doubled until it reaches one.
pub open spec fn doubled(y: int) -> int
    decreases 2 * SCALE - y,
{
    if y <= 0 || y >= SCALE {
        y
    } else {
        doubled(2 * y)
    }
}

/// Seven terms `p / 1 + p z^2 / 3 + p z^4 / 5 + ...` of the series of the
/// inverse hyperbolic tangent, from term `i` on.
pub open spec fn atanh_terms(p: int, z2: int, i: int) -> int
    decreases 7 - i,
{
    if i >= 7 {
        0
    } else {
        p / (2 * i + 1) + atanh_terms((p * z2) / (SCALE as int), z2, i + 1)
    }
}

/// The fixed-point natural logarithm of a fixed-point `y` between zero and
/// one: `y` is doubled into `[1, 2)`, where `ln m = 2 atanh((m - 1) / (m + 1))`.
pub open spec fn ln_unit(y: int) -> int {
    let m = doubled(y);
    let z = ((m - SCALE) * SCALE) / (m + SCALE);
    2 * atanh_terms(z, (z * z) / (SCALE as int), 0) - doublings(y) * LN2
}

/// The fixed-point log-odds `ln(m / (1 - m))` of a fixed-point `m` strictly
/// between zero and one.
pub open spec fn log_odds(m: int) -> int {
    ln_unit(m) - ln_unit(SCALE - m)
}

/// The sum of the first `k` weights.
pub open spec fn weight_total(w: Seq<i64>, k: int) -> int
    decreases k,
{
    if k <= 0 {
        0
    } else {
        weight_total(w, k - 1) + w[k - 1]
    }
}

/// The sum of the first `k` targets, each times its weight.
pub open spec fn weighted_total(w: Seq<i64>, y: Seq<i64>, k: int) -> int
    decreases k,
{
    if k <= 0 {
        0
    } else {
        weighted_total(w, y, k - 1) + w[k - 1] * y[k - 1]
    }
}

/// The weighted mean of the targets, rounded toward zero.
pub open spec fn weighted_mean(y: Seq<i64>, w: Seq<i64>) -> int {
    div_trunc(weighted_total(w, y, y.len() as int), weight_total(w, y.len() as int))
}

impl ObjectiveType {
    /// The derivative of the loss with respect to the prediction.
    pub open spec fn gradient(self, pred: int, y: int) -> int {
        match self {
            ObjectiveType::LogLoss => sigmoid(pred) - y,
            ObjectiveType::SquaredLoss => pred - y,
        }
    }

    /// The second derivative of the loss with respect to the prediction.
    pub open spec fn hessian(self, pred: int) -> int {
        match self {
            ObjectiveType::LogLoss => (sigmoid(pred) * (SCALE - sigmoid(pred))) / (SCALE as int),
            ObjectiveType::SquaredLoss => SCALE as int,
        }
    }

    /// Whether every gradient is within `LIMIT`.
    pub open spec fn gradients_ok(self, preds: Seq<i128>, y: Seq<i64>) -> bool {
        forall|i: int|
            0 <= i < y.len() ==> -LIMIT <= #[trigger] self.gradient(preds[i] as int, y[i] as int)
                <= LIMIT
    }

    /// The gradients of all samples.
    pub open spec fn gradients(self, preds: Seq<i128>, y: Seq<i64>) -> Seq<i64> {
        Seq::new(y.len(), |i: int| self.gradient(preds[i] as int, y[i] as int) as i64)
    }

    /// The hessians of all samples.
    pub open spec fn hessians(self, preds: Seq<i128>, y: Seq<i64>) -> Seq<i64> {
        Seq::new(y.len(), |i: int| self.hessian(preds[i] as int) as i64)
    }

    /// The prediction before any tree: for squared error the weighted mean
    /// of the targets, for logistic loss its log-odds.  There is none where
    /// the weights sum to zero, nor for logistic loss where the mean is not
    /// strictly between zero and one.
    pub open spec fn initial_value(self, y: Seq<i64>, w: Seq<i64>) -> Option<int> {
        if weight_total(w, y.len() as int) <= 0 {
            None
        } else {
            let mean = weighted_mean(y, w);
            match self {
                ObjectiveType::SquaredLoss => Some(mean),
                ObjectiveType::LogLoss => if 0 < mean < SCALE {
                    Some(log_odds(mean))
                } else {
                    None
                },
            }
        }
    }
}

/// The series stays between zero and one.
proof fn lemma_taylor_bounds(r: int, i: int)
    requires
        0 <= r <= LN2,
        1 <= i <= 11,
    ensures
        0 <= taylor(r, i) <= SCALE,
    decreases 11 - i,
{
    if i <= 10 {
        lemma_taylor_bounds(r, i + 1);
        let t = taylor(r, i + 1);
        let s = SCALE as int;
        assert(0 <= r * t <= s * s) by (nonlinear_arith)
            requires
                0 <= r <= s,
                0 <= t <= s,
        ;
        assert(s <= i * s) by (nonlinear_arith)
            requires
                1 <= i,
                s > 0,
        ;
        vstd::arithmetic::div_mod::lemma_div_pos_is_pos(r * t, i * s);
        vstd::arithmetic::div_mod::lemma_div_is_ordered(r * t, s * s, i * s);
        vstd::arithmetic::div_mod::lemma_div_is_ordered_by_denominator(s * s, s, i * s);
        vstd::arithmetic::div_mod::lemma_div_multiples_vanish(s, s);
    }
}

/// Halving a number that is not negative keeps it between zero and itself.
proof fn lemma_halve_bounds(t: int, k: int)
    requires
        0 <= t,
    ensures
        0 <= halve(t, k) <= t,
    decreases k,
{
    if k > 0 {
        lemma_halve_bounds(t / 2, k - 1);
    }
}

/// `exp(-x)` is between zero and one.
pub proof fn lemma_exp_neg_bounds(x: int)
    requires
        0 <= x,
    ensures
        0 <= exp_neg(x) <= SCALE,
{
    let k = x / (LN2 as int);
    let r = x % (LN2 as int);
    if k < 20 {
        lemma_taylor_bounds(r, 1);
        lemma_halve_bounds(taylor(r, 1), k);
    }
}

/// The logistic function is between zero and one.
pub proof fn lemma_sigmoid_bounds(x: int)
    ensures
        0 <= sigmoid(x) <= SCALE,
{
    let s = SCALE as int;
    let e = if x >= 0 {
        exp_neg(x)
    } else {
        exp_neg(-x)
    };
    if x >= 0 {
        lemma_exp_neg_bounds(x);
    } else {
        lemma_exp_neg_bounds(-x);
    }
    vstd::arithmetic::div_mod::lemma_div_pos_is_pos(s * s, s + e);
    vstd::arithmetic::div_mod::lemma_div_is_ordered_by_denominator(s * s, s, s + e);
    vstd::arithmetic::div_mod::lemma_div_multiples_vanish(s, s);
}

/// Computes the fixed-point value of `exp(-x)`.
pub fn exp_neg_of(x: i128) -> (e: i64)
    requires
        0 <= x,
    ensures
        e == exp_neg(x as int),
        0 <= e <= SCALE,
{
    let k: i128 = x / 693_147;
    let r: i128 = x % 693_147;
    proof {
        lemma_exp_neg_bounds(x as int);
    }
    if k >= 20 {
        return 0;
    }
    let mut t: i128 = 1_000_000;
    let mut i: i128 = 10;
    while i >= 1
        invariant
            0 <= r < LN2,
            0 <= i <= 10,
            t == taylor(r as int, i + 1),
            0 <= t <= SCALE,
        decreases i,
    {
        proof {
            lemma_taylor_bounds(r as int, i as int);
            assert(0 <= r * t <= 1_000_000 * 1_000_000) by (nonlinear_arith)
                requires
                    0 <= r <= 1_000_000,
                    0 <= t <= 1_000_000,
            ;
        }
        t = 1_000_000 - (r * t) / (i * 1_000_000);
        i -= 1;
    }
    let ghost full: int = t as int;
    let mut j: i128 = k;
    while j > 0
        invariant
            0 <= j <= k,
            0 <= t <= SCALE,
            halve(t as int, j as int) == halve(full, k as int),
        decreases j,
    {
        t = t / 2;
        j -= 1;
    }
    t as i64
}

/// Computes the fixed-point logistic function.
pub fn sigmoid_of(x: i128) -> (p: i64)
    ensures
        p == sigmoid(x as int),
        0 <= p <= SCALE,
{
    proof {
        lemma_sigmoid_bounds(x as int);
    }
    if x >= 0 {
        let e: i64 = exp_neg_of(x);
        (1_000_000 * 1_000_000) / (1_000_000 + e)
    } else if x == i128::MIN {
        // exp(x) is below the resolution: -x is more than twenty times ln 2
        assert((-(x as int)) / (LN2 as int) >= 20);
        assert(exp_neg(-(x as int)) == 0);
        assert((SCALE * SCALE) / (SCALE + 0) == SCALE);
        0
    } else {
        let e: i64 = exp_neg_of(-x);
        1_000_000 - (1_000_000 * 1_000_000) / (1_000_000 + e)
    }
}

/// Computes the fixed-point natural logarithm of `y`.
pub fn ln_unit_of(y: i64) -> (l: i64)
    requires
        1 <= y <= SCALE,
    ensures
        l == ln_unit(y as int),
        -20 * LN2 <= l <= 14 * SCALE,
{
    let mut m: i64 = y;
    let mut e: i64 = 0;
    let mut pow: i64 = 1;
    proof {
        lemma2_to64();
    }
    while m < 1_000_000
        invariant
            1 <= m < 2 * SCALE,
            0 <= e <= 20,
            pow == pow2(e as nat),
            1 <= pow <= m,
            doubled(y as int) == doubled(m as int),
            doublings(y as int) == e + doublings(m as int),
        decreases 2 * SCALE - m,
    {
        proof {
            lemma2_to64();
            if e >= 20 {
                if e > 20 {
                    lemma_pow2_strictly_increases(20, e as nat);
                }
                assert(pow2(e as nat) >= 1_048_576);
            }
            vstd::arithmetic::power2::lemma_pow2_unfold((e + 1) as nat);
        }
        m = 2 * m;
        e = e + 1;
        pow = 2 * pow;
    }
    let s: i64 = 1_000_000;
    proof {
        assert(0 <= (m - s) * s <= s * s) by (nonlinear_arith)
            requires
                s <= m < 2 * s,
                s > 0,
        ;
        vstd::arithmetic::div_mod::lemma_div_pos_is_pos((m - s) * s, (m + s) as int);
        vstd::arithmetic::div_mod::lemma_div_is_ordered((m - s) * s, s * s, (m + s) as int);
        vstd::arithmetic::div_mod::lemma_div_is_ordered_by_denominator(
            s * s,
            s as int,
            (m + s) as int,
        );
        vstd::arithmetic::div_mod::lemma_div_multiples_vanish(s as int, s as int);
    }
    let z: i64 = ((m - s) * s) / (m + s);
    proof {
        assert(0 <= z * z <= s * s) by (nonlinear_arith)
            requires
                0 <= z <= s,
        ;
        vstd::arithmetic::div_mod::lemma_div_pos_is_pos(z * z, s as int);
        vstd::arithmetic::div_mod::lemma_div_is_ordered(z * z, s * s, s as int);
    }
    let z2: i64 = (z * z) / s;
    let mut sum: i64 = 0;
    let mut p: i64 = z;
    let mut i: i64 = 0;
    while i < 7
        invariant
            s == SCALE,
            0 <= i <= 7,
            0 <= p <= SCALE,
            0 <= z2 <= SCALE,
            0 <= sum <= i * SCALE,
            atanh_terms(z as int, z2 as int, 0) == sum + atanh_terms(p as int, z2 as int, i as int),
        decreases 7 - i,
    {
        proof {
            assert(0 <= p * z2 <= s * s) by (nonlinear_arith)
                requires
                    0 <= p <= s,
                    0 <= z2 <= s,
            ;
            vstd::arithmetic::div_mod::lemma_div_pos_is_pos(p * z2, s as int);
            vstd::arithmetic::div_mod::lemma_div_is_ordered(p * z2, s * s, s as int);
            vstd::arithmetic::div_mod::lemma_div_multiples_vanish(s as int, s as int);
            vstd::arithmetic::div_mod::lemma_div_pos_is_pos(p as int, 2 * i + 1);
            vstd::arithmetic::div_mod::lemma_div_is_ordered_by_denominator(p as int, 1, 2 * i + 1);
        }
        sum = sum + p / (2 * i + 1);
        p = (p * z2) / s;
        i = i + 1;
    }
    2 * sum - e * 693_147
}

impl ObjectiveType {
    /// The gradient and the hessian of every sample, or `None` where a
    /// gradient leaves `-LIMIT..=LIMIT`.
    pub fn grad_hess(&self, y: &[i64], preds: &Vec<i128>) -> (r: Option<(Vec<i64>, Vec<i64>)>)
        requires
            y@.len() == preds@.len(),
            all_within(y@, -TARGET_LIMIT, TARGET_LIMIT as int),
            forall|i: int| 0 <= i < preds@.len() ==> -PRED_LIMIT <= #[trigger] preds@[i] <= PRED_LIMIT,
        ensures
            match r {
                Some(pair) => {
                    &&& self.gradients_ok(preds@, y@)
                    &&& pair.0@ == self.gradients(preds@, y@)
                    &&& pair.1@ == self.hessians(preds@, y@)
                    &&& all_within(pair.0@, -LIMIT, LIMIT as int)
                    &&& all_within(pair.1@, 0, LIMIT as int)
                },
                None => !self.gradients_ok(preds@, y@),
            },
    {
        let mut grad: Vec<i64> = Vec::new();
        let mut hess: Vec<i64> = Vec::new();
        let mut i: usize = 0;
        while i < y.len()
            invariant
                y@.len() == preds@.len(),
                all_within(y@, -TARGET_LIMIT, TARGET_LIMIT as int),
                forall|k: int|
                    0 <= k < preds@.len() ==> -PRED_LIMIT <= #[trigger] preds@[k] <= PRED_LIMIT,
                i <= y@.len(),
                grad@.len() == i,
                hess@.len() == i,
                forall|k: int|
                    0 <= k < i ==> -LIMIT <= #[trigger] self.gradient(
                        preds@[k] as int,
                        y@[k] as int,
                    ) <= LIMIT,
                forall|k: int|
                    0 <= k < i ==> #[trigger] grad@[k] == self.gradient(
                        preds@[k] as int,
                        y@[k] as int,
                    ),
                forall|k: int| 0 <= k < i ==> #[trigger] hess@[k] == self.hessian(preds@[k] as int),
                forall|k: int| 0 <= k < i ==> 0 <= #[trigger] hess@[k] <= LIMIT,
            decreases y@.len() - i,
        {
            let pred: i128 = preds[i];
            let target: i64 = y[i];
            assert(-TARGET_LIMIT <= y@[i as int] <= TARGET_LIMIT);
            let g: i128;
            let h: i64;
            match self {
                ObjectiveType::LogLoss => {
                    let p: i64 = sigmoid_of(pred);
                    proof {
                        assert(0 <= p * (1_000_000 - p) <= 1_000_000_000_000int)
                            by (nonlinear_arith)
                            requires
                                0 <= p <= 1_000_000,
                        ;
                        vstd::arithmetic::div_mod::lemma_div_pos_is_pos(
                            p * (1_000_000 - p),
                            1_000_000,
                        );
                        vstd::arithmetic::div_mod::lemma_div_is_ordered(
                            p * (1_000_000 - p),
                            1_000_000_000_000int,
                            1_000_000,
                        );
                        assert(1_000_000_000_000int / 1_000_000 == 1_000_000);
                    }
                    g = p as i128 - target as i128;
                    h = (p * (1_000_000 - p)) / 1_000_000;
                },
                ObjectiveType::SquaredLoss => {
                    g = pred - target as i128;
                    h = 1_000_000;
                },
            }
            if g < -(LIMIT as i128) || g > LIMIT as i128 {
                assert(!(-LIMIT <= self.gradient(preds@[i as int] as int, y@[i as int] as int)
                    <= LIMIT));
                return None;
            }
            grad.push(g as i64);
            hess.push(h);
            i += 1;
        }
        assert(grad@ =~= self.gradients(preds@, y@));
        assert(hess@ =~= self.hessians(preds@, y@));
        Some((grad, hess))
    }

    /// The prediction before any tree, or `None` where there is none.
    pub fn initial_value_of(&self, y: &[i64], w: &[i64]) -> (r: Option<i64>)
        requires
            y@.len() == w@.len(),
            y@.len() <= MAX_ROWS,
            all_within(y@, -TARGET_LIMIT, TARGET_LIMIT as int),
            all_within(w@, 0, LIMIT as int),
        ensures
            r is Some <==> self.initial_value(y@, w@) is Some,
            r is Some ==> r->0 == self.initial_value(y@, w@)->0 && -TARGET_LIMIT <= r->0
                <= TARGET_LIMIT,
    {
        let mut sw: i128 = 0;
        let mut swy: i128 = 0;
        let mut i: usize = 0;
        while i < y.len()
            invariant
                y@.len() == w@.len(),
                y@.len() <= MAX_ROWS,
                all_within(y@, -TARGET_LIMIT, TARGET_LIMIT as int),
                all_within(w@, 0, LIMIT as int),
                i <= y@.len(),
                sw == weight_total(w@, i as int),
                swy == weighted_total(w@, y@, i as int),
                0 <= sw <= i * LIMIT,
                -(TARGET_LIMIT * sw) <= swy <= TARGET_LIMIT * sw,
            decreases y@.len() - i,
        {
            let wi: i64 = w[i];
            let yi: i64 = y[i];
            proof {
                assert(0 <= w@[i as int] <= LIMIT);
                assert(-TARGET_LIMIT <= y@[i as int] <= TARGET_LIMIT);
                assert(i * LIMIT <= 4_194_304 * LIMIT) by (nonlinear_arith)
                    requires
                        0 <= i <= 4_194_304,
                ;
                assert((i + 1) * LIMIT == i * LIMIT + LIMIT) by (nonlinear_arith);
                assert(-(TARGET_LIMIT * wi) <= wi * yi <= TARGET_LIMIT * wi) by (nonlinear_arith)
                    requires
                        0 <= wi,
                        -TARGET_LIMIT <= yi <= TARGET_LIMIT,
                ;
                assert(TARGET_LIMIT * (sw + wi) == TARGET_LIMIT * sw + TARGET_LIMIT * wi)
                    by (nonlinear_arith);
                assert(TARGET_LIMIT * sw <= TARGET_LIMIT * (4_194_304 * LIMIT)) by (nonlinear_arith)
                    requires
                        0 <= sw <= 4_194_304 * LIMIT,
                ;
                assert(TARGET_LIMIT * wi <= TARGET_LIMIT * LIMIT) by (nonlinear_arith)
                    requires
                        0 <= wi <= LIMIT,
                ;
            }
            sw = sw + wi as i128;
            swy = swy + wi as i128 * yi as i128;
            i += 1;
        }
        if sw <= 0 {
            return None;
        }
        proof {
            lemma_div_trunc_bound(swy as int, sw as int);
            let q = div_trunc(swy as int, sw as int);
            if swy >= 0 {
                vstd::arithmetic::div_mod::lemma_div_is_ordered(
                    swy as int,
                    TARGET_LIMIT * sw,
                    sw as int,
                );
                vstd::arithmetic::div_mod::lemma_div_multiples_vanish(TARGET_LIMIT as int, sw as int);
                assert(TARGET_LIMIT * sw == sw * TARGET_LIMIT) by (nonlinear_arith);
            } else {
                vstd::arithmetic::div_mod::lemma_div_is_ordered(
                    -(swy as int),
                    TARGET_LIMIT * sw,
                    sw as int,
                );
                vstd::arithmetic::div_mod::lemma_div_multiples_vanish(TARGET_LIMIT as int, sw as int);
                assert(TARGET_LIMIT * sw == sw * TARGET_LIMIT) by (nonlinear_arith);
            }
        }
        let mean: i128 = swy / sw;
        match self {
            ObjectiveType::SquaredLoss => Some(mean as i64),
            ObjectiveType::LogLoss => {
                if 0 < mean && mean < 1_000_000 {
                    let a: i64 = ln_unit_of(mean as i64);
                    let b: i64 = ln_unit_of(1_000_000 - mean as i64);
                    Some(a - b)
                } else {
                    None
                }
            },
        }
    }
}

} // verus!
