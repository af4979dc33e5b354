//! Fixed-point numbers: an integer `x` stands for the real number `x / SCALE`.

use vstd::prelude::*;

verus! {

/// The integer that stands for the real number one.
pub const SCALE: i64 = 1_000_000;

/// Largest magnitude of a gradient, hessian, weight or hyperparameter (2^40).
pub const LIMIT: i64 = 1_099_511_627_776;

/// Largest magnitude of a target or a base score (2^39).
pub const TARGET_LIMIT: i64 = 549_755_813_888;

/// Largest number of rows in a training matrix (2^22).
pub const MAX_ROWS: usize = 4_194_304;

/// Largest number of trees in an ensemble (2^20).
pub const MAX_TREES: usize = 1_048_576;

/// Largest magnitude of a leaf output: `2^62 * SCALE`.
pub const LEAF_LIMIT: i128 = 4_611_686_018_427_387_904_000_000;

/// Division that rounds toward zero, for a positive divisor.
pub open spec fn div_trunc(a: int, b: int) -> int
    recommends
        b > 0,
{
    if a >= 0 {
        a / b
    } else {
        -((-a) / b)
    }
}

/// The fixed-point product of two fixed-point numbers, rounded toward zero.
pub open spec fn mul_fixed(a: int, b: int) -> int {
    div_trunc(a * b, SCALE as int)
}

/// `|div_trunc(a, b)| <= |a|` for a positive divisor.
pub(crate) proof fn lemma_div_trunc_bound(a: int, b: int)
    requires
        b > 0,
    ensures
        a >= 0 ==> 0 <= div_trunc(a, b) <= a,
        a <= 0 ==> a <= div_trunc(a, b) <= 0,
{
    if a >= 0 {
        vstd::arithmetic::div_mod::lemma_div_pos_is_pos(a, b);
        vstd::arithmetic::div_mod::lemma_div_is_ordered_by_denominator(a, 1, b);
    } else {
        vstd::arithmetic::div_mod::lemma_div_pos_is_pos(-a, b);
        vstd::arithmetic::div_mod::lemma_div_is_ordered_by_denominator(-a, 1, b);
    }
}

/// Whether every value of `vals` lies in `lo..=hi`.
pub open spec fn all_within(vals: Seq<i64>, lo: int, hi: int) -> bool {
    forall|i: int| 0 <= i < vals.len() ==> lo <= #[trigger] vals[i] <= hi
}

/// Whether every value of `vals` lies in `lo..=hi`.
pub fn values_within(vals: &[i64], lo: i64, hi: i64) -> (ok: bool)
    ensures
        ok == all_within(vals@, lo as int, hi as int),
{
    let mut i: usize = 0;
    while i < vals.len()
        invariant
            i <= vals@.len(),
            forall|k: int| 0 <= k < i ==> lo <= #[trigger] vals@[k] <= hi,
        decreases vals@.len() - i,
    {
        if vals[i] < lo || vals[i] > hi {
            return false;
        }
        i += 1;
    }
    true
}

/// Largest magnitude of a tree's share of a prediction: `LIMIT * 2^62` (2^102).
pub const TERM_LIMIT: i128 = 5_070_602_400_912_917_605_986_812_821_504;

/// A product of a rate and a leaf output is within `TERM_LIMIT`.
pub(crate) proof fn lemma_mul_fixed_bound(a: int, b: int)
    requires
        -LIMIT <= a <= LIMIT,
        -LEAF_LIMIT <= b <= LEAF_LIMIT,
    ensures
        -TERM_LIMIT <= mul_fixed(a, b) <= TERM_LIMIT,
        -TERM_LIMIT * SCALE <= a * b <= TERM_LIMIT * SCALE,
        b == 0 ==> mul_fixed(a, b) == 0,
{
    let bound: int = 5_070_602_400_912_917_605_986_812_821_504_000_000;
    assert(-bound <= a * b <= bound) by (nonlinear_arith)
        requires
            -1_099_511_627_776 <= a <= 1_099_511_627_776,
            -4_611_686_018_427_387_904_000_000 <= b <= 4_611_686_018_427_387_904_000_000,
            bound == 5_070_602_400_912_917_605_986_812_821_504_000_000,
    ;
    assert(bound / 1_000_000 == 5_070_602_400_912_917_605_986_812_821_504);
    if a * b >= 0 {
        vstd::arithmetic::div_mod::lemma_div_is_ordered(a * b, bound, 1_000_000);
        vstd::arithmetic::div_mod::lemma_div_pos_is_pos(a * b, 1_000_000);
    } else {
        vstd::arithmetic::div_mod::lemma_div_is_ordered(-(a * b), bound, 1_000_000);
        vstd::arithmetic::div_mod::lemma_div_pos_is_pos(-(a * b), 1_000_000);
    }
    if b == 0 {
        assert(a * b == 0) by (nonlinear_arith)
            requires
                b == 0,
        ;
    }
}

/// Computes the fixed-point product of a rate `a` and a leaf output `b`.
pub fn mul_scaled(a: i128, b: i128) -> (r: i128)
    requires
        -LIMIT <= a <= LIMIT,
        -LEAF_LIMIT <= b <= LEAF_LIMIT,
    ensures
        r == mul_fixed(a as int, b as int),
        -TERM_LIMIT <= r <= TERM_LIMIT,
{
    proof {
        lemma_mul_fixed_bound(a as int, b as int);
    }
    let p: i128 = a * b;
    p / 1_000_000
}

} // verus!
