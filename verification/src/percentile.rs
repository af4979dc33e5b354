//! Weighted percentiles by linear interpolation over a stable ascending order.

use vstd::prelude::*;

use crate::errors::ForustError;
use crate::fixed::{all_within, values_within, LIMIT, MAX_ROWS, SCALE};

verus! {

/// Largest denominator of a percentile given as a fraction (2^20).
pub const MAX_DENOMINATOR: i64 = 1_048_576;

/// Whether index `a` comes before index `b` when `v` is put in ascending
/// order and equal values keep the order in which they were given.
pub open spec fn precedes(v: Seq<i64>, a: int, b: int) -> bool {
    v[a] < v[b] || (v[a] == v[b] && a < b)
}

/// Whether `i` occurs in `idx`.
pub open spec fn occurs(idx: Seq<usize>, i: int) -> bool {
    exists|k: int| 0 <= k < idx.len() && (#[trigger] idx[k]) == i
}

/// Whether `idx` lists every index of `v` in stable ascending order of the values.
pub open spec fn is_stable_order(v: Seq<i64>, idx: Seq<usize>) -> bool {
    &&& idx.len() == v.len()
    &&& forall|k: int| 0 <= k < idx.len() ==> #[trigger] idx[k] < v.len()
    &&& forall|k: int, l: int|
        0 <= k < l < idx.len() ==> precedes(v, #[trigger] idx[k] as int, #[trigger] idx[l] as int)
    &&& forall|i: int| 0 <= i < v.len() ==> #[trigger] occurs(idx, i)
}

/// The stable ascending order of `v`.
pub open spec fn stable_order(v: Seq<i64>) -> Seq<usize> {
    choose|idx: Seq<usize>| is_stable_order(v, idx)
}

/// A sequence has one stable ascending order only.
pub proof fn lemma_stable_order_unique(v: Seq<i64>, a: Seq<usize>, b: Seq<usize>)
    requires
        is_stable_order(v, a),
        is_stable_order(v, b),
    ensures
        a == b,
{
    assert forall|k: int| 0 <= k < a.len() implies a[k] == b[k] by {
        lemma_orders_agree(v, a, b, k);
    }
    assert(a =~= b);
}

proof fn lemma_orders_agree(v: Seq<i64>, a: Seq<usize>, b: Seq<usize>, k: int)
    requires
        is_stable_order(v, a),
        is_stable_order(v, b),
        0 <= k < a.len(),
    ensures
        a[k] == b[k],
    decreases k,
{
    assert forall|j: int| 0 <= j < k implies a[j] == b[j] by {
        lemma_orders_agree(v, a, b, j);
    }
    if a[k] != b[k] {
        let x = a[k] as int;
        let y = b[k] as int;
        assert(x < v.len() && y < v.len());
        // x occurs in b at some place m, y occurs in a at some place l
        assert(occurs(b, x));
        assert(occurs(a, y));
        let m = choose|m: int| 0 <= m < b.len() && (#[trigger] b[m]) == x;
        let l = choose|l: int| 0 <= l < a.len() && (#[trigger] a[l]) == y;
        if m < k {
            assert(a[m] == b[m]);
            assert(precedes(v, a[m] as int, a[k] as int));
        }
        if l < k {
            assert(a[l] == b[l]);
            assert(precedes(v, b[l] as int, b[k] as int));
        }
        assert(m > k);
        assert(l > k);
        assert(precedes(v, b[k] as int, b[m] as int));
        assert(precedes(v, a[k] as int, a[l] as int));
    }
}

/// The weight that lies after the first value and up to the value at place
/// `k` of the order `idx`.
pub open spec fn cum_weight(w: Seq<i64>, idx: Seq<usize>, k: int) -> int
    decreases k,
{
    if k <= 0 {
        0
    } else {
        cum_weight(w, idx, k - 1) + w[idx[k] as int]
    }
}

/// The first place at or after `k` whose cumulative weight reaches the
/// fraction `num / den` of the whole; the last place where none does.
pub open spec fn first_reach(w: Seq<i64>, idx: Seq<usize>, num: int, den: int, k: int) -> int
    decreases idx.len() - k,
{
    let total = cum_weight(w, idx, idx.len() - 1);
    if k >= idx.len() - 1 || den * cum_weight(w, idx, k) >= num * total {
        k
    } else {
        first_reach(w, idx, num, den, k + 1)
    }
}

/// The percentile `num / den` of the values `v` with weights `w`, read in
/// the order `idx`: the value at the first place whose cumulative weight
/// reaches the fraction, moved back toward the value before it in
/// proportion to the weight by which the place overshoots.
pub open spec fn percentile_of(v: Seq<i64>, w: Seq<i64>, idx: Seq<usize>, num: int, den: int) -> int {
    let total = cum_weight(w, idx, idx.len() - 1);
    let pos = first_reach(w, idx, num, den, 0);
    if pos <= 0 {
        v[idx[0] as int] as int
    } else {
        let lo = v[idx[pos - 1] as int];
        let hi = v[idx[pos] as int];
        lo + ((hi - lo) * (num * total - den * cum_weight(w, idx, pos - 1))) / (den
            * w[idx[pos] as int])
    }
}

/// The weighted percentile `num / den` of `v` under weights `w`.
pub open spec fn weighted_percentile(v: Seq<i64>, w: Seq<i64>, num: int, den: int) -> int {
    percentile_of(v, w, stable_order(v), num, den)
}

/// The first place at or after `k`, among `n` equally weighted values,
/// that reaches the fraction `num / den`.
pub open spec fn first_reach_unweighted(n: int, num: int, den: int, k: int) -> int
    decreases n - k,
{
    if k >= n - 1 || den * k >= num * (n - 1) {
        k
    } else {
        first_reach_unweighted(n, num, den, k + 1)
    }
}

/// The percentile `num / den` of `v` without weights: linear interpolation
/// at position `(num / den) * (n - 1)` of the ascending values.
pub open spec fn unweighted_percentile(v: Seq<i64>, num: int, den: int) -> int {
    let idx = stable_order(v);
    let n = v.len() as int;
    let pos = first_reach_unweighted(n, num, den, 0);
    if pos <= 0 {
        v[idx[0] as int] as int
    } else {
        let lo = v[idx[pos - 1] as int];
        let hi = v[idx[pos] as int];
        lo + ((hi - lo) * (num * (n - 1) - den * (pos - 1))) / den
    }
}

/// Whether values and weights can be given to [`percentiles`]: as many
/// weights as values, at least one value and at most `MAX_ROWS`, and every
/// weight between zero and `LIMIT`.
pub open spec fn percentile_input_ok(v: Seq<i64>, w: Seq<i64>) -> bool {
    &&& v.len() == w.len()
    &&& 1 <= v.len() <= MAX_ROWS
    &&& all_within(w, 0, LIMIT as int)
}

/// What [`percentiles`] returns for well-formed input.
pub open spec fn percentiles_spec(v: Seq<i64>, w: Seq<i64>, p: Seq<i64>) -> Seq<i64> {
    Seq::new(p.len(), |j: int| weighted_percentile(v, w, p[j] as int, SCALE as int) as i64)
}

/// Cumulative weights are sums of weights: between zero and `k * LIMIT`,
/// and they do not decrease.
proof fn lemma_cum_weight_bounds(w: Seq<i64>, idx: Seq<usize>, j: int, k: int)
    requires
        all_within(w, 0, LIMIT as int),
        forall|i: int| 0 <= i < idx.len() ==> #[trigger] idx[i] < w.len(),
        0 <= j <= k < idx.len(),
    ensures
        0 <= cum_weight(w, idx, j) <= cum_weight(w, idx, k) <= k * LIMIT,
    decreases k,
{
    if k > 0 {
        assert(0 <= w[idx[k] as int] <= LIMIT);
        assert(k * LIMIT == (k - 1) * LIMIT + LIMIT) by (nonlinear_arith);
        if j < k {
            lemma_cum_weight_bounds(w, idx, j, k - 1);
        } else {
            lemma_cum_weight_bounds(w, idx, k - 1, k - 1);
        }
    }
}

/// Where no place before `k` reaches the fraction, the first place that
/// does is found from `k` on.
proof fn lemma_first_reach_skip(w: Seq<i64>, idx: Seq<usize>, num: int, den: int, k: int)
    requires
        0 <= k < idx.len(),
        forall|j: int|
            0 <= j < k ==> den * #[trigger] cum_weight(w, idx, j) < num * cum_weight(
                w,
                idx,
                idx.len() - 1,
            ),
    ensures
        first_reach(w, idx, num, den, 0) == first_reach(w, idx, num, den, k),
    decreases k,
{
    if k > 0 {
        lemma_first_reach_skip(w, idx, num, den, k - 1);
        assert(den * cum_weight(w, idx, k - 1) < num * cum_weight(w, idx, idx.len() - 1));
    }
}

/// Where the last value of `v` goes in the stable order `a` of the values
/// before it: behind every value that is not greater.
pub open spec fn insertion_place(v: Seq<i64>, a: Seq<usize>, k: int) -> int
    decreases k,
{
    if k > 0 && v[a[k - 1] as int] > v.last() {
        insertion_place(v, a, k - 1)
    } else {
        k
    }
}

/// Every value behind the insertion place is greater than the last value,
/// and the value before the place is not.
proof fn lemma_insertion_place(v: Seq<i64>, a: Seq<usize>, k: int)
    requires
        0 <= k <= a.len(),
    ensures
        0 <= insertion_place(v, a, k) <= k,
        forall|j: int| insertion_place(v, a, k) <= j < k ==> v[#[trigger] a[j] as int] > v.last(),
        insertion_place(v, a, k) > 0 ==> v[a[insertion_place(v, a, k) - 1] as int] <= v.last(),
    decreases k,
{
    if k > 0 && v[a[k - 1] as int] > v.last() {
        lemma_insertion_place(v, a, k - 1);
    }
}

/// Putting the last index at its place extends a stable order by one value.
proof fn lemma_insert_keeps_order(v: Seq<i64>, a: Seq<usize>, pos: int)
    requires
        1 <= v.len() <= usize::MAX,
        is_stable_order(v.drop_last(), a),
        0 <= pos <= a.len(),
        forall|k: int| pos <= k < a.len() ==> v[#[trigger] a[k] as int] > v.last(),
        pos > 0 ==> v[a[pos - 1] as int] <= v.last(),
    ensures
        is_stable_order(v, a.insert(pos, (v.len() - 1) as usize)),
{
    let i = v.len() - 1;
    let u = v.drop_last();
    let after = a.insert(pos, i as usize);
    assert forall|k: int| 0 <= k < after.len() implies #[trigger] after[k] < v.len() by {
        if k < pos {
            assert(after[k] == a[k]);
        } else if k > pos {
            assert(after[k] == a[k - 1]);
        }
    }
    assert forall|k: int, l: int| 0 <= k < l < after.len() implies precedes(
        v,
        #[trigger] after[k] as int,
        #[trigger] after[l] as int,
    ) by {
        let k0 = if k < pos {
            k
        } else {
            k - 1
        };
        let l0 = if l < pos {
            l
        } else {
            l - 1
        };
        if k != pos && l != pos {
            assert(after[k] == a[k0]);
            assert(after[l] == a[l0]);
            assert(precedes(u, a[k0] as int, a[l0] as int));
            assert(a[k0] < u.len() && a[l0] < u.len());
        } else if k == pos {
            assert(after[l] == a[l0]);
            assert(v[a[l0] as int] > v[i]);
        } else {
            assert(after[k] == a[k]);
            assert(a[k] < u.len());
            if k < pos - 1 {
                assert(precedes(u, a[k] as int, a[pos - 1] as int));
                assert(a[pos - 1] < u.len());
            }
        }
    }
    assert forall|j: int| 0 <= j < v.len() implies #[trigger] occurs(after, j) by {
        if j == i {
            assert(after[pos] == j);
        } else {
            assert(occurs(a, j));
            let k0 = choose|k: int| 0 <= k < a.len() && (#[trigger] a[k]) == j;
            if k0 < pos {
                assert(after[k0] == j);
            } else {
                assert(after[k0 + 1] == j);
            }
        }
    }
}

/// Every sequence has a stable ascending order.
pub proof fn lemma_stable_order_exists(v: Seq<i64>)
    requires
        v.len() <= usize::MAX,
    ensures
        is_stable_order(v, stable_order(v)),
    decreases v.len(),
{
    if v.len() == 0 {
        assert(is_stable_order(v, Seq::<usize>::empty()));
    } else {
        lemma_stable_order_exists(v.drop_last());
        let a = stable_order(v.drop_last());
        let pos = insertion_place(v, a, a.len() as int);
        lemma_insertion_place(v, a, a.len() as int);
        lemma_insert_keeps_order(v, a, pos);
    }
}

/// Whether `idx` lists every index from `lo` up to `hi` in stable ascending
/// order of the values.
pub open spec fn is_stable_run(v: Seq<i64>, idx: Seq<usize>, lo: int, hi: int) -> bool {
    &&& idx.len() == hi - lo
    &&& forall|k: int| 0 <= k < idx.len() ==> lo <= #[trigger] idx[k] < hi
    &&& forall|k: int, l: int|
        0 <= k < l < idx.len() ==> precedes(v, #[trigger] idx[k] as int, #[trigger] idx[l] as int)
    &&& forall|i: int| lo <= i < hi ==> #[trigger] occurs(idx, i)
}

/// Merges the stable orders of two adjoining ranges of indices into the
/// stable order of the whole range.
pub fn merge_runs(v: &[i64], a: &Vec<usize>, b: &Vec<usize>, lo: usize, mid: usize, hi: usize) -> (out:
    Vec<usize>)
    requires
        lo <= mid <= hi <= v@.len(),
        is_stable_run(v@, a@, lo as int, mid as int),
        is_stable_run(v@, b@, mid as int, hi as int),
    ensures
        is_stable_run(v@, out@, lo as int, hi as int),
{
    let mut out: Vec<usize> = Vec::new();
    let mut i: usize = 0;
    let mut j: usize = 0;
    while i < a.len() || j < b.len()
        invariant
            lo <= mid <= hi <= v@.len(),
            is_stable_run(v@, a@, lo as int, mid as int),
            is_stable_run(v@, b@, mid as int, hi as int),
            i <= a@.len(),
            j <= b@.len(),
            out@.len() == i + j,
            forall|k: int| 0 <= k < out@.len() ==> lo <= #[trigger] out@[k] < hi,
            forall|k: int, l: int|
                0 <= k < l < out@.len() ==> precedes(
                    v@,
                    #[trigger] out@[k] as int,
                    #[trigger] out@[l] as int,
                ),
            forall|k: int, m: int|
                0 <= k < out@.len() && i <= m < a@.len() ==> precedes(
                    v@,
                    #[trigger] out@[k] as int,
                    #[trigger] a@[m] as int,
                ),
            forall|k: int, m: int|
                0 <= k < out@.len() && j <= m < b@.len() ==> precedes(
                    v@,
                    #[trigger] out@[k] as int,
                    #[trigger] b@[m] as int,
                ),
            forall|m: int| 0 <= m < i ==> occurs(out@, #[trigger] a@[m] as int),
            forall|m: int| 0 <= m < j ==> occurs(out@, #[trigger] b@[m] as int),
        decreases a@.len() - i + b@.len() - j,
    {
        let ghost before: Seq<usize> = out@;
        let take_left: bool = if j >= b.len() {
            true
        } else if i >= a.len() {
            false
        } else {
            v[a[i]] <= v[b[j]]
        };
        if take_left {
            let x: usize = a[i];
            out.push(x);
            proof {
                assert forall|k: int, m: int|
                    0 <= k < out@.len() && i + 1 <= m < a@.len() implies precedes(
                    v@,
                    #[trigger] out@[k] as int,
                    #[trigger] a@[m] as int,
                ) by {
                    if k < before.len() {
                        assert(out@[k] == before[k]);
                    } else {
                        assert(precedes(v@, a@[i as int] as int, a@[m] as int));
                    }
                }
                assert forall|k: int, m: int|
                    0 <= k < out@.len() && j <= m < b@.len() implies precedes(
                    v@,
                    #[trigger] out@[k] as int,
                    #[trigger] b@[m] as int,
                ) by {
                    if k < before.len() {
                        assert(out@[k] == before[k]);
                    } else {
                        assert(a@[i as int] < mid);
                        assert(mid <= b@[m]);
                        if j < m {
                            assert(precedes(v@, b@[j as int] as int, b@[m] as int));
                        }
                    }
                }
                assert forall|k: int, l: int| 0 <= k < l < out@.len() implies precedes(
                    v@,
                    #[trigger] out@[k] as int,
                    #[trigger] out@[l] as int,
                ) by {
                    assert(out@[k] == before[k]);
                    if l < before.len() {
                        assert(out@[l] == before[l]);
                    } else {
                        assert(precedes(v@, before[k] as int, a@[i as int] as int));
                    }
                }
                assert forall|m: int| 0 <= m < i + 1 implies occurs(out@, #[trigger] a@[m] as int) by {
                    if m < i {
                        assert(occurs(before, a@[m] as int));
                        let k0 = choose|k: int| 0 <= k < before.len() && (#[trigger] before[k])
                            == a@[m];
                        assert(out@[k0] == a@[m]);
                    } else {
                        assert(out@[before.len() as int] == a@[m]);
                    }
                }
                assert forall|m: int| 0 <= m < j implies occurs(out@, #[trigger] b@[m] as int) by {
                    assert(occurs(before, b@[m] as int));
                    let k0 = choose|k: int| 0 <= k < before.len() && (#[trigger] before[k]) == b@[m];
                    assert(out@[k0] == b@[m]);
                }
            }
            i += 1;
        } else {
            let x: usize = b[j];
            out.push(x);
            proof {
                assert forall|k: int, m: int|
                    0 <= k < out@.len() && i <= m < a@.len() implies precedes(
                    v@,
                    #[trigger] out@[k] as int,
                    #[trigger] a@[m] as int,
                ) by {
                    if k < before.len() {
                        assert(out@[k] == before[k]);
                    } else {
                        if i < m {
                            assert(precedes(v@, a@[i as int] as int, a@[m] as int));
                        }
                    }
                }
                assert forall|k: int, m: int|
                    0 <= k < out@.len() && j + 1 <= m < b@.len() implies precedes(
                    v@,
                    #[trigger] out@[k] as int,
                    #[trigger] b@[m] as int,
                ) by {
                    if k < before.len() {
                        assert(out@[k] == before[k]);
                    } else {
                        assert(precedes(v@, b@[j as int] as int, b@[m] as int));
                    }
                }
                assert forall|k: int, l: int| 0 <= k < l < out@.len() implies precedes(
                    v@,
                    #[trigger] out@[k] as int,
                    #[trigger] out@[l] as int,
                ) by {
                    assert(out@[k] == before[k]);
                    if l < before.len() {
                        assert(out@[l] == before[l]);
                    } else {
                        assert(precedes(v@, before[k] as int, b@[j as int] as int));
                    }
                }
                assert forall|m: int| 0 <= m < i implies occurs(out@, #[trigger] a@[m] as int) by {
                    assert(occurs(before, a@[m] as int));
                    let k0 = choose|k: int| 0 <= k < before.len() && (#[trigger] before[k]) == a@[m];
                    assert(out@[k0] == a@[m]);
                }
                assert forall|m: int| 0 <= m < j + 1 implies occurs(out@, #[trigger] b@[m] as int) by {
                    if m < j {
                        assert(occurs(before, b@[m] as int));
                        let k0 = choose|k: int| 0 <= k < before.len() && (#[trigger] before[k])
                            == b@[m];
                        assert(out@[k0] == b@[m]);
                    } else {
                        assert(out@[before.len() as int] == b@[m]);
                    }
                }
            }
            j += 1;
        }
    }
    proof {
        assert forall|x: int| lo <= x < hi implies #[trigger] occurs(out@, x) by {
            if x < mid {
                assert(occurs(a@, x));
                let m = choose|m: int| 0 <= m < a@.len() && (#[trigger] a@[m]) == x;
                assert(occurs(out@, a@[m] as int));
            } else {
                assert(occurs(b@, x));
                let m = choose|m: int| 0 <= m < b@.len() && (#[trigger] b@[m]) == x;
                assert(occurs(out@, b@[m] as int));
            }
        }
    }
    out
}

/// The stable ascending order of the indices from `lo` up to `hi`, by merge sort.
pub fn sort_range(v: &[i64], lo: usize, hi: usize) -> (idx: Vec<usize>)
    requires
        lo <= hi <= v@.len(),
    ensures
        is_stable_run(v@, idx@, lo as int, hi as int),
    decreases hi - lo,
{
    if hi - lo == 0 {
        return Vec::new();
    }
    if hi - lo == 1 {
        let mut one: Vec<usize> = Vec::new();
        one.push(lo);
        assert(occurs(one@, lo as int)) by {
            assert(one@[0] == lo);
        }
        return one;
    }
    let mid: usize = lo + (hi - lo) / 2;
    let a: Vec<usize> = sort_range(v, lo, mid);
    let b: Vec<usize> = sort_range(v, mid, hi);
    merge_runs(v, &a, &b, lo, mid, hi)
}

/// Sorts the indices of `v` by value, keeping equal values in the order in which they were given.
pub fn argsort(v: &[i64]) -> (idx: Vec<usize>)
    ensures
        is_stable_order(v@, idx@),
        idx@ == stable_order(v@),
{
    let idx: Vec<usize> = sort_range(v, 0, v.len());
    proof {
        assert(is_stable_order(v@, idx@));
        lemma_stable_order_unique(v@, idx@, stable_order(v@));
    }
    idx
}

/// The cumulative weights along the order `idx`.
pub fn cumulative(w: &[i64], idx: &Vec<usize>) -> (cum: Vec<i128>)
    requires
        all_within(w@, 0, LIMIT as int),
        1 <= idx@.len() <= MAX_ROWS,
        forall|i: int| 0 <= i < idx@.len() ==> #[trigger] idx@[i] < w@.len(),
    ensures
        cum@.len() == idx@.len(),
        forall|k: int| 0 <= k < cum@.len() ==> #[trigger] cum@[k] == cum_weight(w@, idx@, k),
{
    let mut cum: Vec<i128> = Vec::new();
    cum.push(0);
    let mut acc: i128 = 0;
    let mut k: usize = 1;
    while k < idx.len()
        invariant
            all_within(w@, 0, LIMIT as int),
            1 <= idx@.len() <= MAX_ROWS,
            forall|i: int| 0 <= i < idx@.len() ==> #[trigger] idx@[i] < w@.len(),
            1 <= k <= idx@.len(),
            cum@.len() == k,
            acc == cum_weight(w@, idx@, k - 1),
            forall|j: int| 0 <= j < k ==> #[trigger] cum@[j] == cum_weight(w@, idx@, j),
        decreases idx@.len() - k,
    {
        proof {
            lemma_cum_weight_bounds(w@, idx@, k as int, k as int);
            assert(k * LIMIT <= 4_611_686_018_427_387_904) by (nonlinear_arith)
                requires
                    0 <= k <= 4_194_304,
                    LIMIT == 1_099_511_627_776,
            ;
        }
        acc = acc + w[idx[k]] as i128;
        cum.push(acc);
        k += 1;
    }
    cum
}

/// The percentile `num / den` of values `v` with weights `w`, given their
/// stable order and the cumulative weights along it.
pub fn percentile_from(
    v: &[i64],
    w: &[i64],
    idx: &Vec<usize>,
    cum: &Vec<i128>,
    num: i64,
    den: i64,
) -> (r: i64)
    requires
        percentile_input_ok(v@, w@),
        is_stable_order(v@, idx@),
        cum@.len() == idx@.len(),
        forall|k: int| 0 <= k < cum@.len() ==> #[trigger] cum@[k] == cum_weight(w@, idx@, k),
        0 <= num <= den,
        1 <= den <= MAX_DENOMINATOR,
    ensures
        r == percentile_of(v@, w@, idx@, num as int, den as int),
{
    let n: usize = idx.len();
    let ghost total: int = cum_weight(w@, idx@, n - 1);
    proof {
        lemma_cum_weight_bounds(w@, idx@, n - 1, n - 1);
        assert((n - 1) * LIMIT <= 4_611_686_018_427_387_904) by (nonlinear_arith)
            requires
                1 <= n <= 4_194_304,
                LIMIT == 1_099_511_627_776,
        ;
        assert(0 <= num * total <= 1_048_576 * 4_611_686_018_427_387_904) by (nonlinear_arith)
            requires
                0 <= num <= 1_048_576,
                0 <= total <= 4_611_686_018_427_387_904,
        ;
        assert(den * total >= num * total) by (nonlinear_arith)
            requires
                0 <= num <= den,
                0 <= total,
        ;
    }
    let target: i128 = num as i128 * cum[n - 1];
    let mut k: usize = 0;
    loop
        invariant
            percentile_input_ok(v@, w@),
            is_stable_order(v@, idx@),
            n == idx@.len(),
            cum@.len() == n,
            forall|j: int| 0 <= j < cum@.len() ==> #[trigger] cum@[j] == cum_weight(w@, idx@, j),
            0 <= num <= den,
            1 <= den <= MAX_DENOMINATOR,
            total == cum_weight(w@, idx@, n - 1),
            0 <= total <= 4_611_686_018_427_387_904,
            target == num * total,
            den * total >= num * total,
            k < n,
            forall|j: int| 0 <= j < k ==> den * #[trigger] cum_weight(w@, idx@, j) < num * total,
        ensures
            k < n,
            first_reach(w@, idx@, num as int, den as int, 0) == k,
            forall|j: int| 0 <= j < k ==> den * #[trigger] cum_weight(w@, idx@, j) < num * total,
            den * cum_weight(w@, idx@, k as int) >= num * total,
        decreases n - k,
    {
        proof {
            lemma_cum_weight_bounds(w@, idx@, k as int, n - 1);
            assert(0 <= den * cum_weight(w@, idx@, k as int) <= 1_048_576 * 4_611_686_018_427_387_904)
                by (nonlinear_arith)
                requires
                    1 <= den <= 1_048_576,
                    0 <= cum_weight(w@, idx@, k as int) <= 4_611_686_018_427_387_904,
            ;
            lemma_first_reach_skip(w@, idx@, num as int, den as int, k as int);
            assert(cum@[k as int] == cum_weight(w@, idx@, k as int));
        }
        let reached: bool = den as i128 * cum[k] >= target;
        if k + 1 >= n || reached {
            break ;
        }
        k += 1;
    }
    if k == 0 {
        return v[idx[0]];
    }
    let lo: i64 = v[idx[k - 1]];
    let hi: i64 = v[idx[k]];
    let wk: i64 = w[idx[k]];
    proof {
        assert(precedes(v@, idx@[k - 1] as int, idx@[k as int] as int));
        lemma_cum_weight_bounds(w@, idx@, k - 1, n - 1);
        assert(cum@[k - 1] == cum_weight(w@, idx@, k - 1));
        assert(den * cum_weight(w@, idx@, k - 1) < num * total);
        assert(cum_weight(w@, idx@, k as int) == cum_weight(w@, idx@, k - 1) + wk);
        assert(0 <= wk <= LIMIT);
        assert(den * cum_weight(w@, idx@, k as int) == den * cum_weight(w@, idx@, k - 1) + den * wk)
            by (nonlinear_arith)
            requires
                cum_weight(w@, idx@, k as int) == cum_weight(w@, idx@, k - 1) + wk,
        ;
        assert(0 <= den * cum_weight(w@, idx@, k - 1)) by (nonlinear_arith)
            requires
                1 <= den,
                0 <= cum_weight(w@, idx@, k - 1),
        ;
        assert(0 <= den * wk <= 1_048_576 * 1_099_511_627_776) by (nonlinear_arith)
            requires
                1 <= den <= 1_048_576,
                0 <= wk <= 1_099_511_627_776,
        ;
    }
    let diff: i128 = hi as i128 - lo as i128;
    let rem: i128 = target - den as i128 * cum[k - 1];
    let scale: i128 = den as i128 * wk as i128;
    proof {
        assert(0 < rem <= scale);
        assert(0 <= diff * rem <= diff * scale) by (nonlinear_arith)
            requires
                0 <= diff,
                0 < rem <= scale,
        ;
        assert(diff * scale <= 0x1_0000_0000_0000_0000 * (1_048_576 * 1_099_511_627_776))
            by (nonlinear_arith)
            requires
                0 <= diff <= 0x1_0000_0000_0000_0000,
                0 <= scale <= 1_048_576 * 1_099_511_627_776,
        ;
        vstd::arithmetic::div_mod::lemma_div_is_ordered(
            diff as int * rem as int,
            diff as int * scale as int,
            scale as int,
        );
        vstd::arithmetic::div_mod::lemma_div_multiples_vanish(diff as int, scale as int);
        vstd::arithmetic::div_mod::lemma_div_pos_is_pos(diff as int * rem as int, scale as int);
        assert(diff as int * scale as int == scale as int * diff as int) by (nonlinear_arith);
    }
    let q: i128 = (diff * rem) / scale;
    (lo as i128 + q) as i64
}

/// The weighted percentiles `p` (fixed-point fractions between zero and
/// one) of the values `v` under the weights `w`, one result per percentile.
///
/// Fails with `InvalidInput` where the lengths of `v` and `w` differ, where
/// there is no value or more than `MAX_ROWS`, where a weight is negative or
/// above `LIMIT`, or where a percentile lies outside `0..=SCALE`.
pub fn percentiles(v: &[i64], w: &[i64], p: &[i64]) -> (r: Result<Vec<i64>, ForustError>)
    ensures
        match r {
            Ok(out) => percentile_input_ok(v@, w@) && all_within(p@, 0, SCALE as int) && out@
                == percentiles_spec(v@, w@, p@),
            Err(e) => e == ForustError::InvalidInput && !(percentile_input_ok(v@, w@) && all_within(
                p@,
                0,
                SCALE as int,
            )),
        },
{
    if v.len() != w.len() || v.len() == 0 || v.len() > MAX_ROWS {
        return Err(ForustError::InvalidInput);
    }
    if !values_within(w, 0, LIMIT) || !values_within(p, 0, SCALE) {
        return Err(ForustError::InvalidInput);
    }
    let idx: Vec<usize> = argsort(v);
    let cum: Vec<i128> = cumulative(w, &idx);
    let mut out: Vec<i64> = Vec::new();
    let mut j: usize = 0;
    while j < p.len()
        invariant
            percentile_input_ok(v@, w@),
            all_within(p@, 0, SCALE as int),
            is_stable_order(v@, idx@),
            idx@ == stable_order(v@),
            cum@.len() == idx@.len(),
            forall|k: int| 0 <= k < cum@.len() ==> #[trigger] cum@[k] == cum_weight(w@, idx@, k),
            j <= p@.len(),
            out@.len() == j,
            forall|i: int|
                0 <= i < j ==> #[trigger] out@[i] == weighted_percentile(
                    v@,
                    w@,
                    p@[i] as int,
                    SCALE as int,
                ),
        decreases p@.len() - j,
    {
        assert(0 <= p@[j as int] <= SCALE);
        let x: i64 = percentile_from(v, w, &idx, &cum, p[j], SCALE);
        out.push(x);
        j += 1;
    }
    assert(out@ =~= percentiles_spec(v@, w@, p@));
    Ok(out)
}

/// Under equal weights `c`, the cumulative weight at place `k` is `c * k`.
proof fn lemma_equal_cum_weight(w: Seq<i64>, idx: Seq<usize>, c: int, k: int)
    requires
        forall|i: int| 0 <= i < w.len() ==> #[trigger] w[i] == c,
        forall|i: int| 0 <= i < idx.len() ==> #[trigger] idx[i] < w.len(),
        0 <= k < idx.len(),
    ensures
        cum_weight(w, idx, k) == c * k,
    decreases k,
{
    if k > 0 {
        lemma_equal_cum_weight(w, idx, c, k - 1);
        assert(w[idx[k] as int] == c);
        assert(c * k == c * (k - 1) + c) by (nonlinear_arith);
    } else {
        assert(c * k == 0) by (nonlinear_arith)
            requires
                k == 0,
        ;
    }
}

/// No place before the first that reaches the fraction reaches it.
proof fn lemma_first_reach_unweighted(n: int, num: int, den: int, k: int)
    requires
        0 <= k <= n - 1,
    ensures
        k <= first_reach_unweighted(n, num, den, k) <= n - 1,
        first_reach_unweighted(n, num, den, k) > k ==> den * (first_reach_unweighted(n, num, den, k)
            - 1) < num * (n - 1),
    decreases n - k,
{
    if !(k >= n - 1 || den * k >= num * (n - 1)) {
        lemma_first_reach_unweighted(n, num, den, k + 1);
    }
}

/// Under equal positive weights, the first place that reaches a fraction
/// is the one that reaches it without weights.
proof fn lemma_equal_first_reach(
    w: Seq<i64>,
    idx: Seq<usize>,
    c: int,
    num: int,
    den: int,
    k: int,
)
    requires
        c > 0,
        forall|i: int| 0 <= i < w.len() ==> #[trigger] w[i] == c,
        forall|i: int| 0 <= i < idx.len() ==> #[trigger] idx[i] < w.len(),
        0 <= k <= idx.len() - 1,
    ensures
        first_reach(w, idx, num, den, k) == first_reach_unweighted(idx.len() as int, num, den, k),
    decreases idx.len() - k,
{
    let n = idx.len() as int;
    lemma_equal_cum_weight(w, idx, c, k);
    lemma_equal_cum_weight(w, idx, c, n - 1);
    assert((den * (c * k) >= num * (c * (n - 1))) <==> (den * k >= num * (n - 1)))
        by (nonlinear_arith)
        requires
            c > 0,
    ;
    if !(k >= n - 1 || den * k >= num * (n - 1)) {
        lemma_equal_first_reach(w, idx, c, num, den, k + 1);
    }
}

/// Weights that are all equal and positive do not matter: the weighted
/// percentile is the percentile of the values alone.
pub proof fn lemma_equal_weights(v: Seq<i64>, w: Seq<i64>, c: int, num: int, den: int)
    requires
        v.len() == w.len(),
        1 <= v.len() <= usize::MAX,
        c > 0,
        forall|i: int| 0 <= i < w.len() ==> #[trigger] w[i] == c,
        0 <= num <= den,
        1 <= den,
    ensures
        weighted_percentile(v, w, num, den) == unweighted_percentile(v, num, den),
{
    lemma_stable_order_exists(v);
    let idx = stable_order(v);
    let n = v.len() as int;
    lemma_equal_first_reach(w, idx, c, num, den, 0);
    lemma_first_reach_unweighted(n, num, den, 0);
    let pos = first_reach_unweighted(n, num, den, 0);
    if pos > 0 {
        lemma_equal_cum_weight(w, idx, c, pos - 1);
        lemma_equal_cum_weight(w, idx, c, n - 1);
        assert(w[idx[pos] as int] == c);
        let lo = v[idx[pos - 1] as int] as int;
        let hi = v[idx[pos] as int] as int;
        assert(precedes(v, idx[pos - 1] as int, idx[pos] as int));
        let x = num * (n - 1) - den * (pos - 1);
        assert(x > 0);
        let whole = num * (n - 1);
        let passed = den * (pos - 1);
        let d = hi - lo;
        let last = n - 1;
        let prev = pos - 1;
        assert(num * (c * last) == c * whole) by (nonlinear_arith)
            requires
                whole == num * last,
        ;
        assert(den * (c * prev) == c * passed) by (nonlinear_arith)
            requires
                passed == den * prev,
        ;
        assert(c * whole - c * passed == c * x) by (nonlinear_arith)
            requires
                x == whole - passed,
        ;
        assert(d * (c * x) == c * (d * x)) by (nonlinear_arith);
        assert(den * c == c * den) by (nonlinear_arith);
        assert((hi - lo) * x >= 0) by (nonlinear_arith)
            requires
                hi - lo >= 0,
                x > 0,
        ;
        vstd::arithmetic::div_mod::lemma_div_multiples_vanish_quotient(c, (hi - lo) * x, den);
    }
}

} // verus!
