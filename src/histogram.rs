use vstd::prelude::*;

verus! {

/// Number of histogram buckets spanning the normalized range `[0, 1]`.
pub const HISTOGRAM_BUCKETS: usize = 1024;

/// The bucket of raw value `v` once the grid is divided by its maximum `max`:
/// `floor(v / max * HISTOGRAM_BUCKETS)`, with the maximum itself in the last bucket.
pub open spec fn bucket_of(v: int, max: int) -> int {
    if max <= 0 {
        0
    } else {
        let b = v * HISTOGRAM_BUCKETS / max;
        if b < HISTOGRAM_BUCKETS { b } else { HISTOGRAM_BUCKETS - 1 }
    }
}

/// How many of `values` fall in bucket `b`.
pub open spec fn bucket_count(values: Seq<u64>, max: int, b: int) -> nat
    decreases values.len(),
{
    if values.len() == 0 {
        0
    } else {
        bucket_count(values.drop_last(), max, b) + if bucket_of(values.last() as int, max) == b {
            1nat
        } else {
            0nat
        }
    }
}

/// The histogram of `values`: bucket index to count.
pub open spec fn histogram_of(values: Seq<u64>, max: int) -> Seq<u64> {
    Seq::new(HISTOGRAM_BUCKETS as nat, |b: int| bucket_count(values, max, b) as u64)
}

/// Sum of the first `k` entries of `s`.
pub open spec fn prefix_sum(s: Seq<u64>, k: int) -> int
    decreases k,
{
    if k <= 0 || s.len() == 0 {
        0
    } else {
        prefix_sum(s, k - 1) + s[k - 1]
    }
}

/// The cumulative histogram: entry `k` counts the data in buckets `0..=k`.
pub open spec fn cumulated(s: Seq<u64>) -> Seq<u64> {
    Seq::new(s.len(), |k: int| prefix_sum(s, k + 1) as u64)
}

/// The largest value, or zero for no values.
pub open spec fn seq_max(s: Seq<u64>) -> u64
    decreases s.len(),
{
    if s.len() == 0 {
        0
    } else {
        let m = seq_max(s.drop_last());
        if s.last() > m { s.last() } else { m }
    }
}

/// The smallest value, starting from `init`.
pub open spec fn seq_min(s: Seq<u64>, init: u64) -> u64
    decreases s.len(),
{
    if s.len() == 0 {
        init
    } else {
        let m = seq_min(s.drop_last(), init);
        if s.last() < m { s.last() } else { m }
    }
}

proof fn lemma_bucket_in_range(v: int, max: int)
    requires
        v >= 0,
    ensures
        0 <= bucket_of(v, max) < HISTOGRAM_BUCKETS,
{
    if max > 0 {
        assert(v * HISTOGRAM_BUCKETS / max >= 0) by (nonlinear_arith)
            requires
                v >= 0,
                max > 0,
        ;
    }
}

proof fn lemma_bucket_count_bounded(values: Seq<u64>, max: int, b: int)
    ensures
        bucket_count(values, max, b) <= values.len(),
    decreases values.len(),
{
    if values.len() > 0 {
        lemma_bucket_count_bounded(values.drop_last(), max, b);
    }
}

proof fn lemma_prefix_sum_monotone(s: Seq<u64>, j: int, k: int)
    requires
        0 <= j <= k <= s.len(),
    ensures
        0 <= prefix_sum(s, j) <= prefix_sum(s, k),
    decreases k - j,
{
    if j < k {
        lemma_prefix_sum_monotone(s, j, k - 1);
    } else {
        lemma_prefix_sum_nonneg(s, j);
    }
}

proof fn lemma_prefix_sum_nonneg(s: Seq<u64>, k: int)
    ensures
        prefix_sum(s, k) >= 0,
    decreases k,
{
    if k > 0 && s.len() > 0 {
        lemma_prefix_sum_nonneg(s, k - 1);
    }
}

/// Counts of the first `k` buckets, summed.
spec fn counted_below(values: Seq<u64>, max: int, k: int) -> int
    decreases k,
{
    if k <= 0 {
        0
    } else {
        counted_below(values, max, k - 1) + bucket_count(values, max, k - 1)
    }
}

proof fn lemma_counted_below_push(values: Seq<u64>, max: int, v: u64, k: int)
    requires
        k >= 0,
    ensures
        counted_below(values.push(v), max, k) == counted_below(values, max, k) + if bucket_of(
            v as int,
            max,
        ) < k {
            1int
        } else {
            0int
        },
    decreases k,
{
    assert(values.push(v).drop_last() =~= values);
    if k > 0 {
        lemma_counted_below_push(values, max, v, k - 1);
    }
}

proof fn lemma_counted_all(values: Seq<u64>, max: int)
    ensures
        counted_below(values, max, HISTOGRAM_BUCKETS as int) == values.len(),
    decreases values.len(),
{
    if values.len() == 0 {
        lemma_counted_empty(values, max, HISTOGRAM_BUCKETS as int);
    } else {
        let rest = values.drop_last();
        lemma_counted_all(rest, max);
        assert(rest.push(values.last()) =~= values);
        lemma_counted_below_push(rest, max, values.last(), HISTOGRAM_BUCKETS as int);
        lemma_bucket_in_range(values.last() as int, max);
    }
}

proof fn lemma_counted_empty(values: Seq<u64>, max: int, k: int)
    requires
        values.len() == 0,
    ensures
        counted_below(values, max, k) == 0,
    decreases k,
{
    if k > 0 {
        lemma_counted_empty(values, max, k - 1);
    }
}

proof fn lemma_prefix_of_histogram(values: Seq<u64>, max: int, k: int)
    requires
        0 <= k <= HISTOGRAM_BUCKETS,
        values.len() <= u64::MAX,
    ensures
        prefix_sum(histogram_of(values, max), k) == counted_below(values, max, k),
    decreases k,
{
    if k > 0 {
        lemma_prefix_of_histogram(values, max, k - 1);
        lemma_bucket_count_bounded(values, max, k - 1);
    }
}

/// The cumulative histogram of any data never decreases from one bucket to
/// the next, starts at zero or more, and its last bucket counts every value:
/// the fraction it stands for is exactly one.
pub proof fn lemma_cumulative_histogram(values: Seq<u64>, max: int)
    requires
        values.len() <= u64::MAX,
    ensures
        forall|j: int, k: int|
            0 <= j <= k < HISTOGRAM_BUCKETS ==> #[trigger] cumulated(histogram_of(values, max))[j]
                <= #[trigger] cumulated(histogram_of(values, max))[k],
        cumulated(histogram_of(values, max))[0] >= 0,
        cumulated(histogram_of(values, max))[HISTOGRAM_BUCKETS - 1] == values.len(),
{
    let h = histogram_of(values, max);
    lemma_counted_all(values, max);
    lemma_prefix_of_histogram(values, max, HISTOGRAM_BUCKETS as int);
    assert forall|j: int, k: int| 0 <= j <= k < HISTOGRAM_BUCKETS implies #[trigger] cumulated(h)[j]
        <= #[trigger] cumulated(h)[k] by {
        lemma_prefix_sum_monotone(h, j + 1, k + 1);
        lemma_prefix_sum_monotone(h, k + 1, HISTOGRAM_BUCKETS as int);
    }
}

/// The histogram of `values` counts each value exactly once.
pub proof fn lemma_histogram_total(values: Seq<u64>, max: int)
    requires
        values.len() <= u64::MAX,
    ensures
        prefix_sum(histogram_of(values, max), HISTOGRAM_BUCKETS as int) == values.len(),
{
    lemma_counted_all(values, max);
    lemma_prefix_of_histogram(values, max, HISTOGRAM_BUCKETS as int);
}

/// The largest of `values`, zero when there are none.
pub fn max_value(values: &Vec<u64>) -> (r: u64)
    ensures
        r == seq_max(values@),
{
    let mut m: u64 = 0;
    let mut i: usize = 0;
    while i < values.len()
        invariant
            0 <= i <= values@.len(),
            m == seq_max(values@.take(i as int)),
        decreases values.len() - i,
    {
        assert(values@.take(i + 1).drop_last() =~= values@.take(i as int));
        if values[i] > m {
            m = values[i];
        }
        i = i + 1;
    }
    assert(values@.take(values@.len() as int) =~= values@);
    m
}

/// The smallest of `values` and `init`.
pub fn min_value(values: &Vec<u64>, init: u64) -> (r: u64)
    ensures
        r == seq_min(values@, init),
{
    let mut m: u64 = init;
    let mut i: usize = 0;
    while i < values.len()
        invariant
            0 <= i <= values@.len(),
            m == seq_min(values@.take(i as int), init),
        decreases values.len() - i,
    {
        assert(values@.take(i + 1).drop_last() =~= values@.take(i as int));
        if values[i] < m {
            m = values[i];
        }
        i = i + 1;
    }
    assert(values@.take(values@.len() as int) =~= values@);
    m
}

/// The bucket of `v` after division by `max`.
pub fn bucket_index(v: u64, max: u64) -> (r: usize)
    ensures
        r == bucket_of(v as int, max as int),
        r < HISTOGRAM_BUCKETS,
{
    proof {
        lemma_bucket_in_range(v as int, max as int);
    }
    if max == 0 {
        0
    } else {
        proof {
            assert(v as int * HISTOGRAM_BUCKETS <= u64::MAX as int * 1024) by (nonlinear_arith);
        }
        let b: u128 = v as u128 * HISTOGRAM_BUCKETS as u128 / max as u128;
        if b < HISTOGRAM_BUCKETS as u128 {
            b as usize
        } else {
            HISTOGRAM_BUCKETS - 1
        }
    }
}

/// Counts `values`, divided by `max`, into `HISTOGRAM_BUCKETS` buckets over `[0, 1]`.
pub fn compute_histogram(values: &Vec<u64>, max: u64) -> (r: Vec<u64>)
    ensures
        r@ == histogram_of(values@, max as int),
{
    let mut hist: Vec<u64> = Vec::new();
    let mut b: usize = 0;
    while b < HISTOGRAM_BUCKETS
        invariant
            0 <= b <= HISTOGRAM_BUCKETS,
            hist@.len() == b,
            forall|k: int| 0 <= k < b ==> hist@[k] == 0,
        decreases HISTOGRAM_BUCKETS - b,
    {
        hist.push(0);
        b = b + 1;
    }
    let mut i: usize = 0;
    while i < values.len()
        invariant
            0 <= i <= values@.len(),
            hist@.len() == HISTOGRAM_BUCKETS,
            forall|k: int|
                0 <= k < HISTOGRAM_BUCKETS ==> #[trigger] hist@[k] == bucket_count(
                    values@.take(i as int),
                    max as int,
                    k,
                ),
        decreases values.len() - i,
    {
        let ghost prefix = values@.take(i as int);
        assert(values@.take(i + 1).drop_last() =~= prefix);
        let k = bucket_index(values[i], max);
        proof {
            lemma_bucket_count_bounded(prefix, max as int, k as int);
        }
        let c = hist[k];
        hist.set(k, c + 1);
        i = i + 1;
    }
    assert(values@.take(values@.len() as int) =~= values@);
    assert(hist@ =~= histogram_of(values@, max as int));
    hist
}

/// Running sums of a histogram: entry `k` counts buckets `0..=k`.
pub fn cumulate_histogram(hist: &Vec<u64>) -> (r: Vec<u64>)
    requires
        prefix_sum(hist@, hist@.len() as int) <= u64::MAX,
    ensures
        r@ == cumulated(hist@),
{
    let mut out: Vec<u64> = Vec::new();
    let mut acc: u64 = 0;
    let mut k: usize = 0;
    while k < hist.len()
        invariant
            0 <= k <= hist@.len(),
            prefix_sum(hist@, hist@.len() as int) <= u64::MAX,
            acc == prefix_sum(hist@, k as int),
            out@.len() == k,
            forall|j: int| 0 <= j < k ==> out@[j] == cumulated(hist@)[j],
        decreases hist.len() - k,
    {
        proof {
            lemma_prefix_sum_monotone(hist@, k + 1, hist@.len() as int);
        }
        acc = acc + hist[k];
        out.push(acc);
        k = k + 1;
    }
    assert(out@ =~= cumulated(hist@));
    out
}

/// The cumulative distribution at the bucket of `v`, as a fixed-point
/// fraction of `one`: `cumulative[bucket] * one / cumulative[last]`, zero
/// when the histogram is empty.
pub open spec fn cdf_value(v: int, max: int, cumulative: Seq<u64>, one: int) -> int {
    let total = cumulative[cumulative.len() - 1] as int;
    if total == 0 {
        0
    } else {
        cumulative[bucket_of(v, max)] * one / total
    }
}

/// Looks up the cumulative distribution at the bucket of `v`, as a
/// fixed-point fraction with `one` standing for `1.0`.
pub fn get_histogram_value(v: u64, max: u64, cumulative: &Vec<u64>, one: u64) -> (r: u64)
    requires
        cumulative@.len() == HISTOGRAM_BUCKETS,
        forall|j: int, k: int|
            0 <= j <= k < HISTOGRAM_BUCKETS ==> #[trigger] cumulative@[j] <= #[trigger] cumulative@[k],
    ensures
        r == cdf_value(v as int, max as int, cumulative@, one as int),
        r <= one,
{
    let total = cumulative[HISTOGRAM_BUCKETS - 1];
    if total == 0 {
        0
    } else {
        let b = bucket_index(v, max);
        let c = cumulative[b];
        proof {
            assert(c <= total);
            assert(c as int * one as int <= total as int * one as int) by (nonlinear_arith)
                requires
                    c <= total,
            ;
            assert(c as int * one as int <= u64::MAX as int * u64::MAX as int) by (nonlinear_arith)
                requires
                    c <= u64::MAX,
                    one <= u64::MAX,
            ;
            vstd::arithmetic::div_mod::lemma_div_is_ordered(
                c as int * one as int,
                total as int * one as int,
                total as int,
            );
            vstd::arithmetic::div_mod::lemma_div_multiples_vanish(one as int, total as int);
            assert(total as int * one as int == one as int * total as int) by (nonlinear_arith);
        }
        (c as u128 * one as u128 / total as u128) as u64
    }
}

/// Histogram equalization keeps order: a larger raw value never gets a
/// smaller cumulative-distribution value, and every value lies in `[0, one]`.
pub proof fn lemma_cdf_monotone(values: Seq<u64>, max: int, v1: int, v2: int, one: int)
    requires
        values.len() <= u64::MAX,
        0 <= v1 <= v2,
        one >= 0,
    ensures
        cdf_value(v1, max, cumulated(histogram_of(values, max)), one) <= cdf_value(
            v2,
            max,
            cumulated(histogram_of(values, max)),
            one,
        ),
        0 <= cdf_value(v1, max, cumulated(histogram_of(values, max)), one) <= one,
{
    let c = cumulated(histogram_of(values, max));
    lemma_cumulative_histogram(values, max);
    lemma_bucket_in_range(v1, max);
    lemma_bucket_in_range(v2, max);
    let b1 = bucket_of(v1, max);
    let b2 = bucket_of(v2, max);
    if max > 0 {
        assert(v1 * HISTOGRAM_BUCKETS <= v2 * HISTOGRAM_BUCKETS) by (nonlinear_arith)
            requires
                v1 <= v2,
        ;
        vstd::arithmetic::div_mod::lemma_div_is_ordered(
            v1 * HISTOGRAM_BUCKETS,
            v2 * HISTOGRAM_BUCKETS,
            max,
        );
    }
    assert(b1 <= b2);
    let total = c[HISTOGRAM_BUCKETS - 1] as int;
    if total > 0 {
        assert(c[b1] <= c[b2]);
        assert(c[b2] <= total);
        assert(c[b1] * one <= c[b2] * one) by (nonlinear_arith)
            requires
                c[b1] <= c[b2],
                one >= 0,
        ;
        assert(c[b2] * one <= total * one) by (nonlinear_arith)
            requires
                c[b2] <= total,
                one >= 0,
        ;
        vstd::arithmetic::div_mod::lemma_div_is_ordered(c[b1] * one, c[b2] * one, total);
        vstd::arithmetic::div_mod::lemma_div_is_ordered(c[b1] * one, total * one, total);
        vstd::arithmetic::div_mod::lemma_div_multiples_vanish(one, total);
        assert(total * one == one * total) by (nonlinear_arith);
        vstd::arithmetic::div_mod::lemma_div_pos_is_pos(c[b1] * one, total);
    }
}

} // verus!
