//! Mean, variance and standard deviation of a bin distribution, kept as exact
//! integer ratios: the mean is `index_sum / count` and the population variance
//! is `(count·square_sum − index_sum²) / count²`.

use vstd::prelude::*;
use crate::board::total;

verus! {

/// The largest value of `bins.len() * total(bins)` for which the statistics
/// are computed exactly in 128-bit integers.
pub const MAX_SPAN: u128 = 0x4000_0000_0000_0000;

/// Σ i·c_i over the bins: each bin index weighted by its count.
pub open spec fn index_sum(bins: Seq<usize>) -> int
    decreases bins.len(),
{
    if bins.len() == 0 {
        0
    } else {
        index_sum(bins.drop_last()) + (bins.len() - 1) * bins.last()
    }
}

/// Σ i²·c_i over the bins.
pub open spec fn square_sum(bins: Seq<usize>) -> int
    decreases bins.len(),
{
    if bins.len() == 0 {
        0
    } else {
        let i = bins.len() - 1;
        square_sum(bins.drop_last()) + i * i * bins.last()
    }
}

/// Σ (i·count − sum)²·c_i over the bins. With `count` the number of balls and
/// `sum` their index sum, this is `count²` times the sum of squared distances
/// of the balls from the mean, so the population variance is
/// `deviation_sum / count³`.
pub open spec fn deviation_sum(bins: Seq<usize>, count: int, sum: int) -> int
    decreases bins.len(),
{
    if bins.len() == 0 {
        0
    } else {
        let d = (bins.len() - 1) * count - sum;
        deviation_sum(bins.drop_last(), count, sum) + d * d * bins.last()
    }
}

/// The distributions whose statistics this library computes exactly.
pub open spec fn within_span(bins: Seq<usize>) -> bool {
    bins.len() * total(bins) <= MAX_SPAN
}

/// The statistics of a bin distribution, as exact integer quantities.
pub struct Statistics {
    /// The number of balls.
    pub count: u128,
    /// Σ i·c_i: the mean is `index_sum / count`.
    pub index_sum: u128,
    /// Σ i²·c_i: the variance is `(count·square_sum − index_sum²) / count²`.
    pub square_sum: u128,
}

impl Statistics {
    /// These are the statistics of `bins`.
    pub open spec fn describes(&self, bins: Seq<usize>) -> bool {
        &&& self.count == total(bins)
        &&& self.index_sum == index_sum(bins)
        &&& self.square_sum == square_sum(bins)
    }

    /// The ranges that the fields of computed statistics stay within.
    pub open spec fn bounded(&self) -> bool {
        &&& self.count <= MAX_SPAN
        &&& self.index_sum <= MAX_SPAN
        &&& self.count * self.square_sum <= MAX_SPAN * MAX_SPAN
        &&& self.index_sum * self.index_sum <= self.count * self.square_sum
    }

    /// `count²` times the population variance.
    pub open spec fn variance_numerator(&self) -> int {
        self.count * self.square_sum - self.index_sum * self.index_sum
    }

    /// The mean as a fraction `(numerator, denominator)`; zero when there is
    /// no ball.
    pub fn mean_fraction(&self) -> (r: (u128, u128))
        ensures
            r.0 == self.index_sum,
            r.1 == if self.count == 0 {
                1
            } else {
                self.count
            },
    {
        if self.count == 0 {
            (self.index_sum, 1)
        } else {
            (self.index_sum, self.count)
        }
    }

    /// The population variance as a fraction `(numerator, denominator)`;
    /// zero when there is no ball. The standard deviation is its square root.
    pub fn variance_fraction(&self) -> (r: (u128, u128))
        requires
            self.bounded(),
        ensures
            r.0 == self.variance_numerator(),
            r.1 == if self.count == 0 {
                1
            } else {
                self.count * self.count
            },
    {
        proof {
            lemma_product_bound(self.index_sum as int, self.index_sum as int, MAX_SPAN as int, MAX_SPAN as int);
            lemma_product_bound(self.count as int, self.count as int, MAX_SPAN as int, MAX_SPAN as int);
        }
        let numerator = self.count * self.square_sum - self.index_sum * self.index_sum;
        if self.count == 0 {
            (numerator, 1)
        } else {
            (numerator, self.count * self.count)
        }
    }
}

/// The variance kept by [`Statistics`] is the population variance of the
/// definition: `variance_numerator / count²` equals
/// `Σ (i − mean)²·c_i / count`, that is `deviation_sum / count³`.
pub proof fn lemma_variance_definition(bins: Seq<usize>, stats: Statistics)
    requires
        stats.describes(bins),
    ensures
        stats.count * stats.variance_numerator() == deviation_sum(
            bins,
            stats.count as int,
            stats.index_sum as int,
        ),
{
    let t = stats.count as int;
    let m = stats.index_sum as int;
    lemma_deviation_expanded(bins, t, m);
    assert(t * t * square_sum(bins) - 2 * t * m * m + m * m * t == t * (t * square_sum(bins) - m
        * m)) by (nonlinear_arith);
}

/// A distribution that holds no ball has index sum and square sum zero: its
/// mean, variance and standard deviation are all zero.
pub proof fn lemma_no_balls(bins: Seq<usize>, stats: Statistics)
    requires
        stats.describes(bins),
        stats.count == 0,
    ensures
        stats.index_sum == 0,
        stats.square_sum == 0,
        stats.variance_numerator() == 0,
{
    lemma_zero_total_sums(bins);
}

proof fn lemma_zero_total_sums(bins: Seq<usize>)
    requires
        total(bins) == 0,
    ensures
        index_sum(bins) == 0,
        square_sum(bins) == 0,
    decreases bins.len(),
{
    if bins.len() > 0 {
        lemma_zero_total_sums(bins.drop_last());
        let i = bins.len() - 1;
        assert(i * 0 == 0 && i * i * 0 == 0) by (nonlinear_arith);
    }
}

proof fn lemma_deviation_expanded(bins: Seq<usize>, t: int, m: int)
    ensures
        deviation_sum(bins, t, m) == t * t * square_sum(bins) - 2 * t * m * index_sum(bins) + m * m
            * total(bins),
    decreases bins.len(),
{
    if bins.len() > 0 {
        let rest = bins.drop_last();
        lemma_deviation_expanded(rest, t, m);
        let i = bins.len() - 1;
        let c = bins.last() as int;
        let (q, w, z) = (square_sum(rest), index_sum(rest), total(rest) as int);
        let a = i * t;
        assert((a - m) * (a - m) == a * a - 2 * (a * m) + m * m) by (nonlinear_arith);
        assert((a * a - 2 * (a * m) + m * m) * c == (a * a) * c - 2 * ((a * m) * c) + (m * m) * c)
            by (nonlinear_arith);
        assert((a * a) * c == (t * t) * (i * i * c)) by (nonlinear_arith)
            requires
                a == i * t,
        ;
        assert((a * m) * c == (t * m) * (i * c)) by (nonlinear_arith)
            requires
                a == i * t,
        ;
        assert(t * t * q + (t * t) * (i * i * c) == t * t * (q + i * i * c)) by (nonlinear_arith);
        assert(2 * t * m * w + 2 * ((t * m) * (i * c)) == 2 * t * m * (w + i * c))
            by (nonlinear_arith);
        assert(m * m * z + (m * m) * c == m * m * (z + c)) by (nonlinear_arith);
        assert(deviation_sum(bins, t, m) == deviation_sum(rest, t, m) + (a - m) * (a - m) * c);
        assert(square_sum(bins) == q + i * i * c);
        assert(index_sum(bins) == w + i * c);
        assert(total(bins) == z + c);
        let e = t * t * q - 2 * t * m * w + m * m * z + (t * t) * (i * i * c) - 2 * ((t * m) * (i
            * c)) + (m * m) * c;
        assert(deviation_sum(bins, t, m) == e);
        assert(e == t * t * (q + i * i * c) - 2 * t * m * (w + i * c) + m * m * (z + c));
    } else {
        assert(t * t * 0 - 2 * t * m * 0 + m * m * 0 == 0) by (nonlinear_arith);
    }
}

proof fn lemma_deviation_nonnegative(bins: Seq<usize>, t: int, m: int)
    ensures
        deviation_sum(bins, t, m) >= 0,
    decreases bins.len(),
{
    if bins.len() > 0 {
        lemma_deviation_nonnegative(bins.drop_last(), t, m);
        let d = (bins.len() - 1) * t - m;
        let c = bins.last() as int;
        assert(d * d * c >= 0) by (nonlinear_arith)
            requires
                c >= 0,
        ;
    }
}

/// The total of a prefix is at most the total of the whole.
pub proof fn lemma_total_prefix(bins: Seq<usize>, k: int)
    requires
        0 <= k <= bins.len(),
    ensures
        total(bins.take(k)) <= total(bins),
    decreases bins.len(),
{
    if k < bins.len() {
        assert(bins.take(k) =~= bins.drop_last().take(k));
        lemma_total_prefix(bins.drop_last(), k);
    } else {
        assert(bins.take(k) =~= bins);
    }
}

proof fn lemma_step_bound(w: int, q: int, k: int, t: int, c: int)
    by (nonlinear_arith)
    requires
        0 <= w <= k * t,
        0 <= q <= k * (k * t),
        0 <= k,
        0 <= t,
        0 <= c,
    ensures
        w + k * c <= (k + 1) * (t + c),
        q + k * (k * c) <= (k + 1) * ((k + 1) * (t + c)),
        0 <= k * c,
{
}

/// Products of non-negative integers grow with their factors.
pub proof fn lemma_product_bound(a: int, b: int, x: int, y: int)
    by (nonlinear_arith)
    requires
        0 <= a <= x,
        0 <= b <= y,
    ensures
        0 <= a * b <= x * y,
{
}

/// Whether the statistics of `bins` can be computed exactly.
pub fn is_within_span(bins: &[usize]) -> (r: bool)
    ensures
        r == within_span(bins@),
{
    let ghost s = bins@;
    let n: usize = bins.len();
    let mut count: u128 = 0;
    let mut k: usize = 0;
    while k < n
        invariant
            s == bins@,
            n == s.len(),
            k <= n,
            count == total(s.take(k as int)),
            count <= MAX_SPAN,
        decreases n - k,
    {
        assert(s.take(k + 1).drop_last() =~= s.take(k as int));
        count = count + bins[k] as u128;
        k = k + 1;
        if count > MAX_SPAN {
            proof {
                lemma_total_prefix(s, k as int);
                lemma_product_bound(1, total(s) as int, n as int, total(s) as int);
            }
            return false;
        }
    }
    assert(s.take(n as int) =~= s);
    proof {
        lemma_product_bound(n as int, count as int, usize::MAX as int, MAX_SPAN as int);
        assert(usize::MAX * MAX_SPAN < u128::MAX);
    }
    (n as u128) * count <= MAX_SPAN
}

/// Computes the count, the index sum and the square sum of `bins`.
pub fn calculate_statistics(bins: &[usize]) -> (stats: Statistics)
    requires
        within_span(bins@),
    ensures
        stats.describes(bins@),
        stats.bounded(),
{
    let n: usize = bins.len();
    let ghost s = bins@;
    proof {
        if n > 0 {
            lemma_product_bound(1, total(s) as int, n as int, total(s) as int);
        }
    }
    let mut count: u128 = 0;
    let mut sum: u128 = 0;
    let mut squares: u128 = 0;
    let mut k: usize = 0;
    while k < n
        invariant
            n == bins.len(),
            s == bins@,
            within_span(s),
            n > 0 ==> total(s) <= MAX_SPAN,
            k <= n,
            count == total(s.take(k as int)),
            sum == index_sum(s.take(k as int)),
            squares == square_sum(s.take(k as int)),
            sum <= k * count,
            squares <= k * (k * count),
        decreases n - k,
    {
        let c: usize = bins[k];
        proof {
            assert(s.take(k + 1).drop_last() =~= s.take(k as int));
            lemma_total_prefix(s, k + 1);
            lemma_step_bound(sum as int, squares as int, k as int, count as int, c as int);
            let t1 = total(s.take(k + 1)) as int;
            lemma_product_bound(k + 1, t1, n as int, total(s) as int);
            lemma_product_bound(k + 1, (k + 1) * t1, usize::MAX as int, MAX_SPAN as int);
            lemma_product_bound(k as int, c as int, k + 1, t1);
            lemma_product_bound(k as int, k * c, usize::MAX as int, MAX_SPAN as int);
            assert(usize::MAX * MAX_SPAN < u128::MAX);
            assert(k * (k * c) == k * k * c) by (nonlinear_arith);
        }
        let weighted: u128 = (k as u128) * (c as u128);
        sum = sum + weighted;
        squares = squares + (k as u128) * weighted;
        count = count + c as u128;
        k = k + 1;
    }
    assert(s.take(n as int) =~= s);
    proof {
        let t = count as int;
        let m = sum as int;
        let q = squares as int;
        let nn = n as int;
        assert(t * q <= (nn * t) * (nn * t)) by (nonlinear_arith)
            requires
                0 <= q <= nn * (nn * t),
                0 <= t,
                0 <= nn,
        ;
        lemma_product_bound(nn * t, nn * t, MAX_SPAN as int, MAX_SPAN as int);
        lemma_deviation_expanded(s, t, m);
        lemma_deviation_nonnegative(s, t, m);
        if t > 0 {
            assert(t * t * q - 2 * t * m * m + m * m * t == t * (t * q - m * m)) by (nonlinear_arith);
            assert(m * m <= t * q) by (nonlinear_arith)
                requires
                    t > 0,
                    t * (t * q - m * m) >= 0,
            ;
        } else {
            lemma_zero_total_sums(s);
        }
    }
    Statistics { count, index_sum: sum, square_sum: squares }
}

} // verus!
