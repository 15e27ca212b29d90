//! The visualizer: one histogram row per bin, with bars scaled to the fullest
//! bin and a marker for bins that lie more than one and a half standard
//! deviations from the mean.

use vstd::prelude::*;
use vstd::arithmetic::div_mod::{lemma_div_is_ordered, lemma_div_multiples_vanish};
use crate::stats::{Statistics, MAX_SPAN, lemma_product_bound};

verus! {

/// The width of the bar of the fullest bin.
pub const MAX_BAR_WIDTH: usize = 40;

/// The largest entry of a distribution; zero when it is empty.
pub open spec fn max_count(bins: Seq<usize>) -> nat
    decreases bins.len(),
{
    if bins.len() == 0 {
        0
    } else {
        let m = max_count(bins.drop_last());
        if bins.last() > m {
            bins.last() as nat
        } else {
            m
        }
    }
}

/// The length of the bar of a bin holding `count` balls when the fullest bin
/// holds `max`: `count / max` of the full width, rounded down.
pub open spec fn bar_length(count: nat, max: nat) -> nat {
    if max > 0 {
        (count * MAX_BAR_WIDTH) as nat / max
    } else {
        0
    }
}

/// Whether bin `i` lies outside the band of one and a half standard
/// deviations round the mean: `|i − mean| > 1.5·sd`. With mean
/// `index_sum / count` and variance `variance_numerator / count²` this is
/// `4·(i·count − index_sum)² > 9·variance_numerator`. With no ball the mean
/// and the deviation are zero, and every bin but the first is outside.
pub open spec fn outside_band(i: int, stats: Statistics) -> bool {
    if stats.count == 0 {
        i > 0
    } else {
        let d = i * stats.count - stats.index_sum;
        4 * (d * d) > 9 * stats.variance_numerator()
    }
}

/// One line of the histogram.
pub struct HistogramRow {
    /// The bin index.
    pub index: usize,
    /// The number of balls in the bin.
    pub count: usize,
    /// The length of the bar.
    pub bar_length: usize,
    /// Whether the bin lies outside the band round the mean.
    pub outside: bool,
}

impl HistogramRow {
    /// The character the bar is drawn with: `~` outside the band, `#` inside.
    pub fn bar_char(&self) -> (c: char)
        ensures
            c == if self.outside {
                '~'
            } else {
                '#'
            },
    {
        if self.outside {
            '~'
        } else {
            '#'
        }
    }

    /// The bar: `bar_length` copies of the bar character.
    pub fn bar(&self) -> (b: Vec<char>)
        ensures
            b.len() == self.bar_length,
            forall|k: int| 0 <= k < b.len() ==> b[k] == if self.outside {
                '~'
            } else {
                '#'
            },
    {
        let c = self.bar_char();
        let mut b: Vec<char> = Vec::new();
        while b.len() < self.bar_length
            invariant
                b.len() <= self.bar_length,
                c == if self.outside {
                    '~'
                } else {
                    '#'
                },
                forall|k: int| 0 <= k < b.len() ==> b[k] == c,
            decreases self.bar_length - b.len(),
        {
            b.push(c);
        }
        b
    }
}

/// The maximum bounds every entry, and is an entry unless it is zero.
pub proof fn lemma_max_count(bins: Seq<usize>)
    ensures
        forall|j: int| 0 <= j < bins.len() ==> bins[j] <= max_count(bins),
        max_count(bins) == 0 || exists|j: int| 0 <= j < bins.len() && bins[j] == max_count(bins),
    decreases bins.len(),
{
    if bins.len() > 0 {
        let rest = bins.drop_last();
        lemma_max_count(rest);
        assert forall|j: int| 0 <= j < bins.len() implies bins[j] <= max_count(bins) by {
            if j < rest.len() {
                assert(rest[j] == bins[j]);
            }
        }
        if max_count(bins) != 0 && bins.last() <= max_count(rest) {
            let j = choose|j: int| 0 <= j < rest.len() && rest[j] == max_count(rest);
            assert(bins[j] == max_count(bins));
        }
    }
}

/// The fullest bin, when it holds any ball, gets a bar of the full width, and
/// an empty bin gets no bar.
pub proof fn lemma_bar_extremes(bins: Seq<usize>, j: int)
    requires
        0 <= j < bins.len(),
    ensures
        bins[j] == max_count(bins) && max_count(bins) > 0 ==> bar_length(
            bins[j] as nat,
            max_count(bins),
        ) == MAX_BAR_WIDTH,
        bins[j] == 0 ==> bar_length(bins[j] as nat, max_count(bins)) == 0,
{
    let m = max_count(bins);
    if m > 0 {
        lemma_div_multiples_vanish(MAX_BAR_WIDTH as int, m as int);
        assert(m * MAX_BAR_WIDTH == m as int * MAX_BAR_WIDTH as int);
    }
}

/// Finds the largest entry of `bins`, zero when it is empty.
pub fn max_bin_count(bins: &[usize]) -> (m: usize)
    ensures
        m == max_count(bins@),
{
    let mut m: usize = 0;
    let mut k: usize = 0;
    while k < bins.len()
        invariant
            k <= bins.len(),
            m == max_count(bins@.take(k as int)),
        decreases bins.len() - k,
    {
        assert(bins@.take(k + 1).drop_last() =~= bins@.take(k as int));
        if bins[k] > m {
            m = bins[k];
        }
        k = k + 1;
    }
    assert(bins@.take(k as int) =~= bins@);
    m
}

/// Scales a bin count to a bar length, rounding down.
pub fn scaled_bar_length(count: usize, max: usize) -> (len: usize)
    requires
        count <= max,
    ensures
        len == bar_length(count as nat, max as nat),
        len <= MAX_BAR_WIDTH,
{
    if max > 0 {
        proof {
            lemma_div_is_ordered(count * MAX_BAR_WIDTH, max * MAX_BAR_WIDTH, max as int);
            lemma_div_multiples_vanish(MAX_BAR_WIDTH as int, max as int);
            assert(max * MAX_BAR_WIDTH == max as int * MAX_BAR_WIDTH as int);
        }
        ((count as u128) * (MAX_BAR_WIDTH as u128) / (max as u128)) as usize
    } else {
        0
    }
}

/// Decides whether bin `index` lies outside the band round the mean.
pub fn is_outside_band(index: usize, stats: &Statistics) -> (r: bool)
    requires
        stats.bounded(),
    ensures
        r == outside_band(index as int, *stats),
{
    if stats.count == 0 {
        index > 0
    } else {
        proof {
            lemma_product_bound(index as int, stats.count as int, usize::MAX as int, MAX_SPAN as int);
            assert(usize::MAX * MAX_SPAN < u128::MAX);
        }
        let scaled: u128 = (index as u128) * stats.count;
        let d: u128 = if scaled >= stats.index_sum {
            scaled - stats.index_sum
        } else {
            stats.index_sum - scaled
        };
        let (variance, _) = stats.variance_fraction();
        let ghost m = MAX_SPAN as int;
        let ghost e = index as int * stats.count - stats.index_sum;
        proof {
            assert(e * e == d * d) by (nonlinear_arith)
                requires
                    d == (if e >= 0 {
                        e
                    } else {
                        -e
                    }),
            ;
            assert(variance <= m * m);
        }
        if d > 2 * MAX_SPAN {
            proof {
                assert(d * d > 4 * (m * m)) by (nonlinear_arith)
                    requires
                        d > 2 * m,
                        m > 0,
                ;
            }
            true
        } else {
            proof {
                lemma_product_bound(d as int, d as int, 2 * m, 2 * m);
                assert((2 * m) * (2 * m) == 4 * (m * m)) by (nonlinear_arith);
            }
            d * d > 9 * variance / 4
        }
    }
}

/// Builds the histogram rows of `bins`, one per bin in ascending order.
pub fn visualize_distribution(bins: &[usize], stats: &Statistics) -> (rows: Vec<HistogramRow>)
    requires
        stats.bounded(),
    ensures
        rows.len() == bins.len(),
        forall|i: int|
            0 <= i < rows.len() ==> {
                &&& (#[trigger] rows[i]).index == i
                &&& rows[i].count == bins[i]
                &&& rows[i].bar_length == bar_length(bins[i] as nat, max_count(bins@))
                &&& rows[i].outside == outside_band(i, *stats)
            },
{
    let max = max_bin_count(bins);
    proof {
        lemma_max_count(bins@);
    }
    let mut rows: Vec<HistogramRow> = Vec::new();
    let mut i: usize = 0;
    while i < bins.len()
        invariant
            i <= bins.len(),
            rows.len() == i,
            max == max_count(bins@),
            stats.bounded(),
            forall|j: int| 0 <= j < bins.len() ==> bins[j] <= max_count(bins@),
            forall|j: int|
                0 <= j < i ==> {
                    &&& (#[trigger] rows[j]).index == j
                    &&& rows[j].count == bins[j]
                    &&& rows[j].bar_length == bar_length(bins[j] as nat, max_count(bins@))
                    &&& rows[j].outside == outside_band(j, *stats)
                },
        decreases bins.len() - i,
    {
        let count = bins[i];
        let bar_length = scaled_bar_length(count, max);
        let outside = is_outside_band(i, stats);
        rows.push(HistogramRow { index: i, count, bar_length, outside });
        i = i + 1;
    }
    rows
}

} // verus!
