//! The simulator: drops balls through rows of pegs and counts where they land.

use vstd::prelude::*;

verus! {

/// The number of balls recorded in a bin distribution: the sum of its entries.
pub open spec fn total(bins: Seq<usize>) -> nat
    decreases bins.len(),
{
    if bins.len() == 0 {
        0
    } else {
        total(bins.drop_last()) + bins.last() as nat
    }
}

/// Adding one ball to a bin adds one to the total.
pub proof fn lemma_total_increment(bins: Seq<usize>, j: int)
    requires
        0 <= j < bins.len(),
        bins[j] < usize::MAX,
    ensures
        total(bins.update(j, (bins[j] + 1) as usize)) == total(bins) + 1,
    decreases bins.len(),
{
    let next = bins.update(j, (bins[j] + 1) as usize);
    assert(next.drop_last() =~= if j == bins.len() - 1 {
        bins.drop_last()
    } else {
        bins.drop_last().update(j, (bins[j] + 1) as usize)
    });
    if j < bins.len() - 1 {
        lemma_total_increment(bins.drop_last(), j);
    }
}

/// A distribution of zeros holds no ball.
pub proof fn lemma_total_zeros(bins: Seq<usize>)
    requires
        forall|i: int| 0 <= i < bins.len() ==> bins[i] == 0,
    ensures
        total(bins) == 0,
    decreases bins.len(),
{
    if bins.len() > 0 {
        lemma_total_zeros(bins.drop_last());
    }
}

/// Every entry of a distribution is at most its total.
pub proof fn lemma_entry_le_total(bins: Seq<usize>, j: int)
    requires
        0 <= j < bins.len(),
    ensures
        bins[j] <= total(bins),
    decreases bins.len(),
{
    if j < bins.len() - 1 {
        lemma_entry_le_total(bins.drop_last(), j);
    }
}

/// How many times `v` occurs in `s`.
pub open spec fn occurrences(s: Seq<usize>, v: usize) -> nat
    decreases s.len(),
{
    if s.len() == 0 {
        0
    } else {
        occurrences(s.drop_last(), v) + if s.last() == v {
            1nat
        } else {
            0nat
        }
    }
}

/// Relies on rand::random, here at the type `bool`: a draw from the thread's
/// generator. Nothing is promised of the value drawn.
pub assume_specification<T>[ rand::random::<T> ]() -> (r: T)
    where
        rand::distributions::Standard: rand::distributions::Distribution<T>,
;

/// The number of `true` entries of `draws`.
pub open spec fn count_true(draws: Seq<bool>) -> nat
    decreases draws.len(),
{
    if draws.len() == 0 {
        0
    } else {
        count_true(draws.drop_last()) + if draws.last() {
            1nat
        } else {
            0nat
        }
    }
}

/// The bins that `num_balls` balls land in when `draws` holds their draws one
/// ball after the other, `num_rows` per ball, `true` meaning that the ball
/// goes right: ball `j` lands in the bin numbered by its `true` draws.
pub open spec fn landings(draws: Seq<bool>, num_rows: nat, num_balls: nat) -> Seq<usize> {
    Seq::new(
        num_balls,
        |j: int| count_true(draws.subrange(j * num_rows, (j + 1) * num_rows)) as usize,
    )
}

/// `draws` with every draw reversed: each right turn made a left turn.
pub open spec fn mirrored(draws: Seq<bool>) -> Seq<bool> {
    draws.map_values(|d: bool| !d)
}

/// A ball turns right at most once per row.
pub proof fn lemma_count_true_le_len(draws: Seq<bool>)
    ensures
        count_true(draws) <= draws.len(),
    decreases draws.len(),
{
    if draws.len() > 0 {
        lemma_count_true_le_len(draws.drop_last());
    }
}

/// Every ball lands in one of the bins `0..=num_rows`.
pub proof fn lemma_landings_on_board(draws: Seq<bool>, num_rows: nat, num_balls: nat)
    requires
        draws.len() == num_rows * num_balls,
    ensures
        forall|j: int|
            0 <= j < num_balls ==> #[trigger] landings(draws, num_rows, num_balls)[j] <= num_rows,
{
    assert forall|j: int| 0 <= j < num_balls implies #[trigger] landings(
        draws,
        num_rows,
        num_balls,
    )[j] <= num_rows by {
        lemma_ball_range(j, num_rows as int, num_balls as int);
        lemma_count_true_le_len(draws.subrange(j * num_rows, (j + 1) * num_rows));
    }
}

proof fn lemma_ball_range(j: int, r: int, b: int)
    by (nonlinear_arith)
    requires
        0 <= j < b,
        0 <= r,
    ensures
        0 <= j * r,
        j * r + r == (j + 1) * r,
        (j + 1) * r <= b * r,
        b * r == r * b,
{
}

/// One more ball, with draws `extra`, lands after the others in the bin that
/// its own draws give; the others land where they did.
pub proof fn lemma_landings_push(draws: Seq<bool>, extra: Seq<bool>, num_rows: nat, num_balls: nat)
    requires
        draws.len() == num_rows * num_balls,
        extra.len() == num_rows,
    ensures
        landings(draws + extra, num_rows, num_balls + 1) == landings(
            draws,
            num_rows,
            num_balls,
        ).push(count_true(extra) as usize),
{
    let r = num_rows as int;
    let b = num_balls as int;
    let all = draws + extra;
    let longer = landings(all, num_rows, num_balls + 1);
    let pushed = landings(draws, num_rows, num_balls).push(count_true(extra) as usize);
    assert forall|j: int| 0 <= j < b + 1 implies longer[j] == pushed[j] by {
        if j < b {
            lemma_ball_range(j, r, b);
            assert(all.subrange(j * r, (j + 1) * r) =~= draws.subrange(j * r, (j + 1) * r));
        } else {
            lemma_ball_range(0, r, 1);
            assert(b * r == r * b) by (nonlinear_arith);
            assert((b + 1) * r == b * r + r) by (nonlinear_arith);
            assert(all.subrange(j * r, (j + 1) * r) =~= extra);
        }
    }
    assert(longer =~= pushed);
}

/// A ball lands in the bin numbered by its `true` draws, and one more ball
/// adds one to exactly that bin and changes no other.
pub proof fn lemma_one_more_ball(draws: Seq<bool>, extra: Seq<bool>, num_rows: nat, num_balls: nat)
    requires
        num_rows <= usize::MAX,
        draws.len() == num_rows * num_balls,
        extra.len() == num_rows,
    ensures
        forall|k: usize|
            #[trigger] occurrences(landings(draws + extra, num_rows, num_balls + 1), k)
                == occurrences(landings(draws, num_rows, num_balls), k) + if k == count_true(
                extra,
            ) {
                1nat
            } else {
                0nat
            },
{
    lemma_landings_push(draws, extra, num_rows, num_balls);
    lemma_count_true_le_len(extra);
    let before = landings(draws, num_rows, num_balls);
    let after = before.push(count_true(extra) as usize);
    assert(after.drop_last() =~= before);
    assert forall|k: usize| #[trigger] occurrences(after, k) == occurrences(before, k) + if k
        == count_true(extra) {
        1nat
    } else {
        0nat
    } by {
        assert(after.last() == count_true(extra));
    }
}

proof fn lemma_count_true_mirrored(draws: Seq<bool>)
    ensures
        count_true(mirrored(draws)) == draws.len() - count_true(draws),
    decreases draws.len(),
{
    lemma_count_true_le_len(draws);
    if draws.len() > 0 {
        assert(mirrored(draws).drop_last() =~= mirrored(draws.drop_last()));
        lemma_count_true_mirrored(draws.drop_last());
    }
}

proof fn lemma_occurrences_reflected(a: Seq<usize>, b: Seq<usize>, n: nat, k: usize)
    requires
        a.len() == b.len(),
        k <= n <= usize::MAX,
        forall|j: int| 0 <= j < a.len() ==> #[trigger] a[j] <= n && b[j] == n - a[j],
    ensures
        occurrences(b, k) == occurrences(a, (n - k) as usize),
    decreases a.len(),
{
    if a.len() > 0 {
        assert forall|j: int| 0 <= j < a.len() - 1 implies a.drop_last()[j] <= n && b.drop_last()[j]
            == n - a.drop_last()[j] by {
            assert(a.drop_last()[j] == a[j] && b.drop_last()[j] == b[j]);
        }
        lemma_occurrences_reflected(a.drop_last(), b.drop_last(), n, k);
        assert(a[a.len() - 1] <= n);
    }
}

/// Reversing every draw mirrors the distribution: the balls that landed in
/// bin `k` land in bin `num_rows - k`.
pub proof fn lemma_mirror(draws: Seq<bool>, num_rows: nat, num_balls: nat)
    requires
        num_rows <= usize::MAX,
        draws.len() == num_rows * num_balls,
    ensures
        forall|k: usize|
            k <= num_rows ==> #[trigger] occurrences(
                landings(mirrored(draws), num_rows, num_balls),
                k,
            ) == occurrences(landings(draws, num_rows, num_balls), (num_rows - k) as usize),
{
    let a = landings(draws, num_rows, num_balls);
    let b = landings(mirrored(draws), num_rows, num_balls);
    lemma_landings_on_board(draws, num_rows, num_balls);
    assert forall|j: int| 0 <= j < a.len() implies a[j] <= num_rows && b[j] == num_rows - a[j] by {
        let r = num_rows as int;
        lemma_ball_range(j, r, num_balls as int);
        let own = draws.subrange(j * r, (j + 1) * r);
        assert(mirrored(draws).subrange(j * r, (j + 1) * r) =~= mirrored(own));
        lemma_count_true_mirrored(own);
        lemma_count_true_le_len(own);
        assert(a[j] == count_true(own));
        assert(b[j] == count_true(mirrored(own)));
    }
    assert forall|k: usize| k <= num_rows implies #[trigger] occurrences(b, k) == occurrences(
        a,
        (num_rows - k) as usize,
    ) by {
        lemma_occurrences_reflected(a, b, num_rows, k);
    }
}

/// Draws the path of one ball through `num_rows` rows of pegs: at each row,
/// `true` (right) or `false` (left), each with probability one half.
pub fn draw_path(num_rows: usize) -> (draws: Vec<bool>)
    ensures
        draws.len() == num_rows,
{
    let mut draws: Vec<bool> = Vec::new();
    while draws.len() < num_rows
        invariant
            draws.len() <= num_rows,
        decreases num_rows - draws.len(),
    {
        let right: bool = rand::random();
        draws.push(right);
    }
    draws
}

/// Counts the right turns among the draws `start..end`.
pub fn count_right_turns(draws: &Vec<bool>, start: usize, end: usize) -> (n: usize)
    requires
        start <= end <= draws.len(),
    ensures
        n == count_true(draws@.subrange(start as int, end as int)),
{
    let mut n: usize = 0;
    let mut k: usize = start;
    while k < end
        invariant
            start <= k <= end <= draws.len(),
            n == count_true(draws@.subrange(start as int, k as int)),
            n <= k - start,
        decreases end - k,
    {
        assert(draws@.subrange(start as int, k + 1).drop_last() =~= draws@.subrange(
            start as int,
            k as int,
        ));
        if draws[k] {
            n = n + 1;
        }
        k = k + 1;
    }
    n
}

/// The bin that a ball with these draws lands in: the number of right turns.
pub fn bin_of_draws(draws: &Vec<bool>) -> (bin: usize)
    ensures
        bin == count_true(draws@),
        bin <= draws.len(),
{
    assert(draws@.subrange(0, draws.len() as int) =~= draws@);
    proof {
        lemma_count_true_le_len(draws@);
    }
    count_right_turns(draws, 0, draws.len())
}

/// Records one ball that landed in bin `bin`.
pub fn record_ball(bins: &mut Vec<usize>, bin: usize)
    requires
        bin < old(bins).len(),
        total(old(bins)@) < usize::MAX,
    ensures
        final(bins)@ == old(bins)@.update(bin as int, (old(bins)@[bin as int] + 1) as usize),
        final(bins)@[bin as int] == old(bins)@[bin as int] + 1,
        total(final(bins)@) == total(old(bins)@) + 1,
{
    proof {
        lemma_entry_le_total(bins@, bin as int);
        lemma_total_increment(bins@, bin as int);
    }
    bins.set(bin, bins[bin] + 1);
}

/// A distribution of `len` empty bins.
fn empty_bins(len: usize) -> (bins: Vec<usize>)
    ensures
        bins.len() == len,
        forall|j: int| 0 <= j < len ==> bins[j] == 0,
        total(bins@) == 0,
{
    let mut bins: Vec<usize> = Vec::new();
    while bins.len() < len
        invariant
            bins.len() <= len,
            forall|j: int| 0 <= j < bins.len() ==> bins[j] == 0,
        decreases len - bins.len(),
    {
        bins.push(0);
    }
    proof {
        lemma_total_zeros(bins@);
    }
    bins
}

/// Counts balls by bin: entry `j` of the result is the number of balls of
/// `landings` that landed in bin `j`, for the bins `0..=num_rows`.
pub fn place_balls(num_rows: usize, landings: &Vec<usize>) -> (bins: Vec<usize>)
    requires
        num_rows < usize::MAX,
        forall|k: int| 0 <= k < landings.len() ==> landings[k] <= num_rows,
    ensures
        bins.len() == num_rows + 1,
        forall|j: int| 0 <= j <= num_rows ==> bins[j] == occurrences(landings@, j as usize),
        total(bins@) == landings.len(),
{
    let mut bins = empty_bins(num_rows + 1);
    let mut k: usize = 0;
    while k < landings.len()
        invariant
            k <= landings.len(),
            bins.len() == num_rows + 1,
            forall|k: int| 0 <= k < landings.len() ==> landings[k] <= num_rows,
            forall|j: int|
                0 <= j <= num_rows ==> bins[j] == occurrences(landings@.take(k as int), j as usize),
            total(bins@) == k,
        decreases landings.len() - k,
    {
        let bin = landings[k];
        let ghost seen = landings@.take(k as int);
        let ghost next = landings@.take(k + 1);
        let ghost before = bins@;
        assert(next.drop_last() =~= seen);
        assert(next.last() == bin);
        record_ball(&mut bins, bin);
        assert forall|j: int| 0 <= j <= num_rows implies bins[j] == occurrences(
            next,
            j as usize,
        ) by {
            assert(before[j] == occurrences(seen, j as usize));
            assert(occurrences(next, j as usize) == occurrences(seen, j as usize) + if next.last()
                == j as usize {
                1nat
            } else {
                0nat
            });
        }
        k = k + 1;
    }
    assert(landings@.take(k as int) =~= landings@);
    bins
}

/// The distribution that `num_balls` balls give when `draws` holds their
/// draws, `num_rows` per ball, one ball after the other.
pub fn simulate_from_draws(num_rows: usize, num_balls: usize, draws: &Vec<bool>) -> (bins: Vec<
    usize,
>)
    requires
        num_rows < usize::MAX,
        draws.len() == num_rows * num_balls,
    ensures
        bins.len() == num_rows + 1,
        forall|k: int|
            0 <= k <= num_rows ==> bins[k] == occurrences(
                landings(draws@, num_rows as nat, num_balls as nat),
                k as usize,
            ),
        total(bins@) == num_balls,
{
    let ghost all = landings(draws@, num_rows as nat, num_balls as nat);
    let mut landed: Vec<usize> = Vec::new();
    let mut ball: usize = 0;
    while ball < num_balls
        invariant
            ball <= num_balls,
            draws.len() == num_rows * num_balls,
            all == landings(draws@, num_rows as nat, num_balls as nat),
            landed@ == all.take(ball as int),
        decreases num_balls - ball,
    {
        proof {
            lemma_ball_range(ball as int, num_rows as int, num_balls as int);
        }
        let start = ball * num_rows;
        let bin = count_right_turns(draws, start, start + num_rows);
        landed.push(bin);
        assert(landed@ =~= all.take(ball + 1));
        ball = ball + 1;
    }
    assert(landed@ =~= all);
    proof {
        lemma_landings_on_board(draws@, num_rows as nat, num_balls as nat);
    }
    place_balls(num_rows, &landed)
}

/// Drops `num_balls` balls through a board of `num_rows` rows and returns how
/// many landed in each of the bins `0..=num_rows`: the distribution that
/// [`simulate_from_draws`] gives for the draws made.
pub fn simulate_galton_board(num_rows: usize, num_balls: usize) -> (bins: Vec<usize>)
    requires
        num_rows < usize::MAX,
    ensures
        bins.len() == num_rows + 1,
        total(bins@) == num_balls,
        exists|draws: Seq<bool>|
            #![trigger landings(draws, num_rows as nat, num_balls as nat)]
            draws.len() == num_rows * num_balls && forall|k: int|
                0 <= k <= num_rows ==> bins[k] == occurrences(
                    landings(draws, num_rows as nat, num_balls as nat),
                    k as usize,
                ),
{
    let ghost mut draws: Seq<bool> = Seq::empty();
    let mut landed: Vec<usize> = Vec::new();
    let mut ball: usize = 0;
    while ball < num_balls
        invariant
            ball <= num_balls,
            draws.len() == num_rows * ball,
            landed@ == landings(draws, num_rows as nat, ball as nat),
            forall|j: int| 0 <= j < landed.len() ==> landed[j] <= num_rows,
        decreases num_balls - ball,
    {
        let path = draw_path(num_rows);
        let bin = bin_of_draws(&path);
        proof {
            lemma_landings_push(draws, path@, num_rows as nat, ball as nat);
            assert(num_rows * ball + num_rows == num_rows * (ball + 1)) by (nonlinear_arith);
            draws = draws + path@;
        }
        landed.push(bin);
        ball = ball + 1;
    }
    let bins = place_balls(num_rows, &landed);
    assert(forall|k: int|
        0 <= k <= num_rows ==> bins[k] == occurrences(
            landings(draws, num_rows as nat, num_balls as nat),
            k as usize,
        ));
    bins
}

} // verus!
