use galton_board::board::{
    bin_of_draws, count_right_turns, draw_path, place_balls, record_ball, simulate_from_draws,
    simulate_galton_board,
};
use galton_board::histogram::{
    is_outside_band, max_bin_count, scaled_bar_length, visualize_distribution, HistogramRow,
    MAX_BAR_WIDTH,
};
use galton_board::input::{parse_count, parse_count_or_default, white_space, DEFAULT_BALLS, DEFAULT_ROWS};
use galton_board::stats::{calculate_statistics, is_within_span, Statistics};

fn as_floats(stats: &Statistics) -> (f64, f64, f64) {
    let (mn, md) = stats.mean_fraction();
    let (vn, vd) = stats.variance_fraction();
    let mean = mn as f64 / md as f64;
    let variance = vn as f64 / vd as f64;
    (mean, variance.sqrt(), variance)
}

#[test]
fn test_simulate_galton_board() {
    let bins = simulate_galton_board(5, 100);
    assert_eq!(bins.len(), 6);
    assert_eq!(bins.iter().sum::<usize>(), 100);
}

#[test]
fn test_calculate_statistics() {
    let bins = vec![1, 4, 6, 4, 1];
    let (mean, std_deviation, variance) = as_floats(&calculate_statistics(&bins));
    assert!((mean - 2.0).abs() < 1e-10);
    assert!((std_deviation - 1.0).abs() < 1e-10);
    assert!((variance - 1.0).abs() < 1e-10);
}

#[test]
fn test_get_user_input_valid() {
    let result = parse_count_or_default("5", 10);
    assert_eq!(result, 5);
}

#[test]
fn test_get_user_input_invalid() {
    let result = parse_count_or_default("abc", 10);
    assert_eq!(result, 10);
}

#[test]
fn simulate_lengths_and_totals() {
    for rows in 0..8usize {
        for balls in [0usize, 1, 2, 17, 1028] {
            let bins = simulate_galton_board(rows, balls);
            assert_eq!(bins.len(), rows + 1);
            assert_eq!(bins.iter().sum::<usize>(), balls);
        }
    }
}

#[test]
fn simulate_without_balls_is_all_zero() {
    assert_eq!(simulate_galton_board(3, 0), vec![0, 0, 0, 0]);
}

#[test]
fn simulate_without_rows_has_one_bin() {
    assert_eq!(simulate_galton_board(0, 7), vec![7]);
}

#[test]
fn draw_path_has_one_draw_per_row() {
    for rows in 0..10usize {
        let path = draw_path(rows);
        assert_eq!(path.len(), rows);
        assert!(bin_of_draws(&path) <= rows);
    }
}

#[test]
fn bin_is_the_number_of_right_turns() {
    assert_eq!(bin_of_draws(&vec![]), 0);
    assert_eq!(bin_of_draws(&vec![true, false, true, true]), 3);
    assert_eq!(bin_of_draws(&vec![false, false]), 0);
    assert_eq!(count_right_turns(&vec![true, true, false, true], 1, 3), 1);
}

#[test]
fn simulate_from_draws_counts_each_ball() {
    // Three balls over two rows: right-right, left-right, left-left.
    let draws = vec![true, true, false, true, false, false];
    assert_eq!(simulate_from_draws(2, 3, &draws), vec![1, 1, 1]);
    let draws = vec![true, false, false, true, true, true];
    assert_eq!(simulate_from_draws(2, 3, &draws), vec![0, 2, 1]);
    assert_eq!(simulate_from_draws(0, 4, &vec![]), vec![4]);
    assert_eq!(simulate_from_draws(3, 0, &vec![]), vec![0, 0, 0, 0]);
}

#[test]
fn reversed_draws_mirror_the_distribution() {
    let draws = vec![true, false, true, true, true, true, false, false, false, true, false, true];
    let bins = simulate_from_draws(3, 4, &draws);
    let reversed: Vec<bool> = draws.iter().map(|d| !d).collect();
    let mirrored = simulate_from_draws(3, 4, &reversed);
    let mut expected = bins.clone();
    expected.reverse();
    assert_eq!(mirrored, expected);
}

#[test]
fn one_more_ball_adds_to_its_own_bin() {
    let draws = vec![true, false, false, false, true, true];
    let before = simulate_from_draws(2, 3, &draws);
    let mut longer = draws.clone();
    longer.extend([true, false]);
    let after = simulate_from_draws(2, 4, &longer);
    assert_eq!(after[1], before[1] + 1);
    assert_eq!(after[0], before[0]);
    assert_eq!(after[2], before[2]);
}

#[test]
fn balls_reach_more_than_one_bin() {
    let bins = simulate_galton_board(1, 200);
    assert!(bins[0] > 0 && bins[1] > 0);
}

#[test]
fn place_balls_counts_each_bin() {
    assert_eq!(place_balls(3, &vec![0, 3, 3, 1]), vec![1, 1, 0, 2]);
    assert_eq!(place_balls(2, &vec![]), vec![0, 0, 0]);
}

#[test]
fn record_ball_adds_one() {
    let mut bins = vec![2, 0, 5];
    record_ball(&mut bins, 1);
    assert_eq!(bins, vec![2, 1, 5]);
}

#[test]
fn statistics_exact_values() {
    let stats = calculate_statistics(&[1, 4, 6, 4, 1]);
    assert_eq!(stats.count, 16);
    assert_eq!(stats.index_sum, 32);
    assert_eq!(stats.square_sum, 80);
    assert_eq!(stats.mean_fraction(), (32, 16));
    assert_eq!(stats.variance_fraction(), (256, 256));
}

#[test]
fn statistics_of_a_skewed_distribution() {
    // Balls at 0, 0, 3: mean 1, variance (1 + 1 + 4) / 3 = 2.
    let stats = calculate_statistics(&[2, 0, 0, 1]);
    let (mean, std_deviation, variance) = as_floats(&stats);
    assert!((mean - 1.0).abs() < 1e-12);
    assert!((variance - 2.0).abs() < 1e-12);
    assert!((std_deviation - 2.0f64.sqrt()).abs() < 1e-12);
}

#[test]
fn statistics_without_balls_are_zero() {
    let stats = calculate_statistics(&[0, 0, 0]);
    assert_eq!(stats.count, 0);
    assert_eq!(stats.index_sum, 0);
    assert_eq!(stats.square_sum, 0);
    assert_eq!(stats.variance_fraction(), (0, 1));
    assert_eq!(as_floats(&stats), (0.0, 0.0, 0.0));
    assert_eq!(as_floats(&calculate_statistics(&[])), (0.0, 0.0, 0.0));
}

#[test]
fn span_check() {
    assert!(is_within_span(&[1, 4, 6, 4, 1]));
    assert!(is_within_span(&[]));
    assert!(!is_within_span(&[usize::MAX]));
    assert!(!is_within_span(&[1 << 61, 1 << 61, 1]));
    assert!(is_within_span(&[1 << 60, 1 << 60]));
    assert!(is_within_span(&[1 << 39, 1 << 39, 1]));
}

#[test]
fn max_bin_count_finds_the_largest() {
    assert_eq!(max_bin_count(&[3, 9, 2]), 9);
    assert_eq!(max_bin_count(&[]), 0);
}

#[test]
fn bar_lengths_round_down() {
    assert_eq!(scaled_bar_length(3, 7), 17);
    assert_eq!(scaled_bar_length(7, 7), MAX_BAR_WIDTH);
    assert_eq!(scaled_bar_length(0, 7), 0);
    assert_eq!(scaled_bar_length(0, 0), 0);
}

#[test]
fn histogram_of_a_binomial_shape() {
    let bins = vec![1, 4, 6, 4, 1];
    let stats = calculate_statistics(&bins);
    let rows = visualize_distribution(&bins, &stats);
    let lengths: Vec<usize> = rows.iter().map(|r| r.bar_length).collect();
    assert_eq!(lengths, vec![6, 26, 40, 26, 6]);
    let outside: Vec<bool> = rows.iter().map(|r| r.outside).collect();
    assert_eq!(outside, vec![true, false, false, false, true]);
    let bars: Vec<String> = rows.iter().map(|r| r.bar().into_iter().collect()).collect();
    assert_eq!(bars[0], "~~~~~~");
    assert_eq!(bars[2], "#".repeat(40));
    for (i, r) in rows.iter().enumerate() {
        assert_eq!(r.index, i);
        assert_eq!(r.count, bins[i]);
    }
}

#[test]
fn histogram_full_and_empty_bars() {
    let bins = vec![0, 5, 0, 2];
    let stats = calculate_statistics(&bins);
    let rows = visualize_distribution(&bins, &stats);
    assert_eq!(rows[1].bar_length, 40);
    assert_eq!(rows[0].bar_length, 0);
    assert_eq!(rows[2].bar_length, 0);
    assert_eq!(rows[3].bar_length, 16);
    assert!(rows[0].bar().is_empty());
}

#[test]
fn histogram_without_balls() {
    let bins = vec![0, 0, 0];
    let stats = calculate_statistics(&bins);
    let rows = visualize_distribution(&bins, &stats);
    assert!(rows.iter().all(|r| r.bar_length == 0));
    let outside: Vec<bool> = rows.iter().map(|r| r.outside).collect();
    assert_eq!(outside, vec![false, true, true]);
}

#[test]
fn band_edges() {
    // Mean 2, standard deviation 1: the band is [0.5, 3.5].
    let stats = calculate_statistics(&[1, 4, 6, 4, 1]);
    assert!(is_outside_band(0, &stats));
    assert!(!is_outside_band(1, &stats));
    assert!(!is_outside_band(3, &stats));
    assert!(is_outside_band(4, &stats));
    // Balls at 0 and 3: mean 1.5, standard deviation 1.5, band [-0.75, 3.75].
    let stats = calculate_statistics(&[1, 0, 0, 1]);
    assert!(!is_outside_band(0, &stats));
    assert!(!is_outside_band(3, &stats));
}

#[test]
fn band_far_from_the_mean() {
    let stats = Statistics { count: 1, index_sum: 0, square_sum: 0 };
    assert!(!is_outside_band(0, &stats));
    assert!(is_outside_band(1, &stats));
    assert!(is_outside_band(usize::MAX, &stats));
    let big = calculate_statistics(&[1 << 40, 1 << 40]);
    assert_eq!(big.variance_fraction(), (1 << 80, 1 << 82));
    assert!(!is_outside_band(0, &big));
    assert!(!is_outside_band(1, &big));
    assert!(is_outside_band(2, &big));
}

#[test]
fn bar_char_marks_the_tails() {
    let row = HistogramRow { index: 0, count: 1, bar_length: 2, outside: true };
    assert_eq!(row.bar_char(), '~');
    assert_eq!(row.bar(), vec!['~', '~']);
    let row = HistogramRow { index: 1, count: 3, bar_length: 3, outside: false };
    assert_eq!(row.bar_char(), '#');
}

#[test]
fn parse_counts() {
    assert_eq!(parse_count_or_default(" 42 \n", 1), 42);
    assert_eq!(parse_count_or_default("+7", 1), 7);
    assert_eq!(parse_count_or_default("007", 1), 7);
    assert_eq!(parse_count_or_default("\u{3000}12\t", 1), 12);
    assert_eq!(parse_count_or_default(&usize::MAX.to_string(), 1), usize::MAX);
}

#[test]
fn parse_falls_back_to_default() {
    assert_eq!(parse_count_or_default("", 9), 9);
    assert_eq!(parse_count_or_default("   ", 9), 9);
    assert_eq!(parse_count_or_default("+", 9), 9);
    assert_eq!(parse_count_or_default("-3", 9), 9);
    assert_eq!(parse_count_or_default("1 2", 9), 9);
    assert_eq!(parse_count_or_default("12a", 9), 9);
    assert_eq!(parse_count_or_default("abc", DEFAULT_ROWS), 9);
    assert_eq!(parse_count_or_default("abc", DEFAULT_BALLS), 1028);
    let too_big = format!("{}0", usize::MAX);
    assert_eq!(parse_count_or_default(&too_big, 9), 9);
}

#[test]
fn parse_agrees_with_std() {
    for s in ["0", "15", " 8", "+3", "x", "", "99999999999999999999", "4\u{85}", "\u{a0}5"] {
        let expected = s.trim().parse::<usize>().unwrap_or(77);
        assert_eq!(parse_count_or_default(s, 77), expected);
    }
}

#[test]
fn white_space_set() {
    for c in [' ', '\t', '\n', '\r', '\u{b}', '\u{c}', '\u{85}', '\u{a0}', '\u{2003}', '\u{3000}'] {
        assert!(white_space(c));
        assert!(c.is_whitespace());
    }
    for c in ['a', '0', '\u{200b}', '_'] {
        assert!(!white_space(c));
        assert!(!c.is_whitespace());
    }
}

#[test]
fn parse_count_reports_failure() {
    assert_eq!(parse_count(" 1028\n"), Some(1028));
    assert_eq!(parse_count("0"), Some(0));
    assert_eq!(parse_count("abc"), None);
    assert_eq!(parse_count(""), None);
    assert_eq!(parse_count(&format!("{}9", usize::MAX)), None);
}
