use cursor_usage_dashboard_backend::models::{Fraction, GrowthBasis, UsageData, UsagePattern};
use cursor_usage_dashboard_backend::stats_calculator::{percentile_position, StatsCalculator};
use cursor_usage_dashboard_backend::timestamp::LocalTime;

fn ratio(f: &Fraction) -> f64 {
    f.numerator as f64 / f.denominator as f64
}

fn currency(nanos: u128) -> f64 {
    nanos as f64 / 1e9
}

fn growth_rate(g: &GrowthBasis) -> f64 {
    if g.day_span == 0 || g.first_day_tokens == 0 {
        0.0
    } else {
        ((g.last_day_tokens as f64 / g.first_day_tokens as f64).powf(1.0 / g.day_span as f64) - 1.0) * 100.0
    }
}

fn record(date: &str, model: &str, max_mode: bool, parts: [u32; 4], total: u32, cost: u64) -> UsageData {
    UsageData {
        date: date.to_string(),
        kind: "Included".to_string(),
        model: model.to_string(),
        max_mode,
        input_with_cache: parts[0],
        input_without_cache: parts[1],
        cache_read: parts[2],
        output_tokens: parts[3],
        total_tokens: total,
        cost,
    }
}

fn create_test_data() -> Vec<UsageData> {
    vec![
        record("2024-01-01T10:00:00Z", "auto", false, [100, 50, 25, 75], 250, 50_000_000),
        record("2024-01-01T14:00:00Z", "gpt-4", true, [200, 100, 50, 150], 500, 150_000_000),
        record("2024-01-02T10:00:00Z", "auto", false, [150, 75, 30, 95], 350, 80_000_000),
    ]
}

#[test]
fn test_calculate_peak_usage() {
    let calculator = StatsCalculator::new();
    let data = create_test_data();

    let peak_stats = calculator.calculate_peak_usage(&data);

    assert_eq!(peak_stats.peak_hour, 10);
    assert_eq!(peak_stats.peak_tokens_per_hour, 600);

    assert_eq!(peak_stats.peak_day, "2024-01-01");
    assert_eq!(currency(peak_stats.peak_cost_per_day), 0.20);
}

#[test]
fn test_calculate_peak_usage_empty_data() {
    let calculator = StatsCalculator::new();
    let data = vec![];

    let peak_stats = calculator.calculate_peak_usage(&data);

    assert_eq!(peak_stats.peak_hour, 0);
    assert_eq!(peak_stats.peak_tokens_per_hour, 0);
    assert_eq!(peak_stats.peak_day, "");
    assert_eq!(currency(peak_stats.peak_cost_per_day), 0.0);
}

#[test]
fn test_calculate_cost_efficiency() {
    let calculator = StatsCalculator::new();
    let data = create_test_data();

    let cost_efficiency = calculator.calculate_cost_efficiency(&data);

    assert!((ratio(&cost_efficiency.cost_per_token) / 1e9 - 0.28 / 1100.0).abs() < 0.0001);
    assert!((ratio(&cost_efficiency.cost_per_request) / 1e9 - 0.28 / 3.0).abs() < 0.0001);
    assert!((ratio(&cost_efficiency.cache_savings) - 31.818181818181817).abs() < 0.0001);
}

#[test]
fn test_calculate_cost_efficiency_empty_data() {
    let calculator = StatsCalculator::new();
    let data = vec![];

    let cost_efficiency = calculator.calculate_cost_efficiency(&data);

    assert_eq!(ratio(&cost_efficiency.cost_per_token), 0.0);
    assert_eq!(ratio(&cost_efficiency.cost_per_request), 0.0);
    assert_eq!(ratio(&cost_efficiency.cache_savings), 0.0);
}

#[test]
fn test_calculate_usage_trends() {
    let calculator = StatsCalculator::new();
    let data = create_test_data();

    let usage_trends = calculator.calculate_usage_trends(&data);

    assert!(growth_rate(&usage_trends.daily_growth) < 0.0);
    assert_eq!(usage_trends.usage_pattern.as_str(), "decreasing");

    let mut sorted_tokens = vec![250, 350, 500];
    sorted_tokens.sort();
    assert_eq!(usage_trends.usage_percentiles.median, 350);
    assert_eq!(usage_trends.usage_percentiles.p95, 500);
    assert_eq!(usage_trends.usage_percentiles.p99, 500);
}

#[test]
fn test_calculate_percentiles() {
    let calculator = StatsCalculator::new();
    let data = create_test_data();

    let percentiles = calculator.calculate_percentiles(&data);

    assert_eq!(percentiles.median, 350);
    assert_eq!(percentiles.p95, 500);
    assert_eq!(percentiles.p99, 500);
}

#[test]
fn test_calculate_percentiles_empty_data() {
    let calculator = StatsCalculator::new();
    let data = vec![];

    let percentiles = calculator.calculate_percentiles(&data);

    assert_eq!(percentiles.median, 0);
    assert_eq!(percentiles.p95, 0);
    assert_eq!(percentiles.p99, 0);
}

#[test]
fn test_calculate_comprehensive_stats() {
    let calculator = StatsCalculator::new();
    let data = create_test_data();

    let comprehensive_stats = calculator.calculate_comprehensive_stats(&data);

    assert_eq!(comprehensive_stats.peak_usage.peak_hour, 10);
    assert!(ratio(&comprehensive_stats.cost_efficiency.cost_per_token) > 0.0);
    assert!(growth_rate(&comprehensive_stats.usage_trends.daily_growth) < 0.0);
}

#[test]
fn percentile_indices_for_small_and_hundred() {
    let expected: [(usize, [usize; 3]); 4] = [(1, [0, 0, 0]), (2, [0, 1, 1]), (3, [1, 2, 2]), (100, [49, 94, 98])];
    for (n, [i50, i95, i99]) in expected {
        assert_eq!(percentile_position(n, 50), i50);
        assert_eq!(percentile_position(n, 95), i95);
        assert_eq!(percentile_position(n, 99), i99);
    }
}

#[test]
fn percentiles_of_unsorted_even_count() {
    let calculator = StatsCalculator::new();
    let data: Vec<UsageData> = [40u32, 10, 30, 20]
        .iter()
        .map(|&t| record("2024-03-01T00:00:00Z", "m", false, [t, 0, 0, 0], t, 0))
        .collect();
    let p = calculator.calculate_percentiles(&data);
    assert_eq!(p.median, 25);
    assert_eq!(p.p95, 40);
    assert_eq!(p.p99, 40);
}

#[test]
fn percentiles_of_hundred_values() {
    let calculator = StatsCalculator::new();
    let data: Vec<UsageData> = (1..=100u32)
        .rev()
        .map(|t| record("2024-03-01T00:00:00Z", "m", false, [t, 0, 0, 0], t, 0))
        .collect();
    let p = calculator.calculate_percentiles(&data);
    assert_eq!(p.median, 50);
    assert_eq!(p.p95, 95);
    assert_eq!(p.p99, 99);
}

#[test]
fn same_day_costs_add_up() {
    let calculator = StatsCalculator::new();
    let data = vec![
        record("2024-05-05T08:00:00Z", "a", false, [1, 0, 0, 0], 1, 50_000_000),
        record("2024-05-05T17:00:00Z", "b", false, [1, 0, 0, 0], 1, 150_000_000),
    ];
    let peak = calculator.calculate_peak_usage(&data);
    assert_eq!(peak.peak_day, "2024-05-05");
    assert_eq!(currency(peak.peak_cost_per_day), 0.20);
    assert_eq!(peak.peak_cost_per_day, 200_000_000);
}

#[test]
fn ties_go_to_the_earliest_hour_and_day() {
    let calculator = StatsCalculator::new();
    let data = vec![
        record("2024-01-03T15:00:00Z", "a", false, [5, 0, 0, 0], 5, 7),
        record("2024-01-02T09:00:00Z", "a", false, [5, 0, 0, 0], 5, 7),
    ];
    let peak = calculator.calculate_peak_usage(&data);
    assert_eq!(peak.peak_hour, 9);
    assert_eq!(peak.peak_tokens_per_hour, 5);
    assert_eq!(peak.peak_day, "2024-01-02");
}

#[test]
fn local_hour_and_day_follow_the_offset() {
    let calculator = StatsCalculator::new();
    let data = vec![record("2024-01-01T23:30:00-05:00", "a", false, [3, 0, 0, 0], 3, 1)];
    let peak = calculator.calculate_peak_usage(&data);
    assert_eq!(peak.peak_hour, 23);
    assert_eq!(peak.peak_day, "2024-01-01");
}

#[test]
fn unparseable_dates_are_left_out_of_peaks() {
    let calculator = StatsCalculator::new();
    let data = vec![record("not a date", "a", false, [3, 0, 0, 0], 3, 1)];
    let peak = calculator.calculate_peak_usage(&data);
    assert_eq!(peak.peak_hour, 0);
    assert_eq!(peak.peak_tokens_per_hour, 0);
    assert_eq!(peak.peak_day, "");
    assert_eq!(peak.peak_cost_per_day, 0);
}

#[test]
fn peak_usage_from_given_times() {
    let calculator = StatsCalculator::new();
    let data = vec![
        record("x", "a", false, [4, 0, 0, 0], 4, 10),
        record("y", "a", false, [6, 0, 0, 0], 6, 30),
    ];
    let times = vec![
        Some(LocalTime { year: 2023, month: 7, day: 4, hour: 5 }),
        Some(LocalTime { year: 99, month: 12, day: 31, hour: 6 }),
    ];
    let peak = calculator.peak_usage_from(&data, &times);
    assert_eq!(peak.peak_hour, 6);
    assert_eq!(peak.peak_tokens_per_hour, 6);
    assert_eq!(peak.peak_day, "0099-12-31");
    assert_eq!(peak.peak_cost_per_day, 30);
}

#[test]
fn growth_patterns() {
    let calculator = StatsCalculator::new();
    let up = vec![
        record("2024-01-01T00:00:00Z", "a", false, [100, 0, 0, 0], 100, 0),
        record("2024-01-03T00:00:00Z", "a", false, [200, 0, 0, 0], 200, 0),
    ];
    let t = calculator.calculate_usage_trends(&up);
    assert_eq!(t.daily_growth, GrowthBasis { first_day_tokens: 100, last_day_tokens: 200, day_span: 1 });
    assert_eq!(t.usage_pattern, UsagePattern::Increasing);
    assert!((growth_rate(&t.daily_growth) - 100.0).abs() < 1e-9);

    let flat = vec![
        record("2024-01-01T00:00:00Z", "a", false, [100, 0, 0, 0], 100, 0),
        record("2024-01-02T00:00:00Z", "a", false, [104, 0, 0, 0], 104, 0),
    ];
    assert_eq!(calculator.calculate_usage_trends(&flat).usage_pattern, UsagePattern::Stable);

    let edge = vec![
        record("2024-01-01T00:00:00Z", "a", false, [100, 0, 0, 0], 100, 0),
        record("2024-01-02T00:00:00Z", "a", false, [105, 0, 0, 0], 105, 0),
    ];
    assert_eq!(calculator.calculate_usage_trends(&edge).usage_pattern, UsagePattern::Stable);

    let mut long = Vec::new();
    long.push(record("2024-01-01T00:00:00Z", "a", false, [1000, 0, 0, 0], 1000, 0));
    for d in 2..=30 {
        long.push(record(&format!("2024-01-{:02}T00:00:00Z", d), "a", false, [1, 0, 0, 0], 1, 0));
    }
    long.push(record("2024-01-31T00:00:00Z", "a", false, [1, 0, 0, 0], 1, 0));
    let t = calculator.calculate_usage_trends(&long);
    assert_eq!(t.daily_growth.day_span, 30);
    assert_eq!(t.daily_growth.last_day_tokens, 1);
    assert_eq!(t.usage_pattern, UsagePattern::Decreasing);
}

#[test]
fn empty_data_gives_zero_reports() {
    let calculator = StatsCalculator::new();
    let s = calculator.calculate_comprehensive_stats(&[]);
    assert_eq!(s.peak_usage.peak_hour, 0);
    assert_eq!(s.peak_usage.peak_tokens_per_hour, 0);
    assert_eq!(s.peak_usage.peak_day, "");
    assert_eq!(s.peak_usage.peak_cost_per_day, 0);
    assert_eq!(s.cost_efficiency.cost_per_token, Fraction { numerator: 0, denominator: 1 });
    assert_eq!(s.cost_efficiency.cost_per_request, Fraction { numerator: 0, denominator: 1 });
    assert_eq!(s.cost_efficiency.cache_savings, Fraction { numerator: 0, denominator: 1 });
    assert_eq!(s.usage_trends.usage_pattern.as_str(), "stable");
    assert_eq!(s.usage_trends.daily_growth, GrowthBasis { first_day_tokens: 0, last_day_tokens: 0, day_span: 0 });
}

#[test]
fn cache_savings_uses_uncached_input_only() {
    let calculator = StatsCalculator::new();
    let data = vec![record("2024-01-01T00:00:00Z", "a", false, [1000, 30, 10, 0], 1040, 0)];
    let e = calculator.calculate_cost_efficiency(&data);
    assert_eq!(e.cache_savings, Fraction { numerator: 1000, denominator: 40 });
    assert_eq!(ratio(&e.cache_savings), 25.0);
}
