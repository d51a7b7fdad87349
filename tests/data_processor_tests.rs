use cursor_usage_dashboard_backend::data_processor::{DataProcessor, ValidationError};
use cursor_usage_dashboard_backend::models::{Fraction, UsageData};

fn record(date: &str, model: &str, parts: [u32; 4], total: u32, cost: u64) -> UsageData {
    UsageData {
        date: date.to_string(),
        kind: "Included".to_string(),
        model: model.to_string(),
        max_mode: false,
        input_with_cache: parts[0],
        input_without_cache: parts[1],
        cache_read: parts[2],
        output_tokens: parts[3],
        total_tokens: total,
        cost,
    }
}

fn currency(f: &Fraction) -> f64 {
    f.numerator as f64 / f.denominator as f64 / 1e9
}

#[test]
fn summary_of_two_records_on_one_day() {
    let p = DataProcessor::new();
    let data = vec![
        record("2024-01-01T10:00:00Z", "auto", [100, 50, 25, 75], 250, 50_000_000),
        record("2024-01-01T11:00:00Z", "gpt-4", [200, 100, 50, 150], 500, 150_000_000),
    ];
    let s = p.calculate_summary(&data);
    assert_eq!(s.total_cost as f64 / 1e9, 0.20);
    assert_eq!(currency(&s.average_cost_per_day), 0.20);
    assert_eq!(s.total_tokens, 750);
    assert_eq!(s.date_range.start, "2024-01-01T10:00:00Z");
    assert_eq!(s.date_range.end, "2024-01-01T11:00:00Z");
    assert_eq!(s.model_breakdown.len(), 2);
}

#[test]
fn summary_counts_days_by_prefix() {
    let p = DataProcessor::new();
    let data = vec![
        record("2024-01-02T10:00:00Z", "a", [1, 0, 0, 0], 1, 300),
        record("2024-01-01T10:00:00Z", "b", [1, 0, 0, 0], 1, 300),
        record("2024-01-01T12:00:00Z", "a", [1, 0, 0, 0], 1, 300),
        record("someday", "a", [1, 0, 0, 0], 1, 300),
    ];
    let s = p.calculate_summary(&data);
    assert_eq!(s.total_cost, 1200);
    assert_eq!(s.average_cost_per_day, Fraction { numerator: 1200, denominator: 3 });
    assert_eq!(s.most_used_model, "a");
    assert_eq!(s.date_range.start, "2024-01-01T10:00:00Z");
    assert_eq!(s.date_range.end, "someday");
}

#[test]
fn empty_summary_is_zeroed() {
    let p = DataProcessor::new();
    let s = p.calculate_summary(&[]);
    assert_eq!(s.total_cost, 0);
    assert_eq!(s.total_tokens, 0);
    assert_eq!(s.average_cost_per_day, Fraction { numerator: 0, denominator: 1 });
    assert_eq!(s.most_used_model, "");
    assert_eq!(s.date_range.start, "");
    assert!(s.model_breakdown.is_empty());
}

#[test]
fn model_stats_sorted_by_requests() {
    let p = DataProcessor::new();
    let data = vec![
        record("d1", "x", [10, 20, 10, 0], 40, 5),
        record("d2", "y", [0, 0, 0, 7], 7, 1),
        record("d3", "y", [1, 1, 2, 0], 4, 2),
        record("d4", "y", [0, 0, 0, 3], 3, 3),
    ];
    let stats = p.calculate_model_stats(&data);
    assert_eq!(stats.len(), 2);
    assert_eq!(stats[0].model, "y");
    assert_eq!(stats[0].total_requests, 3);
    assert_eq!(stats[0].total_tokens, 14);
    assert_eq!(stats[0].total_cost, 6);
    assert_eq!(stats[0].average_tokens_per_request, Fraction { numerator: 14, denominator: 3 });
    assert_eq!(stats[0].cache_efficiency, Fraction { numerator: 200, denominator: 4 });
    assert_eq!(stats[1].model, "x");
    assert_eq!(stats[1].cache_efficiency, Fraction { numerator: 1000, denominator: 40 });
    let none = p.calculate_model_stats(&[record("d", "z", [0, 0, 0, 5], 5, 0)]);
    assert_eq!(none[0].cache_efficiency, Fraction { numerator: 0, denominator: 1 });
}

#[test]
fn merge_sorts_and_drops_repeats() {
    let p = DataProcessor::new();
    let existing = vec![
        record("2024-01-02", "a", [1, 0, 0, 0], 1, 10),
        record("2024-01-01", "b", [1, 0, 0, 0], 1, 10),
    ];
    let new = vec![
        record("2024-01-01", "b", [1, 0, 0, 0], 1, 10),
        record("2024-01-01", "a", [2, 0, 0, 0], 2, 10),
        record("2024-01-01", "a", [1, 0, 0, 0], 1, 5),
    ];
    let merged = p.merge_data(existing, new);
    let keys: Vec<(String, String, u64)> = merged.iter().map(|r| (r.date.clone(), r.model.clone(), r.cost)).collect();
    assert_eq!(
        keys,
        vec![
            ("2024-01-01".to_string(), "a".to_string(), 5),
            ("2024-01-01".to_string(), "a".to_string(), 10),
            ("2024-01-01".to_string(), "b".to_string(), 10),
            ("2024-01-02".to_string(), "a".to_string(), 10),
        ]
    );
}

#[test]
fn merging_a_set_with_itself_collapses_duplicates() {
    let p = DataProcessor::new();
    let x = vec![
        record("2024-01-03", "a", [1, 0, 0, 0], 1, 10),
        record("2024-01-01", "b", [2, 0, 0, 0], 2, 10),
        record("2024-01-03", "a", [1, 0, 0, 0], 1, 10),
        record("2024-01-02", "a", [3, 0, 0, 0], 3, 7),
    ];
    let alone = p.merge_data(x.clone(), vec![]);
    let doubled = p.merge_data(x.clone(), x.clone());
    assert_eq!(alone.len(), 3);
    assert_eq!(doubled.len(), alone.len());
}

#[test]
fn equal_keys_with_different_tokens_are_kept_apart() {
    let p = DataProcessor::new();
    let x = vec![
        record("2024-01-01", "a", [1, 0, 0, 0], 1, 10),
        record("2024-01-01", "a", [2, 0, 0, 0], 2, 10),
    ];
    assert_eq!(p.merge_data(x.clone(), vec![]).len(), 2);
    assert_eq!(p.merge_data(x.clone(), x.clone()).len(), 4);
}

#[test]
fn validation_reports_first_fault() {
    let p = DataProcessor::new();
    let good = record("2024-01-01", "a", [1, 2, 3, 4], 10, 1);
    let bad_sum = record("2024-01-01", "a", [1, 2, 3, 4], 11, 1);
    let no_date = record("", "a", [1, 2, 3, 4], 10, 1);
    assert_eq!(p.validate_usage_data(&[good.clone(), good.clone()]), Ok(()));
    assert_eq!(
        p.validate_usage_data(&[good.clone(), bad_sum.clone(), no_date.clone()]),
        Err(ValidationError::TokenMismatch { index: 1, calculated: 10, stated: 11 })
    );
    assert_eq!(
        p.validate_usage_data(&[good.clone(), no_date.clone(), bad_sum.clone()]),
        Err(ValidationError::EmptyDate { index: 1 })
    );
}

#[test]
fn merging_large_sets_keeps_one_record_per_key() {
    let p = DataProcessor::new();
    let x: Vec<UsageData> = (0..20000u64)
        .map(|i| record(&format!("2024-01-{:02}T{:02}:00:00Z", i % 28 + 1, i % 24), "m", [1, 0, 0, 0], 1, i % 500))
        .collect();
    let alone = p.merge_data(x.clone(), vec![]);
    let doubled = p.merge_data(x.clone(), x);
    assert_eq!(doubled.len(), alone.len());
    for w in doubled.windows(2) {
        assert!((w[0].date.as_str(), w[0].model.as_str(), w[0].cost) < (w[1].date.as_str(), w[1].model.as_str(), w[1].cost));
    }
}
