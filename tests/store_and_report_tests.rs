use cursor_usage_dashboard_backend::csv_parser::ParseError;
use cursor_usage_dashboard_backend::models::UsageData;
use cursor_usage_dashboard_backend::report::{
    build_stats_report, filter_by_bounds, filter_by_date_range, ingest_upload, DateRangeQuery, StatsReport,
};
use cursor_usage_dashboard_backend::stats_calculator::record_times;
use cursor_usage_dashboard_backend::store::UsageStore;
use cursor_usage_dashboard_backend::validation::{validate_csv_extension, validate_file_size, MAX_FILE_SIZE};

const HEADER: &str = "Date,Kind,Model,Max Mode,Input (w/ Cache Write),Input (w/o Cache Write),Cache Read,Output Tokens,Total Tokens,Cost";

fn record(date: &str, cost: u64) -> UsageData {
    UsageData {
        date: date.to_string(),
        kind: "Included".to_string(),
        model: "m".to_string(),
        max_mode: false,
        input_with_cache: 1,
        input_without_cache: 0,
        cache_read: 0,
        output_tokens: 0,
        total_tokens: 1,
        cost,
    }
}

fn query(start: Option<&str>, end: Option<&str>) -> DateRangeQuery {
    DateRangeQuery { start_date: start.map(|s| s.to_string()), end_date: end.map(|s| s.to_string()) }
}

#[test]
fn file_size_limit() {
    assert_eq!(validate_file_size(MAX_FILE_SIZE), Ok(()));
    assert_eq!(
        validate_file_size(MAX_FILE_SIZE + 1),
        Err("File size 104857601 bytes exceeds maximum allowed size of 104857600 bytes".to_string())
    );
}

#[test]
fn csv_extension_any_case() {
    assert!(validate_csv_extension("usage.csv").is_ok());
    assert!(validate_csv_extension("USAGE.CSV").is_ok());
    assert!(validate_csv_extension(".cSv").is_ok());
    assert_eq!(validate_csv_extension("usage.txt"), Err("File must have .csv extension".to_string()));
    assert!(validate_csv_extension("csv").is_err());
}

#[test]
fn date_range_filter() {
    let data = vec![
        record("2024-01-01T10:00:00Z", 1),
        record("2024-01-02T10:00:00Z", 2),
        record("2024-01-03T10:00:00Z", 3),
        record("garbage", 4),
    ];
    assert_eq!(filter_by_date_range(&data, &query(None, None)).len(), 4);
    let mid = filter_by_date_range(&data, &query(Some("2024-01-02"), Some("2024-01-02")));
    assert_eq!(mid.iter().map(|r| r.cost).collect::<Vec<_>>(), vec![2]);
    let from = filter_by_date_range(&data, &query(Some("2024-01-02"), None));
    assert_eq!(from.iter().map(|r| r.cost).collect::<Vec<_>>(), vec![2, 3]);
    let bad_bound = filter_by_date_range(&data, &query(Some("not-a-date"), None));
    assert_eq!(bad_bound.iter().map(|r| r.cost).collect::<Vec<_>>(), vec![1, 2, 3]);
}

#[test]
fn filter_on_given_bounds() {
    let data = vec![record("a", 1), record("b", 2)];
    let times = record_times(&data);
    assert!(times.iter().all(|t| t.is_none()));
    assert!(filter_by_bounds(&data, &times, None, None).is_empty());
    let data = vec![record("2023-12-31T23:00:00Z", 1), record("2024-01-01T01:00:00Z", 2)];
    let times = record_times(&data);
    let kept = filter_by_bounds(&data, &times, Some((2024, 1, 1)), None);
    assert_eq!(kept.len(), 1);
    assert_eq!(kept[0].cost, 2);
}

#[test]
fn stats_report_outcomes() {
    assert!(matches!(build_stats_report(&[], &query(None, None)), StatsReport::NoData));
    let data = vec![record("2024-01-01T10:00:00Z", 5), record("2024-01-05T10:00:00Z", 7)];
    assert!(matches!(build_stats_report(&data, &query(Some("2025-01-01"), None)), StatsReport::NoMatch));
    match build_stats_report(&data, &query(None, Some("2024-01-02"))) {
        StatsReport::Ready(s) => {
            assert_eq!(s.record_count, 1);
            assert_eq!(s.total_records, 2);
            assert_eq!(s.summary.total_cost, 5);
            assert_eq!(s.model_stats.len(), 1);
        }
        _ => panic!("expected statistics"),
    }
}

#[test]
fn store_replace_and_merge() {
    let mut store = UsageStore::new();
    assert_eq!(store.len(), 0);
    store.replace(vec![record("2024-01-02", 1), record("2024-01-01", 1)]);
    assert_eq!(store.snapshot().len(), 2);
    store.append_and_merge(vec![record("2024-01-01", 1), record("2024-01-03", 1)]);
    let dates: Vec<String> = store.snapshot().into_iter().map(|r| r.date).collect();
    assert_eq!(dates, vec!["2024-01-01", "2024-01-02", "2024-01-03"]);
}

#[test]
fn ingest_replaces_or_appends() {
    let mut store = UsageStore::new();
    let first = format!("{}\n2024-01-01T10:00:00Z,Included,auto,No,1,1,1,1,4,0.5", HEADER);
    let outcome = ingest_upload(&mut store, &first, false).unwrap();
    assert_eq!(outcome.new_records, 1);
    assert_eq!(outcome.data.len(), 1);
    assert_eq!(outcome.summary.total_cost, 500_000_000);

    let second = format!(
        "{}\n2024-01-01T10:00:00Z,Included,auto,No,1,1,1,1,4,0.5\n2024-01-02T10:00:00Z,Included,auto,No,2,2,2,2,8,1",
        HEADER
    );
    let outcome = ingest_upload(&mut store, &second, true).unwrap();
    assert_eq!(outcome.new_records, 2);
    assert_eq!(outcome.data.len(), 2);
    assert_eq!(store.len(), 2);
    assert_eq!(outcome.summary.total_tokens, 12);

    let refused = ingest_upload(&mut store, "", true);
    assert!(matches!(refused, Err(ParseError::EmptyInput)));
    assert_eq!(store.len(), 2);
}
