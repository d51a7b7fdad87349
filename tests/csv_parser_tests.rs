use cursor_usage_dashboard_backend::csv_parser::{CsvParser, ParseError};
use cursor_usage_dashboard_backend::fields::parse_cost_text;

fn units(nanos: u64) -> f64 {
    nanos as f64 / 1e9
}

fn create_valid_csv() -> String {
    "Date,Kind,Model,Max Mode,Input (w/ Cache Write),Input (w/o Cache Write),Cache Read,Output Tokens,Total Tokens,Cost\n\
     2024-01-01T10:00:00Z,Included,auto,No,100,50,25,75,250,0.05\n\
     2024-01-01T11:00:00Z,Included,gpt-4,Yes,200,100,50,150,500,0.15".to_string()
}

fn create_invalid_header_csv() -> String {
    "Date,Kind,Model,Invalid Header,Input (w/ Cache Write),Input (w/o Cache Write),Cache Read,Output Tokens,Total Tokens,Cost\n\
     2024-01-01T10:00:00Z,Included,auto,No,100,50,25,75,250,0.05".to_string()
}

#[test]
fn test_parse_valid_csv() {
    let parser = CsvParser::new();
    let csv_content = create_valid_csv();

    let result = parser.parse_csv(&csv_content);
    assert!(result.is_ok());

    let data = result.unwrap();
    assert_eq!(data.len(), 2);

    assert_eq!(data[0].date, "2024-01-01T10:00:00Z");
    assert_eq!(data[0].kind, "Included");
    assert_eq!(data[0].model, "auto");
    assert_eq!(data[0].max_mode, false);
    assert_eq!(data[0].input_with_cache, 100);
    assert_eq!(data[0].input_without_cache, 50);
    assert_eq!(data[0].cache_read, 25);
    assert_eq!(data[0].output_tokens, 75);
    assert_eq!(data[0].total_tokens, 250);
    assert_eq!(units(data[0].cost), 0.05);
}

#[test]
fn test_parse_empty_csv() {
    let parser = CsvParser::new();
    let result = parser.parse_csv("");
    assert!(result.is_err());
    assert!(result.unwrap_err().message().contains("CSV file is empty"));
}

#[test]
fn test_parse_invalid_headers() {
    let parser = CsvParser::new();
    let csv_content = create_invalid_header_csv();

    let result = parser.parse_csv(&csv_content);
    assert!(result.is_err());
    assert!(result.unwrap_err().message().contains("Invalid header at column 4"));
}

#[test]
fn test_parse_invalid_token_calculation() {
    let parser = CsvParser::new();
    let csv_content = "Date,Kind,Model,Max Mode,Input (w/ Cache Write),Input (w/o Cache Write),Cache Read,Output Tokens,Total Tokens,Cost\n\
                      2024-01-01T10:00:00Z,Included,auto,No,100,50,25,75,300,0.05";

    let result = parser.parse_csv(&csv_content);
    assert!(result.is_err());
    assert!(result.unwrap_err().message().contains("Token calculation mismatch"));
}

#[test]
fn test_parse_invalid_number_format() {
    let parser = CsvParser::new();
    let csv_content = "Date,Kind,Model,Max Mode,Input (w/ Cache Write),Input (w/o Cache Write),Cache Read,Output Tokens,Total Tokens,Cost\n\
                      2024-01-01T10:00:00Z,Included,auto,No,invalid,50,25,75,250,0.05";

    let result = parser.parse_csv(&csv_content);
    assert!(result.is_err());
    assert!(result.unwrap_err().message().contains("Invalid Input (w/ Cache Write) value"));
}

#[test]
fn test_parse_invalid_max_mode() {
    let parser = CsvParser::new();
    let csv_content = "Date,Kind,Model,Max Mode,Input (w/ Cache Write),Input (w/o Cache Write),Cache Read,Output Tokens,Total Tokens,Cost\n\
                      2024-01-01T10:00:00Z,Included,auto,Maybe,100,50,25,75,250,0.05";

    let result = parser.parse_csv(&csv_content);
    assert!(result.is_err());
    assert!(result.unwrap_err().message().contains("Invalid Max Mode value"));
}

#[test]
fn test_parse_wrong_column_count() {
    let parser = CsvParser::new();
    let csv_content = "Date,Kind,Model,Max Mode,Input (w/ Cache Write),Input (w/o Cache Write),Cache Read,Output Tokens,Total Tokens,Cost\n\
                      2024-01-01T10:00:00Z,Included,auto,No,100,50,25,75";

    let result = parser.parse_csv(&csv_content);
    assert!(result.is_err());
    let error_msg = result.unwrap_err().message();
    assert!(error_msg.contains("found record with 8 fields") ||
            error_msg.contains("Invalid number of columns") ||
            error_msg.contains("Expected 10, found"));
}

#[test]
fn test_validate_csv_format_success() {
    let parser = CsvParser::new();
    let csv_content = create_valid_csv();

    let result = parser.validate_csv_format(&csv_content);
    assert!(result.is_ok());
}

#[test]
fn test_validate_csv_format_empty() {
    let parser = CsvParser::new();
    let result = parser.validate_csv_format("");
    assert!(result.is_err());
    assert!(result.unwrap_err().message().contains("CSV file is empty"));
}

#[test]
fn test_validate_csv_format_wrong_header_count() {
    let parser = CsvParser::new();
    let csv_content = "Date,Kind,Model\n2024-01-01,Included,auto";

    let result = parser.validate_csv_format(&csv_content);
    assert!(result.is_err());
    assert!(result.unwrap_err().message().contains("Invalid number of columns in header"));
}

const HEADER: &str = "Date,Kind,Model,Max Mode,Input (w/ Cache Write),Input (w/o Cache Write),Cache Read,Output Tokens,Total Tokens,Cost";

fn with_rows(rows: &[&str]) -> String {
    let mut text = HEADER.to_string();
    for row in rows {
        text.push('\n');
        text.push_str(row);
    }
    text
}

#[test]
fn whitespace_only_text_is_empty_input() {
    let parser = CsvParser::new();
    assert!(matches!(parser.parse_csv(" \n\t \n"), Err(ParseError::EmptyInput)));
}

#[test]
fn header_only_text_has_no_data_rows() {
    let parser = CsvParser::new();
    let result = parser.parse_csv(HEADER);
    assert!(matches!(result, Err(ParseError::NoDataRows)));
    assert!(parser.validate_csv_format(HEADER).is_ok());
}

#[test]
fn every_changed_header_name_is_reported_at_its_column() {
    let parser = CsvParser::new();
    let names: Vec<&str> = HEADER.split(',').collect();
    for i in 0..names.len() {
        let mut changed = names.clone();
        changed[i] = "Renamed";
        let text = format!("{}\n2024-01-01T10:00:00Z,Included,auto,No,100,50,25,75,250,0.05", changed.join(","));
        match parser.parse_csv(&text) {
            Err(ParseError::HeaderName { column, name }) => {
                assert_eq!(column, i + 1);
                assert_eq!(name, "Renamed");
            }
            other => panic!("unexpected outcome {:?}", other),
        }
        let e = parser.validate_csv_format(&text).unwrap_err();
        assert!(e.message().contains(&format!("Invalid header at column {}", i + 1)));
    }
}

#[test]
fn consistent_rows_all_parse() {
    let parser = CsvParser::new();
    let mut rows = Vec::new();
    for i in 0..7u32 {
        rows.push(format!("2024-02-0{}T0{}:00:00Z,Included,m{},yes,{},2,3,4,{},1.5", i + 1, i, i, i, i + 9));
    }
    let refs: Vec<&str> = rows.iter().map(|s| s.as_str()).collect();
    let data = parser.parse_csv(&with_rows(&refs)).unwrap();
    assert_eq!(data.len(), 7);
    for r in &data {
        assert_eq!(r.input_with_cache + r.input_without_cache + r.cache_read + r.output_tokens, r.total_tokens);
        assert_eq!(r.cost, 1_500_000_000);
        assert!(r.max_mode);
    }
}

#[test]
fn token_mismatch_names_its_line() {
    let parser = CsvParser::new();
    let text = with_rows(&[
        "2024-01-01T10:00:00Z,Included,auto,No,100,50,25,75,250,0.05",
        "2024-01-01T11:00:00Z,Included,auto,No,1,2,3,4,11,0.05",
    ]);
    match parser.parse_csv(&text) {
        Err(ParseError::TokenMismatch { line, calculated, stated }) => {
            assert_eq!(line, 3);
            assert_eq!(calculated, 10);
            assert_eq!(stated, 11);
        }
        other => panic!("unexpected outcome {:?}", other),
    }
    let message = parser.parse_csv(&text).unwrap_err().message();
    assert_eq!(message, "Token calculation mismatch on line 3. Sum of individual tokens (10) doesn't match Total Tokens (11)");
}

#[test]
fn short_row_is_a_column_count_error() {
    let parser = CsvParser::new();
    let text = with_rows(&["2024-01-01T10:00:00Z,Included,auto,No,100,50,25"]);
    assert!(matches!(parser.parse_csv(&text), Err(ParseError::RowColumnCount { line: 2, found: 7 })));
}

#[test]
fn empty_date_is_refused() {
    let parser = CsvParser::new();
    let text = with_rows(&["\"\",Included,auto,No,100,50,25,75,250,0.05"]);
    assert!(matches!(parser.parse_csv(&text), Err(ParseError::EmptyDate { line: 2 })));
}

#[test]
fn max_mode_is_case_insensitive() {
    let parser = CsvParser::new();
    for (text, expected) in [("YES", true), ("True", true), ("1", true), ("nO", false), ("FALSE", false), ("0", false)] {
        let csv = with_rows(&[&format!("2024-01-01T10:00:00Z,Included,auto,{},1,1,1,1,4,0", text)]);
        assert_eq!(parser.parse_csv(&csv).unwrap()[0].max_mode, expected);
    }
    let csv = with_rows(&["2024-01-01T10:00:00Z,Included,auto,y,1,1,1,1,4,0"]);
    match parser.parse_csv(&csv) {
        Err(ParseError::InvalidMaxMode { line, value }) => {
            assert_eq!(line, 2);
            assert_eq!(value, "y");
        }
        other => panic!("unexpected outcome {:?}", other),
    }
}

#[test]
fn negative_or_malformed_numbers_are_refused() {
    let parser = CsvParser::new();
    let negative = with_rows(&["2024-01-01T10:00:00Z,Included,auto,No,-100,50,25,75,250,0.05"]);
    assert!(matches!(parser.parse_csv(&negative), Err(ParseError::InvalidNumber { line: 2, column: 5, .. })));
    let negative_cost = with_rows(&["2024-01-01T10:00:00Z,Included,auto,No,100,50,25,75,250,-0.05"]);
    let e = parser.parse_csv(&negative_cost).unwrap_err();
    assert!(matches!(e, ParseError::InvalidNumber { line: 2, column: 10, .. }));
    assert_eq!(e.message(), "Invalid Cost value '-0.05' on line 2. Expected a number");
    let too_large = with_rows(&["2024-01-01T10:00:00Z,Included,auto,No,4294967296,0,0,0,0,0"]);
    assert!(matches!(parser.parse_csv(&too_large), Err(ParseError::InvalidNumber { column: 5, .. })));
}

#[test]
fn cost_text_forms() {
    let parser = CsvParser::new();
    for (text, nanos) in [("0.05", 50_000_000u64), ("+2", 2_000_000_000), (".5", 500_000_000), ("3.", 3_000_000_000), ("0.123456789", 123_456_789)] {
        let csv = with_rows(&[&format!("2024-01-01T10:00:00Z,Included,auto,No,1,1,1,1,4,{}", text)]);
        assert_eq!(parser.parse_csv(&csv).unwrap()[0].cost, nanos);
    }
    let csv = with_rows(&["2024-01-01T10:00:00Z,Included,auto,No,1,1,1,1,4,."]);
    assert!(parser.parse_csv(&csv).is_err());
}

#[test]
fn quoted_fields_are_unquoted() {
    let parser = CsvParser::new();
    let csv = with_rows(&["\"2024-01-01T10:00:00Z\",\"Included\",\"a,b\",\"No\",\"1\",1,1,1,4,\"0.5\""]);
    let data = parser.parse_csv(&csv).unwrap();
    assert_eq!(data[0].date, "2024-01-01T10:00:00Z");
    assert_eq!(data[0].model, "a,b");
    assert_eq!(data[0].cost, 500_000_000);
}

#[test]
fn parse_rows_on_given_fields() {
    let parser = CsvParser::new();
    let header: Vec<String> = HEADER.split(',').map(|s| s.to_string()).collect();
    let row: Vec<String> = "2024-01-01T10:00:00Z,Included,auto,No,1,2,3,4,10,0.25".split(',').map(|s| s.to_string()).collect();
    let data = parser.parse_rows(&vec![header.clone(), row]).unwrap();
    assert_eq!(data[0].total_tokens, 10);
    assert_eq!(data[0].cost, 250_000_000);
    assert!(matches!(parser.parse_rows(&vec![]), Err(ParseError::HeaderColumnCount { found: 0 })));
    assert!(matches!(parser.parse_rows(&vec![header]), Err(ParseError::NoDataRows)));
}

#[test]
fn cost_in_float_notation() {
    let cost = |t: &str| parse_cost_text(&t.chars().collect::<Vec<char>>());
    assert_eq!(cost("0.0000000001"), Some(0));
    assert_eq!(cost("0.0000000019"), Some(1));
    assert_eq!(cost("5e-2"), Some(50_000_000));
    assert_eq!(cost("1E3"), Some(1_000_000_000_000));
    assert_eq!(cost("1.5e+1"), Some(15_000_000_000));
    assert_eq!(cost("0.15e1"), Some(1_500_000_000));
    assert_eq!(cost("+.5"), Some(500_000_000));
    assert_eq!(cost("0e999999999999999999999999"), Some(0));
    assert_eq!(cost("1e-999999999999999999999999"), Some(0));
    assert_eq!(cost("1e300"), Some(u64::MAX));
    assert_eq!(cost("123456789012345678901234567890"), Some(u64::MAX));
    assert_eq!(cost("18446744073.709551615"), Some(u64::MAX));
    assert_eq!(cost("18446744073.709551614"), Some(u64::MAX - 1));
    for bad in ["inf", "nan", "1e", "e5", ".", "", "-1", "1e+", "1.2.3", "0x10"] {
        assert_eq!(cost(bad), None, "{}", bad);
    }
}

#[test]
fn rows_with_tiny_float_costs() {
    let parser = CsvParser::new();
    let ok = with_rows(&["2024-01-01T10:00:00Z,Included,auto,No,100,50,25,75,250,0.0000000001"]);
    let data = parser.parse_csv(&ok).unwrap();
    assert_eq!(data.len(), 1);
    assert_eq!(data[0].cost, 0);
    let mismatch = with_rows(&[
        "2024-01-01T10:00:00Z,Included,auto,No,100,50,25,75,250,1e-10",
        "2024-01-01T11:00:00Z,Included,auto,No,100,50,25,75,251,0.0000000001",
    ]);
    assert!(matches!(
        parser.parse_csv(&mismatch),
        Err(ParseError::TokenMismatch { line: 3, calculated: 250, stated: 251 })
    ));
}
