//! Schema validation and row decoding of usage exports.
//!
//! The text is split into records and fields by the `csv` crate; everything
//! after that (the header schema, the field encodings, the token-sum check)
//! is decided here.

use vstd::prelude::*;
use vstd::string::*;
use crate::fields::{
    unquote, unquote_field, max_mode_value, parse_max_mode, u32_text_value, parse_u32_text,
    cost_text_value, parse_cost_text,
};
use crate::models::UsageData;
use crate::text::{chars_of, decimal, push_decimal};

verus! {

/// Number of columns of the schema.
pub const COLUMN_COUNT: usize = 10;

/// The records of a comma-separated text and the fields of each, as the
/// `csv` crate reads them with no header row and records of any length; or
/// the text of the error that the reader reports.
pub uninterp spec fn csv_records(text: Seq<char>) -> Result<Seq<Seq<Seq<char>>>, Seq<char>>;

/// The fields of each record, as character sequences.
pub open spec fn table_view(rows: Seq<Vec<String>>) -> Seq<Seq<Seq<char>>> {
    rows.map_values(|row: Vec<String>| row@.map_values(|f: String| f@))
}

/// Relies on `csv::ReaderBuilder` (no header row, flexible record lengths)
/// and `csv::Reader::records`: splits the text into records of fields.
#[verifier::external_body]
fn read_records(text: &str) -> (r: Result<Vec<Vec<String>>, String>)
    ensures
        match r {
            Ok(rows) => csv_records(text@) == Ok::<Seq<Seq<Seq<char>>>, Seq<char>>(table_view(rows@)),
            Err(m) => csv_records(text@) == Err::<Seq<Seq<Seq<char>>>, Seq<char>>(m@),
        },
{
    let mut reader = csv::ReaderBuilder::new().has_headers(false).flexible(true).from_reader(
        text.as_bytes(),
    );
    let mut rows = Vec::new();
    for record in reader.records() {
        match record {
            Ok(rec) => rows.push(rec.iter().map(|f| f.to_string()).collect()),
            Err(e) => return Err(e.to_string()),
        }
    }
    Ok(rows)
}

/// The expected name of column `i` (0-based).
pub open spec fn header_name(i: int) -> Seq<char> {
    if i == 0 {
        "Date"@
    } else if i == 1 {
        "Kind"@
    } else if i == 2 {
        "Model"@
    } else if i == 3 {
        "Max Mode"@
    } else if i == 4 {
        "Input (w/ Cache Write)"@
    } else if i == 5 {
        "Input (w/o Cache Write)"@
    } else if i == 6 {
        "Cache Read"@
    } else if i == 7 {
        "Output Tokens"@
    } else if i == 8 {
        "Total Tokens"@
    } else {
        "Cost"@
    }
}

/// The expected name of column `i` (0-based); the last one for any larger `i`.
pub fn header_name_str(i: usize) -> (r: &'static str)
    ensures
        r@ == header_name(i as int),
{
    if i == 0 {
        "Date"
    } else if i == 1 {
        "Kind"
    } else if i == 2 {
        "Model"
    } else if i == 3 {
        "Max Mode"
    } else if i == 4 {
        "Input (w/ Cache Write)"
    } else if i == 5 {
        "Input (w/o Cache Write)"
    } else if i == 6 {
        "Cache Read"
    } else if i == 7 {
        "Output Tokens"
    } else if i == 8 {
        "Total Tokens"
    } else {
        "Cost"
    }
}

/// A reason why a text is refused, as a mathematical value.
pub enum ParseFault {
    EmptyInput,
    Reader { message: Seq<char> },
    HeaderColumnCount { found: nat },
    HeaderName { column: nat, name: Seq<char> },
    NoDataRows,
    RowColumnCount { line: nat, found: nat },
    EmptyDate { line: nat },
    InvalidMaxMode { line: nat, value: Seq<char> },
    InvalidNumber { line: nat, column: nat, value: Seq<char> },
    TokenMismatch { line: nat, calculated: nat, stated: nat },
}

/// Why a text is refused. Line numbers are 1-based and count the header;
/// column numbers are 1-based.
#[derive(Debug)]
pub enum ParseError {
    /// The text is empty or holds only whitespace.
    EmptyInput,
    /// The comma-separated reader failed.
    Reader { message: String },
    /// The header row does not have ten columns.
    HeaderColumnCount { found: usize },
    /// A header name differs from the schema.
    HeaderName { column: usize, name: String },
    /// A valid header is followed by no data row.
    NoDataRows,
    /// A data row does not have ten fields.
    RowColumnCount { line: usize, found: usize },
    /// The date field of a row is empty.
    EmptyDate { line: usize },
    /// The "Max Mode" field is not one of yes / true / 1 / no / false / 0.
    InvalidMaxMode { line: usize, value: String },
    /// A token count or the cost is not a non-negative number.
    InvalidNumber { line: usize, column: usize, value: String },
    /// The four token counts do not add up to the stated total.
    TokenMismatch { line: usize, calculated: u64, stated: u32 },
}

impl View for ParseError {
    type V = ParseFault;

    open spec fn view(&self) -> ParseFault {
        match self {
            ParseError::EmptyInput => ParseFault::EmptyInput,
            ParseError::Reader { message } => ParseFault::Reader { message: message@ },
            ParseError::HeaderColumnCount { found } => ParseFault::HeaderColumnCount {
                found: *found as nat,
            },
            ParseError::HeaderName { column, name } => ParseFault::HeaderName {
                column: *column as nat,
                name: name@,
            },
            ParseError::NoDataRows => ParseFault::NoDataRows,
            ParseError::RowColumnCount { line, found } => ParseFault::RowColumnCount {
                line: *line as nat,
                found: *found as nat,
            },
            ParseError::EmptyDate { line } => ParseFault::EmptyDate { line: *line as nat },
            ParseError::InvalidMaxMode { line, value } => ParseFault::InvalidMaxMode {
                line: *line as nat,
                value: value@,
            },
            ParseError::InvalidNumber { line, column, value } => ParseFault::InvalidNumber {
                line: *line as nat,
                column: *column as nat,
                value: value@,
            },
            ParseError::TokenMismatch { line, calculated, stated } => ParseFault::TokenMismatch {
                line: *line as nat,
                calculated: *calculated as nat,
                stated: *stated as nat,
            },
        }
    }
}

/// The message that describes an error.
pub open spec fn error_message(e: &ParseError) -> Seq<char> {
    match e {
        ParseError::EmptyInput => "CSV file is empty"@,
        ParseError::Reader { message } => "Error reading CSV: "@ + message@,
        ParseError::HeaderColumnCount { found } => "Invalid number of columns in header. Expected 10, found "@
            + decimal(*found as nat),
        ParseError::HeaderName { column, name } => "Invalid header at column "@ + decimal(
            *column as nat,
        ) + ". Expected '"@ + header_name(*column - 1) + "', found '"@ + name@ + "'"@,
        ParseError::NoDataRows => "CSV file contains no data rows"@,
        ParseError::RowColumnCount { line, found } => "Invalid number of columns on line "@
            + decimal(*line as nat) + ". Expected 10, found "@ + decimal(*found as nat),
        ParseError::EmptyDate { line } => "Empty date field on line "@ + decimal(*line as nat),
        ParseError::InvalidMaxMode { line, value } => "Invalid Max Mode value '"@ + value@
            + "' on line "@ + decimal(*line as nat) + ". Expected 'Yes' or 'No'"@,
        ParseError::InvalidNumber { line, column, value } => "Invalid "@ + header_name(*column - 1)
            + " value '"@ + value@ + "' on line "@ + decimal(*line as nat) + if *column
            == COLUMN_COUNT {
            ". Expected a number"@
        } else {
            ". Expected a positive integer"@
        },
        ParseError::TokenMismatch { line, calculated, stated } => "Token calculation mismatch on line "@
            + decimal(*line as nat) + ". Sum of individual tokens ("@ + decimal(*calculated as nat)
            + ") doesn't match Total Tokens ("@ + decimal(*stated as nat) + ")"@,
    }
}

/// The schema name of a 1-based column number.
fn column_name(column: usize) -> (r: &'static str)
    ensures
        r@ == header_name(column - 1),
{
    if column == 0 {
        header_name_str(COLUMN_COUNT)
    } else {
        header_name_str(column - 1)
    }
}

impl ParseError {
    /// A sentence that describes the error.
    pub fn message(&self) -> (r: String)
        ensures
            r@ == error_message(self),
    {
        match self {
            ParseError::EmptyInput => String::from_str("CSV file is empty"),
            ParseError::Reader { message } => {
                let mut m = String::from_str("Error reading CSV: ");
                m.append(message.as_str());
                m
            },
            ParseError::HeaderColumnCount { found } => {
                let mut m = String::from_str("Invalid number of columns in header. Expected 10, found ");
                push_decimal(&mut m, *found as u64);
                m
            },
            ParseError::HeaderName { column, name } => {
                let mut m = String::from_str("Invalid header at column ");
                push_decimal(&mut m, *column as u64);
                m.append(". Expected '");
                m.append(column_name(*column));
                m.append("', found '");
                m.append(name.as_str());
                m.append("'");
                m
            },
            ParseError::NoDataRows => String::from_str("CSV file contains no data rows"),
            ParseError::RowColumnCount { line, found } => {
                let mut m = String::from_str("Invalid number of columns on line ");
                push_decimal(&mut m, *line as u64);
                m.append(". Expected 10, found ");
                push_decimal(&mut m, *found as u64);
                m
            },
            ParseError::EmptyDate { line } => {
                let mut m = String::from_str("Empty date field on line ");
                push_decimal(&mut m, *line as u64);
                m
            },
            ParseError::InvalidMaxMode { line, value } => {
                let mut m = String::from_str("Invalid Max Mode value '");
                m.append(value.as_str());
                m.append("' on line ");
                push_decimal(&mut m, *line as u64);
                m.append(". Expected 'Yes' or 'No'");
                m
            },
            ParseError::InvalidNumber { line, column, value } => {
                let mut m = String::from_str("Invalid ");
                m.append(column_name(*column));
                m.append(" value '");
                m.append(value.as_str());
                m.append("' on line ");
                push_decimal(&mut m, *line as u64);
                if *column == COLUMN_COUNT {
                    m.append(". Expected a number");
                } else {
                    m.append(". Expected a positive integer");
                }
                m
            },
            ParseError::TokenMismatch { line, calculated, stated } => {
                let mut m = String::from_str("Token calculation mismatch on line ");
                push_decimal(&mut m, *line as u64);
                m.append(". Sum of individual tokens (");
                push_decimal(&mut m, *calculated);
                m.append(") doesn't match Total Tokens (");
                push_decimal(&mut m, *stated as u64);
                m.append(")");
                m
            },
        }
    }
}

/// The first header name (0-based index) that differs from the schema.
pub open spec fn first_header_mismatch(h: Seq<Seq<char>>) -> int {
    choose|i: int|
        0 <= i < COLUMN_COUNT && h[i] != header_name(i) && forall|j: int|
            0 <= j < i ==> h[j] == #[trigger] header_name(j)
}

/// What is wrong with the header row, if anything.
pub open spec fn header_fault(rows: Seq<Seq<Seq<char>>>) -> Option<ParseFault> {
    let h = if rows.len() == 0 {
        Seq::empty()
    } else {
        rows[0]
    };
    if h.len() != COLUMN_COUNT {
        Some(ParseFault::HeaderColumnCount { found: h.len() })
    } else if exists|i: int| 0 <= i < COLUMN_COUNT && h[i] != #[trigger] header_name(i) {
        let i = first_header_mismatch(h);
        Some(ParseFault::HeaderName { column: (i + 1) as nat, name: h[i] })
    } else {
        None
    }
}

/// The value of the numeric field in column `i` when it is a token count.
pub open spec fn count_field(f: Seq<Seq<char>>, i: int) -> Option<u32> {
    u32_text_value(unquote(f[i]))
}

/// What is wrong with one data row, found at line `line`, if anything; the
/// fields are checked in column order.
pub open spec fn row_fault(f: Seq<Seq<char>>, line: nat) -> Option<ParseFault> {
    if f.len() != COLUMN_COUNT {
        Some(ParseFault::RowColumnCount { line, found: f.len() })
    } else if unquote(f[0]).len() == 0 {
        Some(ParseFault::EmptyDate { line })
    } else if max_mode_value(unquote(f[3])) is None {
        Some(ParseFault::InvalidMaxMode { line, value: unquote(f[3]) })
    } else if count_field(f, 4) is None {
        Some(ParseFault::InvalidNumber { line, column: 5, value: unquote(f[4]) })
    } else if count_field(f, 5) is None {
        Some(ParseFault::InvalidNumber { line, column: 6, value: unquote(f[5]) })
    } else if count_field(f, 6) is None {
        Some(ParseFault::InvalidNumber { line, column: 7, value: unquote(f[6]) })
    } else if count_field(f, 7) is None {
        Some(ParseFault::InvalidNumber { line, column: 8, value: unquote(f[7]) })
    } else if count_field(f, 8) is None {
        Some(ParseFault::InvalidNumber { line, column: 9, value: unquote(f[8]) })
    } else if cost_text_value(unquote(f[9])) is None {
        Some(ParseFault::InvalidNumber { line, column: 10, value: unquote(f[9]) })
    } else {
        let sum = count_field(f, 4)->0 + count_field(f, 5)->0 + count_field(f, 6)->0
            + count_field(f, 7)->0;
        if sum != count_field(f, 8)->0 {
            Some(
                ParseFault::TokenMismatch {
                    line,
                    calculated: sum as nat,
                    stated: count_field(f, 8)->0 as nat,
                },
            )
        } else {
            None
        }
    }
}

/// `r` is the record that the fields `f` of a faultless row denote.
pub open spec fn decodes_to(r: UsageData, f: Seq<Seq<char>>) -> bool {
    &&& r.date@ == unquote(f[0])
    &&& r.kind@ == unquote(f[1])
    &&& r.model@ == unquote(f[2])
    &&& Some(r.max_mode) == max_mode_value(unquote(f[3]))
    &&& Some(r.input_with_cache) == count_field(f, 4)
    &&& Some(r.input_without_cache) == count_field(f, 5)
    &&& Some(r.cache_read) == count_field(f, 6)
    &&& Some(r.output_tokens) == count_field(f, 7)
    &&& Some(r.total_tokens) == count_field(f, 8)
    &&& Some(r.cost) == cost_text_value(unquote(f[9]))
}

/// The first faulty data row at index `k` or after; row `k` is on line `k + 1`.
pub open spec fn first_row_fault(rows: Seq<Seq<Seq<char>>>, k: int) -> Option<ParseFault>
    decreases rows.len() - k,
{
    if k < 0 || k >= rows.len() {
        None
    } else if row_fault(rows[k], (k + 1) as nat) is Some {
        row_fault(rows[k], (k + 1) as nat)
    } else {
        first_row_fault(rows, k + 1)
    }
}

/// Why a table (header row first) is refused, if it is.
pub open spec fn table_fault(rows: Seq<Seq<Seq<char>>>) -> Option<ParseFault> {
    if header_fault(rows) is Some {
        header_fault(rows)
    } else if first_row_fault(rows, 1) is Some {
        first_row_fault(rows, 1)
    } else if rows.len() <= 1 {
        Some(ParseFault::NoDataRows)
    } else {
        None
    }
}

/// The characters that `char::is_whitespace` accepts (Unicode White_Space).
pub open spec fn is_white(c: char) -> bool {
    ||| ('\u{9}' <= c && c <= '\u{d}')
    ||| c == ' '
    ||| c == '\u{85}'
    ||| c == '\u{a0}'
    ||| c == '\u{1680}'
    ||| ('\u{2000}' <= c && c <= '\u{200a}')
    ||| c == '\u{2028}'
    ||| c == '\u{2029}'
    ||| c == '\u{202f}'
    ||| c == '\u{205f}'
    ||| c == '\u{3000}'
}

/// The text is empty or holds only whitespace.
pub open spec fn is_blank(s: Seq<char>) -> bool {
    forall|i: int| 0 <= i < s.len() ==> is_white(#[trigger] s[i])
}

/// The outcome of reading a text, when it is refused.
pub open spec fn text_fault(text: Seq<char>) -> Option<ParseFault> {
    if is_blank(text) {
        Some(ParseFault::EmptyInput)
    } else {
        match csv_records(text) {
            Err(message) => Some(ParseFault::Reader { message }),
            Ok(rows) => table_fault(rows),
        }
    }
}

fn blank(text: &str) -> (r: bool)
    ensures
        r == is_blank(text@),
{
    let mut all_white = true;
    for c in it: text.chars()
        invariant
            all_white == (forall|i: int| 0 <= i < it.index() ==> is_white(#[trigger] it.seq()[i])),
    {
        let w = ('\u{9}' <= c && c <= '\u{d}') || c == ' ' || c == '\u{85}' || c == '\u{a0}' || c
            == '\u{1680}' || ('\u{2000}' <= c && c <= '\u{200a}') || c == '\u{2028}' || c
            == '\u{2029}' || c == '\u{202f}' || c == '\u{205f}' || c == '\u{3000}';
        all_white = all_white && w;
    }
    all_white
}

/// Parser of usage exports.
pub struct CsvParser;

impl CsvParser {
    pub fn new() -> (r: Self) {
        CsvParser
    }

    /// Checks the header row of a table against the schema.
    pub fn validate_header(&self, rows: &Vec<Vec<String>>) -> (r: Result<(), ParseError>)
        ensures
            match r {
                Ok(()) => header_fault(table_view(rows@)) is None,
                Err(e) => header_fault(table_view(rows@)) == Some(e@),
            },
    {
        let ghost t = table_view(rows@);
        if rows.len() == 0 {
            return Err(ParseError::HeaderColumnCount { found: 0 });
        }
        let header = &rows[0];
        assert(t[0] == header@.map_values(|f: String| f@));
        if header.len() != COLUMN_COUNT {
            return Err(ParseError::HeaderColumnCount { found: header.len() });
        }
        let mut i: usize = 0;
        while i < COLUMN_COUNT
            invariant
                i <= COLUMN_COUNT == header@.len(),
                t == table_view(rows@),
                t.len() > 0 && t[0] == header@.map_values(|f: String| f@),
                forall|j: int| 0 <= j < i ==> t[0][j] == #[trigger] header_name(j),
            decreases COLUMN_COUNT - i,
        {
            let expected = String::from_str(header_name_str(i));
            if header[i] != expected {
                assert(t[0][i as int] == header@[i as int]@);
                proof {
                    let h = t[0];
                    assert(h[i as int] != header_name(i as int));
                    assert(0 <= i < COLUMN_COUNT && h[i as int] != header_name(i as int) && forall|
                        j: int,
                    | 0 <= j < i ==> h[j] == #[trigger] header_name(j));
                    let k = first_header_mismatch(h);
                    assert(0 <= k < COLUMN_COUNT && h[k] != header_name(k) && forall|j: int|
                        0 <= j < k ==> h[j] == #[trigger] header_name(j));
                    if k < i {
                        assert(h[k] == header_name(k));
                    }
                    if k > i {
                        assert(h[i as int] == header_name(i as int));
                    }
                    assert(k == i);
                }
                return Err(ParseError::HeaderName { column: i + 1, name: header[i].clone() });
            }
            i = i + 1;
        }
        Ok(())
    }

    /// Parses a table whose first row is the header and whose other rows
    /// are data rows, each row a list of fields.
    pub fn parse_rows(&self, rows: &Vec<Vec<String>>) -> (r: Result<Vec<UsageData>, ParseError>)
        ensures
            match r {
                Ok(records) => {
                    &&& table_fault(table_view(rows@)) is None
                    &&& records@.len() + 1 == rows@.len()
                    &&& forall|j: int|
                        0 <= j < records@.len() ==> decodes_to(
                            #[trigger] records@[j],
                            table_view(rows@)[j + 1],
                        )
                },
                Err(e) => table_fault(table_view(rows@)) == Some(e@),
            },
    {
        let ghost t = table_view(rows@);
        self.validate_header(rows)?;
        let mut records: Vec<UsageData> = Vec::new();
        let mut k: usize = 1;
        while k < rows.len()
            invariant
                1 <= k <= rows@.len(),
                t == table_view(rows@),
                header_fault(t) is None,
                first_row_fault(t, 1) == first_row_fault(t, k as int),
                records@.len() + 1 == k,
                forall|j: int|
                    0 <= j < records@.len() ==> decodes_to(#[trigger] records@[j], t[j + 1]),
            decreases rows.len() - k,
        {
            let row = &rows[k];
            assert(t[k as int] == row@.map_values(|f: String| f@));
            let rec = match self.parse_record(row, k + 1) {
                Ok(rec) => rec,
                Err(e) => {
                    return Err(e);
                },
            };
            records.push(rec);
            k = k + 1;
        }
        if records.len() == 0 {
            return Err(ParseError::NoDataRows);
        }
        Ok(records)
    }

    /// Decodes one data row found at line `line`.
    fn parse_record(&self, row: &Vec<String>, line: usize) -> (r: Result<UsageData, ParseError>)
        ensures
            match r {
                Ok(rec) => row_fault(row@.map_values(|f: String| f@), line as nat) is None
                    && decodes_to(rec, row@.map_values(|f: String| f@)),
                Err(e) => row_fault(row@.map_values(|f: String| f@), line as nat) == Some(e@),
            },
    {
        let ghost f = row@.map_values(|s: String| s@);
        if row.len() != COLUMN_COUNT {
            return Err(ParseError::RowColumnCount { line, found: row.len() });
        }
        assert(forall|i: int| 0 <= i < COLUMN_COUNT ==> f[i] == (#[trigger] row@[i])@);
        let date = unquote_field(row[0].as_str());
        if date.as_str().unicode_len() == 0 {
            return Err(ParseError::EmptyDate { line });
        }
        let kind = unquote_field(row[1].as_str());
        let model = unquote_field(row[2].as_str());
        let mode_text = unquote_field(row[3].as_str());
        let max_mode = match parse_max_mode(&chars_of(mode_text.as_str())) {
            Some(b) => b,
            None => {
                return Err(ParseError::InvalidMaxMode { line, value: mode_text });
            },
        };
        let input_with_cache = self.parse_u32_field(row, 4, line)?;
        let input_without_cache = self.parse_u32_field(row, 5, line)?;
        let cache_read = self.parse_u32_field(row, 6, line)?;
        let output_tokens = self.parse_u32_field(row, 7, line)?;
        let total_tokens = self.parse_u32_field(row, 8, line)?;
        let cost = self.parse_cost_field(row, 9, line)?;
        let calculated: u64 = input_with_cache as u64 + input_without_cache as u64
            + cache_read as u64 + output_tokens as u64;
        if calculated != total_tokens as u64 {
            return Err(ParseError::TokenMismatch { line, calculated, stated: total_tokens });
        }
        Ok(
            UsageData {
                date,
                kind,
                model,
                max_mode,
                input_with_cache,
                input_without_cache,
                cache_read,
                output_tokens,
                total_tokens,
                cost,
            },
        )
    }

    /// Reads the token count in column `i` (0-based) of a row at line `line`.
    pub fn parse_u32_field(&self, row: &Vec<String>, i: usize, line: usize) -> (r: Result<
        u32,
        ParseError,
    >)
        requires
            i < row@.len(),
            i < COLUMN_COUNT,
        ensures
            match r {
                Ok(v) => u32_text_value(unquote(row@[i as int]@)) == Some(v),
                Err(e) => u32_text_value(unquote(row@[i as int]@)) is None && e@
                    == (ParseFault::InvalidNumber {
                    line: line as nat,
                    column: (i + 1) as nat,
                    value: unquote(row@[i as int]@),
                }),
            },
    {
        let text = unquote_field(row[i].as_str());
        match parse_u32_text(&chars_of(text.as_str())) {
            Some(v) => Ok(v),
            None => Err(ParseError::InvalidNumber { line, column: i + 1, value: text }),
        }
    }

    /// Reads the cost in column `i` (0-based) of a row at line `line`.
    fn parse_cost_field(&self, row: &Vec<String>, i: usize, line: usize) -> (r: Result<
        u64,
        ParseError,
    >)
        requires
            i < row@.len(),
            i < COLUMN_COUNT,
        ensures
            match r {
                Ok(v) => cost_text_value(unquote(row@[i as int]@)) == Some(v),
                Err(e) => cost_text_value(unquote(row@[i as int]@)) is None && e@
                    == (ParseFault::InvalidNumber {
                    line: line as nat,
                    column: (i + 1) as nat,
                    value: unquote(row@[i as int]@),
                }),
            },
    {
        let text = unquote_field(row[i].as_str());
        match parse_cost_text(&chars_of(text.as_str())) {
            Some(v) => Ok(v),
            None => Err(ParseError::InvalidNumber { line, column: i + 1, value: text }),
        }
    }

    /// Checks that a text is not blank, can be read, and has the schema's
    /// header row.
    pub fn validate_csv_format(&self, csv_content: &str) -> (r: Result<(), ParseError>)
        ensures
            is_blank(csv_content@) ==> r matches Err(ParseError::EmptyInput),
            !is_blank(csv_content@) ==> match csv_records(csv_content@) {
                Err(message) => r matches Err(ParseError::Reader { message: m }) && m@ == message,
                Ok(rows) => match r {
                    Ok(()) => header_fault(rows) is None,
                    Err(e) => header_fault(rows) == Some(e@),
                },
            },
    {
        if blank(csv_content) {
            return Err(ParseError::EmptyInput);
        }
        let rows = match read_records(csv_content) {
            Ok(rows) => rows,
            Err(message) => return Err(ParseError::Reader { message }),
        };
        self.validate_header(&rows)
    }

    /// Parses a whole export into records: all rows, or the first fault.
    pub fn parse_csv(&self, csv_content: &str) -> (r: Result<Vec<UsageData>, ParseError>)
        ensures
            match r {
                Ok(_) => text_fault(csv_content@) is None,
                Err(e) => text_fault(csv_content@) == Some(e@),
            },
            is_blank(csv_content@) ==> r matches Err(ParseError::EmptyInput),
            !is_blank(csv_content@) ==> match csv_records(csv_content@) {
                Err(message) => r matches Err(ParseError::Reader { message: m }) && m@ == message,
                Ok(rows) => match r {
                    Ok(records) => {
                        &&& table_fault(rows) is None
                        &&& records@.len() + 1 == rows.len()
                        &&& forall|j: int|
                            0 <= j < records@.len() ==> decodes_to(
                                #[trigger] records@[j],
                                rows[j + 1],
                            )
                    },
                    Err(e) => table_fault(rows) == Some(e@),
                },
            },
    {
        if blank(csv_content) {
            return Err(ParseError::EmptyInput);
        }
        let rows = match read_records(csv_content) {
            Ok(rows) => rows,
            Err(message) => return Err(ParseError::Reader { message }),
        };
        self.parse_rows(&rows)
    }
}

/// No faulty row at index `k` or after when none of those rows has a fault.
proof fn lemma_no_row_fault_from(rows: Seq<Seq<Seq<char>>>, k: int)
    requires
        1 <= k,
        forall|j: int| k <= j < rows.len() ==> row_fault(#[trigger] rows[j], (j + 1) as nat) is None,
    ensures
        first_row_fault(rows, k) is None,
    decreases rows.len() - k,
{
    if k < rows.len() {
        assert(row_fault(rows[k], (k + 1) as nat) is None);
        lemma_no_row_fault_from(rows, k + 1);
    }
}

/// A table whose header matches the schema and whose data rows (at least
/// one) are all faultless is accepted; the records it yields, one per data
/// row, each keep the token-sum invariant.
pub proof fn lemma_valid_table_accepted(rows: Seq<Seq<Seq<char>>>)
    requires
        header_fault(rows) is None,
        rows.len() >= 2,
        forall|k: int| 1 <= k < rows.len() ==> row_fault(#[trigger] rows[k], (k + 1) as nat) is None,
    ensures
        table_fault(rows) is None,
        forall|r: UsageData, k: int|
            1 <= k < rows.len() && #[trigger] decodes_to(r, rows[k]) ==> r.tokens_consistent(),
{
    lemma_no_row_fault_from(rows, 1);
    assert forall|r: UsageData, k: int|
        1 <= k < rows.len() && #[trigger] decodes_to(r, rows[k]) implies r.tokens_consistent() by {
        assert(row_fault(rows[k], (k + 1) as nat) is None);
    }
}

/// Replacing the name of header column `i` (0-based) by any other text makes
/// the header fail at that column, reported 1-based with the new text.
pub proof fn lemma_changed_header_detected(rows: Seq<Seq<Seq<char>>>, i: int, name: Seq<char>)
    requires
        header_fault(rows) is None,
        0 <= i < COLUMN_COUNT,
        name != header_name(i),
    ensures
        header_fault(rows.update(0, rows[0].update(i, name))) == Some(
            ParseFault::HeaderName { column: (i + 1) as nat, name },
        ),
        table_fault(rows.update(0, rows[0].update(i, name))) == Some(
            ParseFault::HeaderName { column: (i + 1) as nat, name },
        ),
{
    let h = rows[0];
    assert(rows.len() > 0) by {
        if rows.len() == 0 {
            assert(Seq::<Seq<char>>::empty().len() != COLUMN_COUNT);
        }
    }
    assert(h.len() == COLUMN_COUNT);
    assert forall|j: int| 0 <= j < COLUMN_COUNT implies h[j] == #[trigger] header_name(j) by {
        if h[j] != header_name(j) {
            assert(exists|k: int| 0 <= k < COLUMN_COUNT && h[k] != #[trigger] header_name(k));
        }
    }
    let rows2 = rows.update(0, h.update(i, name));
    let h2 = rows2[0];
    assert(h2 == h.update(i, name));
    assert(h2[i] != header_name(i));
    assert(0 <= i < COLUMN_COUNT && h2[i] != header_name(i) && forall|j: int|
        0 <= j < i ==> h2[j] == #[trigger] header_name(j));
    let k = first_header_mismatch(h2);
    assert(0 <= k < COLUMN_COUNT && h2[k] != header_name(k) && forall|j: int|
        0 <= j < k ==> h2[j] == #[trigger] header_name(j));
    if k < i {
        assert(h2[k] == h[k]);
    }
    if k > i {
        assert(h2[i] == header_name(i));
    }
}

/// The first faulty row found from `k` on is the one from `j` on, when the
/// rows between are faultless.
proof fn lemma_skip_faultless(rows: Seq<Seq<Seq<char>>>, k: int, j: int)
    requires
        1 <= k <= j < rows.len(),
        forall|m: int| k <= m < j ==> row_fault(#[trigger] rows[m], (m + 1) as nat) is None,
    ensures
        first_row_fault(rows, k) == first_row_fault(rows, j),
    decreases j - k,
{
    if k < j {
        assert(row_fault(rows[k], (k + 1) as nat) is None);
        lemma_skip_faultless(rows, k + 1, j);
    }
}

/// A data row whose fields are all well formed but whose four token counts
/// do not add up to its total, after a valid header and faultless rows, makes
/// the table fail with a token mismatch at that row's line.
pub proof fn lemma_token_mismatch_reported(rows: Seq<Seq<Seq<char>>>, k: int)
    requires
        header_fault(rows) is None,
        1 <= k < rows.len(),
        forall|m: int| 1 <= m < k ==> row_fault(#[trigger] rows[m], (m + 1) as nat) is None,
        rows[k].len() == COLUMN_COUNT,
        unquote(rows[k][0]).len() > 0,
        max_mode_value(unquote(rows[k][3])) is Some,
        forall|c: int| 4 <= c <= 8 ==> #[trigger] count_field(rows[k], c) is Some,
        cost_text_value(unquote(rows[k][9])) is Some,
        count_field(rows[k], 4)->0 + count_field(rows[k], 5)->0 + count_field(rows[k], 6)->0
            + count_field(rows[k], 7)->0 != count_field(rows[k], 8)->0,
    ensures
        table_fault(rows) == Some(
            ParseFault::TokenMismatch {
                line: (k + 1) as nat,
                calculated: (count_field(rows[k], 4)->0 + count_field(rows[k], 5)->0 + count_field(
                    rows[k],
                    6,
                )->0 + count_field(rows[k], 7)->0) as nat,
                stated: count_field(rows[k], 8)->0 as nat,
            },
        ),
{
    lemma_skip_faultless(rows, 1, k);
    assert(count_field(rows[k], 4) is Some);
    assert(count_field(rows[k], 5) is Some);
    assert(count_field(rows[k], 6) is Some);
    assert(count_field(rows[k], 7) is Some);
    assert(count_field(rows[k], 8) is Some);
}

} // verus!
