//! Date-range filtering of records, the statistics report over the filtered
//! records, and the ingestion of an uploaded export into a store.

use vstd::prelude::*;
use chrono::Datelike;
use crate::csv_parser::{CsvParser, ParseError, csv_records, decodes_to, text_fault};
use crate::data_processor::{DataProcessor, model_entries, stats_views, summarizes};
use crate::merging::{drop_repeats, merge_order};
use crate::models::{ComprehensiveStats, ModelStats, UsageData, UsageSummary};
use crate::growth::pattern_of;
use crate::models::quotient_or_zero;
use crate::stats_calculator::{
    StatsCalculator, count_le, is_growth_basis, is_peak_day, is_peak_hour, local_times,
    percentiles_of, record_times, token_counts,
};
use crate::store::UsageStore;
use crate::sums::{sum_cache_read, sum_cost, sum_input_without_cache, sum_tokens};
use crate::timestamp::LocalTime;

verus! {

/// Optional first and last calendar day (`YYYY-MM-DD`) of a report.
#[derive(Debug)]
pub struct DateRangeQuery {
    pub start_date: Option<String>,
    pub end_date: Option<String>,
}

/// The (year, month, day) that `chrono` reads from a text in the format
/// `%Y-%m-%d`; `None` when it refuses the text.
pub uninterp spec fn ymd_date(s: Seq<char>) -> Option<(i32, u32, u32)>;

/// Relies on `chrono::NaiveDate::parse_from_str` with the format
/// `%Y-%m-%d` and on the `year`, `month` and `day` accessors of its result.
#[verifier::external_body]
fn parse_ymd(s: &str) -> (r: Option<(i32, u32, u32)>)
    ensures
        r == ymd_date(s@),
{
    chrono::NaiveDate::parse_from_str(s, "%Y-%m-%d").ok().map(|d| (d.year(), d.month(), d.day()))
}

/// The bound that an optional query date sets: none when it is absent or
/// is not a valid date.
pub open spec fn bound_of(o: Option<String>) -> Option<(i32, u32, u32)> {
    match o {
        Some(s) => ymd_date(s@),
        None => None,
    }
}

/// Calendar order of days.
pub open spec fn date_le(a: (int, int, int), b: (int, int, int)) -> bool {
    ||| a.0 < b.0
    ||| (a.0 == b.0 && a.1 < b.1)
    ||| (a.0 == b.0 && a.1 == b.1 && a.2 <= b.2)
}

pub open spec fn bound_view(d: (i32, u32, u32)) -> (int, int, int) {
    (d.0 as int, d.1 as int, d.2 as int)
}

/// A record at local time `t` lies within the bounds.
pub open spec fn in_range(
    t: Option<LocalTime>,
    start: Option<(i32, u32, u32)>,
    end: Option<(i32, u32, u32)>,
) -> bool {
    match t {
        None => false,
        Some(t) => {
            let day = (t.year as int, t.month as int, t.day as int);
            &&& (start matches Some(s) ==> date_le(bound_view(s), day))
            &&& (end matches Some(e) ==> date_le(day, bound_view(e)))
        },
    }
}

/// The records whose local day lies within the bounds, in their order.
pub open spec fn kept(
    data: Seq<UsageData>,
    times: Seq<Option<LocalTime>>,
    start: Option<(i32, u32, u32)>,
    end: Option<(i32, u32, u32)>,
) -> Seq<UsageData>
    decreases data.len(),
{
    if data.len() == 0 || times.len() == 0 {
        Seq::empty()
    } else if in_range(times.last(), start, end) {
        kept(data.drop_last(), times.drop_last(), start, end).push(data.last())
    } else {
        kept(data.drop_last(), times.drop_last(), start, end)
    }
}

/// The records that a query selects: all of them when it sets no date,
/// else those whose date is an RFC 3339 timestamp within its valid bounds.
pub open spec fn filtered_records(data: Seq<UsageData>, query: DateRangeQuery) -> Seq<UsageData> {
    if query.start_date is None && query.end_date is None {
        data
    } else {
        kept(data, local_times(data), bound_of(query.start_date), bound_of(query.end_date))
    }
}

fn date_le_exec(a: (i64, i64, i64), b: (i64, i64, i64)) -> (r: bool)
    ensures
        r == date_le((a.0 as int, a.1 as int, a.2 as int), (b.0 as int, b.1 as int, b.2 as int)),
{
    a.0 < b.0 || (a.0 == b.0 && a.1 < b.1) || (a.0 == b.0 && a.1 == b.1 && a.2 <= b.2)
}

/// The records whose local times `times` lie within the bounds.
#[verifier::loop_isolation(false)]
pub fn filter_by_bounds(
    data: &[UsageData],
    times: &Vec<Option<LocalTime>>,
    start: Option<(i32, u32, u32)>,
    end: Option<(i32, u32, u32)>,
) -> (r: Vec<UsageData>)
    requires
        times@.len() == data@.len(),
    ensures
        r@ == kept(data@, times@, start, end),
{
    let n = data.len();
    let mut out: Vec<UsageData> = Vec::new();
    let mut i: usize = 0;
    while i < n
        invariant
            i <= n == data@.len(),
            out@ == kept(data@.take(i as int), times@.take(i as int), start, end),
        decreases n - i,
    {
        assert(data@.take(i + 1).drop_last() =~= data@.take(i as int));
        assert(times@.take(i + 1).drop_last() =~= times@.take(i as int));
        let keep = match times[i] {
            None => false,
            Some(t) => {
                let day = (t.year as i64, t.month as i64, t.day as i64);
                let after_start = match start {
                    Some(s) => date_le_exec((s.0 as i64, s.1 as i64, s.2 as i64), day),
                    None => true,
                };
                let before_end = match end {
                    Some(e) => date_le_exec(day, (e.0 as i64, e.1 as i64, e.2 as i64)),
                    None => true,
                };
                after_start && before_end
            },
        };
        assert(keep == in_range(times@[i as int], start, end));
        if keep {
            out.push(data[i].duplicate());
        }
        i = i + 1;
    }
    assert(data@.take(n as int) =~= data@);
    assert(times@.take(n as int) =~= times@);
    out
}

fn bound_from(o: &Option<String>) -> (r: Option<(i32, u32, u32)>)
    ensures
        r == bound_of(*o),
{
    match o {
        Some(s) => parse_ymd(s.as_str()),
        None => None,
    }
}

/// The records that a query selects.
pub fn filter_by_date_range(data: &[UsageData], query: &DateRangeQuery) -> (r: Vec<UsageData>)
    ensures
        r@ == filtered_records(data@, *query),
{
    if query.start_date.is_none() && query.end_date.is_none() {
        let n = data.len();
        let mut out: Vec<UsageData> = Vec::new();
        let mut i: usize = 0;
        while i < n
            invariant
                i <= n == data@.len(),
                out@ == data@.take(i as int),
            decreases n - i,
        {
            out.push(data[i].duplicate());
            i = i + 1;
            assert(out@ =~= data@.take(i as int));
        }
        assert(data@.take(n as int) =~= data@);
        return out;
    }
    let times = record_times(data);
    let start = bound_from(&query.start_date);
    let end = bound_from(&query.end_date);
    filter_by_bounds(data, &times, start, end)
}

/// Statistics over the selected records, with the counts of selected and
/// of all records.
pub struct ReportStats {
    pub summary: UsageSummary,
    pub model_stats: Vec<ModelStats>,
    pub comprehensive_stats: ComprehensiveStats,
    pub record_count: usize,
    pub total_records: usize,
}

/// The outcome of a statistics request.
pub enum StatsReport {
    /// There are no records at all.
    NoData,
    /// The query selects no record.
    NoMatch,
    /// Statistics over the selected records.
    Ready(ReportStats),
}

/// The statistics report over the records that a query selects.
pub fn build_stats_report(data: &[UsageData], query: &DateRangeQuery) -> (r: StatsReport)
    ensures
        data@.len() == 0 <==> r is NoData,
        data@.len() > 0 && filtered_records(data@, *query).len() == 0 ==> r is NoMatch,
        data@.len() > 0 && filtered_records(data@, *query).len() > 0 ==> (r matches StatsReport::Ready(
            s,
        ) && {
            let f = filtered_records(data@, *query);
            &&& s.record_count == f.len()
            &&& s.total_records == data@.len()
            &&& summarizes(s.summary, f)
            &&& stats_views(s.model_stats@).to_multiset() == model_entries(f).to_multiset()
            &&& is_peak_hour(
                s.comprehensive_stats.peak_usage.peak_hour as nat,
                s.comprehensive_stats.peak_usage.peak_tokens_per_hour as nat,
                f,
                local_times(f),
            )
            &&& is_peak_day(
                s.comprehensive_stats.peak_usage.peak_day@,
                s.comprehensive_stats.peak_usage.peak_cost_per_day as nat,
                f,
                local_times(f),
            )
            &&& s.comprehensive_stats.cost_efficiency.cost_per_token@ == quotient_or_zero(
                sum_cost(f) as int,
                sum_tokens(f) as int,
            )
            &&& s.comprehensive_stats.cost_efficiency.cost_per_request@ == quotient_or_zero(
                sum_cost(f) as int,
                f.len() as int,
            )
            &&& s.comprehensive_stats.cost_efficiency.cache_savings@ == quotient_or_zero(
                100 * sum_cache_read(f) as int,
                (sum_cache_read(f) + sum_input_without_cache(f)) as int,
            )
            &&& is_growth_basis(s.comprehensive_stats.usage_trends.daily_growth, f, local_times(f))
            &&& s.comprehensive_stats.usage_trends.usage_pattern == pattern_of(
                s.comprehensive_stats.usage_trends.daily_growth,
            )
            &&& s.comprehensive_stats.usage_trends.usage_percentiles == percentiles_of(
                token_counts(f).sort_by(count_le()),
            )
        }),
{
    if data.len() == 0 {
        return StatsReport::NoData;
    }
    let filtered = filter_by_date_range(data, query);
    if filtered.len() == 0 {
        return StatsReport::NoMatch;
    }
    let processor = DataProcessor::new();
    let summary = processor.calculate_summary(filtered.as_slice());
    let model_stats = processor.calculate_model_stats(filtered.as_slice());
    let comprehensive_stats = StatsCalculator::new().calculate_comprehensive_stats(
        filtered.as_slice(),
    );
    StatsReport::Ready(
        ReportStats {
            summary,
            model_stats,
            comprehensive_stats,
            record_count: filtered.len(),
            total_records: data.len(),
        },
    )
}

/// What an accepted upload leaves: the store's records, their summary, and
/// the number of records the upload held.
pub struct UploadOutcome {
    pub data: Vec<UsageData>,
    pub summary: UsageSummary,
    pub new_records: usize,
}

/// Parses an uploaded export and replaces the store's records with it, or
/// (`append`) merges it into them. A refused export leaves the store as it
/// was.
pub fn ingest_upload(store: &mut UsageStore, csv_content: &str, append: bool) -> (r: Result<
    UploadOutcome,
    ParseError,
>)
    ensures
        match r {
            Err(e) => {
                &&& text_fault(csv_content@) == Some(e@)
                &&& final(store)@ == old(store)@
            },
            Ok(o) => {
                &&& text_fault(csv_content@) is None
                &&& final(store)@ == o.data@
                &&& summarizes(o.summary, o.data@)
                &&& (csv_records(csv_content@) matches Ok(rows) && rows.len() == o.new_records + 1
                    && exists|p: Seq<UsageData>|
                    {
                        &&& #[trigger] p.len() == o.new_records
                        &&& forall|j: int| 0 <= j < p.len() ==> decodes_to(#[trigger] p[j], rows[j + 1])
                        &&& o.data@ == if append {
                            drop_repeats(merge_order(old(store)@ + p))
                        } else {
                            p
                        }
                    })
            },
        },
{
    let parser = CsvParser::new();
    let parsed = match parser.parse_csv(csv_content) {
        Ok(records) => records,
        Err(e) => return Err(e),
    };
    let new_records = parsed.len();
    let ghost p = parsed@;
    if append {
        store.append_and_merge(parsed);
    } else {
        store.replace(parsed);
    }
    let data = store.snapshot();
    let summary = DataProcessor::new().calculate_summary(data.as_slice());
    let r = UploadOutcome { data, summary, new_records };
    assert(p.len() == r.new_records);
    Ok(r)
}

} // verus!
