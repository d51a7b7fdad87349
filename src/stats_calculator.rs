//! Peak usage, cost efficiency and usage trends of a record set.

use vstd::prelude::*;
use vstd::relations::{sorted_by, total_ordering};
use crate::day_groups::{
    DayTotals, daily_totals, day_le_exec, day_sum, hour_tokens, hourly_tokens, seen_days,
};
use crate::growth::{classify_growth, pattern_of};
use crate::models::{
    ComprehensiveStats, CostEfficiencyStats, Fraction, GrowthBasis, PeakUsageStats, UsageData,
    UsagePercentiles, UsageTrendStats, quotient_or_zero,
};
use crate::sums::{lemma_push, lemma_sum_bounds, sum_cache_read, sum_cost, sum_input_without_cache, sum_tokens};
use crate::timestamp::{LocalTime, day_le, day_string, day_text, local_time_of, parse_local_time};

verus! {

broadcast use vstd::seq_lib::group_to_multiset_ensures;

/// The local time of each record's date, where it is an RFC 3339 timestamp.
pub open spec fn local_times(s: Seq<UsageData>) -> Seq<Option<LocalTime>> {
    Seq::new(s.len(), |i: int| local_time_of(s[i].date@))
}

/// `hour` is the earliest hour of the day with the most tokens, `tokens`.
pub open spec fn is_peak_hour(
    hour: nat,
    tokens: nat,
    data: Seq<UsageData>,
    times: Seq<Option<LocalTime>>,
) -> bool {
    &&& hour < 24
    &&& tokens == hour_tokens(data, times, hour)
    &&& forall|h: nat| h < 24 ==> #[trigger] hour_tokens(data, times, h) <= tokens
    &&& forall|h: nat| h < hour ==> #[trigger] hour_tokens(data, times, h) < tokens
}

/// `text` names the earliest day with the highest cost, `cost`; with no day
/// at all, the text is empty and the cost zero.
pub open spec fn is_peak_day(
    text: Seq<char>,
    cost: nat,
    data: Seq<UsageData>,
    times: Seq<Option<LocalTime>>,
) -> bool {
    if seen_days(times) =~= Set::empty() {
        text.len() == 0 && cost == 0
    } else {
        exists|d: (u32, u32, u32)|
            {
                &&& seen_days(times).contains(d)
                &&& text == day_text(d)
                &&& cost == day_sum(data, times, d, true)
                &&& forall|e: (u32, u32, u32)| #[trigger]
                    seen_days(times).contains(e) ==> day_sum(data, times, e, true) <= cost && (
                    day_sum(data, times, e, true) == cost ==> day_le(d, e))
            }
    }
}

/// `g` holds the token totals of the first and the last day on which records
/// fall, and the number of days after the first.
pub open spec fn is_growth_basis(
    g: GrowthBasis,
    data: Seq<UsageData>,
    times: Seq<Option<LocalTime>>,
) -> bool {
    if seen_days(times) =~= Set::empty() {
        g.first_day_tokens == 0 && g.last_day_tokens == 0 && g.day_span == 0
    } else {
        exists|a: (u32, u32, u32), b: (u32, u32, u32)|
            {
                &&& seen_days(times).contains(a)
                &&& seen_days(times).contains(b)
                &&& forall|e: (u32, u32, u32)| #[trigger]
                    seen_days(times).contains(e) ==> day_le(a, e) && day_le(e, b)
                &&& g.first_day_tokens == day_sum(data, times, a, false)
                &&& g.last_day_tokens == day_sum(data, times, b, false)
                &&& g.day_span + 1 == seen_days(times).len()
            }
    }
}

/// Ascending order of token counts.
pub open spec fn count_le() -> spec_fn(u32, u32) -> bool {
    |a: u32, b: u32| a <= b
}

/// The token count of each record.
pub open spec fn token_counts(s: Seq<UsageData>) -> Seq<u32> {
    s.map_values(|r: UsageData| r.total_tokens)
}

/// The index of the `percent` percentile among `n` sorted values:
/// `ceil(n * percent / 100) - 1`, at most `n - 1`.
pub open spec fn percentile_index(n: nat, percent: nat) -> nat {
    let c = (n * percent + 99) / 100;
    if c == 0 {
        0
    } else if c - 1 > n - 1 {
        (n - 1) as nat
    } else {
        (c - 1) as nat
    }
}

/// Median, 95th and 99th percentile of ascending values; zeros when there
/// are none. The median of an even count is the mean of the middle two,
/// rounded down.
pub open spec fn percentiles_of(sorted: Seq<u32>) -> UsagePercentiles {
    let n = sorted.len();
    if n == 0 {
        UsagePercentiles { median: 0, p95: 0, p99: 0 }
    } else {
        UsagePercentiles {
            median: if n % 2 == 0 {
                ((sorted[n / 2 - 1] + sorted[(n / 2) as int]) / 2) as u32
            } else {
                sorted[(n / 2) as int]
            },
            p95: sorted[percentile_index(n, 95) as int],
            p99: sorted[percentile_index(n, 99) as int],
        }
    }
}

/// The index of the `percent` percentile among `n` sorted values.
pub fn percentile_position(n: usize, percent: u64) -> (r: usize)
    requires
        n >= 1,
        percent <= 100,
    ensures
        r == percentile_index(n as nat, percent as nat),
        r < n,
{
    assert((n as u128) * (percent as u128) <= 0x1_0000_0000_0000_0000 * 100) by (nonlinear_arith)
        requires
            n <= usize::MAX,
            usize::MAX < 0x1_0000_0000_0000_0000,
            percent <= 100,
    ;
    let c: u128 = ((n as u128) * (percent as u128) + 99) / 100;
    if c == 0 {
        0
    } else if c - 1 > (n - 1) as u128 {
        n - 1
    } else {
        (c - 1) as usize
    }
}

/// Relies on `slice::sort_unstable`: afterwards the values are the same and
/// in ascending order.
#[verifier::external_body]
fn sort_counts(v: &mut Vec<u32>)
    ensures
        final(v)@.to_multiset() == old(v)@.to_multiset(),
        forall|i: int, j: int| 0 <= i < j < final(v)@.len() ==> final(v)@[i] <= final(v)@[j],
{
    v.sort_unstable();
}

/// The local time of each record's date.
pub fn record_times(data: &[UsageData]) -> (r: Vec<Option<LocalTime>>)
    ensures
        r@ == local_times(data@),
        forall|i: int| 0 <= i < r@.len() ==> (#[trigger] r@[i] matches Some(t) ==> t.hour < 24),
{
    let n = data.len();
    let mut r: Vec<Option<LocalTime>> = Vec::new();
    let mut i: usize = 0;
    while i < n
        invariant
            i <= n == data@.len(),
            r@.len() == i,
            forall|j: int| 0 <= j < i ==> #[trigger] r@[j] == local_time_of(data@[j].date@),
            forall|j: int| 0 <= j < i ==> (#[trigger] r@[j] matches Some(t) ==> t.hour < 24),
        decreases n - i,
    {
        r.push(parse_local_time(data[i].date.as_str()));
        i = i + 1;
    }
    assert(r@ =~= local_times(data@));
    r
}

/// The position of the earliest day with the highest total.
#[verifier::loop_isolation(false)]
fn peak_day_index(g: &DayTotals) -> (r: usize)
    requires
        g.days@.len() == g.totals@.len(),
        g.days@.len() > 0,
    ensures
        r < g.days@.len(),
        forall|j: int|
            0 <= j < g.days@.len() ==> #[trigger] g.totals@[j] <= g.totals@[r as int] && (
            g.totals@[j] == g.totals@[r as int] ==> day_le(g.days@[r as int], g.days@[j])),
{
    let mut best: usize = 0;
    let mut j: usize = 1;
    while j < g.days.len()
        invariant
            1 <= j <= g.days@.len(),
            best < j,
            forall|k: int|
                0 <= k < j ==> #[trigger] g.totals@[k] <= g.totals@[best as int] && (g.totals@[k]
                    == g.totals@[best as int] ==> day_le(g.days@[best as int], g.days@[k])),
        decreases g.days.len() - j,
    {
        if g.totals[j] > g.totals[best] || (g.totals[j] == g.totals[best] && !day_le_exec(
            g.days[best],
            g.days[j],
        )) {
            best = j;
        }
        j = j + 1;
    }
    best
}

/// The positions of the earliest and the latest day.
#[verifier::loop_isolation(false)]
fn first_and_last_day(g: &DayTotals) -> (r: (usize, usize))
    requires
        g.days@.len() > 0,
    ensures
        r.0 < g.days@.len(),
        r.1 < g.days@.len(),
        forall|j: int|
            0 <= j < g.days@.len() ==> day_le(g.days@[r.0 as int], #[trigger] g.days@[j]) && day_le(
                g.days@[j],
                g.days@[r.1 as int],
            ),
{
    let mut lo: usize = 0;
    let mut hi: usize = 0;
    let mut j: usize = 1;
    while j < g.days.len()
        invariant
            1 <= j <= g.days@.len(),
            lo < j,
            hi < j,
            forall|k: int|
                0 <= k < j ==> day_le(g.days@[lo as int], #[trigger] g.days@[k]) && day_le(
                    g.days@[k],
                    g.days@[hi as int],
                ),
        decreases g.days.len() - j,
    {
        if !day_le_exec(g.days[lo], g.days[j]) {
            lo = j;
        }
        if !day_le_exec(g.days[j], g.days[hi]) {
            hi = j;
        }
        j = j + 1;
    }
    (lo, hi)
}

proof fn lemma_seen_days_finite(g: DayTotals, data: Seq<UsageData>, times: Seq<Option<LocalTime>>, cost: bool)
    requires
        g.describes(data, times, cost),
    ensures
        seen_days(times).finite(),
        seen_days(times).len() == g.days@.len(),
        forall|d: (u32, u32, u32)| #[trigger] seen_days(times).contains(d) <==> g.days@.contains(d),
{
    g.days@.unique_seq_to_set();
    vstd::seq_lib::seq_to_set_is_finite(g.days@);
    assert forall|d: (u32, u32, u32)| #[trigger] seen_days(times).contains(d) <==> g.days@.contains(d) by {
        assert(g.days@.to_set().contains(d) <==> g.days@.contains(d));
    }
}

proof fn lemma_growth_witness(
    g: DayTotals,
    data: Seq<UsageData>,
    times: Seq<Option<LocalTime>>,
    lo: int,
    hi: int,
    r: GrowthBasis,
)
    requires
        g.describes(data, times, false),
        0 <= lo < g.days@.len(),
        0 <= hi < g.days@.len(),
        forall|j: int|
            0 <= j < g.days@.len() ==> day_le(g.days@[lo], #[trigger] g.days@[j]) && day_le(
                g.days@[j],
                g.days@[hi],
            ),
        r.first_day_tokens == g.totals@[lo],
        r.last_day_tokens == g.totals@[hi],
        r.day_span + 1 == g.days@.len(),
    ensures
        is_growth_basis(r, data, times),
{
    lemma_seen_days_finite(g, data, times, false);
    let a = g.days@[lo];
    let b = g.days@[hi];
    assert(g.days@.contains(a));
    assert(seen_days(times).contains(a));
    assert(seen_days(times).contains(b)) by {
        assert(g.days@.contains(b));
    }
    assert(!(seen_days(times) =~= Set::empty()));
    assert forall|e: (u32, u32, u32)| #[trigger] seen_days(times).contains(e) implies day_le(a, e)
        && day_le(e, b) by {
        assert(g.days@.contains(e));
        let j = choose|j: int| 0 <= j < g.days@.len() && g.days@[j] == e;
        assert(day_le(g.days@[lo], g.days@[j]));
    }
    assert(r.first_day_tokens == day_sum(data, times, a, false));
    assert(r.last_day_tokens == day_sum(data, times, b, false));
}

/// Token totals per hour and cost totals per day.
pub struct StatsCalculator;

impl StatsCalculator {
    pub fn new() -> (r: Self) {
        StatsCalculator
    }

    /// Peak hour and day of records whose local times are `times`.
    pub fn peak_usage_from(&self, data: &[UsageData], times: &Vec<Option<LocalTime>>) -> (r: PeakUsageStats)
        requires
            times@.len() == data@.len(),
            forall|i: int| 0 <= i < times@.len() ==> (#[trigger] times@[i] matches Some(t) ==> t.hour < 24),
        ensures
            is_peak_hour(r.peak_hour as nat, r.peak_tokens_per_hour as nat, data@, times@),
            is_peak_day(r.peak_day@, r.peak_cost_per_day as nat, data@, times@),
    {
        let hours = hourly_tokens(data, times);
        let mut peak_hour: usize = 0;
        let mut h: usize = 1;
        while h < 24
            invariant
                1 <= h <= 24,
                peak_hour < h,
                hours@.len() == 24,
                forall|k: int| 0 <= k < h ==> #[trigger] hours@[k] <= hours@[peak_hour as int],
                forall|k: int| 0 <= k < peak_hour ==> #[trigger] hours@[k] < hours@[peak_hour as int],
            decreases 24 - h,
        {
            if hours[h] > hours[peak_hour] {
                peak_hour = h;
            }
            h = h + 1;
        }
        proof {
            assert forall|k: nat| k < 24 implies #[trigger] hour_tokens(data@, times@, k) <= hours@[peak_hour as int] by {
                assert(hours@[k as int] == hour_tokens(data@, times@, k));
            }
            assert forall|k: nat| k < peak_hour implies #[trigger] hour_tokens(data@, times@, k) < hours@[peak_hour as int] by {
                assert(hours@[k as int] == hour_tokens(data@, times@, k));
            }
            assert(hours@[peak_hour as int] == hour_tokens(data@, times@, peak_hour as nat));
        }
        let groups = daily_totals(data, times, true);
        proof {
            lemma_seen_days_finite(groups, data@, times@, true);
        }
        if groups.days.len() == 0 {
            assert(seen_days(times@) =~= Set::empty());
            return PeakUsageStats {
                peak_hour: peak_hour as u8,
                peak_day: String::new(),
                peak_tokens_per_hour: hours[peak_hour],
                peak_cost_per_day: 0,
            };
        }
        let best = peak_day_index(&groups);
        let d = groups.days[best];
        proof {
            assert(groups.days@.contains(d));
            assert(seen_days(times@).contains(d));
            assert(!(seen_days(times@) =~= Set::empty()));
            assert forall|e: (u32, u32, u32)| #[trigger] seen_days(times@).contains(e) implies day_sum(
                data@,
                times@,
                e,
                true,
            ) <= groups.totals@[best as int] && (day_sum(data@, times@, e, true) == groups.totals@[best as int]
                ==> day_le(d, e)) by {
                assert(groups.days@.contains(e));
                let j = choose|j: int| 0 <= j < groups.days@.len() && groups.days@[j] == e;
                assert(groups.totals@[j] == day_sum(data@, times@, e, true));
            }
        }
        PeakUsageStats {
            peak_hour: peak_hour as u8,
            peak_day: day_string(d.0, d.1, d.2),
            peak_tokens_per_hour: hours[peak_hour],
            peak_cost_per_day: groups.totals[best],
        }
    }

    /// Busiest hour of the day (by tokens) and busiest calendar day (by
    /// cost), over the records whose date is an RFC 3339 timestamp; ties go
    /// to the earlier hour or day.
    pub fn calculate_peak_usage(&self, data: &[UsageData]) -> (r: PeakUsageStats)
        ensures
            is_peak_hour(r.peak_hour as nat, r.peak_tokens_per_hour as nat, data@, local_times(data@)),
            is_peak_day(r.peak_day@, r.peak_cost_per_day as nat, data@, local_times(data@)),
    {
        let times = record_times(data);
        self.peak_usage_from(data, &times)
    }

    /// Cost per token, cost per request, and cache reads as a percentage of
    /// cache reads and uncached input; each zero where its divisor is zero.
    pub fn calculate_cost_efficiency(&self, data: &[UsageData]) -> (r: CostEfficiencyStats)
        ensures
            r.cost_per_token@ == quotient_or_zero(sum_cost(data@) as int, sum_tokens(data@) as int),
            r.cost_per_request@ == quotient_or_zero(sum_cost(data@) as int, data@.len() as int),
            r.cache_savings@ == quotient_or_zero(
                100 * sum_cache_read(data@) as int,
                (sum_cache_read(data@) + sum_input_without_cache(data@)) as int,
            ),
    {
        let n = data.len();
        let mut cost: u128 = 0;
        let mut tokens: u128 = 0;
        let mut cache_read: u128 = 0;
        let mut uncached: u128 = 0;
        let mut i: usize = 0;
        assert(data@.take(0) =~= Seq::<UsageData>::empty());
        while i < n
            invariant
                i <= n == data@.len(),
                cost == sum_cost(data@.take(i as int)),
                tokens == sum_tokens(data@.take(i as int)),
                cache_read == sum_cache_read(data@.take(i as int)),
                uncached == sum_input_without_cache(data@.take(i as int)),
            decreases n - i,
        {
            let ghost prev = data@.take(i as int);
            assert(data@.take(i + 1) =~= prev.push(data@[i as int]));
            proof {
                lemma_push(prev, data@[i as int]);
                lemma_sum_bounds(data@.take(i + 1));
                assert((i + 1) * (u64::MAX as nat) <= (u64::MAX as nat) * (u64::MAX as nat))
                    by (nonlinear_arith)
                    requires
                        i + 1 <= usize::MAX,
                        usize::MAX <= u64::MAX,
                ;
                assert((i + 1) * (u32::MAX as nat) <= 0x1_0000_0000_0000_0000 * 0x1_0000_0000)
                    by (nonlinear_arith)
                    requires
                        i + 1 <= usize::MAX,
                        usize::MAX < 0x1_0000_0000_0000_0000,
                ;
            }
            let u = &data[i];
            cost = cost + u.cost as u128;
            tokens = tokens + u.total_tokens as u128;
            cache_read = cache_read + u.cache_read as u128;
            uncached = uncached + u.input_without_cache as u128;
            i = i + 1;
        }
        assert(data@.take(n as int) =~= data@);
        proof {
            lemma_sum_bounds(data@);
            assert(n * (u32::MAX as nat) <= 0x1_0000_0000_0000_0000 * 0x1_0000_0000)
                by (nonlinear_arith)
                requires
                    n <= usize::MAX,
                    usize::MAX < 0x1_0000_0000_0000_0000,
            ;
        }
        CostEfficiencyStats {
            cost_per_token: Fraction::of(cost, tokens),
            cost_per_request: Fraction::of(cost, n as u128),
            cache_savings: Fraction::of(100 * cache_read, cache_read + uncached),
        }
    }

    /// The growth basis of records whose local times are `times`.
    pub fn growth_from(&self, data: &[UsageData], times: &Vec<Option<LocalTime>>) -> (r: GrowthBasis)
        requires
            times@.len() == data@.len(),
        ensures
            is_growth_basis(r, data@, times@),
    {
        let groups = daily_totals(data, times, false);
        proof {
            lemma_seen_days_finite(groups, data@, times@, false);
        }
        if groups.days.len() == 0 {
            assert(seen_days(times@) =~= Set::empty());
            return GrowthBasis { first_day_tokens: 0, last_day_tokens: 0, day_span: 0 };
        }
        let (lo, hi) = first_and_last_day(&groups);
        let a = groups.days[lo];
        let b = groups.days[hi];
        let r = GrowthBasis {
            first_day_tokens: groups.totals[lo],
            last_day_tokens: groups.totals[hi],
            day_span: (groups.days.len() - 1) as u64,
        };
        proof {
            lemma_growth_witness(groups, data@, times@, lo as int, hi as int, r);
        }
        r
    }

    /// Growth between the first and the last calendar day (over the records
    /// whose date is an RFC 3339 timestamp), its pattern, and the percentiles
    /// of tokens per request.
    pub fn calculate_usage_trends(&self, data: &[UsageData]) -> (r: UsageTrendStats)
        ensures
            is_growth_basis(r.daily_growth, data@, local_times(data@)),
            r.usage_pattern == pattern_of(r.daily_growth),
            r.usage_percentiles == percentiles_of(token_counts(data@).sort_by(count_le())),
    {
        let times = record_times(data);
        let daily_growth = self.growth_from(data, &times);
        let usage_pattern = classify_growth(&daily_growth);
        let usage_percentiles = self.calculate_percentiles(data);
        UsageTrendStats { daily_growth, usage_pattern, usage_percentiles }
    }

    /// Median, 95th and 99th percentile of the records' token counts.
    pub fn calculate_percentiles(&self, data: &[UsageData]) -> (r: UsagePercentiles)
        ensures
            r == percentiles_of(token_counts(data@).sort_by(count_le())),
    {
        let n = data.len();
        let mut counts: Vec<u32> = Vec::new();
        let mut i: usize = 0;
        while i < n
            invariant
                i <= n == data@.len(),
                counts@ == token_counts(data@.take(i as int)),
            decreases n - i,
        {
            counts.push(data[i].total_tokens);
            i = i + 1;
            assert(counts@ =~= token_counts(data@.take(i as int)));
        }
        assert(data@.take(n as int) =~= data@);
        let ghost unsorted = counts@;
        sort_counts(&mut counts);
        proof {
            vstd::seq_lib::to_multiset_len(unsorted);
            vstd::seq_lib::to_multiset_len(counts@);
            assert(counts@.len() == n);
            let le = count_le();
            assert(total_ordering(le));
            unsorted.lemma_sort_by_ensures(le);
            assert(sorted_by(counts@, le));
            vstd::seq_lib::lemma_sorted_unique(counts@, unsorted.sort_by(le), le);
        }
        if n == 0 {
            return UsagePercentiles { median: 0, p95: 0, p99: 0 };
        }
        let median = if n % 2 == 0 {
            ((counts[n / 2 - 1] as u64 + counts[n / 2] as u64) / 2) as u32
        } else {
            counts[n / 2]
        };
        let p95 = counts[percentile_position(n, 95)];
        let p99 = counts[percentile_position(n, 99)];
        UsagePercentiles { median, p95, p99 }
    }

    /// The three reports over one record set.
    pub fn calculate_comprehensive_stats(&self, data: &[UsageData]) -> (r: ComprehensiveStats)
        ensures
            is_peak_hour(
                r.peak_usage.peak_hour as nat,
                r.peak_usage.peak_tokens_per_hour as nat,
                data@,
                local_times(data@),
            ),
            is_peak_day(r.peak_usage.peak_day@, r.peak_usage.peak_cost_per_day as nat, data@, local_times(data@)),
            r.cost_efficiency.cost_per_token@ == quotient_or_zero(
                sum_cost(data@) as int,
                sum_tokens(data@) as int,
            ),
            r.cost_efficiency.cost_per_request@ == quotient_or_zero(
                sum_cost(data@) as int,
                data@.len() as int,
            ),
            r.cost_efficiency.cache_savings@ == quotient_or_zero(
                100 * sum_cache_read(data@) as int,
                (sum_cache_read(data@) + sum_input_without_cache(data@)) as int,
            ),
            is_growth_basis(r.usage_trends.daily_growth, data@, local_times(data@)),
            r.usage_trends.usage_pattern == pattern_of(r.usage_trends.daily_growth),
            r.usage_trends.usage_percentiles == percentiles_of(
                token_counts(data@).sort_by(count_le()),
            ),
    {
        ComprehensiveStats {
            peak_usage: self.calculate_peak_usage(data),
            cost_efficiency: self.calculate_cost_efficiency(data),
            usage_trends: self.calculate_usage_trends(data),
        }
    }
}

/// On no records every statistic is zero: peak hour 0 with no tokens, no
/// peak day and no cost, zero quotients, a zero growth basis, zero
/// percentiles.
pub proof fn lemma_no_records_zero(
    hour: nat,
    tokens: nat,
    day: Seq<char>,
    cost: nat,
    g: GrowthBasis,
)
    requires
        is_peak_hour(hour, tokens, Seq::empty(), Seq::empty()),
        is_peak_day(day, cost, Seq::empty(), Seq::empty()),
        is_growth_basis(g, Seq::empty(), Seq::empty()),
    ensures
        hour == 0,
        tokens == 0,
        day.len() == 0,
        cost == 0,
        quotient_or_zero(sum_cost(Seq::empty()) as int, sum_tokens(Seq::empty()) as int) == (0int, 1int),
        quotient_or_zero(sum_cost(Seq::empty()) as int, 0) == (0int, 1int),
        quotient_or_zero(
            100 * sum_cache_read(Seq::empty()) as int,
            (sum_cache_read(Seq::empty()) + sum_input_without_cache(Seq::empty())) as int,
        ) == (0int, 1int),
        g.first_day_tokens == 0 && g.last_day_tokens == 0 && g.day_span == 0,
        pattern_of(g) == crate::models::UsagePattern::Stable,
        percentiles_of(token_counts(Seq::empty()).sort_by(count_le()))
            == (UsagePercentiles { median: 0, p95: 0, p99: 0 }),
{
    let none: Seq<Option<LocalTime>> = Seq::empty();
    assert(seen_days(none) =~= Set::empty());
    assert(hour_tokens(Seq::empty(), none, hour) == 0);
    if hour > 0 {
        assert(hour_tokens(Seq::empty(), none, 0) == 0);
    }
    let counts = token_counts(Seq::<UsageData>::empty());
    assert(counts =~= Seq::<u32>::empty());
    let le = count_le();
    assert(total_ordering(le));
    counts.lemma_sort_by_ensures(le);
    vstd::seq_lib::to_multiset_len(counts);
    vstd::seq_lib::to_multiset_len(counts.sort_by(le));
}

} // verus!
