//! The record type that parsing produces and the aggregate reports that the
//! processors compute from it.
//!
//! Money is held in billionths of the currency unit. A derived quantity that
//! is a quotient (an average, a percentage) is held exactly as a `Fraction`.

use vstd::prelude::*;

verus! {

/// One billed API call.
#[derive(Debug, Clone)]
pub struct UsageData {
    pub date: String,
    pub kind: String,
    pub model: String,
    pub max_mode: bool,
    pub input_with_cache: u32,
    pub input_without_cache: u32,
    pub cache_read: u32,
    pub output_tokens: u32,
    pub total_tokens: u32,
    /// Billionths of the currency unit.
    pub cost: u64,
}

impl UsageData {
    /// The four token counts add up to the stated total.
    pub open spec fn tokens_consistent(&self) -> bool {
        self.input_with_cache + self.input_without_cache + self.cache_read + self.output_tokens
            == self.total_tokens
    }

    /// A field-by-field copy.
    pub fn duplicate(&self) -> (r: UsageData)
        ensures
            r == *self,
    {
        UsageData {
            date: self.date.clone(),
            kind: self.kind.clone(),
            model: self.model.clone(),
            max_mode: self.max_mode,
            input_with_cache: self.input_with_cache,
            input_without_cache: self.input_without_cache,
            cache_read: self.cache_read,
            output_tokens: self.output_tokens,
            total_tokens: self.total_tokens,
            cost: self.cost,
        }
    }
}

/// An exact quotient `numerator / denominator`; a quantity that its formula
/// leaves undefined (a division by zero) is given as `0 / 1`.
#[derive(Clone, Copy, Debug, PartialEq, Eq, Structural)]
pub struct Fraction {
    pub numerator: u128,
    pub denominator: u128,
}

impl Fraction {
    pub open spec fn is(self, numerator: int, denominator: int) -> bool {
        self.numerator == numerator && self.denominator == denominator
    }

    /// `numerator / denominator`, or zero when `denominator` is zero.
    pub open spec fn quotient_or_zero(self, numerator: int, denominator: int) -> bool {
        if denominator == 0 {
            self.is(0, 1)
        } else {
            self.is(numerator, denominator)
        }
    }

    pub fn zero() -> (r: Fraction)
        ensures
            r.is(0, 1),
    {
        Fraction { numerator: 0, denominator: 1 }
    }

    /// The quotient `numerator / denominator`, or zero when `denominator` is zero.
    pub fn of(numerator: u128, denominator: u128) -> (r: Fraction)
        ensures
            r.quotient_or_zero(numerator as int, denominator as int),
    {
        if denominator == 0 {
            Fraction::zero()
        } else {
            Fraction { numerator, denominator }
        }
    }
}

impl View for Fraction {
    type V = (int, int);

    open spec fn view(&self) -> (int, int) {
        (self.numerator as int, self.denominator as int)
    }
}

/// `(numerator, denominator)`, or `(0, 1)` when the denominator is zero.
pub open spec fn quotient_or_zero(numerator: int, denominator: int) -> (int, int) {
    if denominator == 0 {
        (0, 1)
    } else {
        (numerator, denominator)
    }
}

/// The values of a `ModelStats`.
pub struct ModelStatsView {
    pub model: Seq<char>,
    pub total_requests: nat,
    pub total_tokens: nat,
    pub total_cost: nat,
    pub average_tokens_per_request: (int, int),
    pub cache_efficiency: (int, int),
}

/// Aggregate over all records that share a model name.
#[derive(Debug)]
pub struct ModelStats {
    pub model: String,
    pub total_requests: u64,
    pub total_tokens: u128,
    /// Billionths of the currency unit.
    pub total_cost: u128,
    pub average_tokens_per_request: Fraction,
    /// Percentage of cache reads among all input tokens.
    pub cache_efficiency: Fraction,
}

impl View for ModelStats {
    type V = ModelStatsView;

    open spec fn view(&self) -> ModelStatsView {
        ModelStatsView {
            model: self.model@,
            total_requests: self.total_requests as nat,
            total_tokens: self.total_tokens as nat,
            total_cost: self.total_cost as nat,
            average_tokens_per_request: self.average_tokens_per_request@,
            cache_efficiency: self.cache_efficiency@,
        }
    }
}

/// The earliest and the latest date string of a record set.
#[derive(Debug)]
pub struct DateRange {
    pub start: String,
    pub end: String,
}

/// Totals across a record set.
#[derive(Debug)]
pub struct UsageSummary {
    /// Billionths of the currency unit.
    pub total_cost: u128,
    pub total_tokens: u128,
    /// Billionths of the currency unit per distinct calendar day.
    pub average_cost_per_day: Fraction,
    pub most_used_model: String,
    pub date_range: DateRange,
    pub model_breakdown: Vec<ModelStats>,
}

/// Busiest hour of the day and busiest calendar day.
#[derive(Debug)]
pub struct PeakUsageStats {
    pub peak_hour: u8,
    pub peak_day: String,
    pub peak_tokens_per_hour: u128,
    /// Billionths of the currency unit.
    pub peak_cost_per_day: u128,
}

/// Cost per token and per request, and the share of cache reads.
#[derive(Debug)]
pub struct CostEfficiencyStats {
    /// Billionths of the currency unit per token.
    pub cost_per_token: Fraction,
    /// Billionths of the currency unit per request.
    pub cost_per_request: Fraction,
    /// Percentage of cache reads among cache reads and uncached input.
    pub cache_savings: Fraction,
}

/// Token counts at the median and the 95th and 99th percentiles.
#[derive(Debug, Clone, Copy, PartialEq, Eq, Structural)]
pub struct UsagePercentiles {
    pub median: u32,
    pub p95: u32,
    pub p99: u32,
}

/// What the compounded daily growth rate is computed from: the token totals
/// of the first and the last calendar day and the number of days between
/// them. The rate is `((last / first) ^ (1 / day_span) - 1) * 100`, and zero
/// when `day_span` or `first_day_tokens` is zero.
#[derive(Debug, Clone, Copy, PartialEq, Eq, Structural)]
pub struct GrowthBasis {
    pub first_day_tokens: u128,
    pub last_day_tokens: u128,
    pub day_span: u64,
}

/// Direction of the daily growth rate: above 5 %, below -5 %, or between.
#[derive(Debug, Clone, Copy, PartialEq, Eq, Structural)]
pub enum UsagePattern {
    Increasing,
    Decreasing,
    Stable,
}

/// The label of a pattern.
pub open spec fn pattern_label(p: UsagePattern) -> Seq<char> {
    match p {
        UsagePattern::Increasing => "increasing"@,
        UsagePattern::Decreasing => "decreasing"@,
        UsagePattern::Stable => "stable"@,
    }
}

impl UsagePattern {
    /// The label of the pattern.
    pub fn as_str(&self) -> (r: &'static str)
        ensures
            r@ == pattern_label(*self),
    {
        match self {
            UsagePattern::Increasing => "increasing",
            UsagePattern::Decreasing => "decreasing",
            UsagePattern::Stable => "stable",
        }
    }
}

/// Growth across calendar days and the distribution of tokens per request.
#[derive(Debug)]
pub struct UsageTrendStats {
    pub daily_growth: GrowthBasis,
    pub usage_pattern: UsagePattern,
    pub usage_percentiles: UsagePercentiles,
}

/// The three statistics reports over one record set.
#[derive(Debug)]
pub struct ComprehensiveStats {
    pub peak_usage: PeakUsageStats,
    pub cost_efficiency: CostEfficiencyStats,
    pub usage_trends: UsageTrendStats,
}

} // verus!
