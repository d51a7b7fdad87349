//! Summary totals, per-model breakdowns, validation of parsed records and
//! merging of record sets.

use vstd::prelude::*;
use crate::models::{
    DateRange, Fraction, ModelStats, ModelStatsView, UsageData, UsageSummary, quotient_or_zero,
};
use crate::text::{
    chars_eq, chars_of, find_char, first_index, lemma_lex_total, lemma_lex_transitive, lex_le,
    lex_le_exec,
};
use crate::merging::{drop_repeated, drop_repeats, merge_order, sort_for_merge};
use crate::sums::{
    lemma_of_model_len, lemma_push, lemma_sum_bounds, models_in_order, of_model, sum_cache_read,
    sum_cost, sum_input, sum_tokens,
};

verus! {

broadcast use vstd::seq_lib::group_to_multiset_ensures;

/// The breakdown entry that model `m` should have in record set `s`.
pub open spec fn model_entry(s: Seq<UsageData>, m: Seq<char>) -> ModelStatsView {
    let recs = of_model(s, m);
    ModelStatsView {
        model: m,
        total_requests: recs.len(),
        total_tokens: sum_tokens(recs),
        total_cost: sum_cost(recs),
        average_tokens_per_request: quotient_or_zero(sum_tokens(recs) as int, recs.len() as int),
        cache_efficiency: quotient_or_zero(
            100 * sum_cache_read(recs) as int,
            (sum_cache_read(recs) + sum_input(recs)) as int,
        ),
    }
}

/// One entry per distinct model, in the order of the models' first records.
pub open spec fn model_entries(s: Seq<UsageData>) -> Seq<ModelStatsView> {
    models_in_order(s).map_values(|m: Seq<char>| model_entry(s, m))
}

pub open spec fn stats_views(v: Seq<ModelStats>) -> Seq<ModelStatsView> {
    v.map_values(|x: ModelStats| x@)
}

/// Entries in order of request count, most first.
pub open spec fn by_requests_desc(v: Seq<ModelStats>) -> bool {
    forall|i: int, j: int|
        0 <= i < j < v.len() ==> (#[trigger] v[i]).total_requests >= (#[trigger] v[j]).total_requests
}

/// The calendar-day part of a date: the text before the first `T`, or the
/// whole text when there is none.
pub open spec fn day_of(date: Seq<char>) -> Seq<char> {
    date.take(first_index(date, 'T'))
}

/// The distinct calendar days of a record set.
pub open spec fn day_keys(s: Seq<UsageData>) -> Set<Seq<char>> {
    Set::new(|k: Seq<char>| exists|i: int| 0 <= i < s.len() && day_of((#[trigger] s[i]).date@) == k)
}

/// `d` is the lexicographically least date of the records.
pub open spec fn is_earliest(d: Seq<char>, s: Seq<UsageData>) -> bool {
    &&& exists|i: int| 0 <= i < s.len() && s[i].date@ == d
    &&& forall|i: int| 0 <= i < s.len() ==> lex_le(d, #[trigger] s[i].date@)
}

/// `d` is the lexicographically greatest date of the records.
pub open spec fn is_latest(d: Seq<char>, s: Seq<UsageData>) -> bool {
    &&& exists|i: int| 0 <= i < s.len() && s[i].date@ == d
    &&& forall|i: int| 0 <= i < s.len() ==> lex_le(#[trigger] s[i].date@, d)
}

/// `m` is a model of the records with no fewer records than any other.
pub open spec fn is_most_used(m: Seq<char>, s: Seq<UsageData>) -> bool {
    &&& models_in_order(s).contains(m)
    &&& forall|n: Seq<char>|
        models_in_order(s).contains(n) ==> #[trigger] of_model(s, n).len() <= of_model(s, m).len()
}

/// `r` is the summary of record set `s`.
pub open spec fn summarizes(r: UsageSummary, s: Seq<UsageData>) -> bool {
    if s.len() == 0 {
        &&& r.total_cost == 0
        &&& r.total_tokens == 0
        &&& r.average_cost_per_day@ == (0int, 1int)
        &&& r.most_used_model@.len() == 0
        &&& r.date_range.start@.len() == 0
        &&& r.date_range.end@.len() == 0
        &&& r.model_breakdown@.len() == 0
    } else {
        &&& r.total_cost == sum_cost(s)
        &&& r.total_tokens == sum_tokens(s)
        &&& r.average_cost_per_day@ == quotient_or_zero(sum_cost(s) as int, day_keys(s).len() as int)
        &&& is_most_used(r.most_used_model@, s)
        &&& is_earliest(r.date_range.start@, s)
        &&& is_latest(r.date_range.end@, s)
        &&& stats_views(r.model_breakdown@).to_multiset() == model_entries(s).to_multiset()
        &&& by_requests_desc(r.model_breakdown@)
    }
}

/// Running totals of a record set.
#[verifier::loop_isolation(false)]
fn totals(data: &[UsageData]) -> (r: (u128, u128))
    ensures
        r.0 == sum_cost(data@),
        r.1 == sum_tokens(data@),
{
    let n = data.len();
    let mut cost: u128 = 0;
    let mut tokens: u128 = 0;
    let mut i: usize = 0;
    assert(data@.take(0) =~= Seq::<UsageData>::empty());
    while i < n
        invariant
            i <= n == data@.len(),
            cost == sum_cost(data@.take(i as int)),
            tokens == sum_tokens(data@.take(i as int)),
        decreases n - i,
    {
        let ghost prev = data@.take(i as int);
        assert(data@.take(i + 1) =~= prev.push(data@[i as int]));
        proof {
            lemma_push(prev, data@[i as int]);
            lemma_sum_bounds(data@.take(i + 1));
            assert((i + 1) * (u64::MAX as nat) <= (u64::MAX as nat) * (u64::MAX as nat))
                by (nonlinear_arith)
                requires
                    i + 1 <= usize::MAX,
                    usize::MAX <= u64::MAX,
            ;
            assert((i + 1) * (u32::MAX as nat) <= (u64::MAX as nat) * (u64::MAX as nat))
                by (nonlinear_arith)
                requires
                    i + 1 <= usize::MAX,
                    usize::MAX <= u64::MAX,
            ;
        }
        cost = cost + data[i].cost as u128;
        tokens = tokens + data[i].total_tokens as u128;
        i = i + 1;
    }
    assert(data@.take(n as int) =~= data@);
    (cost, tokens)
}

/// The calendar-day part of a date.
pub fn day_part(date: &str) -> (r: Vec<char>)
    ensures
        r@ == day_of(date@),
{
    let cs = chars_of(date);
    let p = find_char(&cs, 'T');
    let mut r: Vec<char> = Vec::new();
    let mut i: usize = 0;
    while i < p
        invariant
            i <= p <= cs@.len(),
            p == first_index(date@, 'T'),
            cs@ == date@,
            r@ == cs@.take(i as int),
        decreases p - i,
    {
        r.push(cs[i]);
        i = i + 1;
        assert(r@ =~= cs@.take(i as int));
    }
    r
}

/// The number of distinct calendar days of a record set.
#[verifier::loop_isolation(false)]
fn count_days(data: &[UsageData]) -> (r: usize)
    ensures
        r == day_keys(data@).len(),
        day_keys(data@).finite(),
{
    let n = data.len();
    let mut days: Vec<Vec<char>> = Vec::new();
    let mut i: usize = 0;
    while i < n
        invariant
            i <= n == data@.len(),
            days@.map_values(|v: Vec<char>| v@).no_duplicates(),
            days@.map_values(|v: Vec<char>| v@).to_set() == day_keys(data@.take(i as int)),
        decreases n - i,
    {
        let d = day_part(data[i].date.as_str());
        let ghost dv = days@.map_values(|v: Vec<char>| v@);
        let mut k: usize = 0;
        let mut found = false;
        while k < days.len()
            invariant
                k <= days@.len(),
                dv == days@.map_values(|v: Vec<char>| v@),
                found ==> dv.contains(d@),
                !found ==> forall|j: int| 0 <= j < k ==> dv[j] != d@,
            decreases days.len() - k,
        {
            if chars_eq(&days[k], &d) {
                assert(dv[k as int] == d@);
                found = true;
            }
            k = k + 1;
        }
        let ghost keys_next = day_keys(data@.take(i + 1));
        assert(keys_next =~= day_keys(data@.take(i as int)).insert(d@)) by {
            assert forall|key: Seq<char>| keys_next.contains(key) implies day_keys(
                data@.take(i as int),
            ).insert(d@).contains(key) by {
                let j = choose|j: int|
                    0 <= j < i + 1 && day_of((#[trigger] data@.take(i + 1)[j]).date@) == key;
                if j < i {
                    assert(data@.take(i as int)[j] == data@.take(i + 1)[j]);
                }
            }
            assert forall|key: Seq<char>| day_keys(data@.take(i as int)).insert(d@).contains(
                key,
            ) implies keys_next.contains(key) by {
                if key == d@ {
                    assert(data@.take(i + 1)[i as int] == data@[i as int]);
                } else {
                    let j = choose|j: int|
                        0 <= j < i && day_of((#[trigger] data@.take(i as int)[j]).date@) == key;
                    assert(data@.take(i as int)[j] == data@.take(i + 1)[j]);
                }
            }
        }
        if !found {
            let ghost before = days@;
            days.push(d);
            proof {
                assert(days@.map_values(|v: Vec<char>| v@) =~= dv.push(d@));
                dv.lemma_push_to_set_commute(d@);
                assert(!dv.contains(d@));
            }
        } else {
            proof {
                assert(dv.to_set().contains(d@));
                assert(dv.to_set().insert(d@) =~= dv.to_set());
            }
        }
        i = i + 1;
    }
    assert(data@.take(n as int) =~= data@);
    proof {
        days@.map_values(|v: Vec<char>| v@).unique_seq_to_set();
        vstd::seq_lib::seq_to_set_is_finite(days@.map_values(|v: Vec<char>| v@));
    }
    days.len()
}

/// The index of the least (`least`) or the greatest date.
#[verifier::loop_isolation(false)]
fn extreme_date(data: &[UsageData], least: bool) -> (r: usize)
    requires
        data@.len() > 0,
    ensures
        r < data@.len(),
        least ==> is_earliest(data@[r as int].date@, data@),
        !least ==> is_latest(data@[r as int].date@, data@),
{
    let n = data.len();
    let mut best: usize = 0;
    let mut best_chars = chars_of(data[0].date.as_str());
    let mut i: usize = 1;
    proof {
        lemma_lex_total(best_chars@, best_chars@);
    }
    while i < n
        invariant
            1 <= i <= n == data@.len(),
            best < i,
            best_chars@ == data@[best as int].date@,
            least ==> forall|j: int| 0 <= j < i ==> lex_le(best_chars@, #[trigger] data@[j].date@),
            !least ==> forall|j: int| 0 <= j < i ==> lex_le(#[trigger] data@[j].date@, best_chars@),
        decreases n - i,
    {
        let cur = chars_of(data[i].date.as_str());
        proof {
            lemma_lex_total(cur@, best_chars@);
        }
        let better = if least {
            !lex_le_exec(&best_chars, &cur)
        } else {
            !lex_le_exec(&cur, &best_chars)
        };
        if better {
            proof {
                assert forall|j: int| 0 <= j < i + 1 implies (least ==> lex_le(
                    cur@,
                    #[trigger] data@[j].date@,
                )) && (!least ==> lex_le(data@[j].date@, cur@)) by {
                    if j < i {
                        if least {
                            lemma_lex_transitive(cur@, best_chars@, data@[j].date@);
                        } else {
                            lemma_lex_transitive(data@[j].date@, best_chars@, cur@);
                        }
                    } else {
                        lemma_lex_total(cur@, cur@);
                    }
                }
            }
            best = i;
            best_chars = cur;
        }
        i = i + 1;
    }
    proof {
        assert(data@[best as int].date@ == best_chars@);
    }
    best
}

/// Facts on a breakdown that is a permutation of the model entries and in
/// order of request count: its first model is a most-used one.
proof fn lemma_first_is_most_used(s: Seq<UsageData>, v: Seq<ModelStats>)
    requires
        stats_views(v).to_multiset() == model_entries(s).to_multiset(),
        by_requests_desc(v),
        s.len() > 0,
    ensures
        v.len() > 0,
        is_most_used(v[0].model@, s),
{
    let e = model_entries(s);
    let order = models_in_order(s);
    assert(s.drop_last().push(s.last()) =~= s);
    assert(order.len() > 0) by {
        lemma_models_nonempty(s);
    }
    assert(e.len() == order.len());
    assert(e.to_multiset().contains(e[0]));
    assert(stats_views(v).to_multiset().contains(e[0]));
    assert(stats_views(v).len() > 0);
    assert(stats_views(v).contains(stats_views(v)[0]));
    assert(e.to_multiset().contains(stats_views(v)[0]));
    assert(e.contains(stats_views(v)[0]));
    let k = choose|k: int| 0 <= k < e.len() && e[k] == stats_views(v)[0];
    assert(v[0]@ == model_entry(s, order[k]));
    assert(order.contains(v[0].model@));
    assert forall|n: Seq<char>| order.contains(n) implies #[trigger] of_model(s, n).len() <= of_model(
        s,
        v[0].model@,
    ).len() by {
        let a = choose|a: int| 0 <= a < order.len() && order[a] == n;
        assert(e[a] == model_entry(s, n));
        assert(e.contains(e[a]));
        assert(stats_views(v).to_multiset().contains(e[a]));
        assert(stats_views(v).contains(e[a]));
        let j = choose|j: int| 0 <= j < stats_views(v).len() && stats_views(v)[j] == e[a];
        assert(v[j]@ == e[a]);
        if j > 0 {
            assert(v[0].total_requests >= v[j].total_requests);
        }
    }
}

proof fn lemma_models_nonempty(s: Seq<UsageData>)
    requires
        s.len() > 0,
    ensures
        models_in_order(s).len() > 0,
{
    let p = models_in_order(s.drop_last());
    if p.contains(s.last().model@) {
    }
}

/// Why a parsed record set is refused: the first offending record's index
/// and what is wrong with it.
#[derive(Debug, PartialEq, Eq, Structural)]
pub enum ValidationError {
    /// The four token counts do not add up to the stated total.
    TokenMismatch { index: usize, calculated: u64, stated: u32 },
    /// The date is empty.
    EmptyDate { index: usize },
}

/// What is wrong with a record at index `index`, if anything: first the
/// token sum, then the date.
pub open spec fn record_fault(r: UsageData, index: nat) -> Option<ValidationError> {
    if !r.tokens_consistent() {
        Some(
            ValidationError::TokenMismatch {
                index: index as usize,
                calculated: (r.input_with_cache + r.input_without_cache + r.cache_read
                    + r.output_tokens) as u64,
                stated: r.total_tokens,
            },
        )
    } else if r.date@.len() == 0 {
        Some(ValidationError::EmptyDate { index: index as usize })
    } else {
        None
    }
}

/// Running totals of one model.
struct Tally {
    model: String,
    requests: u64,
    tokens: u128,
    cost: u128,
    cache_read: u128,
    input: u128,
}

spec fn tally_of(t: Tally, s: Seq<UsageData>, m: Seq<char>) -> bool {
    let recs = of_model(s, m);
    &&& t.model@ == m
    &&& t.requests == recs.len()
    &&& t.tokens == sum_tokens(recs)
    &&& t.cost == sum_cost(recs)
    &&& t.cache_read == sum_cache_read(recs)
    &&& t.input == sum_input(recs)
}

proof fn lemma_tally_bounds(s: Seq<UsageData>, m: Seq<char>)
    requires
        s.len() <= usize::MAX,
    ensures
        of_model(s, m).len() <= usize::MAX,
        sum_tokens(of_model(s, m)) <= 0x1_0000_0000_0000_0000_0000_0000,
        sum_cache_read(of_model(s, m)) <= 0x1_0000_0000_0000_0000_0000_0000,
        sum_input(of_model(s, m)) <= 0x2_0000_0000_0000_0000_0000_0000,
        sum_cost(of_model(s, m)) <= (u64::MAX as nat) * (u64::MAX as nat),
{
    lemma_of_model_len(s, m);
    let recs = of_model(s, m);
    lemma_sum_bounds(recs);
    let n = recs.len();
    assert(n * (u32::MAX as nat) <= 0x1_0000_0000_0000_0000 * 0x1_0000_0000) by (nonlinear_arith)
        requires
            n <= usize::MAX,
            usize::MAX < 0x1_0000_0000_0000_0000,
    ;
    assert(n * 2 * (u32::MAX as nat) <= 0x1_0000_0000_0000_0000 * 0x2_0000_0000) by (nonlinear_arith)
        requires
            n <= usize::MAX,
            usize::MAX < 0x1_0000_0000_0000_0000,
    ;
    assert(n * (u64::MAX as nat) <= (u64::MAX as nat) * (u64::MAX as nat)) by (nonlinear_arith)
        requires
            n <= usize::MAX,
            usize::MAX <= u64::MAX,
    ;
}

/// Totals per model, in the order of each model's first record.
#[verifier::loop_isolation(false)]
fn tally_models(data: &[UsageData]) -> (r: Vec<Tally>)
    ensures
        r@.len() == models_in_order(data@).len(),
        forall|k: int| 0 <= k < r@.len() ==> tally_of(#[trigger] r@[k], data@, models_in_order(data@)[k]),
{
    let mut tallies: Vec<Tally> = Vec::new();
    let mut i: usize = 0;
    let n = data.len();
    assert(data@.take(0) =~= Seq::<UsageData>::empty());
    while i < n
        invariant
            i <= data@.len(),
            tallies@.len() == models_in_order(data@.take(i as int)).len(),
            forall|k: int|
                0 <= k < tallies@.len() ==> tally_of(
                    #[trigger] tallies@[k],
                    data@.take(i as int),
                    models_in_order(data@.take(i as int))[k],
                ),
        decreases n - i,
    {
        let r = &data[i];
        proof {
            lemma_models_distinct(data@.take(i as int));
        }
        let ghost prev = data@.take(i as int);
        let ghost next = data@.take(i + 1);
        assert(next =~= prev.push(*r));
        proof {
            lemma_push(prev, *r);
        }
        let ghost order = models_in_order(prev);
        let mut k: usize = 0;
        while k < tallies.len() && tallies[k].model != r.model
            invariant
                k <= tallies@.len(),
                forall|j: int| 0 <= j < k ==> tallies@[j].model@ != r.model@,
            decreases tallies.len() - k,
        {
            k = k + 1;
        }
        proof {
            lemma_tally_bounds(next, r.model@);
            assert forall|j: int| 0 <= j < tallies@.len() implies order[j] == (#[trigger] tallies@[j]).model@ by {
                assert(tally_of(tallies@[j], prev, order[j]));
            }
        }
        if k < tallies.len() {
            let t = &tallies[k];
            assert(tally_of(*t, prev, order[k as int]));
            assert(order.contains(r.model@));
            proof {
                lemma_tally_bounds(next, r.model@);
                lemma_of_model_len(next, r.model@);
                lemma_of_model_len(prev, r.model@);
                assert(of_model(prev.push(*r), r.model@) == of_model(prev, r.model@).push(*r));
                lemma_push(of_model(prev, r.model@), *r);
            }
            let updated = Tally {
                model: t.model.clone(),
                requests: t.requests + 1,
                tokens: t.tokens + r.total_tokens as u128,
                cost: t.cost + r.cost as u128,
                cache_read: t.cache_read + r.cache_read as u128,
                input: t.input + r.input_with_cache as u128 + r.input_without_cache as u128,
            };
            tallies.set(k, updated);
            proof {
                assert forall|j: int| 0 <= j < tallies@.len() implies tally_of(
                    #[trigger] tallies@[j],
                    next,
                    models_in_order(next)[j],
                ) by {
                    if j != k {
                        assert(tally_of(tallies@[j], prev, order[j]));
                        assert(order[j] != order[k as int]);
                    }
                }
            }
        } else {
            assert(!order.contains(r.model@)) by {
                if order.contains(r.model@) {
                    let j = choose|j: int| 0 <= j < order.len() && order[j] == r.model@;
                    assert(tallies@[j].model@ == order[j]);
                }
            }
            proof {
                assert(of_model(prev, r.model@).len() == 0) by {
                    lemma_not_seen(prev, r.model@);
                }
                assert(of_model(prev, r.model@) =~= Seq::<UsageData>::empty());
                lemma_push(Seq::<UsageData>::empty(), *r);
                assert(models_in_order(next) == order.push(r.model@));
            }
            tallies.push(
                Tally {
                    model: r.model.clone(),
                    requests: 1,
                    tokens: r.total_tokens as u128,
                    cost: r.cost as u128,
                    cache_read: r.cache_read as u128,
                    input: r.input_with_cache as u128 + r.input_without_cache as u128,
                },
            );
            proof {
                assert forall|j: int| 0 <= j < tallies@.len() implies tally_of(
                    #[trigger] tallies@[j],
                    next,
                    models_in_order(next)[j],
                ) by {
                    if j < order.len() {
                        assert(tally_of(tallies@[j], prev, order[j]));
                        assert(order[j] != r.model@);
                    }
                }
            }
        }
        i = i + 1;
    }
    assert(data@.take(data@.len() as int) =~= data@);
    tallies
}

/// Each model name appears once.
proof fn lemma_models_distinct(s: Seq<UsageData>)
    ensures
        models_in_order(s).no_duplicates(),
    decreases s.len(),
{
    if s.len() > 0 {
        lemma_models_distinct(s.drop_last());
    }
}

/// A model that no record carries has no records.
proof fn lemma_not_seen(s: Seq<UsageData>, m: Seq<char>)
    requires
        !models_in_order(s).contains(m),
    ensures
        of_model(s, m).len() == 0,
    decreases s.len(),
{
    if s.len() > 0 {
        let p = models_in_order(s.drop_last());
        if p.contains(s.last().model@) {
        } else {
            assert(models_in_order(s) == p.push(s.last().model@));
            assert(models_in_order(s)[p.len() as int] == s.last().model@);
            assert(!p.contains(m)) by {
                if p.contains(m) {
                    let j = choose|j: int| 0 <= j < p.len() && p[j] == m;
                    assert(models_in_order(s)[j] == m);
                }
            }
        }
        lemma_not_seen(s.drop_last(), m);
    }
}

/// Inserts `e` into `v`, which is in order of request count, after every
/// entry with at least as many requests.
fn insert_by_requests(v: &mut Vec<ModelStats>, e: ModelStats)
    requires
        by_requests_desc(old(v)@),
    ensures
        by_requests_desc(final(v)@),
        stats_views(final(v)@).to_multiset() == stats_views(old(v)@).to_multiset().insert(e@),
{
    let mut p: usize = 0;
    while p < v.len() && v[p].total_requests >= e.total_requests
        invariant
            p <= v@.len(),
            forall|j: int| 0 <= j < p ==> (#[trigger] v@[j]).total_requests >= e.total_requests,
        decreases v.len() - p,
    {
        p = p + 1;
    }
    let ghost before = v@;
    let ghost ev = e@;
    v.insert(p, e);
    proof {
        assert(v@ == before.insert(p as int, e));
        assert(stats_views(v@) =~= stats_views(before).insert(p as int, ev));
        vstd::seq_lib::to_multiset_insert(stats_views(before), p as int, ev);
        assert forall|i: int, j: int| 0 <= i < j < v@.len() implies (#[trigger] v@[i]).total_requests
            >= (#[trigger] v@[j]).total_requests by {
            if j < p {
            } else if j == p {
            } else if i < p {
                assert(v@[j] == before[j - 1]);
                if p < before.len() {
                    assert(before[p as int].total_requests < ev.total_requests);
                }
            } else if i == p {
                assert(v@[j] == before[j - 1]);
                assert(before[p as int].total_requests < ev.total_requests);
                if j - 1 > p {
                    assert(before[p as int].total_requests >= before[j - 1].total_requests);
                }
            } else {
                assert(v@[j] == before[j - 1]);
                assert(v@[i] == before[i - 1]);
            }
        }
    }
}

/// Record-set aggregation.
pub struct DataProcessor;

impl DataProcessor {
    pub fn new() -> (r: Self) {
        DataProcessor
    }

    /// Totals of a record set: total cost and tokens, the cost per distinct
    /// calendar day, the most used model, the least and the greatest date,
    /// and the per-model breakdown. An empty set gives zeros and empty texts.
    pub fn calculate_summary(&self, data: &[UsageData]) -> (r: UsageSummary)
        ensures
            summarizes(r, data@),
    {
        if data.len() == 0 {
            return UsageSummary {
                total_cost: 0,
                total_tokens: 0,
                average_cost_per_day: Fraction::zero(),
                most_used_model: String::new(),
                date_range: DateRange { start: String::new(), end: String::new() },
                model_breakdown: Vec::new(),
            };
        }
        let (total_cost, total_tokens) = totals(data);
        let days = count_days(data);
        let average_cost_per_day = Fraction::of(total_cost, days as u128);
        let first = extreme_date(data, true);
        let last = extreme_date(data, false);
        let model_breakdown = self.calculate_model_stats(data);
        proof {
            lemma_first_is_most_used(data@, model_breakdown@);
        }
        let most_used_model = model_breakdown[0].model.clone();
        UsageSummary {
            total_cost,
            total_tokens,
            average_cost_per_day,
            most_used_model,
            date_range: DateRange {
                start: data[first].date.clone(),
                end: data[last].date.clone(),
            },
            model_breakdown,
        }
    }

    /// Checks every record for the token-sum invariant and a non-empty date,
    /// and reports the first record that fails.
    pub fn validate_usage_data(&self, data: &[UsageData]) -> (r: Result<(), ValidationError>)
        ensures
            match r {
                Ok(()) => forall|i: int|
                    0 <= i < data@.len() ==> record_fault(#[trigger] data@[i], i as nat) is None,
                Err(e) => exists|i: int|
                    0 <= i < data@.len() && record_fault(#[trigger] data@[i], i as nat) == Some(e)
                        && forall|j: int|
                        0 <= j < i ==> record_fault(#[trigger] data@[j], j as nat) is None,
            },
    {
        let n = data.len();
        let mut i: usize = 0;
        while i < n
            invariant
                i <= n == data@.len(),
                forall|j: int| 0 <= j < i ==> record_fault(#[trigger] data@[j], j as nat) is None,
            decreases n - i,
        {
            let u = &data[i];
            let calculated: u64 = u.input_with_cache as u64 + u.input_without_cache as u64
                + u.cache_read as u64 + u.output_tokens as u64;
            if calculated != u.total_tokens as u64 {
                assert(record_fault(data@[i as int], i as nat) is Some);
                return Err(
                    ValidationError::TokenMismatch {
                        index: i,
                        calculated,
                        stated: u.total_tokens,
                    },
                );
            }
            if u.date.as_str().unicode_len() == 0 {
                assert(record_fault(data@[i as int], i as nat) is Some);
                return Err(ValidationError::EmptyDate { index: i });
            }
            i = i + 1;
        }
        Ok(())
    }

    /// Merges two record sets: all records in order of date, model and cost
    /// (records equal on these keep their order, existing ones first), with
    /// every record that repeats the last kept one on date, model, cost and
    /// total tokens dropped.
    pub fn merge_data(&self, existing: Vec<UsageData>, new: Vec<UsageData>) -> (r: Vec<UsageData>)
        ensures
            r@ == drop_repeats(merge_order(existing@ + new@)),
    {
        let mut combined = existing;
        let mut added = new;
        combined.append(&mut added);
        let sorted = sort_for_merge(combined);
        drop_repeated(&sorted)
    }

    /// One entry per distinct model with its request count, token and cost
    /// sums, average tokens per request and cache efficiency, in order of
    /// request count, most first (ties in no particular order).
    pub fn calculate_model_stats(&self, data: &[UsageData]) -> (r: Vec<ModelStats>)
        ensures
            stats_views(r@).to_multiset() == model_entries(data@).to_multiset(),
            by_requests_desc(r@),
    {
        let tallies = tally_models(data);
        let n = data.len();
        let ghost order = models_in_order(data@);
        let mut out: Vec<ModelStats> = Vec::new();
        let mut i: usize = 0;
        while i < tallies.len()
            invariant
                i <= tallies@.len() == order.len(),
                n == data@.len(),
                order == models_in_order(data@),
                forall|k: int|
                    0 <= k < tallies@.len() ==> tally_of(#[trigger] tallies@[k], data@, order[k]),
                by_requests_desc(out@),
                stats_views(out@).to_multiset() == model_entries(data@).take(i as int).to_multiset(),
            decreases tallies.len() - i,
        {
            let t = &tallies[i];
            assert(tally_of(*t, data@, order[i as int]));
            proof {
                lemma_tally_bounds(data@, order[i as int]);
            }
            let entry = ModelStats {
                model: t.model.clone(),
                total_requests: t.requests,
                total_tokens: t.tokens,
                total_cost: t.cost,
                average_tokens_per_request: Fraction::of(t.tokens, t.requests as u128),
                cache_efficiency: Fraction::of(100 * t.cache_read, t.cache_read + t.input),
            };
            assert(entry@ == model_entries(data@)[i as int]);
            assert(model_entries(data@).take(i + 1) =~= model_entries(data@).take(i as int).push(
                entry@,
            ));
            insert_by_requests(&mut out, entry);
            i = i + 1;
        }
        assert(model_entries(data@).take(i as int) =~= model_entries(data@));
        out
    }
}

} // verus!
