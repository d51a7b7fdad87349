//! Totals of tokens per hour of the day and of tokens or cost per calendar
//! day, over records paired with the local times of their dates.

use vstd::prelude::*;
use crate::models::UsageData;
use crate::timestamp::{LocalTime, day_key, day_le};

verus! {

/// The time is known and falls in hour `h`.
pub open spec fn at_hour(o: Option<LocalTime>, h: nat) -> bool {
    o matches Some(t) && t.hour == h
}

/// The time is known and falls on day `d`.
pub open spec fn on_day(o: Option<LocalTime>, d: (u32, u32, u32)) -> bool {
    o matches Some(t) && day_key(t) == d
}

/// Tokens of the records whose time falls in hour `h` of any day.
pub open spec fn hour_tokens(data: Seq<UsageData>, times: Seq<Option<LocalTime>>, h: nat) -> nat
    decreases data.len(),
{
    if data.len() == 0 || times.len() == 0 {
        0
    } else {
        hour_tokens(data.drop_last(), times.drop_last(), h) + if at_hour(times.last(), h) {
            data.last().total_tokens as nat
        } else {
            0
        }
    }
}

/// The cost (`cost`) or the tokens of one record.
pub open spec fn amount(r: UsageData, cost: bool) -> nat {
    if cost {
        r.cost as nat
    } else {
        r.total_tokens as nat
    }
}

/// Cost (`cost`) or tokens of the records whose time falls on day `d`.
pub open spec fn day_sum(
    data: Seq<UsageData>,
    times: Seq<Option<LocalTime>>,
    d: (u32, u32, u32),
    cost: bool,
) -> nat
    decreases data.len(),
{
    if data.len() == 0 || times.len() == 0 {
        0
    } else {
        day_sum(data.drop_last(), times.drop_last(), d, cost) + if on_day(times.last(), d) {
            amount(data.last(), cost)
        } else {
            0
        }
    }
}

/// The days on which some record falls.
pub open spec fn seen_days(times: Seq<Option<LocalTime>>) -> Set<(u32, u32, u32)> {
    Set::new(|d: (u32, u32, u32)| exists|i: int| 0 <= i < times.len() && on_day(#[trigger] times[i], d))
}

pub proof fn lemma_sums_bounded(data: Seq<UsageData>, times: Seq<Option<LocalTime>>, h: nat, d: (u32, u32, u32), cost: bool)
    ensures
        hour_tokens(data, times, h) <= data.len() * (u32::MAX as nat),
        day_sum(data, times, d, cost) <= data.len() * (u64::MAX as nat),
    decreases data.len(),
{
    if data.len() > 0 && times.len() > 0 {
        lemma_sums_bounded(data.drop_last(), times.drop_last(), h, d, cost);
        assert(data.len() * (u32::MAX as nat) == (data.len() - 1) * (u32::MAX as nat) + (u32::MAX as nat))
            by (nonlinear_arith);
        assert(data.len() * (u64::MAX as nat) == (data.len() - 1) * (u64::MAX as nat) + (u64::MAX as nat))
            by (nonlinear_arith);
    }
}

proof fn lemma_prefix_step(data: Seq<UsageData>, times: Seq<Option<LocalTime>>, i: int)
    requires
        0 <= i < data.len() == times.len(),
    ensures
        data.take(i + 1).drop_last() == data.take(i),
        times.take(i + 1).drop_last() == times.take(i),
        data.take(i + 1).last() == data[i],
        times.take(i + 1).last() == times[i],
{
    assert(data.take(i + 1).drop_last() =~= data.take(i));
    assert(times.take(i + 1).drop_last() =~= times.take(i));
}

proof fn lemma_unseen_day(data: Seq<UsageData>, times: Seq<Option<LocalTime>>, d: (u32, u32, u32), cost: bool)
    requires
        data.len() == times.len(),
        forall|k: int| 0 <= k < times.len() ==> !on_day(#[trigger] times[k], d),
    ensures
        day_sum(data, times, d, cost) == 0,
    decreases data.len(),
{
    if data.len() > 0 {
        assert(!on_day(times[times.len() - 1], d));
        lemma_unseen_day(data.drop_last(), times.drop_last(), d, cost);
    }
}

/// Tokens per hour of the day, hours 0 to 23.
#[verifier::loop_isolation(false)]
pub fn hourly_tokens(data: &[UsageData], times: &Vec<Option<LocalTime>>) -> (r: Vec<u128>)
    requires
        times@.len() == data@.len(),
        forall|i: int| 0 <= i < times@.len() ==> (#[trigger] times@[i] matches Some(t) ==> t.hour < 24),
    ensures
        r@.len() == 24,
        forall|h: int| 0 <= h < 24 ==> #[trigger] r@[h] == hour_tokens(data@, times@, h as nat),
{
    let n = data.len();
    let mut hours: Vec<u128> = Vec::new();
    let mut h: usize = 0;
    while h < 24
        invariant
            h <= 24,
            hours@.len() == h,
            forall|j: int| 0 <= j < h ==> #[trigger] hours@[j] == 0,
        decreases 24 - h,
    {
        hours.push(0);
        h = h + 1;
    }
    let mut i: usize = 0;
    while i < n
        invariant
            i <= n == data@.len(),
            hours@.len() == 24,
            forall|j: int|
                0 <= j < 24 ==> #[trigger] hours@[j] == hour_tokens(
                    data@.take(i as int),
                    times@.take(i as int),
                    j as nat,
                ),
        decreases n - i,
    {
        proof {
            lemma_prefix_step(data@, times@, i as int);
        }
        match times[i] {
            Some(t) => {
                let k = t.hour as usize;
                proof {
                    lemma_sums_bounded(data@.take(i + 1), times@.take(i + 1), k as nat, (0, 0, 0), false);
                    assert((i + 1) * (u32::MAX as nat) <= (u64::MAX as nat) * (u64::MAX as nat))
                        by (nonlinear_arith)
                        requires
                            i + 1 <= usize::MAX,
                            usize::MAX <= u64::MAX,
                    ;
                    assert(at_hour(times@[i as int], k as nat));
                }
                let v = hours[k] + data[i].total_tokens as u128;
                hours.set(k, v);
                proof {
                    assert forall|j: int| 0 <= j < 24 implies #[trigger] hours@[j] == hour_tokens(
                        data@.take(i + 1),
                        times@.take(i + 1),
                        j as nat,
                    ) by {
                        if j != k {
                            assert(!at_hour(times@[i as int], j as nat));
                        }
                    }
                }
            },
            None => {
                proof {
                    assert forall|j: int| 0 <= j < 24 implies #[trigger] hours@[j] == hour_tokens(
                        data@.take(i + 1),
                        times@.take(i + 1),
                        j as nat,
                    ) by {
                        assert(!at_hour(times@[i as int], j as nat));
                    }
                }
            },
        }
        i = i + 1;
    }
    assert(data@.take(n as int) =~= data@);
    assert(times@.take(n as int) =~= times@);
    hours
}

/// The days that records fall on, each once, with the cost (`cost`) or the
/// tokens of each.
pub struct DayTotals {
    pub days: Vec<(u32, u32, u32)>,
    pub totals: Vec<u128>,
}

impl DayTotals {
    /// The days and totals of `data` with times `times`.
    pub open spec fn describes(
        &self,
        data: Seq<UsageData>,
        times: Seq<Option<LocalTime>>,
        cost: bool,
    ) -> bool {
        &&& self.days@.len() == self.totals@.len()
        &&& self.days@.no_duplicates()
        &&& self.days@.to_set() == seen_days(times)
        &&& forall|j: int|
            0 <= j < self.days@.len() ==> #[trigger] self.totals@[j] == day_sum(
                data,
                times,
                self.days@[j],
                cost,
            )
    }
}

/// Groups cost (`cost`) or tokens by calendar day.
#[verifier::loop_isolation(false)]
pub fn daily_totals(data: &[UsageData], times: &Vec<Option<LocalTime>>, cost: bool) -> (r: DayTotals)
    requires
        times@.len() == data@.len(),
    ensures
        r.describes(data@, times@, cost),
{
    let n = data.len();
    let mut days: Vec<(u32, u32, u32)> = Vec::new();
    let mut totals: Vec<u128> = Vec::new();
    let mut i: usize = 0;
    assert(seen_days(times@.take(0)) =~= Set::<(u32, u32, u32)>::empty());
    assert(days@.to_set() =~= Set::<(u32, u32, u32)>::empty());
    while i < n
        invariant
            i <= n == data@.len(),
            days@.len() == totals@.len(),
            days@.no_duplicates(),
            days@.to_set() == seen_days(times@.take(i as int)),
            forall|j: int|
                0 <= j < days@.len() ==> #[trigger] totals@[j] == day_sum(
                    data@.take(i as int),
                    times@.take(i as int),
                    days@[j],
                    cost,
                ),
        decreases n - i,
    {
        proof {
            lemma_prefix_step(data@, times@, i as int);
        }
        let ghost tp = times@.take(i as int);
        let ghost tn = times@.take(i + 1);
        match times[i] {
            Some(t) => {
                let key = (t.year, t.month, t.day);
                assert(key == day_key(t));
                let mut k: usize = 0;
                while k < days.len() && !(days[k].0 == key.0 && days[k].1 == key.1 && days[k].2 == key.2)
                    invariant
                        k <= days@.len(),
                        forall|j: int| 0 <= j < k ==> days@[j] != key,
                    decreases days.len() - k,
                {
                    k = k + 1;
                }
                let amount_here: u128 = if cost {
                    data[i].cost as u128
                } else {
                    data[i].total_tokens as u128
                };
                proof {
                    assert(seen_days(tn) =~= seen_days(tp).insert(key)) by {
                        assert forall|d: (u32, u32, u32)| seen_days(tn).contains(d) implies seen_days(
                            tp,
                        ).insert(d).contains(d) || d == key by {
                        }
                        assert forall|d: (u32, u32, u32)| #[trigger] seen_days(tn).contains(d) implies seen_days(
                            tp,
                        ).insert(key).contains(d) by {
                            let w = choose|w: int| 0 <= w < tn.len() && on_day(#[trigger] tn[w], d);
                            if w < i {
                                assert(tp[w] == tn[w]);
                            }
                        }
                        assert forall|d: (u32, u32, u32)| #[trigger] seen_days(tp).insert(key).contains(d) implies seen_days(
                            tn,
                        ).contains(d) by {
                            if d == key {
                                assert(on_day(tn[i as int], d));
                            } else {
                                let w = choose|w: int| 0 <= w < tp.len() && on_day(#[trigger] tp[w], d);
                                assert(tp[w] == tn[w]);
                            }
                        }
                    }
                    lemma_sums_bounded(data@.take(i + 1), tn, 0, key, cost);
                    assert((i + 1) * (u64::MAX as nat) <= (u64::MAX as nat) * (u64::MAX as nat))
                        by (nonlinear_arith)
                        requires
                            i + 1 <= usize::MAX,
                            usize::MAX <= u64::MAX,
                    ;
                }
                if k < days.len() {
                    let v = totals[k] + amount_here;
                    totals.set(k, v);
                    proof {
                        assert(days@.to_set().contains(key));
                        assert(days@.to_set().insert(key) =~= days@.to_set());
                        assert forall|j: int| 0 <= j < days@.len() implies #[trigger] totals@[j] == day_sum(
                            data@.take(i + 1),
                            tn,
                            days@[j],
                            cost,
                        ) by {
                            if j != k {
                                assert(!on_day(times@[i as int], days@[j]));
                            }
                        }
                    }
                } else {
                    proof {
                        assert(!days@.contains(key));
                        assert(!seen_days(tp).contains(key)) by {
                            assert(!days@.to_set().contains(key));
                        }
                        assert forall|w: int| 0 <= w < tp.len() implies !on_day(#[trigger] tp[w], key) by {
                            if on_day(tp[w], key) {
                                assert(seen_days(tp).contains(key));
                            }
                        }
                        lemma_unseen_day(data@.take(i as int), tp, key, cost);
                        days@.lemma_push_to_set_commute(key);
                    }
                    let ghost old_days = days@;
                    days.push(key);
                    totals.push(amount_here);
                    proof {
                        assert(days@ == old_days.push(key));
                        assert forall|a: int, b: int| 0 <= a < b < days@.len() implies days@[a] != days@[b] by {
                            if b == old_days.len() {
                                assert(old_days.contains(old_days[a]));
                            }
                        }
                        assert forall|j: int| 0 <= j < days@.len() implies #[trigger] totals@[j] == day_sum(
                            data@.take(i + 1),
                            tn,
                            days@[j],
                            cost,
                        ) by {
                            if j < old_days.len() {
                                assert(days@[j] != key);
                                assert(!on_day(times@[i as int], days@[j]));
                            }
                        }
                    }
                }
            },
            None => {
                proof {
                    assert(seen_days(tn) =~= seen_days(tp)) by {
                        assert forall|d: (u32, u32, u32)| #[trigger] seen_days(tn).contains(d) implies seen_days(
                            tp,
                        ).contains(d) by {
                            let w = choose|w: int| 0 <= w < tn.len() && on_day(#[trigger] tn[w], d);
                            if w < i {
                                assert(tp[w] == tn[w]);
                            }
                        }
                        assert forall|d: (u32, u32, u32)| #[trigger] seen_days(tp).contains(d) implies seen_days(
                            tn,
                        ).contains(d) by {
                            let w = choose|w: int| 0 <= w < tp.len() && on_day(#[trigger] tp[w], d);
                            assert(tp[w] == tn[w]);
                        }
                    }
                    assert forall|j: int| 0 <= j < days@.len() implies #[trigger] totals@[j] == day_sum(
                        data@.take(i + 1),
                        tn,
                        days@[j],
                        cost,
                    ) by {
                        assert(!on_day(times@[i as int], days@[j]));
                    }
                }
            },
        }
        i = i + 1;
    }
    assert(data@.take(n as int) =~= data@);
    assert(times@.take(n as int) =~= times@);
    DayTotals { days, totals }
}

/// Whether day `a` is no later than day `b`.
pub fn day_le_exec(a: (u32, u32, u32), b: (u32, u32, u32)) -> (r: bool)
    ensures
        r == day_le(a, b),
{
    a.0 < b.0 || (a.0 == b.0 && a.1 < b.1) || (a.0 == b.0 && a.1 == b.1 && a.2 <= b.2)
}

} // verus!
