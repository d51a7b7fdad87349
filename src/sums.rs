//! Sums over record sequences, and the records of one model.

use vstd::prelude::*;
use crate::models::UsageData;

verus! {

pub open spec fn sum_tokens(s: Seq<UsageData>) -> nat
    decreases s.len(),
{
    if s.len() == 0 {
        0
    } else {
        (sum_tokens(s.drop_last()) + s.last().total_tokens) as nat
    }
}

pub open spec fn sum_cost(s: Seq<UsageData>) -> nat
    decreases s.len(),
{
    if s.len() == 0 {
        0
    } else {
        (sum_cost(s.drop_last()) + s.last().cost) as nat
    }
}

pub open spec fn sum_cache_read(s: Seq<UsageData>) -> nat
    decreases s.len(),
{
    if s.len() == 0 {
        0
    } else {
        (sum_cache_read(s.drop_last()) + s.last().cache_read) as nat
    }
}

/// Input tokens with and without cache writes.
pub open spec fn sum_input(s: Seq<UsageData>) -> nat
    decreases s.len(),
{
    if s.len() == 0 {
        0
    } else {
        (sum_input(s.drop_last()) + s.last().input_with_cache + s.last().input_without_cache) as nat
    }
}

pub open spec fn sum_input_without_cache(s: Seq<UsageData>) -> nat
    decreases s.len(),
{
    if s.len() == 0 {
        0
    } else {
        (sum_input_without_cache(s.drop_last()) + s.last().input_without_cache) as nat
    }
}

/// The records of model `m`, in their order.
pub open spec fn of_model(s: Seq<UsageData>, m: Seq<char>) -> Seq<UsageData>
    decreases s.len(),
{
    if s.len() == 0 {
        s
    } else if s.last().model@ == m {
        of_model(s.drop_last(), m).push(s.last())
    } else {
        of_model(s.drop_last(), m)
    }
}

/// The distinct model names, in the order of their first record.
pub open spec fn models_in_order(s: Seq<UsageData>) -> Seq<Seq<char>>
    decreases s.len(),
{
    if s.len() == 0 {
        Seq::empty()
    } else if models_in_order(s.drop_last()).contains(s.last().model@) {
        models_in_order(s.drop_last())
    } else {
        models_in_order(s.drop_last()).push(s.last().model@)
    }
}

/// Upper bounds of the sums, from the bounds of the fields.
pub proof fn lemma_sum_bounds(s: Seq<UsageData>)
    ensures
        sum_tokens(s) <= s.len() * (u32::MAX as nat),
        sum_cache_read(s) <= s.len() * (u32::MAX as nat),
        sum_input(s) <= s.len() * 2 * (u32::MAX as nat),
        sum_input_without_cache(s) <= s.len() * (u32::MAX as nat),
        sum_cost(s) <= s.len() * (u64::MAX as nat),
    decreases s.len(),
{
    if s.len() > 0 {
        lemma_sum_bounds(s.drop_last());
        assert(s.len() * (u32::MAX as nat) == (s.len() - 1) * (u32::MAX as nat) + (u32::MAX as nat))
            by (nonlinear_arith);
        assert(s.len() * 2 * (u32::MAX as nat) == (s.len() - 1) * 2 * (u32::MAX as nat) + 2 * (
        u32::MAX as nat)) by (nonlinear_arith);
        assert(s.len() * (u64::MAX as nat) == (s.len() - 1) * (u64::MAX as nat) + (u64::MAX as nat))
            by (nonlinear_arith);
    }
}

/// The records of one model are no more than all records.
pub proof fn lemma_of_model_len(s: Seq<UsageData>, m: Seq<char>)
    ensures
        of_model(s, m).len() <= s.len(),
    decreases s.len(),
{
    if s.len() > 0 {
        lemma_of_model_len(s.drop_last(), m);
    }
}

/// Extending a sequence by one record.
pub proof fn lemma_push(s: Seq<UsageData>, r: UsageData)
    ensures
        s.push(r).drop_last() == s,
        s.push(r).last() == r,
        sum_tokens(s.push(r)) == sum_tokens(s) + r.total_tokens,
        sum_cost(s.push(r)) == sum_cost(s) + r.cost,
        sum_cache_read(s.push(r)) == sum_cache_read(s) + r.cache_read,
        sum_input(s.push(r)) == sum_input(s) + r.input_with_cache + r.input_without_cache,
        sum_input_without_cache(s.push(r)) == sum_input_without_cache(s) + r.input_without_cache,
        forall|m: Seq<char>|
            #[trigger] of_model(s.push(r), m) == if r.model@ == m {
                of_model(s, m).push(r)
            } else {
                of_model(s, m)
            },
        models_in_order(s.push(r)) == if models_in_order(s).contains(r.model@) {
            models_in_order(s)
        } else {
            models_in_order(s).push(r.model@)
        },
{
    assert(s.push(r).drop_last() =~= s);
}

} // verus!
