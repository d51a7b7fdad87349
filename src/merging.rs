//! Ordering and de-duplication of record sets that are merged.
//!
//! Records are ordered by date, then model, then cost (a stable order:
//! records equal on all three keep their relative order), and a record is
//! dropped when it repeats the last kept one on date, model, cost and total
//! tokens.

use vstd::prelude::*;
use vstd::relations::{sorted_by, total_ordering};
use core::cmp::Ordering;
use crate::models::UsageData;
use crate::text::{
    chars_eq, chars_of, lemma_lex_antisymmetric, lemma_lex_total, lemma_lex_transitive, lex_le,
    lex_le_exec,
};

verus! {

broadcast use vstd::seq_lib::group_to_multiset_ensures;

/// `a` comes strictly before `b` in lexicographic order.
pub open spec fn lex_lt(a: Seq<char>, b: Seq<char>) -> bool {
    lex_le(a, b) && a != b
}

/// `a` may stand before `b`: ordered by date, then model, then cost.
pub open spec fn merge_key_le(a: UsageData, b: UsageData) -> bool {
    ||| lex_lt(a.date@, b.date@)
    ||| (a.date@ == b.date@ && lex_lt(a.model@, b.model@))
    ||| (a.date@ == b.date@ && a.model@ == b.model@ && a.cost <= b.cost)
}

/// Position `i` of `s` may stand before position `j`: by the records' keys,
/// and by position among records with equal keys.
pub open spec fn position_le(s: Seq<UsageData>, i: usize, j: usize) -> bool {
    &&& merge_key_le(s[i as int], s[j as int])
    &&& (merge_key(s[i as int]) == merge_key(s[j as int]) ==> i <= j)
}

pub open spec fn position_order(s: Seq<UsageData>) -> spec_fn(usize, usize) -> bool {
    |i: usize, j: usize| position_le(s, i, j)
}

/// The positions `0 .. n`.
pub open spec fn positions(n: nat) -> Seq<usize> {
    Seq::new(n, |i: int| i as usize)
}

/// The records in merge order; of records with equal keys, the earlier one
/// stays first.
pub open spec fn merge_order(s: Seq<UsageData>) -> Seq<UsageData> {
    positions(s.len()).sort_by(position_order(s)).map_values(|i: usize| s[i as int])
}

/// The two records agree on date, model, cost and total tokens.
pub open spec fn same_record(a: UsageData, b: UsageData) -> bool {
    &&& a.date@ == b.date@
    &&& a.model@ == b.model@
    &&& a.cost == b.cost
    &&& a.total_tokens == b.total_tokens
}

/// Each record that repeats the last kept one is dropped.
pub open spec fn drop_repeats(s: Seq<UsageData>) -> Seq<UsageData>
    decreases s.len(),
{
    if s.len() == 0 {
        s
    } else if drop_repeats(s.drop_last()).len() > 0 && same_record(
        drop_repeats(s.drop_last()).last(),
        s.last(),
    ) {
        drop_repeats(s.drop_last())
    } else {
        drop_repeats(s.drop_last()).push(s.last())
    }
}

/// Whether `a` may stand before `b`.
fn merge_key_le_exec(a: &UsageData, b: &UsageData) -> (r: bool)
    ensures
        r == merge_key_le(*a, *b),
{
    let ad = chars_of(a.date.as_str());
    let bd = chars_of(b.date.as_str());
    if !chars_eq(&ad, &bd) {
        return lex_le_exec(&ad, &bd);
    }
    let am = chars_of(a.model.as_str());
    let bm = chars_of(b.model.as_str());
    if !chars_eq(&am, &bm) {
        return lex_le_exec(&am, &bm);
    }
    a.cost <= b.cost
}

/// The order of two positions of `records`: by the records' keys, then by
/// position.
pub fn compare_positions(records: &Vec<UsageData>, i: usize, j: usize) -> (r: Ordering)
    ensures
        i < records@.len() && j < records@.len() ==> {
            &&& (r != Ordering::Greater <==> position_le(records@, i, j))
            &&& (r != Ordering::Less <==> position_le(records@, j, i))
        },
{
    if i >= records.len() || j >= records.len() {
        return if i < j {
            Ordering::Less
        } else if i > j {
            Ordering::Greater
        } else {
            Ordering::Equal
        };
    }
    let a = &records[i];
    let b = &records[j];
    let ab = merge_key_le_exec(a, b);
    let ba = merge_key_le_exec(b, a);
    proof {
        lemma_key_le_total(*a, *b);
        if ab && ba {
            lemma_key_le_antisymmetric(*a, *b);
        }
    }
    if ab && !ba {
        Ordering::Less
    } else if ba && !ab {
        Ordering::Greater
    } else if i < j {
        Ordering::Less
    } else if i > j {
        Ordering::Greater
    } else {
        Ordering::Equal
    }
}

/// Relies on `slice::sort_unstable_by` with `compare_positions`, which is a
/// total order on positions of `records`: afterwards the positions are the
/// same ones, in that order.
#[verifier::external_body]
fn sort_positions(records: &Vec<UsageData>, positions: &mut Vec<usize>)
    requires
        forall|k: int| 0 <= k < old(positions)@.len() ==> old(positions)@[k] < records@.len(),
    ensures
        final(positions)@.to_multiset() == old(positions)@.to_multiset(),
        sorted_by(final(positions)@, position_order(records@)),
{
    positions.sort_unstable_by(|a, b| compare_positions(records, *a, *b));
}

/// The order on positions is a total order.
proof fn lemma_position_order_total(s: Seq<UsageData>)
    ensures
        total_ordering(position_order(s)),
{
    let r = position_order(s);
    assert forall|x: usize| #[trigger] r(x, x) by {
        assert(merge_key_le(s[x as int], s[x as int]));
    }
    assert forall|x: usize, y: usize, z: usize| #[trigger] r(x, y) && #[trigger] r(y, z) implies r(
        x,
        z,
    ) by {
        let (a, b, c) = (s[x as int], s[y as int], s[z as int]);
        lemma_key_le_transitive(a, b, c);
        if merge_key(a) == merge_key(c) {
            assert(merge_key_le(b, a));
            lemma_key_le_antisymmetric(a, b);
            lemma_key_le_antisymmetric(b, c);
        }
    }
    assert forall|x: usize, y: usize| #[trigger] r(x, y) && #[trigger] r(y, x) implies x == y by {
        lemma_key_le_antisymmetric(s[x as int], s[y as int]);
    }
    assert forall|x: usize, y: usize| #[trigger] r(x, y) || #[trigger] r(y, x) by {
        lemma_key_le_total(s[x as int], s[y as int]);
        if merge_key_le(s[x as int], s[y as int]) && merge_key_le(s[y as int], s[x as int]) {
            lemma_key_le_antisymmetric(s[x as int], s[y as int]);
        }
    }
}

/// The sorted positions are the positions `0 .. n`, each once.
proof fn lemma_sorted_positions(s: Seq<UsageData>)
    requires
        s.len() <= usize::MAX,
    ensures
        positions(s.len()).sort_by(position_order(s)).len() == s.len(),
        forall|k: int|
            0 <= k < s.len() ==> #[trigger] positions(s.len()).sort_by(position_order(s))[k]
                < s.len(),
        forall|i: usize|
            i < s.len() ==> #[trigger] positions(s.len()).sort_by(position_order(s)).contains(i),
        sorted_by(positions(s.len()).sort_by(position_order(s)), position_order(s)),
{
    let order = position_order(s);
    let ps = positions(s.len());
    let p = ps.sort_by(order);
    lemma_position_order_total(s);
    ps.lemma_sort_by_ensures(order);
    vstd::seq_lib::to_multiset_len(ps);
    vstd::seq_lib::to_multiset_len(p);
    assert forall|k: int| 0 <= k < s.len() implies #[trigger] p[k] < s.len() by {
        assert(p.contains(p[k]));
        assert(p.to_multiset().contains(p[k]));
        assert(ps.to_multiset().contains(p[k]));
        assert(ps.contains(p[k]));
    }
    assert forall|i: usize| i < s.len() implies #[trigger] p.contains(i) by {
        assert(ps[i as int] == i);
        assert(ps.contains(i));
        assert(ps.to_multiset().contains(i));
        assert(p.to_multiset().contains(i));
    }
}

/// Sorts records into merge order.
pub fn sort_for_merge(records: Vec<UsageData>) -> (r: Vec<UsageData>)
    ensures
        r@ == merge_order(records@),
{
    let n = records.len();
    let mut pos: Vec<usize> = Vec::new();
    let mut i: usize = 0;
    while i < n
        invariant
            i <= n == records@.len(),
            pos@ == positions(i as nat),
        decreases n - i,
    {
        pos.push(i);
        i = i + 1;
        assert(pos@ =~= positions(i as nat));
    }
    let ghost start = pos@;
    sort_positions(&records, &mut pos);
    proof {
        let order = position_order(records@);
        lemma_position_order_total(records@);
        lemma_sorted_positions(records@);
        start.lemma_sort_by_ensures(order);
        vstd::seq_lib::lemma_sorted_unique(pos@, start.sort_by(order), order);
    }
    let ghost sorted = positions(n as nat).sort_by(position_order(records@));
    assert(pos@ == sorted);
    let ghost mo = merge_order(records@);
    assert(mo == sorted.map_values(|i: usize| records@[i as int]));
    assert(mo.len() == n);
    let mut out: Vec<UsageData> = Vec::new();
    let mut k: usize = 0;
    while k < n
        invariant
            k <= n == records@.len() == pos@.len(),
            pos@ == sorted,
            forall|m: int| 0 <= m < n ==> #[trigger] sorted[m] < n,
            mo == merge_order(records@),
            mo == sorted.map_values(|i: usize| records@[i as int]),
            mo.len() == n,
            out@ == mo.take(k as int),
        decreases n - k,
    {
        assert(sorted[k as int] < n);
        assert(mo[k as int] == records@[sorted[k as int] as int]);
        out.push(records[pos[k]].duplicate());
        k = k + 1;
        assert(out@ =~= mo.take(k as int));
    }
    assert(merge_order(records@).take(n as int) =~= merge_order(records@));
    out
}

/// Drops each record that repeats the last kept one.
pub fn drop_repeated(sorted: &Vec<UsageData>) -> (r: Vec<UsageData>)
    ensures
        r@ == drop_repeats(sorted@),
{
    let mut out: Vec<UsageData> = Vec::new();
    let mut i: usize = 0;
    assert(sorted@.take(0) =~= Seq::<UsageData>::empty());
    while i < sorted.len()
        invariant
            i <= sorted@.len(),
            out@ == drop_repeats(sorted@.take(i as int)),
        decreases sorted.len() - i,
    {
        let x = &sorted[i];
        assert(sorted@.take(i + 1).drop_last() =~= sorted@.take(i as int));
        let repeat = if out.len() > 0 {
            let last = &out[out.len() - 1];
            chars_eq(&chars_of(last.date.as_str()), &chars_of(x.date.as_str())) && chars_eq(
                &chars_of(last.model.as_str()),
                &chars_of(x.model.as_str()),
            ) && last.cost == x.cost && last.total_tokens == x.total_tokens
        } else {
            false
        };
        if !repeat {
            out.push(x.duplicate());
        }
        i = i + 1;
    }
    assert(sorted@.take(sorted@.len() as int) =~= sorted@);
    out
}

/// The keys that merge order compares: date, model and cost.
pub open spec fn merge_key(r: UsageData) -> (Seq<char>, Seq<char>, u64) {
    (r.date@, r.model@, r.cost)
}

pub open spec fn key_seq(s: Seq<UsageData>) -> Seq<(Seq<char>, Seq<char>, u64)> {
    s.map_values(|r: UsageData| merge_key(r))
}

/// The distinct keys of a record set.
pub open spec fn key_set(s: Seq<UsageData>) -> Set<(Seq<char>, Seq<char>, u64)> {
    key_seq(s).to_set()
}

/// Records with equal keys also have equal total tokens.
pub open spec fn tokens_agree_on_keys(s: Seq<UsageData>) -> bool {
    forall|i: int, j: int|
        0 <= i < s.len() && 0 <= j < s.len() && merge_key(#[trigger] s[i]) == merge_key(
            #[trigger] s[j],
        ) ==> s[i].total_tokens == s[j].total_tokens
}

pub open spec fn merge_sorted(t: Seq<UsageData>) -> bool {
    forall|i: int, j: int| 0 <= i < j < t.len() ==> merge_key_le(#[trigger] t[i], #[trigger] t[j])
}

proof fn lemma_lex_lt_transitive(a: Seq<char>, b: Seq<char>, c: Seq<char>)
    requires
        lex_le(a, b),
        lex_le(b, c),
        lex_lt(a, b) || lex_lt(b, c),
    ensures
        lex_lt(a, c),
{
    lemma_lex_transitive(a, b, c);
    if a == c {
        lemma_lex_antisymmetric(a, b);
        lemma_lex_antisymmetric(b, c);
    }
}

proof fn lemma_key_le_total(a: UsageData, b: UsageData)
    ensures
        merge_key_le(a, b) || merge_key_le(b, a),
{
    lemma_lex_total(a.date@, b.date@);
    lemma_lex_total(a.model@, b.model@);
}

proof fn lemma_key_le_antisymmetric(a: UsageData, b: UsageData)
    requires
        merge_key_le(a, b),
        merge_key_le(b, a),
    ensures
        merge_key(a) == merge_key(b),
{
    if a.date@ != b.date@ {
        if lex_le(a.date@, b.date@) && lex_le(b.date@, a.date@) {
            lemma_lex_antisymmetric(a.date@, b.date@);
        }
    } else if a.model@ != b.model@ {
        if lex_le(a.model@, b.model@) && lex_le(b.model@, a.model@) {
            lemma_lex_antisymmetric(a.model@, b.model@);
        }
    }
}

proof fn lemma_key_le_transitive(a: UsageData, b: UsageData, c: UsageData)
    requires
        merge_key_le(a, b),
        merge_key_le(b, c),
    ensures
        merge_key_le(a, c),
{
    if lex_lt(a.date@, b.date@) && lex_lt(b.date@, c.date@) {
        lemma_lex_lt_transitive(a.date@, b.date@, c.date@);
    }
    if a.date@ == b.date@ && b.date@ == c.date@ && lex_lt(a.model@, b.model@) && lex_lt(
        b.model@,
        c.model@,
    ) {
        lemma_lex_lt_transitive(a.model@, b.model@, c.model@);
    }
}

/// Equal keys order both ways.
proof fn lemma_equal_keys_le(a: UsageData, b: UsageData)
    requires
        merge_key(a) == merge_key(b),
    ensures
        merge_key_le(a, b),
{
}

/// The records in merge order are the records, each once, sorted by key.
proof fn lemma_merge_order_elems(s: Seq<UsageData>)
    requires
        s.len() <= usize::MAX,
    ensures
        merge_order(s).len() == s.len(),
        forall|y: UsageData| #[trigger] merge_order(s).contains(y) <==> s.contains(y),
        merge_sorted(merge_order(s)),
{
    lemma_sorted_positions(s);
    let p = positions(s.len()).sort_by(position_order(s));
    let mo = merge_order(s);
    assert forall|y: UsageData| #[trigger] mo.contains(y) <==> s.contains(y) by {
        if mo.contains(y) {
            let k = choose|k: int| 0 <= k < mo.len() && mo[k] == y;
            assert(p[k] < s.len());
            assert(s[p[k] as int] == y);
        }
        if s.contains(y) {
            let i = choose|i: int| 0 <= i < s.len() && s[i] == y;
            assert(p.contains(i as usize));
            let k = choose|k: int| 0 <= k < p.len() && p[k] == i as usize;
            assert(mo[k] == y);
        }
    }
    assert forall|i: int, j: int| 0 <= i < j < mo.len() implies merge_key_le(
        #[trigger] mo[i],
        #[trigger] mo[j],
    ) by {
        assert(position_order(s)(p[i], p[j]));
    }
}

proof fn lemma_drop_repeats_last(t: Seq<UsageData>)
    requires
        t.len() > 0,
    ensures
        drop_repeats(t).len() > 0,
        same_record(drop_repeats(t).last(), t.last()),
{
}

proof fn lemma_key_set_push(s: Seq<UsageData>, x: UsageData)
    ensures
        key_set(s.push(x)) == key_set(s).insert(merge_key(x)),
        key_set(s).finite(),
        key_set(s).contains(merge_key(x)) <==> exists|i: int|
            0 <= i < s.len() && merge_key(#[trigger] s[i]) == merge_key(x),
{
    assert(key_seq(s.push(x)) =~= key_seq(s).push(merge_key(x)));
    key_seq(s).lemma_push_to_set_commute(merge_key(x));
    vstd::seq_lib::seq_to_set_is_finite(key_seq(s));
    if key_set(s).contains(merge_key(x)) {
        let i = choose|i: int| 0 <= i < key_seq(s).len() && key_seq(s)[i] == merge_key(x);
        assert(merge_key(s[i]) == merge_key(x));
    }
    if exists|i: int| 0 <= i < s.len() && merge_key(#[trigger] s[i]) == merge_key(x) {
        let i = choose|i: int| 0 <= i < s.len() && merge_key(#[trigger] s[i]) == merge_key(x);
        assert(key_seq(s)[i] == merge_key(x));
    }
}

/// In a sorted record set whose records agree on total tokens wherever they
/// agree on keys, dropping repeats leaves one record per distinct key.
proof fn lemma_drop_repeats_counts_keys(t: Seq<UsageData>)
    requires
        merge_sorted(t),
        tokens_agree_on_keys(t),
    ensures
        drop_repeats(t).len() == key_set(t).len(),
    decreases t.len(),
{
    if t.len() == 0 {
        assert(key_set(t) =~= Set::empty());
    } else {
        let p = t.drop_last();
        let x = t.last();
        assert(p.push(x) =~= t);
        assert(merge_sorted(p)) by {
            assert forall|i: int, j: int| 0 <= i < j < p.len() implies merge_key_le(#[trigger] p[i], #[trigger] p[j]) by {
                assert(merge_key_le(t[i], t[j]));
            }
        }
        assert(tokens_agree_on_keys(p)) by {
            assert forall|i: int, j: int|
                0 <= i < p.len() && 0 <= j < p.len() && merge_key(#[trigger] p[i]) == merge_key(
                    #[trigger] p[j],
                ) implies p[i].total_tokens == p[j].total_tokens by {
                assert(t[i] == p[i] && t[j] == p[j]);
            }
        }
        lemma_drop_repeats_counts_keys(p);
        lemma_key_set_push(p, x);
        if p.len() == 0 {
            assert(drop_repeats(p) =~= Seq::<UsageData>::empty());
            assert(key_set(p) =~= Set::empty());
        } else {
            lemma_drop_repeats_last(p);
            let last_kept = drop_repeats(p).last();
            let n = p.len() - 1;
            if same_record(last_kept, x) {
                assert(merge_key(p[n]) == merge_key(x));
            } else {
                assert(!key_set(p).contains(merge_key(x))) by {
                    if key_set(p).contains(merge_key(x)) {
                        let i = choose|i: int| 0 <= i < p.len() && merge_key(#[trigger] p[i]) == merge_key(x);
                        lemma_equal_keys_le(x, p[i]);
                        if i < n {
                            assert(merge_key_le(t[i], t[n]));
                            lemma_key_le_transitive(x, p[i], p[n]);
                        }
                        assert(merge_key_le(t[n], t[t.len() - 1]));
                        lemma_key_le_antisymmetric(x, p[n]);
                        assert(t[n] == p[n]);
                        assert(t[t.len() - 1] == x);
                        assert(p[n].total_tokens == x.total_tokens);
                    }
                }
            }
        }
    }
}

/// Merging a record set with a copy of itself keeps as many records as
/// merging it with nothing: one per distinct date, model and cost, provided
/// that records equal on those keys also agree on total tokens.
pub proof fn lemma_merge_with_itself(x: Seq<UsageData>)
    requires
        tokens_agree_on_keys(x),
        x.len() + x.len() <= usize::MAX,
    ensures
        drop_repeats(merge_order(x + x)).len() == drop_repeats(
            merge_order(x + Seq::<UsageData>::empty()),
        ).len(),
        drop_repeats(merge_order(x)).len() == key_set(x).len(),
{
    let xx = x + x;
    assert(x + Seq::<UsageData>::empty() =~= x);
    lemma_merge_order_elems(x);
    lemma_merge_order_elems(xx);
    let t1 = merge_order(xx);
    let t2 = merge_order(x);
    assert forall|y: UsageData| xx.contains(y) <==> x.contains(y) by {
        if xx.contains(y) {
            let i = choose|i: int| 0 <= i < xx.len() && xx[i] == y;
            if i < x.len() {
                assert(x[i] == y);
            } else {
                assert(x[i - x.len()] == y);
            }
        }
        if x.contains(y) {
            let i = choose|i: int| 0 <= i < x.len() && x[i] == y;
            assert(xx[i] == y);
        }
    }
    assert forall|t: Seq<UsageData>| (forall|y: UsageData| #[trigger] t.contains(y) ==> x.contains(y))
        implies tokens_agree_on_keys(t) by {
        assert forall|i: int, j: int|
            0 <= i < t.len() && 0 <= j < t.len() && merge_key(#[trigger] t[i]) == merge_key(
                #[trigger] t[j],
            ) implies t[i].total_tokens == t[j].total_tokens by {
            assert(t.contains(t[i]));
            assert(t.contains(t[j]));
            let a = choose|a: int| 0 <= a < x.len() && x[a] == t[i];
            let b = choose|b: int| 0 <= b < x.len() && x[b] == t[j];
            assert(merge_key(x[a]) == merge_key(x[b]));
        }
    }
    lemma_drop_repeats_counts_keys(t1);
    lemma_drop_repeats_counts_keys(t2);
    assert(key_set(t1) =~= key_set(t2)) by {
        assert forall|k: (Seq<char>, Seq<char>, u64)| key_set(t1).contains(k) implies key_set(
            t2,
        ).contains(k) by {
            let i = choose|i: int| 0 <= i < key_seq(t1).len() && key_seq(t1)[i] == k;
            assert(t1.contains(t1[i]));
            assert(t2.contains(t1[i]));
            let j = choose|j: int| 0 <= j < t2.len() && t2[j] == t1[i];
            assert(key_seq(t2)[j] == k);
        }
        assert forall|k: (Seq<char>, Seq<char>, u64)| key_set(t2).contains(k) implies key_set(
            t1,
        ).contains(k) by {
            let i = choose|i: int| 0 <= i < key_seq(t2).len() && key_seq(t2)[i] == k;
            assert(t2.contains(t2[i]));
            assert(t1.contains(t2[i]));
            let j = choose|j: int| 0 <= j < t1.len() && t1[j] == t2[i];
            assert(key_seq(t1)[j] == k);
        }
    }
    assert(key_set(t2) =~= key_set(x)) by {
        assert forall|k: (Seq<char>, Seq<char>, u64)| key_set(t2).contains(k) implies key_set(
            x,
        ).contains(k) by {
            let i = choose|i: int| 0 <= i < key_seq(t2).len() && key_seq(t2)[i] == k;
            assert(t2.contains(t2[i]));
            let j = choose|j: int| 0 <= j < x.len() && x[j] == t2[i];
            assert(key_seq(x)[j] == k);
        }
        assert forall|k: (Seq<char>, Seq<char>, u64)| key_set(x).contains(k) implies key_set(
            t2,
        ).contains(k) by {
            let i = choose|i: int| 0 <= i < key_seq(x).len() && key_seq(x)[i] == k;
            assert(x.contains(x[i]));
            assert(t2.contains(x[i]));
            let j = choose|j: int| 0 <= j < t2.len() && t2[j] == x[i];
            assert(key_seq(t2)[j] == k);
        }
    }
}

} // verus!
