//! Classification of the compounded daily growth rate without rounding.
//!
//! The rate over `s` day steps from a first-day total `f` to a last-day
//! total `l` is `((l / f) ^ (1 / s) - 1) * 100`. It exceeds 5 exactly when
//! `l * 20^s > f * 21^s`, and is below -5 exactly when `l * 20^s < f * 19^s`.
//! Those products are compared here as multi-limb integers.

use vstd::prelude::*;
use crate::models::{GrowthBasis, UsagePattern};

verus! {

pub open spec fn pow_nat(b: nat, e: nat) -> nat
    decreases e,
{
    if e == 0 {
        1
    } else {
        b * pow_nat(b, (e - 1) as nat)
    }
}

/// The pattern that a growth basis shows.
pub open spec fn pattern_of(g: GrowthBasis) -> UsagePattern {
    let s = g.day_span as nat;
    let f = g.first_day_tokens as nat;
    let l = g.last_day_tokens as nat;
    if s == 0 || f == 0 {
        UsagePattern::Stable
    } else if l * pow_nat(20, s) > f * pow_nat(21, s) {
        UsagePattern::Increasing
    } else if l * pow_nat(20, s) < f * pow_nat(19, s) {
        UsagePattern::Decreasing
    } else {
        UsagePattern::Stable
    }
}

pub open spec fn limb_base() -> nat {
    0x1_0000_0000
}

/// The number that little-endian 32-bit limbs denote.
pub open spec fn big_value(s: Seq<u32>) -> nat
    decreases s.len(),
{
    if s.len() == 0 {
        0
    } else {
        big_value(s.drop_last()) + pow_nat(limb_base(), (s.len() - 1) as nat) * (s.last() as nat)
    }
}

proof fn lemma_pow_positive(b: nat, e: nat)
    requires
        b > 0,
    ensures
        pow_nat(b, e) > 0,
    decreases e,
{
    if e > 0 {
        lemma_pow_positive(b, (e - 1) as nat);
        assert(b * pow_nat(b, (e - 1) as nat) > 0) by (nonlinear_arith)
            requires
                b > 0,
                pow_nat(b, (e - 1) as nat) > 0,
        ;
    }
}

proof fn lemma_big_value_bound(s: Seq<u32>)
    ensures
        big_value(s) < pow_nat(limb_base(), s.len()),
    decreases s.len(),
{
    if s.len() > 0 {
        let n = (s.len() - 1) as nat;
        lemma_big_value_bound(s.drop_last());
        let p = pow_nat(limb_base(), n);
        let x = s.last() as nat;
        assert(big_value(s.drop_last()) + p * x < p * limb_base()) by (nonlinear_arith)
            requires
                big_value(s.drop_last()) < p,
                x < limb_base(),
        ;
        assert(pow_nat(limb_base(), s.len()) == limb_base() * p);
    }
}

proof fn lemma_push_value(s: Seq<u32>, x: u32)
    ensures
        big_value(s.push(x)) == big_value(s) + pow_nat(limb_base(), s.len()) * x,
{
    assert(s.push(x).drop_last() =~= s);
}

/// `s` times the small factor `k`, one limb longer.
fn mul_small(s: &Vec<u32>, k: u32) -> (r: Vec<u32>)
    ensures
        r@.len() == s@.len() + 1,
        big_value(r@) == k * big_value(s@),
{
    let mut out: Vec<u32> = Vec::new();
    let mut carry: u64 = 0;
    let mut i: usize = 0;
    assert(s@.take(0) =~= Seq::<u32>::empty());
    assert(big_value(out@) == 0);
    while i < s.len()
        invariant
            i <= s@.len(),
            out@.len() == i,
            carry < limb_base(),
            big_value(out@) + pow_nat(limb_base(), i as nat) * carry == k * big_value(
                s@.take(i as int),
            ),
        decreases s.len() - i,
    {
        let x = s[i];
        assert(s@.take(i + 1).drop_last() =~= s@.take(i as int));
        let ghost p = pow_nat(limb_base(), i as nat);
        assert((x as u64) * (k as u64) + carry <= 0xffff_ffff * 0xffff_ffff + 0xffff_ffff)
            by (nonlinear_arith)
            requires
                x <= 0xffff_ffff,
                k <= 0xffff_ffff,
                carry <= 0xffff_ffff,
        ;
        let t: u64 = (x as u64) * (k as u64) + carry;
        let low: u32 = (t % 0x1_0000_0000) as u32;
        let high: u64 = t / 0x1_0000_0000;
        proof {
            lemma_push_value(out@, low);
            assert(pow_nat(limb_base(), (i + 1) as nat) == limb_base() * p);
            assert(big_value(s@.take(i + 1)) == big_value(s@.take(i as int)) + p * x);
            assert(p * low + limb_base() * p * high == p * t) by (nonlinear_arith)
                requires
                    t == low + limb_base() * high,
            ;
            assert(k * (big_value(s@.take(i as int)) + p * x) == k * big_value(s@.take(i as int))
                + p * (x * k)) by (nonlinear_arith);
            assert(p * t == p * (x * k) + p * carry) by (nonlinear_arith)
                requires
                    t == x * k + carry,
            ;
            assert(high < limb_base()) by (nonlinear_arith)
                requires
                    t <= 0xffff_ffff * 0xffff_ffff + 0xffff_ffff,
                    high == t / 0x1_0000_0000,
            ;
        }
        out.push(low);
        carry = high;
        i = i + 1;
    }
    assert(s@.take(s@.len() as int) =~= s@);
    proof {
        lemma_push_value(out@, carry as u32);
    }
    out.push(carry as u32);
    out
}

/// The four limbs of a 128-bit number.
fn limbs_of(x: u128) -> (r: Vec<u32>)
    ensures
        r@.len() == 4,
        big_value(r@) == x,
{
    let mut out: Vec<u32> = Vec::new();
    let mut rest: u128 = x;
    let mut i: usize = 0;
    assert(pow_nat(limb_base(), 0) == 1);
    assert(big_value(out@) == 0);
    while i < 4
        invariant
            i <= 4,
            out@.len() == i,
            big_value(out@) + pow_nat(limb_base(), i as nat) * rest == x,
        decreases 4 - i,
    {
        let low: u32 = (rest % 0x1_0000_0000) as u32;
        let high: u128 = rest / 0x1_0000_0000;
        let ghost p = pow_nat(limb_base(), i as nat);
        proof {
            lemma_push_value(out@, low);
            assert(pow_nat(limb_base(), (i + 1) as nat) == limb_base() * p);
            assert(p * low + limb_base() * p * high == p * rest) by (nonlinear_arith)
                requires
                    rest == low + limb_base() * high,
            ;
        }
        out.push(low);
        rest = high;
        i = i + 1;
    }
    proof {
        reveal_with_fuel(pow_nat, 5);
        assert(x < 0x1_0000_0000 * 0x1_0000_0000 * 0x1_0000_0000 * 0x1_0000_0000);
        assert(pow_nat(limb_base(), 4) == 0x1_0000_0000 * 0x1_0000_0000 * 0x1_0000_0000 * 0x1_0000_0000);
        if rest > 0 {
            assert(pow_nat(limb_base(), 4) * rest >= pow_nat(limb_base(), 4)) by (nonlinear_arith)
                requires
                    rest >= 1,
            ;
        }
    }
    out
}

/// Compares two numbers of equal limb count: -1, 0 or 1.
fn compare_limbs(a: &Vec<u32>, b: &Vec<u32>) -> (r: i8)
    requires
        a@.len() == b@.len(),
    ensures
        r == -1 <==> big_value(a@) < big_value(b@),
        r == 0 <==> big_value(a@) == big_value(b@),
        r == 1 <==> big_value(a@) > big_value(b@),
{
    let mut j: usize = a.len();
    assert(a@.take(j as int) =~= a@);
    assert(b@.take(j as int) =~= b@);
    while j > 0
        invariant
            j <= a@.len() == b@.len(),
            big_value(a@) - big_value(b@) == big_value(a@.take(j as int)) - big_value(
                b@.take(j as int),
            ),
        decreases j,
    {
        let x = a[j - 1];
        let y = b[j - 1];
        let ghost p = pow_nat(limb_base(), (j - 1) as nat);
        proof {
            assert(a@.take(j as int).drop_last() =~= a@.take(j - 1));
            assert(b@.take(j as int).drop_last() =~= b@.take(j - 1));
            assert(big_value(a@.take(j as int)) == big_value(a@.take(j - 1)) + p * x);
            assert(big_value(b@.take(j as int)) == big_value(b@.take(j - 1)) + p * y);
            lemma_big_value_bound(a@.take(j - 1));
            lemma_big_value_bound(b@.take(j - 1));
        }
        if x > y {
            proof {
                assert(p * x >= p * y + p) by (nonlinear_arith)
                    requires
                        x >= y + 1,
                ;
            }
            return 1;
        }
        if x < y {
            proof {
                assert(p * y >= p * x + p) by (nonlinear_arith)
                    requires
                        y >= x + 1,
                ;
            }
            return -1;
        }
        j = j - 1;
    }
    assert(a@.take(0) =~= Seq::<u32>::empty());
    assert(b@.take(0) =~= Seq::<u32>::empty());
    0
}

/// `x * k^e` as limbs, `4 + e` of them.
fn scaled(x: u128, k: u32, e: u64) -> (r: Vec<u32>)
    ensures
        r@.len() == 4 + e,
        big_value(r@) == x * pow_nat(k as nat, e as nat),
{
    let mut v = limbs_of(x);
    let mut i: u64 = 0;
    assert(pow_nat(k as nat, 0) == 1);
    while i < e
        invariant
            i <= e,
            v@.len() == 4 + i,
            big_value(v@) == x * pow_nat(k as nat, i as nat),
        decreases e - i,
    {
        let ghost before = big_value(v@);
        v = mul_small(&v, k);
        proof {
            assert(k * (x * pow_nat(k as nat, i as nat)) == x * (k * pow_nat(k as nat, i as nat)))
                by (nonlinear_arith);
        }
        i = i + 1;
    }
    v
}

/// The pattern of a growth basis, decided exactly.
pub fn classify_growth(g: &GrowthBasis) -> (r: UsagePattern)
    ensures
        r == pattern_of(*g),
{
    if g.day_span == 0 || g.first_day_tokens == 0 {
        return UsagePattern::Stable;
    }
    let last = scaled(g.last_day_tokens, 20, g.day_span);
    let up = scaled(g.first_day_tokens, 21, g.day_span);
    if compare_limbs(&last, &up) == 1 {
        return UsagePattern::Increasing;
    }
    let down = scaled(g.first_day_tokens, 19, g.day_span);
    if compare_limbs(&last, &down) == -1 {
        return UsagePattern::Decreasing;
    }
    UsagePattern::Stable
}

} // verus!
