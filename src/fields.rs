//! Parsers for the text of one field of a usage row.
//!
//! Costs are held as exact integers in billionths of the currency unit, so
//! that sums and comparisons on them are exact.

use vstd::prelude::*;

verus! {

/// Strips every leading double quote.
pub open spec fn strip_front_quotes(s: Seq<char>) -> Seq<char>
    decreases s.len(),
{
    if s.len() > 0 && s[0] == '"' {
        strip_front_quotes(s.drop_first())
    } else {
        s
    }
}

/// Strips every trailing double quote.
pub open spec fn strip_back_quotes(s: Seq<char>) -> Seq<char>
    decreases s.len(),
{
    if s.len() > 0 && s.last() == '"' {
        strip_back_quotes(s.drop_last())
    } else {
        s
    }
}

/// The field text with surrounding double quotes removed.
pub open spec fn unquote(s: Seq<char>) -> Seq<char> {
    strip_back_quotes(strip_front_quotes(s))
}

pub open spec fn is_digit(c: char) -> bool {
    '0' <= c && c <= '9'
}

pub open spec fn digit_value(c: char) -> nat {
    ((c as int) - ('0' as int)) as nat
}

pub open spec fn all_digits(s: Seq<char>) -> bool {
    forall|i: int| 0 <= i < s.len() ==> is_digit(#[trigger] s[i])
}

/// The number that a string of decimal digits denotes.
pub open spec fn digits_value(s: Seq<char>) -> nat
    decreases s.len(),
{
    if s.len() == 0 {
        0
    } else {
        digits_value(s.drop_last()) * 10 + digit_value(s.last())
    }
}

pub open spec fn pow10(n: nat) -> nat
    decreases n,
{
    if n == 0 {
        1
    } else {
        10 * pow10((n - 1) as nat)
    }
}

/// The text without one leading plus sign, if it has one.
pub open spec fn unsigned_body(s: Seq<char>) -> Seq<char> {
    if s.len() > 0 && s[0] == '+' {
        s.drop_first()
    } else {
        s
    }
}

/// The value of an unsigned 32-bit integer written in decimal: an optional
/// plus sign followed by at least one digit, leading zeros allowed.
pub open spec fn u32_text_value(s: Seq<char>) -> Option<u32> {
    let d = unsigned_body(s);
    if d.len() > 0 && all_digits(d) && digits_value(d) <= u32::MAX {
        Some(digits_value(d) as u32)
    } else {
        None
    }
}

/// The number of billionths in one currency unit.
pub const NANOS_PER_UNIT: u64 = 1000000000;

/// Where the decimal point stands in `d`: the index of the first `.`, or
/// the length when there is none.
pub open spec fn is_point_index(d: Seq<char>, p: int) -> bool {
    &&& 0 <= p <= d.len()
    &&& forall|j: int| 0 <= j < p ==> #[trigger] d[j] != '.'
    &&& (p == d.len() || d[p] == '.')
}

pub open spec fn point_index(d: Seq<char>) -> int {
    choose|p: int| is_point_index(d, p)
}

/// The digits before the point.
pub open spec fn integer_part(d: Seq<char>) -> Seq<char> {
    d.take(point_index(d))
}

/// The digits after the point.
pub open spec fn fraction_part(d: Seq<char>) -> Seq<char> {
    if point_index(d) < d.len() {
        d.skip(point_index(d) + 1)
    } else {
        Seq::empty()
    }
}

pub open spec fn is_exponent_mark(c: char) -> bool {
    c == 'e' || c == 'E'
}

/// Where the exponent mark stands in `d`: the index of the first `e` or
/// `E`, or the length when there is none.
pub open spec fn is_mark_index(d: Seq<char>, q: int) -> bool {
    &&& 0 <= q <= d.len()
    &&& forall|j: int| 0 <= j < q ==> !is_exponent_mark(#[trigger] d[j])
    &&& (q == d.len() || is_exponent_mark(d[q]))
}

pub open spec fn mark_index(d: Seq<char>) -> int {
    choose|q: int| is_mark_index(d, q)
}

/// The number before the exponent mark.
pub open spec fn mantissa(d: Seq<char>) -> Seq<char> {
    d.take(mark_index(d))
}

/// The text after the exponent mark; empty when there is no mark.
pub open spec fn exponent_text(d: Seq<char>) -> Seq<char> {
    if mark_index(d) < d.len() {
        d.skip(mark_index(d) + 1)
    } else {
        Seq::empty()
    }
}

/// The exponent text without its sign.
pub open spec fn exponent_digits(x: Seq<char>) -> Seq<char> {
    if x.len() > 0 && (x[0] == '+' || x[0] == '-') {
        x.drop_first()
    } else {
        x
    }
}

/// There is no exponent, or it is a sign and at least one digit.
pub open spec fn exponent_valid(d: Seq<char>) -> bool {
    ||| mark_index(d) == d.len()
    ||| (exponent_digits(exponent_text(d)).len() > 0 && all_digits(
        exponent_digits(exponent_text(d)),
    ))
}

/// The power of ten that the exponent denotes; zero with no exponent.
pub open spec fn exponent_value(d: Seq<char>) -> int {
    if exponent_text(d).len() > 0 && exponent_text(d)[0] == '-' {
        -(digits_value(exponent_digits(exponent_text(d))) as int)
    } else {
        digits_value(exponent_digits(exponent_text(d))) as int
    }
}

/// All digits of the mantissa, the point removed.
pub open spec fn mantissa_digits(d: Seq<char>) -> Seq<char> {
    integer_part(mantissa(d)) + fraction_part(mantissa(d))
}

/// `m * 10^k`, rounded down.
pub open spec fn scaled_floor(m: nat, k: int) -> nat {
    if k >= 0 {
        m * pow10(k as nat)
    } else {
        m / pow10((-k) as nat)
    }
}

/// A non-negative amount in the notation of Rust's floating-point text: an
/// optional plus sign, digits with an optional point (at least one digit in
/// all), and an optional exponent `e` or `E` with an optional sign and at
/// least one digit. Its exact value is reduced to whole billionths by
/// rounding down; an amount above `u64::MAX` billionths is held as
/// `u64::MAX`. A minus sign, `inf` and `nan` are refused.
pub open spec fn cost_text_value(s: Seq<char>) -> Option<u64> {
    let d = unsigned_body(s);
    let m = mantissa(d);
    if all_digits(integer_part(m)) && all_digits(fraction_part(m)) && mantissa_digits(d).len() > 0
        && exponent_valid(d) {
        let v = scaled_floor(
            digits_value(mantissa_digits(d)),
            exponent_value(d) - fraction_part(m).len() + 9,
        );
        Some(
            if v > u64::MAX {
                u64::MAX
            } else {
                v as u64
            },
        )
    } else {
        None
    }
}

/// `s` equals the lower-case ASCII text `lower` up to the case of ASCII letters.
pub open spec fn ascii_ci_eq(s: Seq<char>, lower: Seq<char>) -> bool {
    &&& s.len() == lower.len()
    &&& forall|i: int|
        0 <= i < s.len() ==> (#[trigger] s[i] == lower[i] || ('a' <= lower[i] && lower[i] <= 'z'
            && (s[i] as u32) == (lower[i] as u32) - 32))
}

/// The flag that a "Max Mode" text denotes, compared without regard to case.
pub open spec fn max_mode_value(s: Seq<char>) -> Option<bool> {
    if ascii_ci_eq(s, "yes"@) || ascii_ci_eq(s, "true"@) || ascii_ci_eq(s, "1"@) {
        Some(true)
    } else if ascii_ci_eq(s, "no"@) || ascii_ci_eq(s, "false"@) || ascii_ci_eq(s, "0"@) {
        Some(false)
    } else {
        None
    }
}

proof fn lemma_strip_front(s: Seq<char>, k: int)
    requires
        0 <= k <= s.len(),
        forall|j: int| 0 <= j < k ==> s[j] == '"',
        k == s.len() || s[k] != '"',
    ensures
        strip_front_quotes(s) == s.skip(k),
    decreases k,
{
    if k > 0 {
        assert(s.drop_first().skip(k - 1) =~= s.skip(k));
        lemma_strip_front(s.drop_first(), k - 1);
    } else {
        assert(s.skip(0) =~= s);
    }
}

proof fn lemma_strip_back(s: Seq<char>, k: int)
    requires
        0 <= k <= s.len(),
        forall|j: int| k <= j < s.len() ==> s[j] == '"',
        k == 0 || s[k - 1] != '"',
    ensures
        strip_back_quotes(s) == s.take(k),
    decreases s.len() - k,
{
    if k < s.len() {
        assert(s.drop_last().take(k) =~= s.take(k));
        lemma_strip_back(s.drop_last(), k);
    } else {
        assert(s.take(k) =~= s);
    }
}

/// The field text with surrounding double quotes removed.
pub fn unquote_field(field: &str) -> (r: String)
    ensures
        r@ == unquote(field@),
{
    let cs = crate::text::chars_of(field);
    let n = cs.len();
    let mut start: usize = 0;
    while start < n && cs[start] == '"'
        invariant
            start <= n == cs@.len(),
            forall|j: int| 0 <= j < start ==> cs@[j] == '"',
        decreases n - start,
    {
        start = start + 1;
    }
    proof {
        lemma_strip_front(cs@, start as int);
    }
    let ghost front = cs@.skip(start as int);
    let mut end: usize = n;
    while end > start && cs[end - 1] == '"'
        invariant
            start <= end <= n == cs@.len(),
            forall|j: int| end <= j < n ==> cs@[j] == '"',
        decreases end,
    {
        end = end - 1;
    }
    proof {
        lemma_strip_back(front, end - start);
        assert(front.take(end - start) =~= cs@.subrange(start as int, end as int));
    }
    String::from_str(field.substring_char(start, end))
}

/// Parses the decimal text of an unsigned 32-bit integer.
#[verifier::loop_isolation(false)]
pub fn parse_u32_text(s: &Vec<char>) -> (r: Option<u32>)
    ensures
        r == u32_text_value(s@),
{
    let n = s.len();
    let mut i: usize = 0;
    if n > 0 && s[0] == '+' {
        i = 1;
    }
    let start = i;
    let ghost d = unsigned_body(s@);
    assert(d =~= s@.skip(start as int));
    if start == n {
        return None;
    }
    let mut acc: u64 = 0;
    let mut big = false;
    while i < n
        invariant
            start <= i <= n == s@.len(),
            d == s@.skip(start as int),
            all_digits(s@.subrange(start as int, i as int)),
            !big ==> acc == digits_value(s@.subrange(start as int, i as int)) && acc <= u32::MAX,
            big ==> digits_value(s@.subrange(start as int, i as int)) > u32::MAX,
        decreases n - i,
    {
        let c = s[i];
        if !('0' <= c && c <= '9') {
            assert(d[i - start] == c);
            assert(!is_digit(d[i - start]));
            return None;
        }
        let ghost prev = s@.subrange(start as int, i as int);
        let ghost next = s@.subrange(start as int, i + 1);
        assert(next.drop_last() =~= prev);
        assert(next.last() == c);
        if !big {
            acc = acc * 10 + (c as u64 - '0' as u64);
            if acc > u32::MAX as u64 {
                big = true;
            }
        }
        i = i + 1;
    }
    assert(s@.subrange(start as int, n as int) =~= d);
    if big {
        None
    } else {
        Some(acc as u32)
    }
}

/// The value of the digits `s[from..to]`, or `None` when one of them is not
/// a digit; a value above `cap` is reported as `cap + 1`.
#[verifier::loop_isolation(false)]
fn digit_run(s: &Vec<char>, from: usize, to: usize, cap: u128) -> (r: Option<u128>)
    requires
        from <= to <= s@.len(),
        cap <= 0x1_0000_0000_0000_0000_0000_0000,
    ensures
        r is None <==> !all_digits(s@.subrange(from as int, to as int)),
        r matches Some(v) ==> if digits_value(s@.subrange(from as int, to as int)) <= cap {
            v == digits_value(s@.subrange(from as int, to as int))
        } else {
            v == cap + 1
        },
{
    let mut acc: u128 = 0;
    let mut i: usize = from;
    while i < to
        invariant
            from <= i <= to,
            all_digits(s@.subrange(from as int, i as int)),
            acc <= cap ==> acc == digits_value(s@.subrange(from as int, i as int)),
            acc > cap ==> digits_value(s@.subrange(from as int, i as int)) > cap && acc == cap + 1,
        decreases to - i,
    {
        let c = s[i];
        let ghost whole = s@.subrange(from as int, to as int);
        if !('0' <= c && c <= '9') {
            assert(whole[i - from] == c);
            assert(!is_digit(whole[i - from]));
            return None;
        }
        let ghost prev = s@.subrange(from as int, i as int);
        let ghost next = s@.subrange(from as int, i + 1);
        assert(next.drop_last() =~= prev);
        if acc <= cap {
            acc = acc * 10 + (c as u128 - '0' as u128);
            if acc > cap {
                acc = cap + 1;
            }
        }
        i = i + 1;
    }
    Some(acc)
}

proof fn lemma_digits_below_pow10(s: Seq<char>)
    requires
        all_digits(s),
    ensures
        digits_value(s) < pow10(s.len()),
    decreases s.len(),
{
    if s.len() > 0 {
        assert(all_digits(s.drop_last()));
        lemma_digits_below_pow10(s.drop_last());
        assert(is_digit(s[s.len() - 1]));
    }
}

/// `10^k` for `k` up to 19.
fn pow10_exec(k: u32) -> (r: u128)
    requires
        k <= 19,
    ensures
        r == pow10(k as nat),
{
    let mut r: u128 = 1;
    let mut i: u32 = 0;
    while i < k
        invariant
            i <= k <= 19,
            r == pow10(i as nat),
        decreases k - i,
    {
        proof {
            lemma_pow10_le(i as nat, 18);
            lemma_pow10_values();
        }
        r = r * 10;
        i = i + 1;
    }
    r
}

/// The value of digits split at `t`: the first `t` digits shifted left by
/// the rest.
proof fn lemma_digits_split(s: Seq<char>, t: int)
    requires
        0 <= t <= s.len(),
    ensures
        digits_value(s) == digits_value(s.take(t)) * pow10((s.len() - t) as nat) + digits_value(
            s.skip(t),
        ),
    decreases s.len(),
{
    if t == s.len() {
        assert(s.take(t) =~= s);
        assert(s.skip(t) =~= Seq::<char>::empty());
        assert(pow10(0) == 1);
        assert(digits_value(Seq::<char>::empty()) == 0);
        let a = digits_value(s.take(t));
        let q = pow10((s.len() - t) as nat);
        assert(q == 1);
        assert(a * q == a) by (nonlinear_arith)
            requires
                q == 1,
        ;
    } else {
        let u = s.drop_last();
        lemma_digits_split(u, t);
        assert(u.take(t) =~= s.take(t));
        assert(s.skip(t).drop_last() =~= u.skip(t));
        assert(s.skip(t).last() == s.last());
        let a = digits_value(s.take(t));
        let p = pow10((u.len() - t) as nat);
        let b = digits_value(u.skip(t));
        let l = digit_value(s.last());
        assert(digits_value(s) == digits_value(u) * 10 + l);
        assert(digits_value(s.skip(t)) == b * 10 + l);
        assert(pow10((s.len() - t) as nat) == 10 * p);
        assert((a * p + b) * 10 == a * (10 * p) + b * 10) by (nonlinear_arith);
        assert(digits_value(u) == a * p + b);
        assert(digits_value(s) == a * (10 * p) + (b * 10 + l));
    }
}

/// Dropping the last `j` digits divides by `10^j`, rounding down.
proof fn lemma_digits_shift(s: Seq<char>, j: int)
    requires
        0 <= j <= s.len(),
        all_digits(s),
    ensures
        digits_value(s) / pow10(j as nat) == digits_value(s.take(s.len() - j)),
{
    let t = s.len() - j;
    lemma_digits_split(s, t);
    assert(all_digits(s.skip(t)));
    lemma_digits_below_pow10(s.skip(t));
    lemma_pow10_le(0, j as nat);
    vstd::arithmetic::div_mod::lemma_fundamental_div_mod_converse(
        digits_value(s) as int,
        pow10(j as nat) as int,
        digits_value(s.take(t)) as int,
        digits_value(s.skip(t)) as int,
    );
}

/// `v`, or `u64::MAX` when it is larger.
pub open spec fn clamp_u64(v: nat) -> u64 {
    if v > u64::MAX {
        u64::MAX
    } else {
        v as u64
    }
}

/// Largest exponent size that is read exactly; larger ones are all alike.
const EXPONENT_CAP: u128 = 0x4_0000_0000_0000_0000;

/// The characters of `s[a..b]` followed by those of `s[c..e]`, when all are
/// digits.
#[verifier::loop_isolation(false)]
fn collect_digits(s: &Vec<char>, a: usize, b: usize, c: usize, e: usize) -> (r: Option<Vec<char>>)
    requires
        a <= b <= s@.len(),
        c <= e <= s@.len(),
    ensures
        match r {
            Some(v) => v@ == s@.subrange(a as int, b as int) + s@.subrange(c as int, e as int)
                && all_digits(v@),
            None => !all_digits(s@.subrange(a as int, b as int)) || !all_digits(
                s@.subrange(c as int, e as int),
            ),
        },
{
    let mut digits: Vec<char> = Vec::new();
    let mut i: usize = a;
    while i < b
        invariant
            a <= i <= b,
            digits@ == s@.subrange(a as int, i as int),
            all_digits(digits@),
        decreases b - i,
    {
        let ch = s[i];
        if !('0' <= ch && ch <= '9') {
            assert(s@.subrange(a as int, b as int)[i - a] == ch);
            assert(!is_digit(s@.subrange(a as int, b as int)[i - a]));
            return None;
        }
        digits.push(ch);
        i = i + 1;
        assert(digits@ =~= s@.subrange(a as int, i as int));
    }
    let ghost first = digits@;
    let mut i: usize = c;
    while i < e
        invariant
            c <= i <= e,
            first == s@.subrange(a as int, b as int),
            digits@ == first + s@.subrange(c as int, i as int),
            all_digits(digits@),
        decreases e - i,
    {
        let ch = s[i];
        if !('0' <= ch && ch <= '9') {
            assert(s@.subrange(c as int, e as int)[i - c] == ch);
            assert(!is_digit(s@.subrange(c as int, e as int)[i - c]));
            return None;
        }
        digits.push(ch);
        i = i + 1;
        assert(digits@ =~= first + s@.subrange(c as int, i as int));
    }
    Some(digits)
}

/// The mantissa `digits` scaled by `10^(exponent - fraction_len + 9)`,
/// rounded down and held within `u64`. The exponent is given by its sign and
/// its size, a size above `EXPONENT_CAP` standing for any larger one.
fn scale_to_nanos(
    digits: &Vec<char>,
    exp_negative: bool,
    exp_size: u128,
    fraction_len: usize,
    Ghost(exponent): Ghost<int>,
) -> (r: u64)
    requires
        all_digits(digits@),
        digits@.len() > 0,
        fraction_len <= digits@.len(),
        exp_size <= EXPONENT_CAP + 1,
        exp_size <= EXPONENT_CAP ==> exponent == if exp_negative {
            -(exp_size as int)
        } else {
            exp_size as int
        },
        exp_size > EXPONENT_CAP ==> if exp_negative {
            exponent < -(EXPONENT_CAP as int)
        } else {
            exponent > EXPONENT_CAP
        },
    ensures
        r == clamp_u64(scaled_floor(digits_value(digits@), exponent - fraction_len + 9)),
{
    let ghost md = digits@;
    let ghost mv_spec = digits_value(md);
    let ghost k = exponent - fraction_len + 9;
    let len = digits.len();
    let mv = match digit_run(digits, 0, len, u64::MAX as u128) {
        Some(v) => v,
        None => return 0,
    };
    assert(digits@.subrange(0, len as int) =~= md);
    if mv == 0 {
        proof {
            if k < 0 {
                lemma_pow10_le(0, (-k) as nat);
                vstd::arithmetic::div_mod::lemma_fundamental_div_mod_converse(
                    0,
                    pow10((-k) as nat) as int,
                    0,
                    0,
                );
            }
        }
        return 0;
    }
    if exp_size > EXPONENT_CAP && exp_negative || (exp_size <= EXPONENT_CAP && exp_negative
        && exp_size >= (len as u128) + 9) {
        // far below one billionth
        proof {
            lemma_digits_below_pow10(md);
            lemma_pow10_le(md.len(), (-k) as nat);
            vstd::arithmetic::div_mod::lemma_fundamental_div_mod_converse(
                mv_spec as int,
                pow10((-k) as nat) as int,
                0,
                mv_spec as int,
            );
        }
        return 0;
    }
    if exp_size > EXPONENT_CAP {
        proof {
            lemma_big_scale(mv_spec, k);
        }
        return u64::MAX;
    }
    let exp: i128 = if exp_negative {
        -(exp_size as i128)
    } else {
        exp_size as i128
    };
    let shift: i128 = exp - (fraction_len as i128) + 9;
    assert(shift == k);
    if shift >= 0 {
        if shift >= 20 || mv > u64::MAX as u128 {
            proof {
                if shift >= 20 {
                    lemma_big_scale(mv_spec, k);
                } else {
                    lemma_pow10_le(0, k as nat);
                    assert(mv_spec * pow10(k as nat) >= mv_spec) by (nonlinear_arith)
                        requires
                            pow10(k as nat) >= 1,
                    ;
                }
            }
            return u64::MAX;
        }
        let scale = pow10_exec(shift as u32);
        proof {
            lemma_pow10_le(k as nat, 19);
            lemma_pow10_values();
            assert(mv * scale <= 0x1_0000_0000_0000_0000 * 10000000000000000000) by (nonlinear_arith)
                requires
                    mv <= u64::MAX,
                    scale <= 10000000000000000000,
            ;
        }
        let total: u128 = mv * scale;
        if total > u64::MAX as u128 {
            u64::MAX
        } else {
            total as u64
        }
    } else {
        let drop: u128 = (0 - shift) as u128;
        if drop >= len as u128 {
            proof {
                lemma_digits_below_pow10(md);
                lemma_pow10_le(md.len(), (-k) as nat);
                vstd::arithmetic::div_mod::lemma_fundamental_div_mod_converse(
                    mv_spec as int,
                    pow10((-k) as nat) as int,
                    0,
                    mv_spec as int,
                );
            }
            return 0;
        }
        let keep: usize = len - drop as usize;
        proof {
            lemma_digits_shift(md, -k);
            assert(md.take(md.len() + k) =~= digits@.subrange(0, keep as int));
        }
        let v = match digit_run(digits, 0, keep, u64::MAX as u128) {
            Some(v) => v,
            None => return 0,
        };
        if v > u64::MAX as u128 {
            u64::MAX
        } else {
            v as u64
        }
    }
}

proof fn lemma_mark_index_unique(d: Seq<char>, q: int)
    requires
        is_mark_index(d, q),
    ensures
        mark_index(d) == q,
{
    let w = mark_index(d);
    assert(is_mark_index(d, w));
    if w < q {
        assert(is_exponent_mark(d[w]));
    }
    if w > q {
        assert(!is_exponent_mark(d[q]));
    }
}

proof fn lemma_point_index_unique(m: Seq<char>, p: int)
    requires
        is_point_index(m, p),
    ensures
        point_index(m) == p,
{
    let w = point_index(m);
    assert(is_point_index(m, w));
    if w < p {
        assert(m[w] == '.');
    }
    if w > p {
        assert(m[p] != '.');
    }
}

/// Parses a non-negative amount in floating-point notation into billionths.
#[verifier::rlimit(50)]
pub fn parse_cost_text(s: &Vec<char>) -> (r: Option<u64>)
    ensures
        r == cost_text_value(s@),
{
    let n = s.len();
    let mut start: usize = 0;
    if n > 0 && s[0] == '+' {
        start = 1;
    }
    let ghost d = unsigned_body(s@);
    assert(d =~= s@.skip(start as int));
    let mut q: usize = start;
    while q < n && s[q] != 'e' && s[q] != 'E'
        invariant
            start <= q <= n == s@.len(),
            d == s@.skip(start as int),
            forall|j: int| 0 <= j < q - start ==> !is_exponent_mark(#[trigger] d[j]),
        decreases n - q,
    {
        assert(d[q - start] == s@[q as int]);
        q = q + 1;
    }
    assert(is_mark_index(d, q - start)) by {
        if q < n {
            assert(d[q - start] == s@[q as int]);
        }
    }
    proof {
        lemma_mark_index_unique(d, q - start);
    }
    let ghost m = mantissa(d);
    assert(m =~= s@.subrange(start as int, q as int));
    let mut p: usize = start;
    while p < q && s[p] != '.'
        invariant
            start <= p <= q <= n == s@.len(),
            m == s@.subrange(start as int, q as int),
            forall|j: int| 0 <= j < p - start ==> #[trigger] m[j] != '.',
        decreases q - p,
    {
        assert(m[p - start] == s@[p as int]);
        p = p + 1;
    }
    assert(is_point_index(m, p - start)) by {
        if p < q {
            assert(m[p - start] == s@[p as int]);
        }
    }
    proof {
        lemma_point_index_unique(m, p - start);
    }
    let fstart: usize = if p < q {
        p + 1
    } else {
        q
    };
    assert(integer_part(m) =~= s@.subrange(start as int, p as int));
    assert(fraction_part(m) =~= s@.subrange(fstart as int, q as int));
    let digits = match collect_digits(s, start, p, fstart, q) {
        Some(v) => v,
        None => return None,
    };
    assert(digits@ =~= mantissa_digits(d));
    assert(integer_part(m) + fraction_part(m) == mantissa_digits(d));
    if digits.len() == 0 {
        return None;
    }
    let mut exp_negative = false;
    let mut exp_size: u128 = 0;
    let ghost x = exponent_text(d);
    if q < n {
        assert(x =~= s@.subrange(q + 1, n as int));
        let mut xs: usize = q + 1;
        if xs < n && (s[xs] == '+' || s[xs] == '-') {
            exp_negative = s[xs] == '-';
            xs = xs + 1;
        }
        assert(exponent_digits(x) =~= s@.subrange(xs as int, n as int));
        if xs == n {
            return None;
        }
        exp_size = match digit_run(s, xs, n, EXPONENT_CAP) {
            Some(v) => v,
            None => return None,
        };
    } else {
        assert(x =~= Seq::<char>::empty());
        assert(exponent_digits(x) =~= Seq::<char>::empty());
    }
    let ghost e = exponent_value(d);
    proof {
        let ip = integer_part(m);
        let fp = fraction_part(m);
        assert(digits@ == ip + fp);
        assert forall|j: int| 0 <= j < ip.len() implies is_digit(#[trigger] ip[j]) by {
            assert(digits@[j] == ip[j]);
        }
        assert forall|j: int| 0 <= j < fp.len() implies is_digit(#[trigger] fp[j]) by {
            assert(digits@[ip.len() + j] == fp[j]);
        }
        assert(exponent_valid(d));
    }
    Some(scale_to_nanos(&digits, exp_negative, exp_size, q - fstart, Ghost(e)))
}

/// A positive amount scaled by at least `10^20` exceeds `u64::MAX`.
proof fn lemma_big_scale(m: nat, k: int)
    requires
        m >= 1,
        k >= 20,
    ensures
        scaled_floor(m, k) > u64::MAX,
{
    lemma_pow10_le(20, k as nat);
    reveal_with_fuel(pow10, 21);
    assert(pow10(20) == 100000000000000000000);
    assert(m * pow10(k as nat) >= pow10(k as nat)) by (nonlinear_arith)
        requires
            m >= 1,
    ;
}

proof fn lemma_pow10_values()
    ensures
        pow10(8) == 100000000,
        pow10(9) == 1000000000,
        pow10(18) == 1000000000000000000,
        pow10(19) == 10000000000000000000,
{
    reveal_with_fuel(pow10, 20);
}

proof fn lemma_pow10_le(a: nat, b: nat)
    requires
        a <= b,
    ensures
        pow10(a) <= pow10(b),
        pow10(a) >= 1,
    decreases b,
{
    if b > a {
        lemma_pow10_le(a, (b - 1) as nat);
    } else if a > 0 {
        lemma_pow10_le((a - 1) as nat, (a - 1) as nat);
    }
}

/// Case-insensitive comparison of `s` with a lower-case ASCII literal.
#[verifier::loop_isolation(false)]
pub fn ci_eq(s: &Vec<char>, lower: &str) -> (r: bool)
    ensures
        r == ascii_ci_eq(s@, lower@),
{
    let l = crate::text::chars_of(lower);
    if s.len() != l.len() {
        return false;
    }
    let mut i: usize = 0;
    while i < s.len()
        invariant
            i <= s@.len() == l@.len(),
            l@ == lower@,
            forall|j: int|
                0 <= j < i ==> (#[trigger] s@[j] == l@[j] || ('a' <= l@[j] && l@[j] <= 'z' && (
                s@[j] as u32) == (l@[j] as u32) - 32)),
        decreases s.len() - i,
    {
        let a = s[i];
        let b = l[i];
        if !(a == b || ('a' <= b && b <= 'z' && (a as u32) == (b as u32) - 32)) {
            return false;
        }

        i = i + 1;
    }
    true
}

/// Parses a "Max Mode" text: yes / true / 1 or no / false / 0, any case.
pub fn parse_max_mode(s: &Vec<char>) -> (r: Option<bool>)
    ensures
        r == max_mode_value(s@),
{
    if ci_eq(s, "yes") || ci_eq(s, "true") || ci_eq(s, "1") {
        Some(true)
    } else if ci_eq(s, "no") || ci_eq(s, "false") || ci_eq(s, "0") {
        Some(false)
    } else {
        None
    }
}

} // verus!
