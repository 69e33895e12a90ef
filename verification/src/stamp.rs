//! The order of time stamps: decimal digits, compared as the numbers that
//! they write, whatever their length.

use crate::text::{chars_of, lemma_lex_asymmetric, lex_less, precedes};
use vstd::prelude::*;

verus! {

/// The number of `0` characters that `s` begins with.
pub open spec fn leading_zeros(s: Seq<char>) -> nat
    decreases s.len(),
{
    if s.len() > 0 && s[0] == '0' {
        1 + leading_zeros(s.drop_first())
    } else {
        0
    }
}

/// `s` without the `0` characters that it begins with.
pub open spec fn significant(s: Seq<char>) -> Seq<char> {
    s.skip(leading_zeros(s) as int)
}

/// The order of time stamps: that of the numbers which their digits
/// write. Without its leading zeros the shorter stamp is the earlier one,
/// and of two of one length the one that comes first digit by digit.
pub open spec fn stamp_less(a: Seq<char>, b: Seq<char>) -> bool {
    let x = significant(a);
    let y = significant(b);
    x.len() < y.len() || (x.len() == y.len() && lex_less(x, y))
}

/// Of two time stamps at most one is earlier than the other.
pub proof fn lemma_stamp_less_asymmetric(a: Seq<char>, b: Seq<char>)
    requires
        stamp_less(a, b),
    ensures
        !stamp_less(b, a),
{
    let x = significant(a);
    let y = significant(b);
    if x.len() == y.len() {
        lemma_lex_asymmetric(x, y);
    }
}

fn significant_digits(s: &str) -> (v: Vec<char>)
    ensures
        v@ == significant(s@),
{
    let all = chars_of(s);
    let mut i: usize = 0;
    assert(all@.skip(0) =~= all@);
    while i < all.len() && all[i] == '0'
        invariant
            i <= all.len(),
            leading_zeros(all@) == i + leading_zeros(all@.skip(i as int)),
        decreases all.len() - i,
    {
        assert(all@.skip(i as int).drop_first() =~= all@.skip(i + 1));
        i += 1;
    }
    let mut v: Vec<char> = Vec::new();
    let mut j: usize = i;
    while j < all.len()
        invariant
            i <= j <= all.len(),
            v@ == all@.subrange(i as int, j as int),
        decreases all.len() - j,
    {
        v.push(all[j]);
        j += 1;
    }
    assert(all@.subrange(i as int, all.len() as int) =~= all@.skip(i as int));
    v
}

/// Whether the time stamp `a` is earlier than `b`.
pub fn stamp_precedes(a: &str, b: &str) -> (r: bool)
    ensures
        r == stamp_less(a@, b@),
{
    let x = significant_digits(a);
    let y = significant_digits(b);
    if x.len() != y.len() {
        x.len() < y.len()
    } else {
        precedes(&x, &y)
    }
}

/// Whether `c` is a decimal digit.
pub open spec fn is_digit(c: char) -> bool {
    '0' <= c <= '9'
}

/// Whether `s` is made of decimal digits only.
pub open spec fn all_digits(s: Seq<char>) -> bool {
    forall|i: int| 0 <= i < s.len() ==> is_digit(#[trigger] s[i])
}

/// The number that the digit `c` stands for.
pub open spec fn digit(c: char) -> nat {
    (c as u32 - '0' as u32) as nat
}

/// Ten to the power `n`.
pub open spec fn pow10(n: nat) -> nat
    decreases n,
{
    if n == 0 {
        1
    } else {
        10 * pow10((n - 1) as nat)
    }
}

/// The number that the digits of `s` write.
pub open spec fn decimal_value(s: Seq<char>) -> nat
    decreases s.len(),
{
    if s.len() == 0 {
        0
    } else {
        digit(s[0]) * pow10((s.len() - 1) as nat) + decimal_value(s.drop_first())
    }
}

proof fn lemma_pow10_monotonic(a: nat, b: nat)
    requires
        a <= b,
    ensures
        0 < pow10(a) <= pow10(b),
    decreases b,
{
    if a < b {
        lemma_pow10_monotonic(a, (b - 1) as nat);
    } else if a > 0 {
        lemma_pow10_monotonic((a - 1) as nat, (b - 1) as nat);
    }
}

proof fn lemma_value_bound(s: Seq<char>)
    requires
        all_digits(s),
    ensures
        decimal_value(s) < pow10(s.len()),
        s.len() > 0 && s[0] != '0' ==> pow10((s.len() - 1) as nat) <= decimal_value(s),
    decreases s.len(),
{
    if s.len() > 0 {
        let rest = s.drop_first();
        assert(all_digits(rest)) by {
            assert forall|i: int| 0 <= i < rest.len() implies is_digit(#[trigger] rest[i]) by {
                assert(is_digit(s[i + 1]));
            }
        }
        lemma_value_bound(rest);
        let p = pow10((s.len() - 1) as nat);
        let d = digit(s[0]);
        assert(is_digit(s[0]));
        assert(d <= 9);
        assert(d * p <= 9 * p) by (nonlinear_arith)
            requires
                d <= 9,
        ;
        if s[0] != '0' {
            assert(1 <= d);
            assert(p <= d * p) by (nonlinear_arith)
                requires
                    1 <= d,
            ;
        }
    }
}

proof fn lemma_significant(s: Seq<char>)
    ensures
        leading_zeros(s) <= s.len(),
        decimal_value(significant(s)) == decimal_value(s),
        all_digits(s) ==> all_digits(significant(s)),
        significant(s).len() > 0 ==> significant(s)[0] != '0',
    decreases s.len(),
{
    if s.len() > 0 && s[0] == '0' {
        let rest = s.drop_first();
        lemma_significant(rest);
        assert(significant(s) =~= significant(rest));
        assert(digit(s[0]) == 0);
        if all_digits(s) {
            assert forall|i: int| 0 <= i < rest.len() implies is_digit(#[trigger] rest[i]) by {
                assert(is_digit(s[i + 1]));
            }
        }
    } else {
        assert(significant(s) =~= s);
    }
}

proof fn lemma_same_length_order(x: Seq<char>, y: Seq<char>)
    requires
        all_digits(x),
        all_digits(y),
        x.len() == y.len(),
    ensures
        lex_less(x, y) <==> decimal_value(x) < decimal_value(y),
    decreases x.len(),
{
    if x.len() > 0 {
        let xr = x.drop_first();
        let yr = y.drop_first();
        assert(all_digits(xr)) by {
            assert forall|i: int| 0 <= i < xr.len() implies is_digit(#[trigger] xr[i]) by {
                assert(is_digit(x[i + 1]));
            }
        }
        assert(all_digits(yr)) by {
            assert forall|i: int| 0 <= i < yr.len() implies is_digit(#[trigger] yr[i]) by {
                assert(is_digit(y[i + 1]));
            }
        }
        lemma_value_bound(xr);
        lemma_value_bound(yr);
        let p = pow10((x.len() - 1) as nat);
        let dx = digit(x[0]);
        let dy = digit(y[0]);
        assert(is_digit(x[0]) && is_digit(y[0]));
        if x[0] == y[0] {
            lemma_same_length_order(xr, yr);
        } else if x[0] < y[0] {
            assert((dx + 1) * p <= dy * p) by (nonlinear_arith)
                requires
                    dx + 1 <= dy,
            ;
            assert((dx + 1) * p == dx * p + p) by (nonlinear_arith);
        } else {
            assert((dy + 1) * p <= dx * p) by (nonlinear_arith)
                requires
                    dy + 1 <= dx,
            ;
            assert((dy + 1) * p == dy * p + p) by (nonlinear_arith);
        }
    }
}

/// Of two time stamps made of decimal digits, the earlier one is the one
/// that writes the smaller number.
pub proof fn lemma_stamp_order_is_numeric(a: Seq<char>, b: Seq<char>)
    requires
        all_digits(a),
        all_digits(b),
    ensures
        stamp_less(a, b) <==> decimal_value(a) < decimal_value(b),
{
    let x = significant(a);
    let y = significant(b);
    lemma_significant(a);
    lemma_significant(b);
    lemma_value_bound(x);
    lemma_value_bound(y);
    if x.len() < y.len() {
        lemma_pow10_monotonic(x.len(), (y.len() - 1) as nat);
    } else if y.len() < x.len() {
        lemma_pow10_monotonic(y.len(), (x.len() - 1) as nat);
    } else {
        lemma_same_length_order(x, y);
    }
}

} // verus!
