//! Readings of the RAPL energy counter.
use vstd::prelude::*;
use crate::text::{chars_of, trim_bounds, trim_spec};

verus! {

/// The value of a string of ASCII digits.
pub open spec fn digits_value(s: Seq<char>) -> nat
    decreases s.len(),
{
    if s.len() == 0 {
        0
    } else {
        digits_value(s.drop_last()) * 10 + ((s.last() as u32) - 48) as nat
    }
}

/// An ASCII digit.
pub open spec fn is_digit(c: char) -> bool {
    48 <= (c as u32) <= 57
}

/// `s` without one leading `+`.
pub open spec fn unsigned_digits(s: Seq<char>) -> Seq<char> {
    if s.len() > 0 && s[0] == '+' {
        s.drop_first()
    } else {
        s
    }
}

/// What `str::parse::<u64>` accepts: an optional `+`, then one or more ASCII
/// digits whose value fits in a `u64`.
pub open spec fn parse_u64_spec(s: Seq<char>) -> Option<u64> {
    let digits = unsigned_digits(s);
    if digits.len() > 0 && (forall|i: int| 0 <= i < digits.len() ==> is_digit(#[trigger] digits[i]))
        && digits_value(digits) <= u64::MAX {
        Some(digits_value(digits) as u64)
    } else {
        None
    }
}

proof fn lemma_parse_rejects(s: Seq<char>, digits: Seq<char>, k: int)
    requires
        digits == unsigned_digits(s),
        0 <= k < digits.len(),
        !is_digit(digits[k]) || digits_value(digits) > u64::MAX,
    ensures
        parse_u64_spec(s) is None,
{
}

proof fn lemma_digits_value_grows(s: Seq<char>, i: int)
    requires
        0 <= i <= s.len(),
        forall|k: int| 0 <= k < s.len() ==> is_digit(#[trigger] s[k]),
    ensures
        digits_value(s.take(i)) <= digits_value(s),
    decreases s.len() - i,
{
    if i < s.len() {
        lemma_digits_value_grows(s, i + 1);
        assert(s.take(i + 1).drop_last() =~= s.take(i));
    } else {
        assert(s.take(i) =~= s);
    }
}

/// Energy consumed between two readings of the counter; when the second is
/// smaller the counter wrapped, and the difference is taken across
/// `u64::MAX` as `(u64::MAX - first) + second`.
pub fn energy_delta(first: u64, second: u64) -> (d: u64)
    ensures
        d == if second >= first {
            second - first
        } else {
            (u64::MAX - first) + second
        },
{
    if second >= first {
        second - first
    } else {
        (u64::MAX - first) + second
    }
}

/// A reading of the energy counter file: its text trimmed and parsed as a
/// `u64` (`content.trim().parse::<u64>()`).
pub fn parse_energy_reading(content: &str) -> (r: Option<u64>)
    ensures
        r == parse_u64_spec(trim_spec(content@)),
{
    let v = chars_of(content);
    let (a, b) = trim_bounds(&v);
    let ghost t = trim_spec(content@);
    let mut i = a;
    if i < b && v[i] == '+' {
        i = i + 1;
    }
    let ghost digits = v@.subrange(i as int, b as int);
    assert(digits =~= unsigned_digits(t));
    if i == b {
        return None;
    }
    let mut value: u64 = 0;
    let mut k = i;
    assert(digits.take(0) =~= Seq::<char>::empty());
    while k < b
        invariant
            i <= k <= b <= v@.len(),
            digits == v@.subrange(i as int, b as int),
            t == trim_spec(content@),
            digits == unsigned_digits(t),
            digits.len() > 0,
            forall|m: int| 0 <= m < k - i ==> is_digit(#[trigger] digits[m]),
            value == digits_value(digits.take(k - i)),
        decreases b - k,
    {
        let c = v[k];
        let u = c as u32;
        assert(digits[k - i] == c);
        if u < 48 || u > 57 {
            assert(!is_digit(digits[k - i]));
            proof {
                lemma_parse_rejects(t, digits, (k - i) as int);
            }
            return None;
        }
        assert(digits.take(k - i + 1).drop_last() =~= digits.take(k - i));
        assert(digits.take(k - i + 1).last() == c);
        let d = (u - 48) as u64;
        assert(digits_value(digits.take(k - i + 1)) == value * 10 + d);
        if value > (u64::MAX - d) / 10 {
            proof {
                assert(digits_value(digits.take(k - i + 1)) > u64::MAX) by (nonlinear_arith)
                    requires
                        digits_value(digits.take(k - i + 1)) == value * 10 + d,
                        value > (u64::MAX - d) / 10,
                        d <= 9,
                ;
                if forall|m: int| 0 <= m < digits.len() ==> is_digit(#[trigger] digits[m]) {
                    lemma_digits_value_grows(digits, k - i + 1);
                    assert(digits_value(digits) > u64::MAX);
                    lemma_parse_rejects(t, digits, 0);
                } else {
                    let m = choose|m: int| 0 <= m < digits.len() && !is_digit(#[trigger] digits[m]);
                    lemma_parse_rejects(t, digits, m);
                }
            }
            return None;
        }
        value = value * 10 + d;
        k = k + 1;
    }
    assert(digits.take(k - i) =~= digits);
    Some(value)
}

} // verus!
