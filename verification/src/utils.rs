//! Byte-size rendering and the check for a running container.
use vstd::prelude::*;
use crate::text::{
    chars_of, contains_chars, contains_seq, dec, digit, digit_char, lines, lines_spec, push_char,
    push_dec, push_str,
};

verus! {

/// `2^k`.
pub open spec fn pow2(k: nat) -> nat
    decreases k,
{
    if k == 0 {
        1
    } else {
        2 * pow2((k - 1) as nat)
    }
}

/// `a / d` rounded to the nearest integer, ties to the even neighbour
/// (`d > 0`).
pub open spec fn round_half_even(a: nat, d: nat) -> nat {
    let q = a / d;
    let r = a % d;
    if 2 * r > d || (2 * r == d && q % 2 == 1) {
        q + 1
    } else {
        q
    }
}

/// Number of low bits of `n` that do not fit in the 53-bit significand of an
/// `f64`.
pub open spec fn f64_shift(n: nat) -> nat
    decreases n,
{
    if n < 0x20_0000_0000_0000 {
        0
    } else {
        1 + f64_shift(n / 2)
    }
}

/// The value of `n as f64`: `n` rounded to 53 significant bits, ties to even.
pub open spec fn f64_value(n: nat) -> nat {
    let e = f64_shift(n);
    round_half_even(n, pow2(e)) * pow2(e)
}

/// `h` hundredths written with two decimals, as `{:.2}` writes them.
pub open spec fn two_decimals(h: nat) -> Seq<char> {
    dec(h / 100) + seq!['.', digit_char((h % 100) / 10), digit_char(h % 10)]
}

/// What `human_readable_bytes` returns: the byte count as an `f64` `b`,
/// divided by the largest binary unit not above it and printed with two
/// decimals (rounded half to even, as `{:.2}` rounds the exact quotient), or
/// the plain count in bytes below one KiB.
pub open spec fn human_bytes(bytes: nat) -> Seq<char> {
    let b = f64_value(bytes);
    if b >= 0x4000_0000 {
        two_decimals(round_half_even(b * 100, 0x4000_0000)) + " GiB"@
    } else if b >= 0x10_0000 {
        two_decimals(round_half_even(b * 100, 0x10_0000)) + " MiB"@
    } else if b >= 0x400 {
        two_decimals(round_half_even(b * 100, 0x400)) + " KiB"@
    } else {
        dec(bytes) + " B"@
    }
}

/// Byte counts below 2^53 convert to `f64` exactly, so for them the rendering
/// is that of the exact count.
pub proof fn law_small_counts_convert_exactly(n: nat)
    requires
        n < 0x20_0000_0000_0000,
    ensures
        f64_value(n) == n,
{
    assert(f64_shift(n) == 0);
    assert(pow2(0) == 1);
    assert(n / 1 == n);
    assert(n % 1 == 0);
    assert(round_half_even(n, 1) == n);
}

proof fn lemma_pow2_pos(k: nat)
    ensures
        pow2(k) >= 1,
    decreases k,
{
    if k > 0 {
        lemma_pow2_pos((k - 1) as nat);
    }
}

/// The exact value of `n as f64`, with a bound on it.
fn f64_value_of(n: u64) -> (v: u128)
    ensures
        v == f64_value(n as nat),
        n < 0x20_0000_0000_0000 ==> v == n,
        n >= 0x20_0000_0000_0000 ==> v >= 0x20_0000_0000_0000,
        v <= 0x1_0000_0000_0000_1000,
{
    let mut m: u64 = n;
    let ghost mut e: nat = 0;
    let mut p: u64 = 1;
    while m >= 0x20_0000_0000_0000
        invariant
            p == pow2(e),
            1 <= p <= 4096,
            m == n / p,
            f64_shift(n as nat) == e + f64_shift(m as nat),
            p * 0x20_0000_0000_0000 <= 2 * (n as int) || p == 1,
        decreases m,
    {
        proof {
            vstd::arithmetic::div_mod::lemma_div_denominator(n as int, p as int, 2);
            vstd::arithmetic::div_mod::lemma_fundamental_div_mod(n as int, p as int);
            assert(p * m <= n) by (nonlinear_arith)
                requires
                    m == n / p,
                    p >= 1,
                    n == p * (n / p) + n % p,
                    n % p >= 0,
            ;
            assert(p * 0x20_0000_0000_0000 <= n) by (nonlinear_arith)
                requires
                    p * m <= n,
                    m >= 0x20_0000_0000_0000,
                    p >= 1,
            ;
        }
        m = m / 2;
        proof {
            e = e + 1;
        }
        p = p * 2;
    }
    proof {
        lemma_pow2_pos(e);
        vstd::arithmetic::div_mod::lemma_fundamental_div_mod(n as int, p as int);
    }
    let r = n % p;
    let q = m;
    let up = 2 * (r as u128) > (p as u128) || (2 * (r as u128) == (p as u128) && q % 2 == 1);
    let q2: u128 = if up {
        (q as u128) + 1
    } else {
        q as u128
    };
    assert(q2 <= 0x20_0000_0000_0000);
    assert(q2 * (p as u128) <= 0x20_0000_0000_0000 * 4096) by (nonlinear_arith)
        requires
            q2 <= 0x20_0000_0000_0000,
            p <= 4096,
    ;
    let v = q2 * (p as u128);
    proof {
        if n < 0x20_0000_0000_0000 {
            assert(p == 1);
            assert(r == 0);
            assert(q == n);
            assert(v == q2);
        } else {
            assert(e >= 1);
            assert(p >= 2);
            assert(q >= 0x10_0000_0000_0000) by (nonlinear_arith)
                requires
                    p * 0x20_0000_0000_0000 <= 2 * (n as int),
                    n == p * q + r,
                    r < p,
                    p >= 2,
            ;
            assert(v >= 0x20_0000_0000_0000) by (nonlinear_arith)
                requires
                    v == q2 * p,
                    q2 >= q,
                    q >= 0x10_0000_0000_0000,
                    p >= 2,
            ;
        }
        assert(v <= 0x1_0000_0000_0000_1000) by (nonlinear_arith)
            requires
                v == q2 * p,
                q2 <= q + 1,
                n == p * q + r,
                r >= 0,
                p <= 4096,
                n < 0x1_0000_0000_0000_0000,
        ;
    }
    v
}

/// `a / d` rounded half to even, for the unit divisors used here.
fn round_half_even_u128(a: u128, d: u128) -> (h: u128)
    requires
        0 < d <= 0x1_0000_0000_0000_0000,
        a <= 0x1_0000_0000_0000_0000_0000,
    ensures
        h == round_half_even(a as nat, d as nat),
        h <= a / d + 1,
{
    let q = a / d;
    let r = a % d;
    if 2 * r > d || (2 * r == d && q % 2 == 1) {
        q + 1
    } else {
        q
    }
}

/// Appends `h` hundredths with two decimals.
fn push_two_decimals(s: &mut String, h: u64)
    ensures
        final(s)@ == old(s)@ + two_decimals(h as nat),
{
    push_dec(s, h / 100);
    push_char(s, '.');
    let frac = h % 100;
    push_char(s, digit(frac / 10));
    push_char(s, digit(frac % 10));
    assert(final(s)@ =~= old(s)@ + two_decimals(h as nat));
}

/// Renders a byte count with a binary unit: `"1.50 KiB"`, `"3.00 GiB"`,
/// `"512 B"`.
pub fn human_readable_bytes(bytes: u64) -> (r: String)
    ensures
        r@ == human_bytes(bytes as nat),
{
    let b = f64_value_of(bytes);
    let mut s = String::new();
    if bytes >= 0x4000_0000 {
        let h = round_half_even_u128(b * 100, 0x4000_0000);
        push_two_decimals(&mut s, h as u64);
        push_str(&mut s, " GiB");
    } else if bytes >= 0x10_0000 {
        let h = round_half_even_u128(b * 100, 0x10_0000);
        push_two_decimals(&mut s, h as u64);
        push_str(&mut s, " MiB");
    } else if bytes >= 0x400 {
        let h = round_half_even_u128(b * 100, 0x400);
        push_two_decimals(&mut s, h as u64);
        push_str(&mut s, " KiB");
    } else {
        push_dec(&mut s, bytes);
        push_str(&mut s, " B");
    }
    assert(s@ =~= human_bytes(bytes as nat));
    s
}

/// Whether some line of `text` contains `pattern`.
pub open spec fn some_line_contains(text: Seq<char>, pattern: Seq<char>) -> bool {
    exists|i: int|
        0 <= i < lines_spec(text).len() && contains_seq(#[trigger] lines_spec(text)[i], pattern)
}

/// Whether a container whose name contains `name_filter` is running, from
/// the output of `docker ps --format {{.Names}}` (`None` when the command
/// could not run): some output line contains the filter.
pub fn is_docker_container_running(ps_stdout: Option<&str>, name_filter: &str) -> (b: bool)
    ensures
        b == match ps_stdout {
            Some(o) => some_line_contains(o@, name_filter@),
            None => false,
        },
{
    match ps_stdout {
        Some(o) => any_line_contains(o, name_filter),
        None => false,
    }
}

fn any_line_contains(text: &str, pattern: &str) -> (b: bool)
    ensures
        b == some_line_contains(text@, pattern@),
{
    let chars = chars_of(text);
    let ls = lines(&chars);
    let p = chars_of(pattern);
    let mut i: usize = 0;
    while i < ls.len()
        invariant
            i <= ls@.len(),
            ls@.map_values(|l: Vec<char>| l@) == lines_spec(text@),
            p@ == pattern@,
            forall|k: int| 0 <= k < i ==> !contains_seq(#[trigger] lines_spec(text@)[k], pattern@),
        decreases ls@.len() - i,
    {
        assert(ls@[i as int]@ == lines_spec(text@)[i as int]);
        if contains_chars(&ls[i], &p) {
            assert(contains_seq(lines_spec(text@)[i as int], pattern@));
            return true;
        }
        i = i + 1;
    }
    false
}

} // verus!
