//! Character-level string primitives used throughout the dashboard, each
//! proved against a specification over `Seq<char>`.
use vstd::prelude::*;

verus! {

// ---------------------------------------------------------------------------
// Decimal rendering
// ---------------------------------------------------------------------------

/// The decimal digit character for `d` (`d < 10`).
pub open spec fn digit_char(d: nat) -> char {
    ((48 + d) as u32) as char
}

/// Decimal rendering of a natural number, without sign or leading zeros.
pub open spec fn dec(n: nat) -> Seq<char>
    decreases n,
{
    if n < 10 {
        seq![digit_char(n)]
    } else {
        dec(n / 10).push(digit_char(n % 10))
    }
}

/// Appends one character to a `String` with std's `String::push`. Trusted:
/// the contract claims that the text afterwards is the old text followed by
/// `c`, as std documents.
#[verifier::external_body]
pub(crate) fn push_char(s: &mut String, c: char)
    ensures
        final(s)@ == old(s)@.push(c),
{
    s.push(c);
}

/// Appends a string slice to a `String` with std's `String::push_str`.
/// Trusted: the contract claims that the text afterwards is the old text
/// followed by `t`, as std documents.
#[verifier::external_body]
pub(crate) fn push_str(s: &mut String, t: &str)
    ensures
        final(s)@ == old(s)@ + t@,
{
    s.push_str(t);
}

/// A new string with the characters of `t`.
pub fn owned(t: &str) -> (r: String)
    ensures
        r@ == t@,
{
    let mut r = String::new();
    push_str(&mut r, t);
    assert(r@ =~= t@);
    r
}

/// The decimal digit character for `d`.
pub fn digit(d: u64) -> (c: char)
    requires
        d < 10,
    ensures
        c == digit_char(d as nat),
{
    let b: u8 = 48u8 + (d as u8);
    b as char
}

/// Appends the decimal rendering of `n`.
pub fn push_dec(s: &mut String, n: u64)
    ensures
        final(s)@ == old(s)@ + dec(n as nat),
    decreases n,
{
    if n < 10 {
        push_char(s, digit(n));
    } else {
        push_dec(s, n / 10);
        push_char(s, digit(n % 10));
    }
}

// ---------------------------------------------------------------------------
// Conversions between strings and character vectors
// ---------------------------------------------------------------------------

/// The characters of a string slice, in order.
pub fn chars_of(s: &str) -> (v: Vec<char>)
    ensures
        v@ == s@,
{
    broadcast use vstd::string::group_string_axioms;

    let mut v: Vec<char> = Vec::new();
    for c in it: s.chars()
        invariant
            it.seq() == s@,
            v@ == s@.take(it.index() as int),
    {
        v.push(c);
    }
    assert(v@ == s@);
    v
}

/// Appends the characters `v[from..to]`.
pub fn push_range(s: &mut String, v: &Vec<char>, from: usize, to: usize)
    requires
        from <= to <= v@.len(),
    ensures
        final(s)@ == old(s)@ + v@.subrange(from as int, to as int),
{
    let ghost start = s@;
    let mut i = from;
    while i < to
        invariant
            from <= i <= to <= v@.len(),
            s@ == start + v@.subrange(from as int, i as int),
        decreases to - i,
    {
        push_char(s, v[i]);
        i = i + 1;
        assert(v@.subrange(from as int, i as int) =~= v@.subrange(from as int, i - 1).push(
            v@[i - 1],
        ));
    }
}

/// A new string holding `v[from..to]`.
pub fn string_of_range(v: &Vec<char>, from: usize, to: usize) -> (r: String)
    requires
        from <= to <= v@.len(),
    ensures
        r@ == v@.subrange(from as int, to as int),
{
    let mut s = String::new();
    push_range(&mut s, v, from, to);
    assert(s@ =~= v@.subrange(from as int, to as int));
    s
}

/// A new string holding all of `v`.
pub fn string_of(v: &Vec<char>) -> (r: String)
    ensures
        r@ == v@,
{
    let r = string_of_range(v, 0, v.len());
    assert(v@.subrange(0, v@.len() as int) =~= v@);
    r
}

// ---------------------------------------------------------------------------
// Whitespace and trimming (`str::trim`)
// ---------------------------------------------------------------------------

/// The Unicode `White_Space` property, which `char::is_whitespace` tests.
pub open spec fn is_ws(c: char) -> bool {
    let u = c as u32;
    ||| 0x09 <= u <= 0x0D
    ||| u == 0x20
    ||| u == 0x85
    ||| u == 0xA0
    ||| u == 0x1680
    ||| 0x2000 <= u <= 0x200A
    ||| u == 0x2028
    ||| u == 0x2029
    ||| u == 0x202F
    ||| u == 0x205F
    ||| u == 0x3000
}

/// Number of leading whitespace characters.
pub open spec fn lead_ws(s: Seq<char>) -> nat
    decreases s.len(),
{
    if s.len() > 0 && is_ws(s[0]) {
        1 + lead_ws(s.drop_first())
    } else {
        0
    }
}

/// Number of trailing whitespace characters.
pub open spec fn trail_ws(s: Seq<char>) -> nat
    decreases s.len(),
{
    if s.len() > 0 && is_ws(s.last()) {
        1 + trail_ws(s.drop_last())
    } else {
        0
    }
}

/// `s` without its leading and trailing whitespace.
pub open spec fn trim_spec(s: Seq<char>) -> Seq<char> {
    let t = s.skip(lead_ws(s) as int);
    t.take(t.len() - trail_ws(t))
}

/// Text made only of whitespace trims to nothing.
pub proof fn lemma_blank_trims_to_nothing(s: Seq<char>)
    requires
        forall|i: int| 0 <= i < s.len() ==> is_ws(#[trigger] s[i]),
    ensures
        lead_ws(s) == s.len(),
        trim_spec(s).len() == 0,
    decreases s.len(),
{
    if s.len() > 0 {
        assert forall|i: int| 0 <= i < s.drop_first().len() implies is_ws(#[trigger] s.drop_first()[i]) by {
            assert(s.drop_first()[i] == s[i + 1]);
        }
        lemma_blank_trims_to_nothing(s.drop_first());
    }
}

/// The leading whitespace: every character before it is whitespace, and the
/// one after it is not.
pub proof fn lemma_lead_ws_shape(s: Seq<char>)
    ensures
        lead_ws(s) <= s.len(),
        forall|i: int| 0 <= i < lead_ws(s) ==> is_ws(#[trigger] s[i]),
        lead_ws(s) < s.len() ==> !is_ws(s[lead_ws(s) as int]),
    decreases s.len(),
{
    if s.len() > 0 && is_ws(s[0]) {
        let t = s.drop_first();
        lemma_lead_ws_shape(t);
        assert forall|i: int| 0 <= i < lead_ws(s) implies is_ws(#[trigger] s[i]) by {
            if i > 0 {
                assert(s[i] == t[i - 1]);
            }
        }
        if lead_ws(s) < s.len() {
            assert(s[lead_ws(s) as int] == t[lead_ws(t) as int]);
        }
    }
}

/// The trailing whitespace: every character in it is whitespace, and the one
/// before it is not.
pub proof fn lemma_trail_ws_shape(s: Seq<char>)
    ensures
        trail_ws(s) <= s.len(),
        forall|i: int| s.len() - trail_ws(s) <= i < s.len() ==> is_ws(#[trigger] s[i]),
        trail_ws(s) < s.len() ==> !is_ws(s[s.len() - trail_ws(s) - 1]),
    decreases s.len(),
{
    if s.len() > 0 && is_ws(s.last()) {
        let t = s.drop_last();
        lemma_trail_ws_shape(t);
        assert forall|i: int| s.len() - trail_ws(s) <= i < s.len() implies is_ws(#[trigger] s[i]) by {
            if i < s.len() - 1 {
                assert(s[i] == t[i]);
            }
        }
        if trail_ws(s) < s.len() {
            assert(s[s.len() - trail_ws(s) - 1] == t[t.len() - trail_ws(t) - 1]);
        }
    }
}

/// Trimming keeps the part of `s` between its leading and its trailing
/// whitespace: when something remains, it starts and ends with characters
/// that are not whitespace, and everything cut off is whitespace.
pub proof fn lemma_trim_shape(s: Seq<char>)
    ensures
        trim_spec(s).len() > 0 ==> exists|a: int, b: int|
            {
                &&& 0 <= a < b <= s.len()
                &&& trim_spec(s) == s.subrange(a, b)
                &&& forall|i: int| 0 <= i < a ==> is_ws(#[trigger] s[i])
                &&& forall|i: int| b <= i < s.len() ==> is_ws(#[trigger] s[i])
                &&& !is_ws(s[a])
                &&& !is_ws(s[b - 1])
            },
{
    lemma_lead_ws_shape(s);
    let a = lead_ws(s) as int;
    let t = s.skip(a);
    lemma_trail_ws_shape(t);
    let b = s.len() - trail_ws(t);
    if trim_spec(s).len() > 0 {
        assert(trim_spec(s) =~= s.subrange(a, b));
        assert forall|i: int| b <= i < s.len() implies is_ws(#[trigger] s[i]) by {
            assert(s[i] == t[i - a]);
        }
        assert(s[a] == t[0]);
        assert(s[b - 1] == t[t.len() - trail_ws(t) - 1]);
        if lead_ws(s) == s.len() {
            assert(false);
        }
        if a < b {
            assert(!is_ws(s[a])) by {
                if trail_ws(t) == t.len() {
                    assert(false);
                }
            }
        }
    }
}

pub proof fn lemma_lead_ws_bound(s: Seq<char>)
    ensures
        lead_ws(s) <= s.len(),
    decreases s.len(),
{
    if s.len() > 0 && is_ws(s[0]) {
        lemma_lead_ws_bound(s.drop_first());
    }
}

pub proof fn lemma_trail_ws_bound(s: Seq<char>)
    ensures
        trail_ws(s) <= s.len(),
    decreases s.len(),
{
    if s.len() > 0 && is_ws(s.last()) {
        lemma_trail_ws_bound(s.drop_last());
    }
}

/// Tests the Unicode `White_Space` property.
pub fn is_whitespace(c: char) -> (b: bool)
    ensures
        b == is_ws(c),
{
    let u = c as u32;
    (0x09 <= u && u <= 0x0D) || u == 0x20 || u == 0x85 || u == 0xA0 || u == 0x1680 || (0x2000
        <= u && u <= 0x200A) || u == 0x2028 || u == 0x2029 || u == 0x202F || u == 0x205F || u
        == 0x3000
}

/// The index range of `v` that remains after trimming whitespace.
pub fn trim_bounds(v: &Vec<char>) -> (r: (usize, usize))
    ensures
        r.0 <= r.1 <= v@.len(),
        v@.subrange(r.0 as int, r.1 as int) == trim_spec(v@),
{
    let n = v.len();
    let mut i: usize = 0;
    assert(v@.skip(0) =~= v@);
    while i < n && is_whitespace(v[i])
        invariant
            i <= n == v@.len(),
            lead_ws(v@) == i + lead_ws(v@.skip(i as int)),
        decreases n - i,
    {
        assert(v@.skip(i as int).drop_first() =~= v@.skip(i + 1));
        i = i + 1;
    }
    assert(lead_ws(v@.skip(i as int)) == 0);
    let ghost t = v@.skip(i as int);
    let mut j: usize = n;
    assert(t.take(n - i) =~= t);
    while j > i && is_whitespace(v[j - 1])
        invariant
            i <= j <= n == v@.len(),
            t == v@.skip(i as int),
            trail_ws(t) == (n - j) + trail_ws(t.take(j - i)),
        decreases j,
    {
        assert(t.take(j - i).drop_last() =~= t.take(j - 1 - i));
        j = j - 1;
    }
    assert(trail_ws(t.take(j - i)) == 0);
    assert(v@.subrange(i as int, j as int) =~= t.take(t.len() - trail_ws(t)));
    (i, j)
}

/// `str::trim`: the string without leading and trailing whitespace.
pub fn trim(s: &str) -> (r: String)
    ensures
        r@ == trim_spec(s@),
{
    let v = chars_of(s);
    let (a, b) = trim_bounds(&v);
    string_of_range(&v, a, b)
}

// ---------------------------------------------------------------------------
// Prefixes and substrings
// ---------------------------------------------------------------------------

/// `p` occurs in `s` starting at index `i`.
pub open spec fn occurs_at<T>(s: Seq<T>, p: Seq<T>, i: int) -> bool {
    0 <= i && i + p.len() <= s.len() && s.subrange(i, i + p.len()) == p
}

/// `p` occurs somewhere in `s` (`str::contains` with a string pattern).
pub open spec fn contains_seq<T>(s: Seq<T>, p: Seq<T>) -> bool {
    exists|i: int| occurs_at(s, p, i)
}

/// `s` begins with `p` (`str::starts_with`).
pub open spec fn starts_with_seq<T>(s: Seq<T>, p: Seq<T>) -> bool {
    occurs_at(s, p, 0)
}

/// Whether `p` occurs in `s` at index `i`.
pub fn matches_at(s: &Vec<char>, p: &Vec<char>, i: usize) -> (b: bool)
    ensures
        b == occurs_at(s@, p@, i as int),
{
    if i > s.len() || p.len() > s.len() - i {
        return false;
    }
    let mut k: usize = 0;
    while k < p.len()
        invariant
            i + p@.len() <= s@.len(),
            k <= p@.len(),
            forall|m: int| 0 <= m < k ==> s@[i + m] == p@[m],
        decreases p@.len() - k,
    {
        assert(i + k < s.len());
        if s[i + k] != p[k] {
            assert(s@.subrange(i as int, i + p@.len())[k as int] != p@[k as int]);
            return false;
        }
        k = k + 1;
    }
    assert(s@.subrange(i as int, i + p@.len()) =~= p@);
    true
}

/// Whether `p` occurs anywhere in `s`.
pub fn contains_chars(s: &Vec<char>, p: &Vec<char>) -> (b: bool)
    ensures
        b == contains_seq(s@, p@),
{
    if p.len() > s.len() {
        return false;
    }
    let last = s.len() - p.len();
    let mut i: usize = 0;
    while i <= last
        invariant
            last == s@.len() - p@.len(),
            i <= last,
            forall|m: int| 0 <= m < i ==> !occurs_at(s@, p@, m),
        ensures
            forall|m: int| 0 <= m <= last ==> !occurs_at(s@, p@, m),
        decreases last - i,
    {
        if matches_at(s, p, i) {
            return true;
        }
        if i == last {
            break;
        }
        i = i + 1;
    }
    assert forall|m: int| !occurs_at(s@, p@, m) by {
        if 0 <= m && m + p@.len() <= s@.len() {
            assert(m <= last);
        }
    }
    false
}

/// `str::contains` with a string pattern.
pub fn contains(s: &str, p: &str) -> (b: bool)
    ensures
        b == contains_seq(s@, p@),
{
    let sv = chars_of(s);
    let pv = chars_of(p);
    contains_chars(&sv, &pv)
}

/// Whether two character vectors are equal.
pub fn seq_eq(a: &Vec<char>, b: &Vec<char>) -> (r: bool)
    ensures
        r == (a@ == b@),
{
    if a.len() != b.len() {
        return false;
    }
    let r = matches_at(a, b, 0);
    assert(r ==> a@.subrange(0, b@.len() as int) == b@);
    assert(a@.subrange(0, a@.len() as int) =~= a@);
    r
}

/// Whether two strings are equal.
pub fn str_eq(a: &str, b: &str) -> (r: bool)
    ensures
        r == (a@ == b@),
{
    let av = chars_of(a);
    let bv = chars_of(b);
    if av.len() != bv.len() {
        return false;
    }
    let r = matches_at(&av, &bv, 0);
    assert(r ==> av@.subrange(0, bv@.len() as int) == bv@);
    assert(av@.subrange(0, av@.len() as int) =~= av@);
    r
}

/// `str::starts_with` with a string pattern.
pub fn starts_with(s: &str, p: &str) -> (b: bool)
    ensures
        b == starts_with_seq(s@, p@),
{
    let sv = chars_of(s);
    let pv = chars_of(p);
    matches_at(&sv, &pv, 0)
}

/// Index of the last `c` in `s`, or -1.
pub open spec fn last_index_of(s: Seq<char>, c: char) -> int
    decreases s.len(),
{
    if s.len() == 0 {
        -1
    } else if s.last() == c {
        s.len() - 1
    } else {
        last_index_of(s.drop_last(), c)
    }
}

// ---------------------------------------------------------------------------
// Splitting (`str::split` on a character, `str::lines`)
// ---------------------------------------------------------------------------

/// The pieces of `s` between occurrences of `sep` (`str::split(sep)`); there is
/// always at least one piece.
pub open spec fn split_on(s: Seq<char>, sep: char) -> Seq<Seq<char>>
    decreases s.len(),
{
    if s.len() == 0 {
        seq![Seq::<char>::empty()]
    } else {
        let r = split_on(s.drop_last(), sep);
        if s.last() == sep {
            r.push(Seq::<char>::empty())
        } else {
            r.update(r.len() - 1, r.last().push(s.last()))
        }
    }
}

pub proof fn lemma_split_on_nonempty(s: Seq<char>, sep: char)
    ensures
        split_on(s, sep).len() >= 1,
    decreases s.len(),
{
    if s.len() > 0 {
        lemma_split_on_nonempty(s.drop_last(), sep);
    }
}

/// The first piece of `split_on(s, sep)` is the longest prefix of `s` without
/// `sep`: it is all of `s` when there is a single piece, and otherwise `sep`
/// follows it.
pub proof fn lemma_split_first(s: Seq<char>, sep: char)
    ensures
        split_on(s, sep).len() >= 1,
        split_on(s, sep)[0].len() <= s.len(),
        split_on(s, sep)[0] == s.take(split_on(s, sep)[0].len() as int),
        forall|i: int| 0 <= i < split_on(s, sep)[0].len() ==> #[trigger] split_on(s, sep)[0][i] != sep,
        split_on(s, sep).len() == 1 ==> split_on(s, sep)[0].len() == s.len(),
        split_on(s, sep).len() > 1 ==> split_on(s, sep)[0].len() < s.len() && s[split_on(
            s,
            sep,
        )[0].len() as int] == sep,
    decreases s.len(),
{
    if s.len() > 0 {
        let t = s.drop_last();
        lemma_split_first(t, sep);
        let r = split_on(t, sep);
        let f = r[0];
        assert(s.take(f.len() as int) =~= t.take(f.len() as int));
        if s.last() != sep && r.len() == 1 {
            assert(split_on(s, sep)[0] == f.push(s.last()));
            assert(f =~= t);
            assert(s.take(s.len() as int) =~= s);
            assert(f.push(s.last()) =~= s);
        }
    } else {
        assert(s.take(0) =~= Seq::<char>::empty());
    }
}

/// The pieces after the first are those of the text after the first `sep`.
pub proof fn lemma_split_rest(s: Seq<char>, sep: char)
    requires
        split_on(s, sep).len() > 1,
    ensures
        split_on(s, sep).drop_first() == split_on(s.skip(split_on(s, sep)[0].len() as int + 1), sep),
    decreases s.len(),
{
    let t = s.drop_last();
    let c = s.last();
    lemma_split_first(t, sep);
    let r = split_on(t, sep);
    let f = r[0];
    if r.len() == 1 {
        assert(f.len() == t.len());
        assert(s.skip(f.len() as int + 1) =~= Seq::<char>::empty());
        assert(split_on(s, sep) =~= seq![f, Seq::<char>::empty()]);
        assert(split_on(s, sep).drop_first() =~= seq![Seq::<char>::empty()]);
    } else {
        lemma_split_rest(t, sep);
        let u = t.skip(f.len() as int + 1);
        let w = s.skip(f.len() as int + 1);
        assert(w.drop_last() =~= u);
        assert(w.last() == c);
        assert(split_on(s, sep)[0] == f);
        if c == sep {
            assert(split_on(s, sep).drop_first() =~= r.drop_first().push(Seq::<char>::empty()));
        } else {
            assert(split_on(s, sep).drop_first() =~= r.drop_first().update(
                r.drop_first().len() - 1,
                r.drop_first().last().push(c),
            ));
        }
    }
}

/// A tail without `c` does not move the last `c`.
pub proof fn lemma_last_index_skip(x: Seq<char>, y: Seq<char>, c: char)
    requires
        forall|i: int| 0 <= i < y.len() ==> y[i] != c,
    ensures
        last_index_of(x + y, c) == last_index_of(x, c),
    decreases y.len(),
{
    if y.len() == 0 {
        assert(x + y =~= x);
    } else {
        assert((x + y).drop_last() =~= x + y.drop_last());
        lemma_last_index_skip(x, y.drop_last(), c);
    }
}

/// A line without the `\r` of a `\r\n` ending.
pub open spec fn strip_cr(line: Seq<char>) -> Seq<char> {
    if line.len() > 0 && line.last() == '\r' {
        line.drop_last()
    } else {
        line
    }
}

/// The lines of `s` (`str::lines`): pieces ended by `\n` lose a trailing `\r`,
/// and a final empty piece is not a line.
pub open spec fn lines_spec(s: Seq<char>) -> Seq<Seq<char>> {
    let ps = split_on(s, '\n');
    let ended = ps.drop_last().map_values(|p: Seq<char>| strip_cr(p));
    if ps.last().len() == 0 {
        ended
    } else {
        ended.push(ps.last())
    }
}

/// Splits `v` at every `sep`.
pub fn split_chars(v: &Vec<char>, sep: char) -> (r: Vec<Vec<char>>)
    ensures
        r@.map_values(|p: Vec<char>| p@) == split_on(v@, sep),
{
    let mut done: Vec<Vec<char>> = Vec::new();
    let mut cur: Vec<char> = Vec::new();
    let mut i: usize = 0;
    while i < v.len()
        invariant
            i <= v@.len(),
            split_on(v@.take(i as int), sep) == done@.map_values(|p: Vec<char>| p@).push(cur@),
        decreases v@.len() - i,
    {
        let ghost pre = v@.take(i as int);
        assert(v@.take(i + 1).drop_last() =~= pre);
        if v[i] == sep {
            let ghost old_done = done@;
            done.push(cur);
            cur = Vec::new();
            assert(done@.map_values(|p: Vec<char>| p@) =~= old_done.map_values(
                |p: Vec<char>| p@,
            ).push(done@.last()@));
        } else {
            cur.push(v[i]);
        }
        i = i + 1;
        assert(split_on(v@.take(i as int), sep) =~= done@.map_values(|p: Vec<char>| p@).push(
            cur@,
        ));
    }
    assert(v@.take(i as int) =~= v@);
    let ghost old_done = done@;
    done.push(cur);
    assert(done@.map_values(|p: Vec<char>| p@) =~= old_done.map_values(|p: Vec<char>| p@).push(
        done@.last()@,
    ));
    done
}

/// The lines of `s`, as `str::lines` yields them.
pub fn lines(s: &Vec<char>) -> (r: Vec<Vec<char>>)
    ensures
        r@.map_values(|p: Vec<char>| p@) == lines_spec(s@),
{
    let pieces = split_chars(s, '\n');
    proof {
        lemma_split_on_nonempty(s@, '\n');
    }
    let ghost ps = split_on(s@, '\n');
    let n = pieces.len();
    let mut out: Vec<Vec<char>> = Vec::new();
    let mut i: usize = 0;
    while i + 1 < n
        invariant
            n == pieces@.len() == ps.len() >= 1,
            forall|k: int| 0 <= k < n ==> #[trigger] pieces@[k]@ == ps[k],
            i <= n - 1,
            out@.len() == i,
            forall|k: int| 0 <= k < i ==> #[trigger] out@[k]@ == strip_cr(ps[k]),
        decreases n - i,
    {
        let p = &pieces[i];
        let mut line: Vec<char> = p.clone();
        let len = line.len();
        if len > 0 && line[len - 1] == '\r' {
            line.pop();
        }
        assert(line@ =~= strip_cr(ps[i as int]));
        out.push(line);
        i = i + 1;
    }
    let last = &pieces[n - 1];
    let ghost ended = ps.drop_last().map_values(|p: Seq<char>| strip_cr(p));
    assert(out@.map_values(|p: Vec<char>| p@) =~= ended);
    if last.len() > 0 {
        out.push(last.clone());
        assert(out@.map_values(|p: Vec<char>| p@) =~= ended.push(ps.last()));
    }
    out
}

// ---------------------------------------------------------------------------
// Lexicographic order (`Ord for str`: byte order of UTF-8, which is the order
// of code points)
// ---------------------------------------------------------------------------

/// `a` sorts strictly before `b`.
pub open spec fn lex_less(a: Seq<char>, b: Seq<char>) -> bool
    decreases a.len(),
{
    if b.len() == 0 {
        false
    } else if a.len() == 0 {
        true
    } else if a[0] != b[0] {
        (a[0] as u32) < (b[0] as u32)
    } else {
        lex_less(a.drop_first(), b.drop_first())
    }
}

/// Every element sorts no later than the ones after it.
pub open spec fn sorted_lex(s: Seq<Seq<char>>) -> bool {
    forall|i: int, j: int| 0 <= i < j < s.len() ==> !lex_less(s[j], s[i])
}

/// The contents of a sequence of strings.
pub open spec fn views(s: Seq<String>) -> Seq<Seq<char>> {
    s.map_values(|x: String| x@)
}

pub proof fn lemma_lex_irreflexive(a: Seq<char>)
    ensures
        !lex_less(a, a),
    decreases a.len(),
{
    if a.len() > 0 {
        lemma_lex_irreflexive(a.drop_first());
    }
}

pub proof fn lemma_lex_asymmetric(a: Seq<char>, b: Seq<char>)
    ensures
        lex_less(a, b) ==> !lex_less(b, a),
    decreases a.len(),
{
    if a.len() > 0 && b.len() > 0 && a[0] == b[0] {
        lemma_lex_asymmetric(a.drop_first(), b.drop_first());
    }
}

pub proof fn lemma_lex_transitive(a: Seq<char>, b: Seq<char>, c: Seq<char>)
    ensures
        lex_less(a, b) && lex_less(b, c) ==> lex_less(a, c),
    decreases a.len(),
{
    if a.len() > 0 && b.len() > 0 && c.len() > 0 {
        lemma_lex_transitive(a.drop_first(), b.drop_first(), c.drop_first());
    }
}

pub proof fn lemma_lex_total(a: Seq<char>, b: Seq<char>)
    ensures
        a != b ==> lex_less(a, b) || lex_less(b, a),
    decreases a.len(),
{
    if a.len() > 0 && b.len() > 0 {
        vstd::utf8::char_u32_cast(a[0], a[0] as u32);
        vstd::utf8::char_u32_cast(b[0], b[0] as u32);
        if a[0] == b[0] {
            lemma_lex_total(a.drop_first(), b.drop_first());
            if a.drop_first() == b.drop_first() {
                assert(a =~= seq![a[0]] + a.drop_first());
                assert(b =~= seq![b[0]] + b.drop_first());
            }
        }
    } else if a.len() == 0 && b.len() == 0 {
        assert(a =~= b);
    }
}

/// Whether `a` sorts strictly before `b`.
pub fn lex_less_chars(a: &Vec<char>, b: &Vec<char>) -> (r: bool)
    ensures
        r == lex_less(a@, b@),
{
    let mut i: usize = 0;
    assert(a@.skip(0) =~= a@);
    assert(b@.skip(0) =~= b@);
    while i < a.len() && i < b.len() && a[i] == b[i]
        invariant
            i <= a@.len(),
            i <= b@.len(),
            lex_less(a@, b@) == lex_less(a@.skip(i as int), b@.skip(i as int)),
        decreases a@.len() - i,
    {
        assert(a@.skip(i as int).drop_first() =~= a@.skip(i + 1));
        assert(b@.skip(i as int).drop_first() =~= b@.skip(i + 1));
        i = i + 1;
    }
    if i == b.len() {
        false
    } else if i == a.len() {
        true
    } else {
        (a[i] as u32) < (b[i] as u32)
    }
}

/// Whether `a` sorts strictly before `b`.
pub fn lex_less_str(a: &str, b: &str) -> (r: bool)
    ensures
        r == lex_less(a@, b@),
{
    let av = chars_of(a);
    let bv = chars_of(b);
    lex_less_chars(&av, &bv)
}

/// Sorts strings into lexicographic order (`<[String]>::sort`).
pub fn sort_strings(v: Vec<String>) -> (r: Vec<String>)
    ensures
        sorted_lex(views(r@)),
        views(r@).to_multiset() == views(v@).to_multiset(),
{
    broadcast use vstd::seq_lib::group_to_multiset_ensures;

    let mut out: Vec<String> = Vec::new();
    let mut i: usize = 0;
    while i < v.len()
        invariant
            i <= v@.len(),
            sorted_lex(views(out@)),
            views(out@).to_multiset() == views(v@.take(i as int)).to_multiset(),
        decreases v@.len() - i,
    {
        let x = &v[i];
        let mut p: usize = 0;
        while p < out.len() && !lex_less_str(x.as_str(), out[p].as_str())
            invariant
                p <= out@.len(),
                forall|k: int| 0 <= k < p ==> !lex_less(x@, #[trigger] out@[k]@),
            decreases out@.len() - p,
        {
            p = p + 1;
        }
        let ghost old_views = views(out@);
        proof {
            assert forall|a: int, b: int|
                0 <= a < b < old_views.insert(p as int, x@).len() implies !lex_less(
                old_views.insert(p as int, x@)[b],
                old_views.insert(p as int, x@)[a],
            ) by {
                let s2 = old_views.insert(p as int, x@);
                if a < p && b == p {
                    lemma_lex_total(x@, old_views[a]);
                    lemma_lex_asymmetric(old_views[a], x@);
                    assert(!lex_less(x@, out@[a]@));
                } else if a == p && b > p {
                    let y = old_views[b - 1];
                    assert(lex_less(x@, out@[p as int]@));
                    if b - 1 > p {
                        assert(!lex_less(y, old_views[p as int]));
                        lemma_lex_total(y, old_views[p as int]);
                        lemma_lex_transitive(x@, old_views[p as int], y);
                    }
                    lemma_lex_asymmetric(x@, y);
                } else if a < p && b > p {
                    assert(s2[a] == old_views[a]);
                    assert(s2[b] == old_views[b - 1]);
                } else if b < p {
                    assert(s2[a] == old_views[a]);
                    assert(s2[b] == old_views[b]);
                } else {
                    assert(s2[a] == old_views[a - 1]);
                    assert(s2[b] == old_views[b - 1]);
                }
            }
        }
        out.insert(p, x.clone());
        assert(views(out@) =~= old_views.insert(p as int, x@));
        proof {
            vstd::seq_lib::to_multiset_insert(old_views, p as int, x@);
            vstd::seq_lib::to_multiset_build(views(v@.take(i as int)), x@);
        }
        assert(v@.take(i + 1) =~= v@.take(i as int).push(v@[i as int]));
        assert(views(v@.take(i + 1)) =~= views(v@.take(i as int)).push(x@));
        i = i + 1;
    }
    assert(v@.take(i as int) =~= v@);
    out
}

// ---------------------------------------------------------------------------
// HTML escaping
// ---------------------------------------------------------------------------

/// The escaped form of one character: `&`, `<`, `>` (and `"` when `quote`)
/// become entities, every other character stands for itself.
pub open spec fn escape_char(c: char, quote: bool) -> Seq<char> {
    if c == '&' {
        "&amp;"@
    } else if quote && c == '"' {
        "&quot;"@
    } else if c == '<' {
        "&lt;"@
    } else if c == '>' {
        "&gt;"@
    } else {
        seq![c]
    }
}

/// `s` with every character escaped. This is what the chains of
/// `str::replace` in the handlers compute: `&` is replaced first, and the
/// later replacements introduce no character that an earlier or later one
/// would rewrite again.
pub open spec fn escape_html(s: Seq<char>, quote: bool) -> Seq<char>
    decreases s.len(),
{
    if s.len() == 0 {
        Seq::empty()
    } else {
        escape_html(s.drop_last(), quote) + escape_char(s.last(), quote)
    }
}

/// Appends `s` escaped for HTML.
pub fn push_escaped(out: &mut String, s: &str, quote: bool)
    ensures
        final(out)@ == old(out)@ + escape_html(s@, quote),
{
    let v = chars_of(s);
    let ghost start = out@;
    let mut i: usize = 0;
    while i < v.len()
        invariant
            i <= v@.len(),
            v@ == s@,
            out@ == start + escape_html(v@.take(i as int), quote),
        decreases v@.len() - i,
    {
        let c = v[i];
        assert(v@.take(i + 1).drop_last() =~= v@.take(i as int));
        assert(v@.take(i + 1).last() == c);
        if c == '&' {
            push_str(out, "&amp;");
        } else if quote && c == '"' {
            push_str(out, "&quot;");
        } else if c == '<' {
            push_str(out, "&lt;");
        } else if c == '>' {
            push_str(out, "&gt;");
        } else {
            push_char(out, c);
            assert(seq![c] =~= escape_char(c, quote));
        }
        i = i + 1;
        assert(out@ =~= start + escape_html(v@.take(i as int), quote));
    }
    assert(v@.take(i as int) =~= s@);
}

/// Escapes `s` for HTML.
pub fn escaped(s: &str, quote: bool) -> (r: String)
    ensures
        r@ == escape_html(s@, quote),
{
    let mut r = String::new();
    push_escaped(&mut r, s, quote);
    assert(r@ =~= escape_html(s@, quote));
    r
}

/// Escaped text (with quotes) holds no `<`, `>` or `"`: it can neither open
/// a tag nor end an attribute value.
pub proof fn law_escaped_text_has_no_markup(s: Seq<char>)
    ensures
        forall|i: int|
            0 <= i < escape_html(s, true).len() ==> {
                let c = #[trigger] escape_html(s, true)[i];
                c != '<' && c != '>' && c != '"'
            },
    decreases s.len(),
{
    if s.len() > 0 {
        law_escaped_text_has_no_markup(s.drop_last());
        reveal_strlit("&amp;");
        reveal_strlit("&quot;");
        reveal_strlit("&lt;");
        reveal_strlit("&gt;");
        let a = escape_html(s.drop_last(), true);
        let b = escape_char(s.last(), true);
        assert forall|i: int| 0 <= i < (a + b).len() implies {
            let c = #[trigger] (a + b)[i];
            c != '<' && c != '>' && c != '"'
        } by {
            if i >= a.len() {
                assert((a + b)[i] == b[i - a.len()]);
            } else {
                assert((a + b)[i] == a[i]);
            }
        }
    }
}

} // verus!
