//! Character-level text helpers shared by the parsers and path logic.
//!
//! Text is modelled as `Seq<char>`; the executable helpers work on `Vec<char>`
//! and build `String`s through [`push_char`].

use vstd::prelude::*;

verus! {

broadcast use vstd::string::group_string_axioms;

// ----------------------------------------------------------------------------
// Specifications
// ----------------------------------------------------------------------------

/// `s` with every `from` replaced by `to`.
pub open spec fn replace_char(s: Seq<char>, from: char, to: char) -> Seq<char> {
    s.map_values(|c: char| if c == from { to } else { c })
}

/// `s` with every leading `c` removed.
pub open spec fn trim_start_char(s: Seq<char>, c: char) -> Seq<char>
    decreases s.len(),
{
    if s.len() > 0 && s[0] == c {
        trim_start_char(s.drop_first(), c)
    } else {
        s
    }
}

/// `s` with every trailing `c` removed.
pub open spec fn trim_end_char(s: Seq<char>, c: char) -> Seq<char>
    decreases s.len(),
{
    if s.len() > 0 && s.last() == c {
        trim_end_char(s.drop_last(), c)
    } else {
        s
    }
}

/// `s` with every leading and trailing `c` removed.
pub open spec fn trim_char(s: Seq<char>, c: char) -> Seq<char> {
    trim_end_char(trim_start_char(s, c), c)
}

/// Unicode `White_Space`, the property that `char::is_whitespace` tests.
pub open spec fn is_white(c: char) -> bool {
    ||| ('\u{9}' <= c && c <= '\u{d}')
    ||| c == ' '
    ||| c == '\u{85}'
    ||| c == '\u{a0}'
    ||| c == '\u{1680}'
    ||| ('\u{2000}' <= c && c <= '\u{200a}')
    ||| c == '\u{2028}'
    ||| c == '\u{2029}'
    ||| c == '\u{202f}'
    ||| c == '\u{205f}'
    ||| c == '\u{3000}'
}

/// `s` without leading white space.
pub open spec fn trim_start_white(s: Seq<char>) -> Seq<char>
    decreases s.len(),
{
    if s.len() > 0 && is_white(s[0]) {
        trim_start_white(s.drop_first())
    } else {
        s
    }
}

/// `s` without trailing white space.
pub open spec fn trim_end_white(s: Seq<char>) -> Seq<char>
    decreases s.len(),
{
    if s.len() > 0 && is_white(s.last()) {
        trim_end_white(s.drop_last())
    } else {
        s
    }
}

/// `s` without leading or trailing white space (`str::trim`).
pub open spec fn trim_white(s: Seq<char>) -> Seq<char> {
    trim_end_white(trim_start_white(s))
}

/// `p` is a prefix of `s`.
pub open spec fn starts_with(s: Seq<char>, p: Seq<char>) -> bool {
    p.len() <= s.len() && s.take(p.len() as int) == p
}

/// `t` occurs in `s` starting at index `i`.
pub open spec fn occurs_at(s: Seq<char>, t: Seq<char>, i: int) -> bool {
    0 <= i && i + t.len() <= s.len() && s.subrange(i, i + t.len()) == t
}

/// `t` occurs somewhere in `s`.
pub open spec fn contains_seq(s: Seq<char>, t: Seq<char>) -> bool {
    exists|i: int| occurs_at(s, t, i)
}

/// `c` does not occur in `s`.
pub open spec fn free_of(s: Seq<char>, c: char) -> bool {
    forall|i: int| 0 <= i < s.len() ==> s[i] != c
}

/// The text before the first `c` in `s` (all of `s` when there is none):
/// what `s.split(c).next()` yields.
pub open spec fn before_first(s: Seq<char>, c: char) -> Seq<char>
    decreases s.len(),
{
    if s.len() == 0 {
        s
    } else if s[0] == c {
        Seq::empty()
    } else {
        seq![s[0]] + before_first(s.drop_first(), c)
    }
}

/// The text after the last `c` in `s` (all of `s` when there is none):
/// what `s.rsplit(c).next()` yields.
pub open spec fn after_last(s: Seq<char>, c: char) -> Seq<char>
    decreases s.len(),
{
    if s.len() == 0 {
        s
    } else if s.last() == c {
        Seq::empty()
    } else {
        after_last(s.drop_last(), c).push(s.last())
    }
}

/// An ASCII decimal digit.
pub open spec fn is_digit(c: char) -> bool {
    '0' <= c && c <= '9'
}

/// Every character of `s` is an ASCII decimal digit.
pub open spec fn all_digits(s: Seq<char>) -> bool {
    forall|i: int| 0 <= i < s.len() ==> is_digit(s[i])
}

/// The value of an ASCII digit.
pub open spec fn digit_value(c: char) -> nat {
    (c as int - '0' as int) as nat
}

/// The digit character for `d < 10`.
pub open spec fn digit_char(d: nat) -> char {
    seq!['0', '1', '2', '3', '4', '5', '6', '7', '8', '9'][d as int]
}

/// The number that a string of decimal digits denotes.
pub open spec fn digits_value(s: Seq<char>) -> nat
    decreases s.len(),
{
    if s.len() == 0 {
        0
    } else {
        digits_value(s.drop_last()) * 10 + digit_value(s.last())
    }
}

/// The shortest decimal notation of `n` (what `n.to_string()` yields).
pub open spec fn decimal(n: nat) -> Seq<char>
    decreases n,
{
    if n < 10 {
        seq![digit_char(n)]
    } else {
        decimal(n / 10).push(digit_char(n % 10))
    }
}

/// `decimal(n)` left-padded with `'0'` to at least `width` characters.
pub open spec fn zero_padded(n: nat, width: nat) -> Seq<char> {
    let d = decimal(n);
    if d.len() >= width {
        d
    } else {
        Seq::new((width - d.len()) as nat, |i: int| '0') + d
    }
}

// ----------------------------------------------------------------------------
// Lemmas
// ----------------------------------------------------------------------------

/// Digit characters and their values correspond.
pub proof fn lemma_digit_char(d: nat)
    requires
        d < 10,
    ensures
        is_digit(digit_char(d)),
        digit_value(digit_char(d)) == d,
{
    let t = seq!['0', '1', '2', '3', '4', '5', '6', '7', '8', '9'];
    assert(digit_char(d) == t[d as int]);
    if d == 0 { assert(t[0] == '0'); }
    else if d == 1 { assert(t[1] == '1'); }
    else if d == 2 { assert(t[2] == '2'); }
    else if d == 3 { assert(t[3] == '3'); }
    else if d == 4 { assert(t[4] == '4'); }
    else if d == 5 { assert(t[5] == '5'); }
    else if d == 6 { assert(t[6] == '6'); }
    else if d == 7 { assert(t[7] == '7'); }
    else if d == 8 { assert(t[8] == '8'); }
    else { assert(t[9] == '9'); }
}

/// Decimal notation consists of digits, is non-empty, and reads back as `n`.
pub proof fn lemma_decimal(n: nat)
    ensures
        all_digits(decimal(n)),
        decimal(n).len() >= 1,
        digits_value(decimal(n)) == n,
        n < 10 ==> decimal(n).len() == 1,
        n >= 10 ==> decimal(n).len() >= 2,
    decreases n,
{
    if n < 10 {
        lemma_digit_char(n);
        assert(decimal(n).drop_last() =~= Seq::<char>::empty());
        assert(digits_value(Seq::<char>::empty()) == 0);
    } else {
        lemma_decimal(n / 10);
        lemma_digit_char(n % 10);
        assert(decimal(n).drop_last() =~= decimal(n / 10));
        assert((n / 10) * 10 + n % 10 == n) by (nonlinear_arith);
    }
}

/// Distinct numbers have distinct decimal notations.
pub proof fn lemma_decimal_injective(a: nat, b: nat)
    ensures
        decimal(a) == decimal(b) ==> a == b,
{
    lemma_decimal(a);
    lemma_decimal(b);
}

// ----------------------------------------------------------------------------
// Executable helpers
// ----------------------------------------------------------------------------

/// The characters of `s`, in order.
pub fn chars_of(s: &str) -> (out: Vec<char>)
    ensures
        out@ == s@,
{
    let mut out: Vec<char> = Vec::new();
    for c in it: s.chars()
        invariant
            out@ == it.seq().take(it.index() as int),
            it.seq() == s@,
    {
        out.push(c);
    }
    out
}

/// Appends one character to a `String`.
///
/// Trusted wrapper around `String::push`: as std documents it, the string
/// afterwards holds its old characters followed by `c`.
#[verifier::external_body]
pub(crate) fn push_char(s: &mut String, c: char)
    ensures
        final(s)@ == old(s)@.push(c),
{
    s.push(c);
}

/// Appends the characters `v[from..to]` to `s`.
pub fn push_chars(s: &mut String, v: &Vec<char>, from: usize, to: usize)
    requires
        from <= to <= v@.len(),
    ensures
        final(s)@ == old(s)@ + v@.subrange(from as int, to as int),
{
    let mut i = from;
    while i < to
        invariant
            from <= i <= to <= v@.len(),
            s@ == old(s)@ + v@.subrange(from as int, i as int),
        decreases to - i,
    {
        push_char(s, v[i]);
        i += 1;
        assert(v@.subrange(from as int, i as int) =~= v@.subrange(from as int, (i - 1) as int).push(v@[i - 1]));
    }
}

/// A `String` holding `v[from..to]`.
pub fn string_of(v: &Vec<char>, from: usize, to: usize) -> (s: String)
    requires
        from <= to <= v@.len(),
    ensures
        s@ == v@.subrange(from as int, to as int),
{
    let mut s = String::new();
    push_chars(&mut s, v, from, to);
    proof {
        assert(Seq::<char>::empty() + v@.subrange(from as int, to as int) =~= v@.subrange(from as int, to as int));
    }
    s
}

/// A `String` holding all of `v`.
pub fn string_from(v: &Vec<char>) -> (s: String)
    ensures
        s@ == v@,
{
    let s = string_of(v, 0, v.len());
    assert(v@.subrange(0, v@.len() as int) =~= v@);
    s
}

/// `v` with every `from` replaced by `to`.
pub fn replace_char_vec(v: &Vec<char>, from: char, to: char) -> (out: Vec<char>)
    ensures
        out@ == replace_char(v@, from, to),
{
    let mut out: Vec<char> = Vec::new();
    let mut i: usize = 0;
    while i < v.len()
        invariant
            i <= v@.len(),
            out@ == replace_char(v@.take(i as int), from, to),
        decreases v@.len() - i,
    {
        let c = v[i];
        if c == from {
            out.push(to);
        } else {
            out.push(c);
        }
        i += 1;
        assert(replace_char(v@.take(i as int), from, to) =~= replace_char(v@.take((i - 1) as int), from, to).push(if c == from { to } else { c }));
    }
    assert(v@.take(v@.len() as int) =~= v@);
    out
}

/// `s` with every `from` replaced by `to`, as a `String`.
pub fn replace_char_str(s: &str, from: char, to: char) -> (out: String)
    ensures
        out@ == replace_char(s@, from, to),
{
    let v = chars_of(s);
    let r = replace_char_vec(&v, from, to);
    string_from(&r)
}

/// Index where `trim_start_char` of `v[from..to]` begins.
pub fn skip_leading_char(v: &Vec<char>, from: usize, to: usize, c: char) -> (k: usize)
    requires
        from <= to <= v@.len(),
    ensures
        from <= k <= to,
        v@.subrange(k as int, to as int) == trim_start_char(v@.subrange(from as int, to as int), c),
{
    let mut k = from;
    while k < to && v[k] == c
        invariant
            from <= k <= to <= v@.len(),
            trim_start_char(v@.subrange(k as int, to as int), c) == trim_start_char(v@.subrange(from as int, to as int), c),
        decreases to - k,
    {
        assert(v@.subrange(k as int, to as int).drop_first() =~= v@.subrange(k + 1, to as int));
        k += 1;
    }
    k
}

/// Index where `trim_end_char` of `v[from..to]` ends.
pub fn skip_trailing_char(v: &Vec<char>, from: usize, to: usize, c: char) -> (k: usize)
    requires
        from <= to <= v@.len(),
    ensures
        from <= k <= to,
        v@.subrange(from as int, k as int) == trim_end_char(v@.subrange(from as int, to as int), c),
{
    let mut k = to;
    while k > from && v[k - 1] == c
        invariant
            from <= k <= to <= v@.len(),
            trim_end_char(v@.subrange(from as int, k as int), c) == trim_end_char(v@.subrange(from as int, to as int), c),
        decreases k - from,
    {
        assert(v@.subrange(from as int, k as int).drop_last() =~= v@.subrange(from as int, k - 1));
        k -= 1;
    }
    k
}

/// Tests whether `c` is Unicode white space (`char::is_whitespace`).
pub fn is_white_char(c: char) -> (b: bool)
    ensures
        b == is_white(c),
{
    ('\u{9}' <= c && c <= '\u{d}') || c == ' ' || c == '\u{85}' || c == '\u{a0}'
        || c == '\u{1680}' || ('\u{2000}' <= c && c <= '\u{200a}') || c == '\u{2028}'
        || c == '\u{2029}' || c == '\u{202f}' || c == '\u{205f}' || c == '\u{3000}'
}

/// Bounds of `trim_white(v[from..to])`.
pub fn trim_white_range(v: &Vec<char>, from: usize, to: usize) -> (r: (usize, usize))
    requires
        from <= to <= v@.len(),
    ensures
        from <= r.0 <= r.1 <= to,
        v@.subrange(r.0 as int, r.1 as int) == trim_white(v@.subrange(from as int, to as int)),
{
    let mut a = from;
    while a < to && is_white_char(v[a])
        invariant
            from <= a <= to <= v@.len(),
            trim_start_white(v@.subrange(a as int, to as int)) == trim_start_white(v@.subrange(from as int, to as int)),
        decreases to - a,
    {
        assert(v@.subrange(a as int, to as int).drop_first() =~= v@.subrange(a + 1, to as int));
        a += 1;
    }
    let mut b = to;
    while b > a && is_white_char(v[b - 1])
        invariant
            a <= b <= to <= v@.len(),
            trim_end_white(v@.subrange(a as int, b as int)) == trim_end_white(v@.subrange(a as int, to as int)),
        decreases b - a,
    {
        assert(v@.subrange(a as int, b as int).drop_last() =~= v@.subrange(a as int, b - 1));
        b -= 1;
    }
    (a, b)
}

/// Tests whether `p` occurs in `v` at index `i`.
pub fn occurs_at_vec(v: &Vec<char>, p: &Vec<char>, i: usize) -> (b: bool)
    ensures
        b == occurs_at(v@, p@, i as int),
{
    if i > v.len() || p.len() > v.len() - i {
        return false;
    }
    let vl = v.len();
    let mut j: usize = 0;
    while j < p.len()
        invariant
            vl == v@.len(),
            i + p@.len() <= v@.len(),
            j <= p@.len(),
            forall|k: int| 0 <= k < j ==> v@[i + k] == p@[k],
        decreases p@.len() - j,
    {
        let idx: usize = i + j;
        if v[idx] != p[j] {
            assert(v@.subrange(i as int, i + p@.len())[j as int] != p@[j as int]);
            return false;
        }
        j += 1;
    }
    assert(v@.subrange(i as int, i + p@.len()) =~= p@);
    true
}

/// Tests whether `p` is a prefix of `v`.
pub fn starts_with_vec(v: &Vec<char>, p: &Vec<char>) -> (b: bool)
    ensures
        b == starts_with(v@, p@),
{
    let b = occurs_at_vec(v, p, 0);
    proof {
        if p@.len() <= v@.len() {
            assert(v@.subrange(0, p@.len() as int) =~= v@.take(p@.len() as int));
        }
    }
    b
}

/// Tests whether `p` occurs anywhere in `v`.
pub fn contains_vec(v: &Vec<char>, p: &Vec<char>) -> (b: bool)
    ensures
        b == contains_seq(v@, p@),
{
    let mut i: usize = 0;
    while i < v.len()
        invariant
            i <= v@.len(),
            forall|k: int| 0 <= k < i ==> !occurs_at(v@, p@, k),
        decreases v@.len() - i,
    {
        if occurs_at_vec(v, p, i) {
            return true;
        }
        i += 1;
    }
    if occurs_at_vec(v, p, i) {
        return true;
    }
    assert forall|k: int| !occurs_at(v@, p@, k) by {
        if 0 <= k && k + p@.len() <= v@.len() {
            assert(k <= i);
        }
    }
    false
}

/// The digit character for `d < 10`.
pub fn digit_to_char(d: u64) -> (c: char)
    requires
        d < 10,
    ensures
        c == digit_char(d as nat),
        is_digit(c),
        digit_value(c) == d,
{
    match d {
        0 => '0',
        1 => '1',
        2 => '2',
        3 => '3',
        4 => '4',
        5 => '5',
        6 => '6',
        7 => '7',
        8 => '8',
        _ => '9',
    }
}

/// Start of `after_last(v, c)`: one past the last `c`, or 0.
pub fn after_last_index(v: &Vec<char>, c: char) -> (k: usize)
    ensures
        k <= v@.len(),
        v@.skip(k as int) == after_last(v@, c),
        k > 0 ==> v@[k - 1] == c,
        free_of(v@.skip(k as int), c),
{
    let mut k = v.len();
    assert(v@.take(k as int) =~= v@);
    assert(v@.skip(k as int) =~= Seq::<char>::empty());
    assert(after_last(v@, c) + Seq::<char>::empty() =~= after_last(v@, c));
    while k > 0 && v[k - 1] != c
        invariant
            k <= v@.len(),
            after_last(v@, c) == after_last(v@.take(k as int), c) + v@.skip(k as int),
            free_of(v@.skip(k as int), c),
        decreases k,
    {
        assert(v@.take(k as int).drop_last() =~= v@.take(k - 1));
        assert(v@.skip(k - 1) =~= seq![v@[k - 1]] + v@.skip(k as int));
        assert(after_last(v@.take(k as int), c) == after_last(v@.take(k - 1), c).push(v@[k - 1]));
        assert(after_last(v@.take(k - 1), c).push(v@[k - 1]) + v@.skip(k as int)
            =~= after_last(v@.take(k - 1), c) + v@.skip(k - 1));
        k -= 1;
    }
    if k == 0 {
        assert(v@.take(0) =~= Seq::<char>::empty());
    }
    assert(Seq::<char>::empty() + v@.skip(k as int) =~= v@.skip(k as int));
    k
}

/// End of `before_first(v, c)`: the index of the first `c`, or the length.
pub fn before_first_index(v: &Vec<char>, c: char) -> (k: usize)
    ensures
        k <= v@.len(),
        v@.take(k as int) == before_first(v@, c),
        k < v@.len() ==> v@[k as int] == c,
        free_of(v@.take(k as int), c),
{
    let mut k: usize = 0;
    assert(v@.take(0) =~= Seq::<char>::empty());
    assert(v@.skip(0) =~= v@);
    assert(Seq::<char>::empty() + before_first(v@, c) =~= before_first(v@, c));
    while k < v.len() && v[k] != c
        invariant
            k <= v@.len(),
            before_first(v@, c) == v@.take(k as int) + before_first(v@.skip(k as int), c),
            free_of(v@.take(k as int), c),
        decreases v@.len() - k,
    {
        assert(v@.skip(k as int).drop_first() =~= v@.skip(k + 1));
        assert(v@.take(k + 1) =~= v@.take(k as int) + seq![v@[k as int]]);
        k += 1;
    }
    if k == v.len() {
        assert(v@.skip(k as int) =~= Seq::<char>::empty());
    }
    assert(v@.take(k as int) + Seq::<char>::empty() =~= v@.take(k as int));
    k
}

/// End of `before_first(v[from..], c)`: the first `c` at or after `from`,
/// or the length.
pub fn index_of_from(v: &Vec<char>, from: usize, c: char) -> (k: usize)
    requires
        from <= v@.len(),
    ensures
        from <= k <= v@.len(),
        v@.subrange(from as int, k as int) == before_first(v@.skip(from as int), c),
        k < v@.len() ==> v@[k as int] == c,
        free_of(v@.subrange(from as int, k as int), c),
{
    let mut k: usize = from;
    assert(v@.subrange(from as int, from as int) =~= Seq::<char>::empty());
    assert(Seq::<char>::empty() + before_first(v@.skip(from as int), c) =~= before_first(v@.skip(from as int), c));
    while k < v.len() && v[k] != c
        invariant
            from <= k <= v@.len(),
            before_first(v@.skip(from as int), c) == v@.subrange(from as int, k as int) + before_first(v@.skip(k as int), c),
            free_of(v@.subrange(from as int, k as int), c),
        decreases v@.len() - k,
    {
        assert(v@.skip(k as int).drop_first() =~= v@.skip(k + 1));
        assert(v@.subrange(from as int, k + 1) =~= v@.subrange(from as int, k as int) + seq![v@[k as int]]);
        k += 1;
    }
    if k == v.len() {
        assert(v@.skip(k as int) =~= Seq::<char>::empty());
    }
    assert(v@.subrange(from as int, k as int) + Seq::<char>::empty() =~= v@.subrange(from as int, k as int));
    k
}

/// Tests whether the literal `lit` is a prefix of `v`.
pub fn starts_with_lit(v: &Vec<char>, lit: &str) -> (b: bool)
    ensures
        b == starts_with(v@, lit@),
{
    let p = chars_of(lit);
    starts_with_vec(v, &p)
}

/// Tests whether `v[from..to]` is exactly the literal `lit`.
pub fn range_eq_lit(v: &Vec<char>, from: usize, to: usize, lit: &str) -> (b: bool)
    requires
        from <= to <= v@.len(),
    ensures
        b == (v@.subrange(from as int, to as int) == lit@),
{
    let p = chars_of(lit);
    if p.len() != to - from {
        return false;
    }
    let b = occurs_at_vec(v, &p, from);
    b
}

/// Appends the decimal notation of `n` to `s`.
pub fn push_decimal(s: &mut String, n: u64)
    ensures
        final(s)@ == old(s)@ + decimal(n as nat),
    decreases n,
{
    if n >= 10 {
        push_decimal(s, n / 10);
    }
    let c = digit_to_char(n % 10);
    push_char(s, c);
    proof {
        if n >= 10 {
            assert(decimal(n as nat) == decimal((n / 10) as nat).push(digit_char((n % 10) as nat)));
        } else {
            assert(decimal(n as nat) == seq![digit_char(n as nat)]);
        }
    }
}

/// The decimal notation of `n` (`n.to_string()`).
pub fn u64_to_string(n: u64) -> (s: String)
    ensures
        s@ == decimal(n as nat),
{
    let mut s = String::new();
    push_decimal(&mut s, n);
    assert(Seq::<char>::empty() + decimal(n as nat) =~= decimal(n as nat));
    s
}

} // verus!
