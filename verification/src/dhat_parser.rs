//! Reading dhat's heap profile: frame strings and program points.
//!
//! dhat writes `dhat-heap.json` with a frame table `ftbl` of strings shaped
//! `0xADDR: function (file:line:col)` and program points `pps`, each with
//! total bytes `tb`, total blocks `tbk`, bytes at global peak `gb` and
//! frame-table indices `fs`. Reading the file and decoding the JSON happen
//! outside this library; [`allocations_from_dhat`] does the rest.

use vstd::prelude::*;

use crate::collector::{frames_view, FrameView, RawAllocation, RawAllocationView, ResolvedFrame};
use crate::text::{
    all_digits, chars_of, contains_seq, decimal, lemma_decimal, digit_value, digits_value, free_of, is_digit, occurs_at, range_eq_lit,
    replace_char, replace_char_vec, string_of,
};

verus! {

/// dhat JSON backend: the path of a `dhat-heap.json` file.
#[derive(Debug, Clone)]
pub struct DhatBackend {
    json_path: String,
}

impl DhatBackend {
    /// A backend reading the profile at `json_path`.
    pub fn new(json_path: &str) -> (b: Self)
        ensures
            b.json_path()@ == json_path@,
    {
        DhatBackend { json_path: json_path.to_owned() }
    }

    /// The path of the profile.
    pub closed spec fn json_path(&self) -> String {
        self.json_path
    }

    /// The path of the profile.
    pub fn path(&self) -> (p: &String)
        ensures
            *p == self.json_path(),
    {
        &self.json_path
    }
}

/// The part of dhat's output that the collector reads.
#[derive(Debug, Clone)]
pub struct DhatJson {
    /// Frame table.
    pub ftbl: Vec<String>,
    /// Program points.
    pub pps: Vec<ProgramPoint>,
}

/// One dhat program point.
#[derive(Debug, Clone)]
pub struct ProgramPoint {
    /// Total bytes.
    pub tb: u64,
    /// Total blocks (allocation count).
    pub tbk: u64,
    /// Bytes at the global peak.
    pub gb: u64,
    /// Frame table indices.
    pub fs: Vec<u64>,
}

// ----------------------------------------------------------------------------
// The frame grammar
// ----------------------------------------------------------------------------

/// An ASCII hexadecimal digit.
pub open spec fn is_hex(c: char) -> bool {
    ('0' <= c && c <= '9') || ('a' <= c && c <= 'f') || ('A' <= c && c <= 'F')
}

/// Length of the run of hex digits at the start of `s`.
pub open spec fn hex_run(s: Seq<char>) -> nat
    decreases s.len(),
{
    if s.len() > 0 && is_hex(s[0]) {
        1 + hex_run(s.drop_first())
    } else {
        0
    }
}

/// The text after a leading `0x<hex digits>: ` address, if `s` has one.
pub open spec fn after_address(s: Seq<char>) -> Option<Seq<char>> {
    let n = hex_run(s.skip(2)) as int;
    if s.len() >= 2 && s[0] == '0' && s[1] == 'x' && n >= 1 && 4 + n <= s.len()
        && s[2 + n] == ':' && s[3 + n] == ' ' {
        Some(s.skip(4 + n))
    } else {
        None
    }
}

/// Position of the last `c` in `s` (meaningful when `s` holds a `c`).
pub open spec fn last_index(s: Seq<char>, c: char) -> int {
    choose|k: int| 0 <= k < s.len() && s[k] == c && free_of(s.skip(k + 1), c)
}

/// What the regex crate's `Regex::new(pattern)` and then `is_match(text)`
/// give: `None` when the pattern does not compile, else whether `text` holds
/// a match.
pub uninterp spec fn regex_match(pattern: Seq<char>, text: Seq<char>) -> Option<bool>;

/// Compiles `pattern` with the regex crate (`Regex::new`) and tests `text`
/// against it (`Regex::is_match`). Trusted: the result is the value named
/// by `regex_match`; a pattern that does not compile gives `None`.
#[verifier::external_body]
fn regex_is_match(pattern: &str, text: &str) -> (r: Option<bool>)
    ensures
        r == regex_match(pattern@, text@),
{
    match regex::Regex::new(pattern) {
        Ok(re) => Some(re.is_match(text)),
        Err(_) => None,
    }
}

/// A non-empty run of decimal digits as the pattern `\d+` reads it: ASCII
/// digits, or text that the regex crate's `^\d+$` (Unicode `\d`, that is
/// `\p{Nd}`) matches.
pub open spec fn decimal_run(s: Seq<char>) -> bool {
    s.len() > 0 && (all_digits(s) || regex_match("^\\d+$"@, s) == Some(true))
}

/// `inside` reads `FILE:LINE:COL)`, with FILE non-empty and free of line
/// breaks and LINE and COL decimal runs; the result is (FILE, LINE).
#[verifier::opaque]
pub open spec fn location(inside: Seq<char>) -> Option<(Seq<char>, Seq<char>)> {
    if inside.len() == 0 || inside.last() != ')' {
        None
    } else {
        let body = inside.drop_last();
        if free_of(body, ':') {
            None
        } else {
            let j = last_index(body, ':');
            let head = body.take(j);
            if free_of(head, ':') {
                None
            } else {
                let i = last_index(head, ':');
                let file = head.take(i);
                let line = head.subrange(i + 1, j);
                let col = body.skip(j + 1);
                if file.len() > 0 && free_of(file, '\n') && decimal_run(line) && decimal_run(col) {
                    Some((file, line))
                } else {
                    None
                }
            }
        }
    }
}

/// The rightmost position `p < end - 1` where `rest` holds ` (` followed by a
/// location running to the end of `rest`.
pub open spec fn location_start(rest: Seq<char>, end: int) -> Option<int>
    decreases end,
{
    if end < 2 {
        None
    } else if occurs_at(rest, " ("@, end - 2) && location(rest.skip(end)) is Some {
        Some(end - 2)
    } else {
        location_start(rest, end - 1)
    }
}

/// A line number as `str::parse::<u32>` reads a digit run: ASCII digits
/// whose value fits in `u32`; any other digit makes it absent.
pub open spec fn line_number(digits: Seq<char>) -> Option<u32> {
    if all_digits(digits) && digits_value(digits) <= u32::MAX {
        Some(digits_value(digits) as u32)
    } else {
        None
    }
}

/// What a dhat frame string denotes: `[root]` and strings without the
/// address prefix denote no frame; otherwise the function name runs up to the
/// rightmost ` (` that starts a `file:line:col)` suffix, the file is read
/// with `\` as `/`, and the line is kept when it is ASCII digits that fit in
/// `u32` (a run of other decimal digits still ends the location). Without such
/// a suffix the whole text after the address is the function name.
pub open spec fn frame_spec(s: Seq<char>) -> Option<FrameView> {
    if s == "[root]"@ {
        None
    } else {
        match after_address(s) {
            None => None,
            Some(rest) => match location_start(rest, rest.len() as int) {
                Some(p) => {
                    let loc = location(rest.skip(p + 2)).unwrap();
                    Some(FrameView {
                        function: rest.take(p),
                        file: Some(replace_char(loc.0, '\\', '/')),
                        line: line_number(loc.1),
                    })
                },
                None => Some(FrameView { function: rest, file: None, line: None }),
            },
        }
    }
}

// ----------------------------------------------------------------------------
// Parsing
// ----------------------------------------------------------------------------

/// Tests whether `c` is an ASCII hex digit.
fn is_hex_char(c: char) -> (b: bool)
    ensures
        b == is_hex(c),
{
    ('0' <= c && c <= '9') || ('a' <= c && c <= 'f') || ('A' <= c && c <= 'F')
}

/// Start of the text after the address prefix, if there is one.
fn address_end(v: &Vec<char>) -> (r: Option<usize>)
    ensures
        r is Some == after_address(v@) is Some,
        r matches Some(k) ==> k <= v@.len() && v@.skip(k as int) == after_address(v@).unwrap(),
{
    if v.len() < 2 || v[0] != '0' || v[1] != 'x' {
        return None;
    }
    let mut k: usize = 2;
    let ghost t = v@.skip(2);
    while k < v.len() && is_hex_char(v[k])
        invariant
            2 <= k <= v@.len(),
            t == v@.skip(2),
            hex_run(t) == (k - 2) + hex_run(v@.skip(k as int)),
        decreases v@.len() - k,
    {
        assert(v@.skip(k as int).drop_first() =~= v@.skip(k + 1));
        k += 1;
    }
    proof {
        assert(hex_run(v@.skip(k as int)) == 0);
    }
    if k == 2 || v.len() - k < 2 || v[k] != ':' || v[k + 1] != ' ' {
        return None;
    }
    Some(k + 2)
}

/// Position of the last `c` in `v[from..to]`.
fn last_index_in(v: &Vec<char>, from: usize, to: usize, c: char) -> (r: Option<usize>)
    requires
        from <= to <= v@.len(),
    ensures
        match r {
            Some(k) => from <= k < to && v@[k as int] == c && free_of(v@.subrange(k + 1, to as int), c)
                && !free_of(v@.subrange(from as int, to as int), c)
                && k - from == last_index(v@.subrange(from as int, to as int), c),
            None => free_of(v@.subrange(from as int, to as int), c),
        },
{
    let mut k = to;
    while k > from
        invariant
            from <= k <= to <= v@.len(),
            free_of(v@.subrange(k as int, to as int), c),
        decreases k - from,
    {
        if v[k - 1] == c {
            let ghost s = v@.subrange(from as int, to as int);
            let ghost m = k - 1 - from;
            proof {
                assert(s[m] == c);
                assert(s.skip(m + 1) =~= v@.subrange(k as int, to as int));
                let w = last_index(s, c);
                assert(0 <= w < s.len() && s[w] == c && free_of(s.skip(w + 1), c));
                if w < m {
                    assert(s.skip(w + 1)[m - w - 1] == c);
                } else if w > m {
                    assert(s.skip(m + 1)[w - m - 1] == c);
                }
            }
            return Some(k - 1);
        }
        k -= 1;
        assert forall|i: int| 0 <= i < v@.subrange(k as int, to as int).len()
            implies v@.subrange(k as int, to as int)[i] != c by {
            if i > 0 {
                assert(v@.subrange(k as int, to as int)[i] == v@.subrange(k + 1, to as int)[i - 1]);
            }
        }
    }
    None
}

/// Tests whether every character of `v[from..to]` is a decimal digit.
fn all_digits_in(v: &Vec<char>, from: usize, to: usize) -> (b: bool)
    requires
        from <= to <= v@.len(),
    ensures
        b == all_digits(v@.subrange(from as int, to as int)),
{
    let mut i = from;
    while i < to
        invariant
            from <= i <= to <= v@.len(),
            forall|j: int| from <= j < i ==> is_digit(v@[j]),
        decreases to - i,
    {
        if !('0' <= v[i] && v[i] <= '9') {
            assert(v@.subrange(from as int, to as int)[i - from] == v@[i as int]);
            return false;
        }
        i += 1;
    }
    assert forall|j: int| 0 <= j < v@.subrange(from as int, to as int).len()
        implies is_digit(v@.subrange(from as int, to as int)[j]) by {
        assert(v@.subrange(from as int, to as int)[j] == v@[from + j]);
    }
    true
}

/// Tests whether `v[from..to]` holds no `c`.
fn free_of_in(v: &Vec<char>, from: usize, to: usize, c: char) -> (b: bool)
    requires
        from <= to <= v@.len(),
    ensures
        b == free_of(v@.subrange(from as int, to as int), c),
{
    match last_index_in(v, from, to, c) {
        Some(_) => false,
        None => true,
    }
}

/// `location` in terms of the positions of the last two colons.
proof fn lemma_location(inside: Seq<char>, j: int, i: int)
    requires
        inside.len() > 0,
        inside.last() == ')',
        0 <= j < inside.len() - 1,
        inside[j] == ':',
        free_of(inside.drop_last().skip(j + 1), ':'),
        0 <= i < j,
        inside[i] == ':',
        free_of(inside.drop_last().take(j).skip(i + 1), ':'),
    ensures
        location(inside) == (if i > 0 && free_of(inside.take(i), '\n')
            && decimal_run(inside.subrange(i + 1, j))
            && decimal_run(inside.subrange(j + 1, inside.len() - 1)) {
            Some((inside.take(i), inside.subrange(i + 1, j)))
        } else {
            None
        }),
{
    reveal(location);
    let body = inside.drop_last();
    assert(body[j] == ':');
    assert(!free_of(body, ':'));
    let jj = last_index(body, ':');
    assert(0 <= jj < body.len() && body[jj] == ':' && free_of(body.skip(jj + 1), ':'));
    if jj < j {
        assert(body.skip(jj + 1)[j - jj - 1] == ':');
    } else if jj > j {
        assert(body.skip(j + 1)[jj - j - 1] == ':');
    }
    let head = body.take(j);
    assert(head[i] == ':');
    assert(!free_of(head, ':'));
    let ii = last_index(head, ':');
    assert(0 <= ii < head.len() && head[ii] == ':' && free_of(head.skip(ii + 1), ':'));
    if ii < i {
        assert(head.skip(ii + 1)[i - ii - 1] == ':');
    } else if ii > i {
        assert(head.skip(i + 1)[ii - i - 1] == ':');
    }
    assert(head.take(i) =~= inside.take(i));
    assert(head.subrange(i + 1, j) =~= inside.subrange(i + 1, j));
    assert(body.skip(j + 1) =~= inside.subrange(j + 1, inside.len() - 1));
}

/// `location` of `v[from..to]` in terms of absolute colon positions.
proof fn lemma_location_in(v: Seq<char>, from: int, to: int, j: int, i: int)
    requires
        0 <= from < to <= v.len(),
        v[to - 1] == ')',
        from <= i < j < to - 1,
        v[j] == ':',
        free_of(v.subrange(j + 1, to - 1), ':'),
        v[i] == ':',
        free_of(v.subrange(i + 1, j), ':'),
    ensures
        location(v.subrange(from, to)) == (if i > from && free_of(v.subrange(from, i), '\n')
            && decimal_run(v.subrange(i + 1, j))
            && decimal_run(v.subrange(j + 1, to - 1)) {
            Some((v.subrange(from, i), v.subrange(i + 1, j)))
        } else {
            None
        }),
{
    let inside = v.subrange(from, to);
    assert(inside.drop_last().skip(j - from + 1) =~= v.subrange(j + 1, to - 1));
    assert(inside.drop_last().take(j - from).skip(i - from + 1) =~= v.subrange(i + 1, j));
    lemma_location(inside, j - from, i - from);
    assert(inside.take(i - from) =~= v.subrange(from, i));
    assert(inside.subrange(i - from + 1, j - from) =~= v.subrange(i + 1, j));
    assert(inside.subrange(j - from + 1, inside.len() - 1) =~= v.subrange(j + 1, to - 1));
}

/// `v[from..to]` is no location when its body has at most one colon.
proof fn lemma_location_too_few_colons(v: Seq<char>, from: int, to: int, j: int)
    requires
        0 <= from < to <= v.len(),
        v[to - 1] == ')',
        from <= j < to - 1,
        v[j] == ':',
        free_of(v.subrange(j + 1, to - 1), ':'),
        free_of(v.subrange(from, j), ':'),
    ensures
        location(v.subrange(from, to)) is None,
{
    reveal(location);
    let body = v.subrange(from, to).drop_last();
    assert(body =~= v.subrange(from, to - 1));
    assert(body.skip(j - from + 1) =~= v.subrange(j + 1, to - 1));
    assert(body[j - from] == ':');
    assert(!free_of(body, ':'));
    let jj = last_index(body, ':');
    assert(0 <= jj < body.len() && body[jj] == ':' && free_of(body.skip(jj + 1), ':'));
    if jj < j - from {
        assert(body.skip(jj + 1)[j - from - jj - 1] == ':');
    } else if jj > j - from {
        assert(body.skip(j - from + 1)[jj - (j - from) - 1] == ':');
    }
    assert(body.take(j - from) =~= v.subrange(from, j));
}

/// `v[from..to]` is no location when it does not end in `)` or its body has
/// no colon.
proof fn lemma_location_no_colon(v: Seq<char>, from: int, to: int)
    requires
        0 <= from <= to <= v.len(),
        to == from || v[to - 1] != ')' || free_of(v.subrange(from, to - 1), ':'),
    ensures
        location(v.subrange(from, to)) is None,
{
    let inside = v.subrange(from, to);
    if to > from {
        assert(inside.drop_last() =~= v.subrange(from, to - 1));
        assert(inside.last() == v[to - 1]);
    }
    reveal(location);
}

/// The bounds of FILE and LINE when `v[from..to]` is a location.
fn location_in(v: &Vec<char>, from: usize, to: usize) -> (r: Option<(usize, usize, usize)>)
    requires
        from <= to <= v@.len(),
    ensures
        r is Some == location(v@.subrange(from as int, to as int)) is Some,
        r matches Some((fe, ls, le)) ==> from <= fe < ls <= le <= to
            && location(v@.subrange(from as int, to as int)).unwrap()
                == (v@.subrange(from as int, fe as int), v@.subrange(ls as int, le as int)),
{
    if to == from || v[to - 1] != ')' {
        proof { lemma_location_no_colon(v@, from as int, to as int); }
        return None;
    }
    let j = match last_index_in(v, from, to - 1, ':') {
        Some(j) => j,
        None => {
            proof { lemma_location_no_colon(v@, from as int, to as int); }
            return None;
        },
    };
    let i = match last_index_in(v, from, j, ':') {
        Some(i) => i,
        None => {
            proof { lemma_location_too_few_colons(v@, from as int, to as int, j as int); }
            return None;
        },
    };
    proof { lemma_location_in(v@, from as int, to as int, j as int, i as int); }
    if i > from && free_of_in(v, from, i, '\n') && decimal_run_in(v, i + 1, j)
        && decimal_run_in(v, j + 1, to - 1) {
        Some((i, i + 1, j))
    } else {
        None
    }
}

/// Tests whether `v[from..to]` is a decimal run.
fn decimal_run_in(v: &Vec<char>, from: usize, to: usize) -> (b: bool)
    requires
        from <= to <= v@.len(),
    ensures
        b == decimal_run(v@.subrange(from as int, to as int)),
{
    if from == to {
        return false;
    }
    if all_digits_in(v, from, to) {
        return true;
    }
    let s = string_of(v, from, to);
    match regex_is_match("^\\d+$", s.as_str()) {
        Some(m) => m,
        None => false,
    }
}

/// The value of `v[from..to]` when it is ASCII digits whose value fits in
/// `u32` (what `str::parse::<u32>` accepts of a digit run).
fn parse_line(v: &Vec<char>, from: usize, to: usize) -> (r: Option<u32>)
    requires
        from <= to <= v@.len(),
    ensures
        r == line_number(v@.subrange(from as int, to as int)),
{
    if !all_digits_in(v, from, to) {
        return None;
    }
    let ghost s = v@.subrange(from as int, to as int);
    let mut acc: u64 = 0;
    let mut over = false;
    let mut i = from;
    while i < to
        invariant
            from <= i <= to <= v@.len(),
            s == v@.subrange(from as int, to as int),
            all_digits(s),
            !over ==> acc == digits_value(s.take(i - from)) && acc <= u32::MAX,
            over ==> digits_value(s.take(i - from)) > u32::MAX,
        decreases to - i,
    {
        let c = v[i];
        assert(s[i - from] == c);
        assert(is_digit(c));
        assert(s.take(i - from + 1).drop_last() =~= s.take(i - from));
        let d: u64 = (c as u32 - '0' as u32) as u64;
        assert(d == digit_value(c));
        if !over {
            acc = acc * 10 + d;
            if acc > 0xffff_ffff {
                over = true;
            }
        }
        i += 1;
    }
    assert(s.take(to - from) =~= s);
    if over {
        None
    } else {
        Some(acc as u32)
    }
}

/// Whether ` (` at `start + end - 2` begins a location running to the end of
/// `v`, and if so the bounds of FILE and LINE.
fn suffix_location(v: &Vec<char>, start: usize, end: usize) -> (r: Option<(usize, usize, usize)>)
    requires
        start <= v@.len(),
        2 <= end <= v@.len() - start,
    ensures
        r is Some == (occurs_at(v@.skip(start as int), " ("@, end - 2)
            && location(v@.skip(start as int).skip(end as int)) is Some),
        r matches Some((fe, ls, le)) ==> start + end <= fe < ls <= le <= v@.len()
            && location(v@.skip(start as int).skip(end as int)).unwrap()
                == (v@.subrange(start + end, fe as int), v@.subrange(ls as int, le as int)),
{
    let ghost rest = v@.skip(start as int);
    let n = v.len();
    let pos = start + end - 2;
    assert(rest.skip(end as int) =~= v@.subrange(pos + 2, v@.len() as int));
    proof {
        reveal_strlit(" (");
    }
    if v[pos] == ' ' && v[pos + 1] == '(' {
        assert(rest.subrange(end - 2, end as int) =~= " ("@);
        location_in(v, pos + 2, v.len())
    } else {
        proof {
            if occurs_at(rest, " ("@, end - 2) {
                assert(rest.subrange(end - 2, end as int)[0] == ' ');
                assert(rest.subrange(end - 2, end as int)[1] == '(');
            }
        }
        None
    }
}

/// The frame whose function ends at `start + end - 2` and whose location has
/// FILE `v[start + end .. fe]` and LINE `v[ls..le]`.
fn located_frame(v: &Vec<char>, start: usize, end: usize, fe: usize, ls: usize, le: usize) -> (f: ResolvedFrame)
    requires
        start <= v@.len(),
        2 <= end <= v@.len() - start,
        start + end <= fe < ls <= le <= v@.len(),
        location(v@.skip(start as int).skip(end as int)) is Some,
        location(v@.skip(start as int).skip(end as int)).unwrap()
            == (v@.subrange(start + end, fe as int), v@.subrange(ls as int, le as int)),
    ensures
        f@ == (FrameView {
            function: v@.skip(start as int).take(end - 2),
            file: Some(replace_char(location(v@.skip(start as int).skip(end as int)).unwrap().0, '\\', '/')),
            line: line_number(location(v@.skip(start as int).skip(end as int)).unwrap().1),
        }),
{
    let ghost rest = v@.skip(start as int);
    let n = v.len();
    let pos = start + end - 2;
    let function = string_of(v, start, pos);
    assert(rest.take(end - 2) =~= v@.subrange(start as int, pos as int));
    let fc = string_of(v, pos + 2, fe);
    let fv = chars_of(fc.as_str());
    let fixed = replace_char_vec(&fv, '\\', '/');
    let file = string_of(&fixed, 0, fixed.len());
    assert(fixed@.subrange(0, fixed@.len() as int) =~= fixed@);
    let line = parse_line(v, ls, le);
    ResolvedFrame { function, file: Some(file), line }
}

/// Parse a dhat frame string; see [`frame_spec`] for what it denotes.
pub fn parse_frame(frame_str: &str) -> (r: Option<ResolvedFrame>)
    ensures
        r is Some == frame_spec(frame_str@) is Some,
        r matches Some(f) ==> f@ == frame_spec(frame_str@).unwrap(),
{
    let v = chars_of(frame_str);
    if range_eq_lit(&v, 0, v.len(), "[root]") {
        assert(v@.subrange(0, v@.len() as int) =~= v@);
        return None;
    }
    assert(v@.subrange(0, v@.len() as int) =~= v@);

    // Step 1: strip the "0xADDR: " prefix.
    let start = match address_end(&v) {
        Some(k) => k,
        None => return None,
    };
    let ghost rest = v@.skip(start as int);

    // Step 2: find the rightmost " (" that begins a `file:line:col)` suffix.
    let mut end = v.len() - start;
    while end >= 2
        invariant
            start <= v@.len(),
            rest == v@.skip(start as int),
            v@ == frame_str@,
            v@ != "[root]"@,
            after_address(v@) == Some(rest),
            end <= rest.len(),
            location_start(rest, rest.len() as int) == location_start(rest, end as int),
        decreases end,
    {
        if let Some((fe, ls, le)) = suffix_location(&v, start, end) {
            let f = located_frame(&v, start, end, fe, ls, le);
            proof {
                assert(location_start(rest, end as int) == Some(end - 2));
                assert(after_address(v@) == Some(rest));
                assert(v@ == frame_str@);
                assert(frame_spec(frame_str@) == Some(f@));
            }
            return Some(f);
        }
        end -= 1;
    }
    assert(location_start(rest, end as int) is None);

    // No file info: just a function name.
    let function = string_of(&v, start, v.len());
    assert(v@.subrange(start as int, v@.len() as int) =~= rest);
    Some(ResolvedFrame { function, file: None, line: None })
}

/// The frame that a frame-table index resolves to, if any.
pub open spec fn frame_at(ftbl: Seq<String>, idx: u64) -> Option<FrameView> {
    if (idx as usize) < ftbl.len() {
        frame_spec(ftbl[(idx as usize) as int]@)
    } else {
        None
    }
}

/// The resolved frames of a program point, in order: indices that are out of
/// range or name no frame are skipped.
pub open spec fn point_frames(ftbl: Seq<String>, fs: Seq<u64>) -> Seq<FrameView> {
    fs.filter_map(|idx: u64| frame_at(ftbl, idx))
}

/// The allocation record of a program point, if it has any resolved frame.
pub open spec fn point_allocation(ftbl: Seq<String>, pp: ProgramPoint) -> Option<RawAllocationView> {
    let frames = point_frames(ftbl, pp.fs@);
    if frames.len() == 0 {
        None
    } else {
        Some(RawAllocationView { total_bytes: pp.tb, total_count: pp.tbk, peak_bytes: pp.gb, frames })
    }
}

/// The allocation records of a dhat profile.
pub open spec fn dhat_allocations(dhat: DhatJson) -> Seq<RawAllocationView> {
    dhat.pps@.filter_map(|pp: ProgramPoint| point_allocation(dhat.ftbl@, pp))
}

/// The resolved frames of one program point.
fn resolve_frames(ftbl: &Vec<String>, fs: &Vec<u64>) -> (frames: Vec<ResolvedFrame>)
    ensures
        frames_view(frames@) == point_frames(ftbl@, fs@),
{
    let mut frames: Vec<ResolvedFrame> = Vec::new();
    let mut i: usize = 0;
    while i < fs.len()
        invariant
            i <= fs@.len(),
            frames_view(frames@) == fs@.take(i as int).filter_map(|idx: u64| frame_at(ftbl@, idx)),
        decreases fs@.len() - i,
    {
        let idx = fs[i] as usize;
        let ghost prev = frames@;
        assert(fs@.take(i + 1).drop_last() =~= fs@.take(i as int));
        if idx < ftbl.len() {
            match parse_frame(ftbl[idx].as_str()) {
                Some(f) => {
                    frames.push(f);
                    assert(frames_view(frames@) =~= frames_view(prev) + seq![f@]);
                },
                None => {},
            }
        }
        i += 1;
    }
    assert(fs@.take(fs@.len() as int) =~= fs@);
    frames
}

/// The allocation records of a dhat profile: one per program point that has
/// a resolved frame, in order.
pub fn allocations_from_dhat(dhat: &DhatJson) -> (allocations: Vec<RawAllocation>)
    ensures
        allocations@.map_values(|a: RawAllocation| a@) == dhat_allocations(*dhat),
{
    let mut allocations: Vec<RawAllocation> = Vec::new();
    let mut i: usize = 0;
    while i < dhat.pps.len()
        invariant
            i <= dhat.pps@.len(),
            allocations@.map_values(|a: RawAllocation| a@)
                == dhat.pps@.take(i as int).filter_map(|pp: ProgramPoint| point_allocation(dhat.ftbl@, pp)),
        decreases dhat.pps@.len() - i,
    {
        let pp = &dhat.pps[i];
        let frames = resolve_frames(&dhat.ftbl, &pp.fs);
        let ghost prev = allocations@;
        assert(dhat.pps@.take(i + 1).drop_last() =~= dhat.pps@.take(i as int));
        // Skip entries with no resolvable frames (e.g., only "[root]").
        if frames.len() > 0 {
            let a = RawAllocation { total_bytes: pp.tb, total_count: pp.tbk, peak_bytes: pp.gb, frames };
            allocations.push(a);
            assert(allocations@.map_values(|a: RawAllocation| a@) =~= prev.map_values(|a: RawAllocation| a@) + seq![a@]);
        }
        i += 1;
    }
    assert(dhat.pps@.take(dhat.pps@.len() as int) =~= dhat.pps@);
    allocations
}

/// A parsed frame's file uses `/` only: Windows separators are normalized.
pub proof fn law_parsed_files_use_forward_slashes(s: Seq<char>)
    requires
        frame_spec(s) is Some,
        frame_spec(s).unwrap().file is Some,
    ensures
        free_of(frame_spec(s).unwrap().file.unwrap(), '\\'),
{
}

/// The frame text dhat writes for code at `file:line:col`:
/// `0x<addr>: <function> (<file>:<line>:<col>)`.
pub open spec fn dhat_frame_text(addr: Seq<char>, function: Seq<char>, file: Seq<char>, line: u32, col: u32) -> Seq<char> {
    seq!['0', 'x'] + addr + seq![':', ' '] + function + seq![' ', '('] + file + seq![':']
        + decimal(line as nat) + seq![':'] + decimal(col as nat) + seq![')']
}

/// The hex run of hex digits followed by a non-hex character is exactly
/// those digits.
proof fn lemma_hex_run_prefix(a: Seq<char>, t: Seq<char>)
    requires
        forall|i: int| 0 <= i < a.len() ==> is_hex(#[trigger] a[i]),
        t.len() > 0,
        !is_hex(t[0]),
    ensures
        hex_run(a + t) == a.len(),
    decreases a.len(),
{
    if a.len() == 0 {
        assert(a + t =~= t);
    } else {
        assert((a + t)[0] == a[0]);
        assert((a + t).drop_first() =~= a.drop_first() + t);
        lemma_hex_run_prefix(a.drop_first(), t);
    }
}

/// `location_start` finds the ` (` at `q` when no later ` (` does.
proof fn lemma_location_start_found(rest: Seq<char>, end: int, q: int)
    requires
        0 <= q,
        q + 2 <= end <= rest.len(),
        occurs_at(rest, " ("@, q),
        location(rest.skip(q + 2)) is Some,
        forall|e: int| q + 2 < e <= end ==> !occurs_at(rest, " ("@, #[trigger] (e - 2)),
    ensures
        location_start(rest, end) == Some(q),
    decreases end,
{
    if end > q + 2 {
        assert(!occurs_at(rest, " ("@, end - 2));
        lemma_location_start_found(rest, end - 1, q);
    }
}

/// The address prefix of dhat's frame text.
proof fn lemma_frame_address(addr: Seq<char>, rest: Seq<char>)
    requires
        addr.len() >= 1,
        forall|i: int| 0 <= i < addr.len() ==> is_hex(#[trigger] addr[i]),
    ensures
        after_address(seq!['0', 'x'] + addr + seq![':', ' '] + rest) == Some(rest),
{
    let s = seq!['0', 'x'] + addr + seq![':', ' '] + rest;
    let n = addr.len() as int;
    assert(s.skip(2) =~= addr + (seq![':', ' '] + rest));
    lemma_hex_run_prefix(addr, seq![':', ' '] + rest);
    assert(s[2 + n] == ':' && s[3 + n] == ' ');
    assert(s.skip(4 + n) =~= rest);
}

/// Digits hold no `c` that is not a digit.
proof fn lemma_digits_free_of(d: Seq<char>, c: char)
    requires
        all_digits(d),
        !is_digit(c),
    ensures
        free_of(d, c),
{
    assert forall|k: int| 0 <= k < d.len() implies d[k] != c by {
        assert(is_digit(d[k]));
    }
}

/// The location part of dhat's frame text reads (file, line digits).
proof fn lemma_frame_location(file: Seq<char>, ln: Seq<char>, cn: Seq<char>)
    requires
        file.len() > 0,
        free_of(file, '\n'),
        ln.len() > 0,
        all_digits(ln),
        cn.len() > 0,
        all_digits(cn),
    ensures
        location(file + seq![':'] + ln + seq![':'] + cn + seq![')']) == Some((file, ln)),
{
    let inside = file + seq![':'] + ln + seq![':'] + cn + seq![')'];
    let fl = file.len() as int;
    let j = fl + 1 + ln.len();
    assert(inside[fl] == ':');
    assert(inside[j] == ':');
    assert(inside.last() == ')');
    assert(inside.drop_last().skip(j + 1) =~= cn);
    lemma_digits_free_of(cn, ':');
    assert(inside.drop_last().take(j).skip(fl + 1) =~= ln);
    lemma_digits_free_of(ln, ':');
    lemma_location(inside, j, fl);
    assert(inside.take(fl) =~= file);
    assert(inside.subrange(fl + 1, j) =~= ln);
    assert(inside.subrange(j + 1, inside.len() - 1) =~= cn);
}

/// No ` (` starts inside the location part of dhat's frame text.
proof fn lemma_frame_no_later_paren(function: Seq<char>, file: Seq<char>, ln: Seq<char>, cn: Seq<char>)
    requires
        !contains_seq(file, " ("@),
        all_digits(ln),
        all_digits(cn),
    ensures
        ({
            let rest = function + seq![' ', '('] + (file + seq![':'] + ln + seq![':'] + cn + seq![')']);
            forall|e: int| function.len() + 2 < e <= rest.len() ==> !occurs_at(rest, " ("@, #[trigger] (e - 2))
        }),
{
    reveal_strlit(" (");
    let inside = file + seq![':'] + ln + seq![':'] + cn + seq![')'];
    let rest = function + seq![' ', '('] + inside;
    let q = function.len() as int;
    let fl = file.len() as int;
    let j = fl + 1 + ln.len();
    assert forall|e: int| q + 2 < e <= rest.len() implies !occurs_at(rest, " ("@, #[trigger] (e - 2)) by {
        let m = e - 2;
        if occurs_at(rest, " ("@, m) {
            assert(rest.subrange(m, m + 2)[0] == ' ');
            assert(rest.subrange(m, m + 2)[1] == '(');
            if m == q + 1 {
                assert(rest[q + 1] == '(');
            } else {
                let k = m - q - 2;
                assert(rest[m] == inside[k]);
                assert(rest[m + 1] == inside[k + 1]);
                if k + 1 < fl {
                    assert(inside[k] == file[k] && inside[k + 1] == file[k + 1]);
                    assert(file.subrange(k, k + 2) =~= " ("@);
                    assert(occurs_at(file, " ("@, k));
                } else if k + 1 == fl {
                    assert(inside[fl] == ':');
                } else if k == fl {
                    assert(inside[fl] == ':');
                } else if k < j {
                    assert(inside[k] == ln[k - fl - 1]);
                    assert(is_digit(ln[k - fl - 1]));
                } else if k == j {
                    assert(inside[j] == ':');
                } else {
                    assert(k < inside.len() - 1);
                    assert(inside[k] == cn[k - j - 1]);
                    assert(is_digit(cn[k - j - 1]));
                }
            }
        }
    }
}

/// A `u32` written in decimal reads back as a line number.
proof fn lemma_decimal_line(n: u32)
    ensures
        decimal(n as nat).len() > 0,
        all_digits(decimal(n as nat)),
        line_number(decimal(n as nat)) == Some(n),
{
    lemma_decimal(n as nat);
}

/// Parsing reads back what dhat writes: for a hex address, any function
/// name, a non-empty file path without line breaks or ` (`, and any line and
/// column, the frame text denotes that function, that file (with `\` read as
/// `/`) and that line. Parentheses inside the function name do not matter.
pub proof fn law_parse_frame_reads_back_dhat_text(addr: Seq<char>, function: Seq<char>, file: Seq<char>, line: u32, col: u32)
    requires
        addr.len() >= 1,
        forall|i: int| 0 <= i < addr.len() ==> is_hex(#[trigger] addr[i]),
        file.len() > 0,
        free_of(file, '\n'),
        !contains_seq(file, " ("@),
    ensures
        frame_spec(dhat_frame_text(addr, function, file, line, col)) == Some(FrameView {
            function: function,
            file: Some(replace_char(file, '\\', '/')),
            line: Some(line),
        }),
{
    reveal_strlit(" (");
    reveal_strlit("[root]");
    let ln = decimal(line as nat);
    let cn = decimal(col as nat);
    lemma_decimal_line(line);
    lemma_decimal_line(col);
    let inside = file + seq![':'] + ln + seq![':'] + cn + seq![')'];
    let rest = function + seq![' ', '('] + inside;
    let s = dhat_frame_text(addr, function, file, line, col);
    assert(s =~= seq!['0', 'x'] + addr + seq![':', ' '] + rest);
    lemma_frame_address(addr, rest);
    assert(s != "[root]"@) by {
        assert(s[0] == '0');
        assert("[root]"@[0] == '[');
    }
    lemma_frame_location(file, ln, cn);
    let q = function.len() as int;
    assert(rest.skip(q + 2) =~= inside);
    assert(rest.subrange(q, q + 2) =~= " ("@);
    lemma_frame_no_later_paren(function, file, ln, cn);
    lemma_location_start_found(rest, rest.len() as int, q);
    assert(rest.take(q) =~= function);
}

/// The frames of a program point follow its frame-table indices in order:
/// appending an index appends its frame, when it resolves to one, at the
/// end; and when every index resolves, the `j`-th frame is the frame of the
/// `j`-th index, so the allocator's frames stay ahead of the caller's.
pub proof fn law_point_frames_follow_indices(ftbl: Seq<String>, fs: Seq<u64>, idx: u64)
    ensures
        point_frames(ftbl, fs.push(idx)) == point_frames(ftbl, fs) + match frame_at(ftbl, idx) {
            Some(f) => seq![f],
            None => Seq::<FrameView>::empty(),
        },
        (forall|j: int| 0 <= j < fs.len() ==> (#[trigger] frame_at(ftbl, fs[j])) is Some) ==> {
            &&& point_frames(ftbl, fs).len() == fs.len()
            &&& forall|j: int| 0 <= j < fs.len() ==> frame_at(ftbl, fs[j]) == Some(#[trigger] point_frames(ftbl, fs)[j])
        },
{
    assert(fs.push(idx).drop_last() =~= fs);
    assert(fs.push(idx).last() == idx);
    if forall|j: int| 0 <= j < fs.len() ==> (#[trigger] frame_at(ftbl, fs[j])) is Some {
        lemma_point_frames_all_resolve(ftbl, fs);
    }
}

proof fn lemma_point_frames_all_resolve(ftbl: Seq<String>, fs: Seq<u64>)
    requires
        forall|j: int| 0 <= j < fs.len() ==> (#[trigger] frame_at(ftbl, fs[j])) is Some,
    ensures
        point_frames(ftbl, fs).len() == fs.len(),
        forall|j: int| 0 <= j < fs.len() ==> frame_at(ftbl, fs[j]) == Some(#[trigger] point_frames(ftbl, fs)[j]),
    decreases fs.len(),
{
    if fs.len() > 0 {
        let h = fs.drop_last();
        assert forall|j: int| 0 <= j < h.len() implies (#[trigger] frame_at(ftbl, h[j])) is Some by {
            assert(h[j] == fs[j]);
            assert(frame_at(ftbl, fs[j]) is Some);
        }
        lemma_point_frames_all_resolve(ftbl, h);
        assert(frame_at(ftbl, fs[fs.len() - 1]) is Some);
        let f = frame_at(ftbl, fs.last()).unwrap();
        assert(point_frames(ftbl, fs) == point_frames(ftbl, h) + seq![f]);
        assert forall|j: int| 0 <= j < fs.len() implies frame_at(ftbl, fs[j]) == Some(#[trigger] point_frames(ftbl, fs)[j]) by {
            if j < h.len() {
                assert(h[j] == fs[j]);
                assert(point_frames(ftbl, fs)[j] == point_frames(ftbl, h)[j]);
            }
        }
    }
}

/// The allocation records of a profile follow its program points in order:
/// when every program point resolves at least one frame, the `j`-th record
/// carries the `j`-th point's totals and frames.
pub proof fn law_allocations_follow_program_points(dhat: DhatJson)
    requires
        forall|j: int| 0 <= j < dhat.pps@.len() ==> point_frames(dhat.ftbl@, (#[trigger] dhat.pps@[j]).fs@).len() > 0,
    ensures
        dhat_allocations(dhat).len() == dhat.pps@.len(),
        forall|j: int| 0 <= j < dhat.pps@.len() ==> {
            let a = #[trigger] dhat_allocations(dhat)[j];
            let pp = dhat.pps@[j];
            &&& a.total_bytes == pp.tb
            &&& a.total_count == pp.tbk
            &&& a.peak_bytes == pp.gb
            &&& a.frames == point_frames(dhat.ftbl@, pp.fs@)
        },
{
    lemma_points_all_resolve(dhat.ftbl@, dhat.pps@);
    assert(dhat_allocations(dhat) == point_allocations(dhat.ftbl@, dhat.pps@));
    assert forall|j: int| 0 <= j < dhat.pps@.len() implies point_allocation(dhat.ftbl@, dhat.pps@[j]) == Some(#[trigger] dhat_allocations(dhat)[j]) by {
        assert(Some(point_allocations(dhat.ftbl@, dhat.pps@)[j]) == point_allocation(dhat.ftbl@, dhat.pps@[j]));
    }
}

/// The allocation records of the program points `pps`.
spec fn point_allocations(ftbl: Seq<String>, pps: Seq<ProgramPoint>) -> Seq<RawAllocationView> {
    pps.filter_map(|pp: ProgramPoint| point_allocation(ftbl, pp))
}

proof fn lemma_points_all_resolve(ftbl: Seq<String>, pps: Seq<ProgramPoint>)
    requires
        forall|j: int| 0 <= j < pps.len() ==> point_frames(ftbl, (#[trigger] pps[j]).fs@).len() > 0,
    ensures
        point_allocations(ftbl, pps).len() == pps.len(),
        forall|j: int| 0 <= j < pps.len() ==> Some(#[trigger] point_allocations(ftbl, pps)[j])
            == point_allocation(ftbl, pps[j]),
    decreases pps.len(),
{
    if pps.len() > 0 {
        let h = pps.drop_last();
        assert forall|j: int| 0 <= j < h.len() implies point_frames(ftbl, (#[trigger] h[j]).fs@).len() > 0 by {
            assert(h[j] == pps[j]);
            assert(point_frames(ftbl, pps[j].fs@).len() > 0);
        }
        lemma_points_all_resolve(ftbl, h);
        assert(point_frames(ftbl, pps[pps.len() - 1].fs@).len() > 0);
        let all = point_allocations(ftbl, pps);
        let part = point_allocations(ftbl, h);
        assert(all == part + seq![point_allocation(ftbl, pps.last()).unwrap()]);
        assert forall|j: int| 0 <= j < pps.len() implies Some(#[trigger] all[j]) == point_allocation(ftbl, pps[j]) by {
            if j < h.len() {
                assert(h[j] == pps[j]);
                assert(all[j] == part[j]);
            }
        }
    }
}

} // verus!
