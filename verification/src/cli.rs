//! Decisions of the command-line tools: reading options and the package
//! name of a crate.

use vstd::prelude::*;

use crate::text::{
    range_eq_lit,
    before_first, chars_of, free_of, index_of_from, occurs_at, skip_leading_char, skip_trailing_char,
    starts_with, string_of, trim_char, trim_end_char, trim_end_white, trim_start_char, trim_start_white,
    trim_white, trim_white_range,
};

verus! {

/// Which binary a profiling run builds and runs.
#[derive(Debug, Clone, PartialEq, Eq)]
pub enum ProfileTarget {
    DefaultBin,
    Bin(String),
    Bench(String),
}

/// Abstract profiling target.
pub enum ProfileTargetView {
    DefaultBin,
    Bin(Seq<char>),
    Bench(Seq<char>),
}

impl View for ProfileTarget {
    type V = ProfileTargetView;

    open spec fn view(&self) -> ProfileTargetView {
        match self {
            ProfileTarget::DefaultBin => ProfileTargetView::DefaultBin,
            ProfileTarget::Bin(n) => ProfileTargetView::Bin(n@),
            ProfileTarget::Bench(n) => ProfileTargetView::Bench(n@),
        }
    }
}

/// Why the options of a profiling command were refused.
#[derive(Debug, Clone, PartialEq, Eq)]
pub enum ArgsError {
    /// No crate root was given.
    MissingCrateRoot,
    /// `--bench` was the last argument.
    MissingBenchName,
    /// `--bin` was the last argument.
    MissingBinName,
    /// An argument that is not an option.
    UnknownOption(String),
}

/// Abstract refusal.
pub enum ArgsErrorView {
    MissingCrateRoot,
    MissingBenchName,
    MissingBinName,
    UnknownOption(Seq<char>),
}

impl View for ArgsError {
    type V = ArgsErrorView;

    open spec fn view(&self) -> ArgsErrorView {
        match self {
            ArgsError::MissingCrateRoot => ArgsErrorView::MissingCrateRoot,
            ArgsError::MissingBenchName => ArgsErrorView::MissingBenchName,
            ArgsError::MissingBinName => ArgsErrorView::MissingBinName,
            ArgsError::UnknownOption(o) => ArgsErrorView::UnknownOption(o@),
        }
    }
}

/// Reads the options from `args[i..]`, the target chosen so far being
/// `target`: `--bench NAME` and `--bin NAME` choose the target (the last one
/// wins); anything else is refused.
pub open spec fn options_from(args: Seq<Seq<char>>, i: int, target: ProfileTargetView)
    -> Result<ProfileTargetView, ArgsErrorView>
    decreases args.len() - i,
{
    if i < 1 || i >= args.len() {
        Ok(target)
    } else if args[i] == "--bench"@ {
        if i + 1 >= args.len() {
            Err(ArgsErrorView::MissingBenchName)
        } else {
            options_from(args, i + 2, ProfileTargetView::Bench(args[i + 1]))
        }
    } else if args[i] == "--bin"@ {
        if i + 1 >= args.len() {
            Err(ArgsErrorView::MissingBinName)
        } else {
            options_from(args, i + 2, ProfileTargetView::Bin(args[i + 1]))
        }
    } else {
        Err(ArgsErrorView::UnknownOption(args[i]))
    }
}

/// What the arguments `<crate-root> [--bench NAME | --bin NAME]...` mean.
pub open spec fn args_spec(args: Seq<Seq<char>>) -> Result<(Seq<char>, ProfileTargetView), ArgsErrorView> {
    if args.len() == 0 {
        Err(ArgsErrorView::MissingCrateRoot)
    } else {
        match options_from(args, 1, ProfileTargetView::DefaultBin) {
            Ok(t) => Ok((args[0], t)),
            Err(e) => Err(e),
        }
    }
}

/// The view of a parse result.
pub open spec fn args_result_view(r: Result<(String, ProfileTarget), ArgsError>)
    -> Result<(Seq<char>, ProfileTargetView), ArgsErrorView>
{
    match r {
        Ok((root, t)) => Ok((root@, t@)),
        Err(e) => Err(e@),
    }
}

/// Tests whether `s` is exactly the literal `lit`.
fn is_lit(s: &String, lit: &str) -> (b: bool)
    ensures
        b == (s@ == lit@),
{
    let l = lit.to_owned();
    *s == l
}

/// Parse the arguments of a profiling command: the crate root, then
/// `--bench NAME` or `--bin NAME`.
pub fn parse_args(args: &Vec<String>) -> (r: Result<(String, ProfileTarget), ArgsError>)
    ensures
        args_result_view(r) == args_spec(args@.map_values(|a: String| a@)),
{
    let ghost av = args@.map_values(|a: String| a@);
    if args.len() == 0 {
        return Err(ArgsError::MissingCrateRoot);
    }
    let crate_root = args[0].clone();
    let mut target = ProfileTarget::DefaultBin;
    let mut i: usize = 1;
    while i < args.len()
        invariant
            1 <= i,
            i <= args@.len() + 1,
            av == args@.map_values(|a: String| a@),
            args@.len() > 0,
            crate_root@ == av[0],
            options_from(av, 1, ProfileTargetView::DefaultBin) == options_from(av, i as int, target@),
        decreases args@.len() + 1 - i,
    {
        let arg = &args[i];
        assert(av[i as int] == arg@);
        if is_lit(arg, "--bench") {
            if i + 1 >= args.len() {
                return Err(ArgsError::MissingBenchName);
            }
            assert(av[i + 1] == args@[i + 1]@);
            target = ProfileTarget::Bench(args[i + 1].clone());
            i += 2;
        } else if is_lit(arg, "--bin") {
            if i + 1 >= args.len() {
                return Err(ArgsError::MissingBinName);
            }
            assert(av[i + 1] == args@[i + 1]@);
            target = ProfileTarget::Bin(args[i + 1].clone());
            i += 2;
        } else {
            return Err(ArgsError::UnknownOption(arg.clone()));
        }
    }
    Ok((crate_root, target))
}

// ----------------------------------------------------------------------------
// Package name
// ----------------------------------------------------------------------------

/// The value part of a `name = "..."` line: the text between the first and
/// the second `=`, trimmed of white space, then of `"`, then of `'`.
pub open spec fn name_value(t: Seq<char>) -> Seq<char> {
    let after = t.skip(before_first(t, '=').len() as int + 1);
    trim_char(trim_char(trim_white(before_first(after, '=')), '"'), '\'')
}

/// A trimmed line that declares the name: it starts with `name` and holds
/// an `=`.
pub open spec fn is_name_line(t: Seq<char>) -> bool {
    starts_with(t, "name"@) && !free_of(t, '=')
}

/// A trimmed line that opens a table (`[name]` or `[[name]]`).
pub open spec fn is_table_header(t: Seq<char>) -> bool {
    t.len() > 0 && t[0] == '['
}

/// A trimmed line that opens the `[package]` table: before any `#` comment,
/// and trimmed of white space, it reads `[package]`.
pub open spec fn is_package_header(t: Seq<char>) -> bool {
    trim_white(before_first(t, '#')) == "[package]"@
}

/// The name declared in the `[package]` table of `text`, reading line by
/// line from the start; `in_package` says whether the reading starts inside
/// that table. A table header enters or leaves it; inside it, the first line
/// whose trimmed form declares a name gives the value.
pub open spec fn package_name_from(text: Seq<char>, in_package: bool) -> Option<Seq<char>>
    decreases text.len(),
{
    let line = before_first(text, '\n');
    let t = trim_white(line);
    if !is_table_header(t) && in_package && is_name_line(t) {
        Some(name_value(t))
    } else if line.len() >= text.len() {
        None
    } else {
        package_name_from(
            text.skip(line.len() as int + 1),
            if is_table_header(t) { is_package_header(t) } else { in_package },
        )
    }
}

/// The package name declared in a `Cargo.toml`'s text: the first name line
/// inside the `[package]` table.
pub open spec fn package_name_spec(text: Seq<char>) -> Option<Seq<char>> {
    package_name_from(text, false)
}

/// `before_first` is a prefix of its input.
proof fn lemma_before_first_len(s: Seq<char>, c: char)
    ensures
        before_first(s, c).len() <= s.len(),
        before_first(s, c).len() < s.len() ==> s[before_first(s, c).len() as int] == c,
        before_first(s, c) == s.take(before_first(s, c).len() as int),
    decreases s.len(),
{
    if s.len() > 0 && s[0] != c {
        lemma_before_first_len(s.drop_first(), c);
        assert(before_first(s, c) =~= s.take(before_first(s, c).len() as int));
    } else if s.len() > 0 {
        assert(before_first(s, c) =~= s.take(0));
    }
}

/// The package name from a `Cargo.toml`'s text: the first line inside the
/// `[package]` table that, trimmed, starts with `name` and holds an `=`; its
/// value is the text between the first two `=`, trimmed of white space and
/// quotes. `None` when the `[package]` table declares no name.
pub fn package_name(contents: &str) -> (r: Option<String>)
    ensures
        r is Some == package_name_spec(contents@) is Some,
        r matches Some(n) ==> n@ == package_name_spec(contents@).unwrap(),
{
    let v = chars_of(contents);
    let mut pos: usize = 0;
    let mut in_package = false;
    assert(v@.skip(0) =~= v@);
    loop
        invariant
            pos <= v@.len(),
            v@ == contents@,
            package_name_spec(v@) == package_name_from(v@.skip(pos as int), in_package),
        decreases v@.len() - pos,
    {
        let ghost text = v@.skip(pos as int);
        let e = index_of_from(&v, pos, '\n');
        let ghost line = before_first(text, '\n');
        assert(v@.subrange(pos as int, e as int) == line);
        let (a, b) = trim_white_range(&v, pos, e);
        let ghost t = trim_white(line);
        assert(v@.subrange(a as int, b as int) == t);
        let header = b > a && v[a] == '[';
        assert(header == is_table_header(t));
        let next_in_package = if header { is_package_header_range(&v, a, b) } else { in_package };
        let name_lit = chars_of("name");
        let starts = b - a >= name_lit.len() && occurs_at_range(&v, &name_lit, a);
        proof {
            if b - a >= name_lit@.len() {
                assert(t.take(name_lit@.len() as int) =~= v@.subrange(a as int, a + name_lit@.len()));
            }
        }
        assert(starts == starts_with(t, "name"@));
        if !header && in_package && starts {
            let q = index_of_from(&v, a, '=');
            if q < b {
                proof {
                    assert(t[q - a] == '=');
                }
                let r = index_of_from(&v, q + 1, '=');
                let r2 = if r < b { r } else { b };
                proof {
                    assert(free_of(v@.subrange(q + 1, r2 as int), '=')) by {
                        assert forall|x: int| 0 <= x < r2 - (q + 1) implies #[trigger] v@.subrange(q + 1, r2 as int)[x] != '=' by {
                            assert(v@.subrange(q + 1, r2 as int)[x] == v@.subrange(q + 1, r as int)[x]);
                        }
                    }
                    assert(v@.subrange(q + 1, b as int).take(r2 - (q + 1)) =~= v@.subrange(q + 1, r2 as int));
                    lemma_before_first_len(t, '=');
                    assert(!free_of(t, '='));
                    assert(before_first(t, '=').len() == q - a) by {
                        assert(v@.subrange(a as int, q as int) == before_first(v@.skip(a as int), '='));
                        assert(free_of(v@.subrange(a as int, q as int), '='));
                        lemma_first_index(t, '=', q - a);
                    }
                    let after = t.skip(q - a + 1);
                    assert(after =~= v@.subrange(q + 1, b as int));
                    lemma_first_index_seg(after, '=', r2 - (q + 1), v@.subrange(q + 1, r2 as int));
                }
                let (c, d) = trim_white_range(&v, q + 1, r2);
                let c2 = skip_leading_char(&v, c, d, '"');
                let d2 = skip_trailing_char(&v, c2, d, '"');
                proof {
                    assert(v@.subrange(c2 as int, d2 as int) == trim_char(v@.subrange(c as int, d as int), '"')) by {
                        lemma_trim_both(v@, c as int, d as int, c2 as int, d2 as int, '"');
                    }
                }
                let c3 = skip_leading_char(&v, c2, d2, '\'');
                let d3 = skip_trailing_char(&v, c3, d2, '\'');
                proof {
                    lemma_trim_both(v@, c2 as int, d2 as int, c3 as int, d3 as int, '\'');
                }
                return Some(string_of(&v, c3, d3));
            }
        }
        proof {
            if e < v@.len() {
                assert(text.skip(line.len() as int + 1) =~= v@.skip(e + 1));
            }
        }
        if e == v.len() {
            return None;
        }
        pos = e + 1;
        in_package = next_in_package;
    }
}

/// Tests whether the trimmed line `v[a..b]` opens the `[package]` table.
fn is_package_header_range(v: &Vec<char>, a: usize, b: usize) -> (r: bool)
    requires
        a <= b <= v@.len(),
    ensures
        r == is_package_header(v@.subrange(a as int, b as int)),
{
    let ghost t = v@.subrange(a as int, b as int);
    let h0 = index_of_from(v, a, '#');
    let h = if h0 < b { h0 } else { b };
    proof {
        assert(free_of(v@.subrange(a as int, h as int), '#')) by {
            assert forall|x: int| 0 <= x < h - a implies #[trigger] v@.subrange(a as int, h as int)[x] != '#' by {
                assert(v@.subrange(a as int, h as int)[x] == v@.subrange(a as int, h0 as int)[x]);
            }
        }
        assert(t.take(h - a) =~= v@.subrange(a as int, h as int));
        if h < b {
            assert(t[h - a] == v@[h as int]);
        }
        lemma_first_index_seg(t, '#', h - a, v@.subrange(a as int, h as int));
    }
    let (c, d) = trim_white_range(v, a, h);
    range_eq_lit(v, c, d, "[package]")
}

/// Tests whether `p` occurs in `v` at `i`.
fn occurs_at_range(v: &Vec<char>, p: &Vec<char>, i: usize) -> (b: bool)
    ensures
        b == occurs_at(v@, p@, i as int),
{
    crate::text::occurs_at_vec(v, p, i)
}

/// The first `c` in `s` is at `k` when `s[..k]` holds none and `s[k] == c`.
proof fn lemma_first_index(s: Seq<char>, c: char, k: int)
    requires
        0 <= k < s.len(),
        s[k] == c,
        free_of(s.take(k), c),
    ensures
        before_first(s, c) == s.take(k),
    decreases k,
{
    if k == 0 {
        assert(s.take(0) =~= Seq::<char>::empty());
    } else {
        assert(s.take(k)[0] == s[0]);
        assert forall|x: int| 0 <= x < k - 1 implies #[trigger] s.drop_first().take(k - 1)[x] != c by {
            assert(s.drop_first().take(k - 1)[x] == s.take(k)[x + 1]);
        }
        lemma_first_index(s.drop_first(), c, k - 1);
        assert(s.drop_first().take(k - 1) =~= s.take(k).drop_first());
        assert(seq![s[0]] + s.drop_first().take(k - 1) =~= s.take(k));
    }
}

/// `before_first(s, c)` is `seg` when `seg` is a `c`-free prefix of `s`
/// followed by `c` or by the end of `s`.
proof fn lemma_first_index_seg(s: Seq<char>, c: char, k: int, seg: Seq<char>)
    requires
        0 <= k <= s.len(),
        seg == s.take(k),
        free_of(seg, c),
        k < s.len() ==> s[k] == c,
    ensures
        before_first(s, c) == seg,
    decreases k,
{
    if k < s.len() {
        lemma_first_index(s, c, k);
    } else {
        assert(s.take(k) =~= s);
        lemma_free_before_first(s, c);
    }
}

/// A string without `c` is its own `before_first`.
proof fn lemma_free_before_first(s: Seq<char>, c: char)
    requires
        free_of(s, c),
    ensures
        before_first(s, c) == s,
    decreases s.len(),
{
    if s.len() > 0 {
        assert forall|x: int| 0 <= x < s.len() - 1 implies #[trigger] s.drop_first()[x] != c by {
            assert(s.drop_first()[x] == s[x + 1]);
        }
        lemma_free_before_first(s.drop_first(), c);
        assert(seq![s[0]] + s.drop_first() =~= s);
    }
}

/// Trimming `c` from both ends of `v[a..b]` in two steps.
proof fn lemma_trim_both(v: Seq<char>, a: int, b: int, a2: int, b2: int, c: char)
    requires
        0 <= a <= a2 <= b2 <= b <= v.len(),
        v.subrange(a2, b) == trim_start_char(v.subrange(a, b), c),
        v.subrange(a2, b2) == trim_end_char(v.subrange(a2, b), c),
    ensures
        v.subrange(a2, b2) == trim_char(v.subrange(a, b), c),
{
}

/// `before_first(s, c)` holds no `c`.
proof fn lemma_before_first_free(s: Seq<char>, c: char)
    ensures
        free_of(before_first(s, c), c),
    decreases s.len(),
{
    if s.len() > 0 && s[0] != c {
        lemma_before_first_free(s.drop_first(), c);
        let r = before_first(s.drop_first(), c);
        assert forall|i: int| 0 <= i < (seq![s[0]] + r).len() implies (seq![s[0]] + r)[i] != c by {
            if i > 0 {
                assert((seq![s[0]] + r)[i] == r[i - 1]);
            }
        }
    }
}

/// Trimming white space keeps a text free of `c`.
proof fn lemma_trim_white_free(x: Seq<char>, c: char)
    requires
        free_of(x, c),
    ensures
        free_of(trim_white(x), c),
{
    lemma_trim_start_free(x, c);
    lemma_trim_end_free(trim_start_white(x), c);
}

proof fn lemma_trim_start_free(x: Seq<char>, c: char)
    requires
        free_of(x, c),
    ensures
        free_of(trim_start_white(x), c),
    decreases x.len(),
{
    if x.len() > 0 {
        assert forall|i: int| 0 <= i < x.drop_first().len() implies x.drop_first()[i] != c by {
            assert(x.drop_first()[i] == x[i + 1]);
        }
        lemma_trim_start_free(x.drop_first(), c);
    }
}

proof fn lemma_trim_end_free(x: Seq<char>, c: char)
    requires
        free_of(x, c),
    ensures
        free_of(trim_end_white(x), c),
    decreases x.len(),
{
    if x.len() > 0 {
        assert forall|i: int| 0 <= i < x.drop_last().len() implies x.drop_last()[i] != c by {
            assert(x.drop_last()[i] == x[i]);
        }
        lemma_trim_end_free(x.drop_last(), c);
    }
}

/// Lines that come before any table header never give the package name:
/// text holding no `[` in front of a line break changes nothing.
pub proof fn law_lines_before_any_table_do_not_name_the_package(pre: Seq<char>, rest: Seq<char>)
    requires
        free_of(pre, '['),
    ensures
        package_name_spec(pre + seq!['\n'] + rest) == package_name_spec(rest),
    decreases pre.len(),
{
    let s = pre + seq!['\n'] + rest;
    let line = before_first(s, '\n');
    lemma_before_first_len(s, '\n');
    lemma_before_first_free(s, '\n');
    assert(s[pre.len() as int] == '\n');
    if line.len() > pre.len() {
        assert(line[pre.len() as int] == s[pre.len() as int]);
    }
    assert(line.len() <= pre.len());
    assert(line =~= pre.take(line.len() as int));
    assert(free_of(line, '[')) by {
        assert forall|i: int| 0 <= i < line.len() implies line[i] != '[' by {
            assert(line[i] == pre[i]);
        }
    }
    lemma_trim_white_free(line, '[');
    let t = trim_white(line);
    if t.len() > 0 {
        assert(t[0] != '[');
    }
    assert(!is_table_header(t));
    if line.len() == pre.len() {
        assert(s.skip(line.len() as int + 1) =~= rest);
    } else {
        let pre2 = pre.skip(line.len() as int + 1);
        assert(s.skip(line.len() as int + 1) =~= pre2 + seq!['\n'] + rest);
        assert(free_of(pre2, '[')) by {
            assert forall|i: int| 0 <= i < pre2.len() implies pre2[i] != '[' by {
                assert(pre2[i] == pre[i + line.len() + 1]);
            }
        }
        law_lines_before_any_table_do_not_name_the_package(pre2, rest);
    }
}

/// Right after a `[package]` header, a name line gives the package name,
/// whatever follows it.
pub proof fn law_name_after_package_header(name_line: Seq<char>, rest: Seq<char>)
    requires
        free_of(name_line, '\n'),
        is_name_line(trim_white(name_line)),
    ensures
        package_name_spec("[package]"@ + seq!['\n'] + name_line + seq!['\n'] + rest)
            == Some(name_value(trim_white(name_line))),
{
    reveal_strlit("[package]");
    reveal_strlit("name");
    let h = "[package]"@;
    let s = h + seq!['\n'] + name_line + seq!['\n'] + rest;
    // The header line.
    assert(free_of(s.take(9), '\n')) by {
        assert forall|i: int| 0 <= i < 9 implies s.take(9)[i] != '\n' by {
            assert(s.take(9)[i] == h[i]);
        }
    }
    lemma_first_index(s, '\n', 9);
    assert(s.take(9) =~= h);
    assert(trim_start_white(h) == h);
    assert(trim_end_white(h) == h);
    assert(trim_white(h) == h);
    assert(is_table_header(h));
    assert(before_first(h, '#') == h) by {
        assert(free_of(h, '#'));
        lemma_free_before_first(h, '#');
    }
    assert(is_package_header(h));
    let s2 = s.skip(10);
    assert(s2 =~= name_line + seq!['\n'] + rest);
    // The name line.
    let k = name_line.len() as int;
    assert(s2[k] == '\n');
    assert(s2.take(k) =~= name_line);
    lemma_first_index(s2, '\n', k);
    let t = trim_white(name_line);
    assert(starts_with(t, "name"@));
    assert(t.take(4)[0] == t[0]);
    assert("name"@[0] == 'n');
    assert(t[0] == 'n');
    assert(!is_table_header(t));
    assert(before_first(s2, '\n') == name_line);
    assert(package_name_from(s2, true) == Some(name_value(t)));
    assert(before_first(s, '\n') == h);
    assert(s.skip(10int) == s2);
    assert(package_name_from(s, false) == package_name_from(s2, true));
}

} // verus!
