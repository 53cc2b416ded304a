//! Allocation sites found in source code.
//!
//! A syntax walk (outside this library) reports each call, method call and
//! macro invocation with its line; [`AllocVisitor`] decides which of them are
//! allocation sites, and [`file_data_from_sites`] turns the sites of one file
//! into report entries. Sites are never amounts: static entries carry at most
//! a textual hint.

use vstd::prelude::*;

use crate::hashing::{blake3_hex, blake3_hex_digest};
use crate::schema::{copy_opt_string, strings_view, Entry, EntryView, FileData, FileDataView, Kind, LineData, Source};
use crate::strmap::StrMap;
use crate::text::{chars_of, decimal, lemma_decimal_injective, range_eq_lit, u64_to_string};

verus! {

/// Detected allocation site on a specific line.
#[derive(Debug, Clone)]
pub struct AllocSite {
    pub line: usize,
    pub construct: String,
    pub amount_hint: Option<String>,
}

/// Abstract allocation site.
pub struct AllocSiteView {
    pub line: usize,
    pub construct: Seq<char>,
    pub amount_hint: Option<Seq<char>>,
}

impl View for AllocSite {
    type V = AllocSiteView;

    open spec fn view(&self) -> AllocSiteView {
        AllocSiteView {
            line: self.line,
            construct: self.construct@,
            amount_hint: match self.amount_hint {
                Some(h) => Some(h@),
                None => None,
            },
        }
    }
}

/// The views of a sequence of sites.
pub open spec fn sites_view(v: Seq<AllocSite>) -> Seq<AllocSiteView> {
    v.map_values(|s: AllocSite| s@)
}

/// An allocation construct and an optional hint about its amount.
#[derive(Debug, Clone)]
pub struct Construct {
    pub name: String,
    pub hint: Option<String>,
}

/// The (name, hint) a construct denotes.
pub open spec fn construct_view(c: Construct) -> (Seq<char>, Option<Seq<char>>) {
    (c.name@, match c.hint {
        Some(h) => Some(h@),
        None => None,
    })
}

/// The construct denoted by an optional construct.
pub open spec fn opt_construct_view(c: Option<Construct>) -> Option<(Seq<char>, Option<Seq<char>>)> {
    match c {
        Some(c) => Some(construct_view(c)),
        None => None,
    }
}

impl Construct {
    /// A construct without a hint.
    pub fn new(name: &str) -> (c: Self)
        ensures
            construct_view(c) == (name@, None::<Seq<char>>),
    {
        Construct { name: name.to_owned(), hint: None }
    }

    /// A construct with an amount hint.
    pub fn with_hint(name: &str, hint: &str) -> (c: Self)
        ensures
            construct_view(c) == (name@, Some(hint@)),
    {
        Construct { name: name.to_owned(), hint: Some(hint.to_owned()) }
    }
}

/// The construct a two-segment path call `Type::function(...)` denotes.
pub open spec fn call_construct(ty: Seq<char>, func: Seq<char>) -> Option<(Seq<char>, Option<Seq<char>>)> {
    if ty == "Box"@ && func == "new"@ {
        Some(("Box::new"@, None))
    } else if ty == "Vec"@ && func == "new"@ {
        Some(("Vec::new"@, None))
    } else if ty == "Vec"@ && func == "with_capacity"@ {
        Some(("Vec::with_capacity"@, Some("capacity × element size"@)))
    } else if ty == "String"@ && func == "new"@ {
        Some(("String::new"@, None))
    } else if ty == "String"@ && func == "with_capacity"@ {
        Some(("String::with_capacity"@, Some("capacity bytes"@)))
    } else if ty == "String"@ && func == "from"@ {
        Some(("String::from"@, None))
    } else if ty == "HashMap"@ && func == "new"@ {
        Some(("HashMap::new"@, None))
    } else if ty == "HashMap"@ && func == "with_capacity"@ {
        Some(("HashMap::with_capacity"@, Some("capacity × entry size"@)))
    } else if ty == "HashSet"@ && func == "new"@ {
        Some(("HashSet::new"@, None))
    } else if ty == "HashSet"@ && func == "with_capacity"@ {
        Some(("HashSet::with_capacity"@, Some("capacity × entry size"@)))
    } else if ty == "BTreeMap"@ && func == "new"@ {
        Some(("BTreeMap::new"@, None))
    } else if ty == "BTreeSet"@ && func == "new"@ {
        Some(("BTreeSet::new"@, None))
    } else if ty == "VecDeque"@ && func == "new"@ {
        Some(("VecDeque::new"@, None))
    } else if ty == "VecDeque"@ && func == "with_capacity"@ {
        Some(("VecDeque::with_capacity"@, Some("capacity × element size"@)))
    } else if ty == "Rc"@ && func == "new"@ {
        Some(("Rc::new"@, None))
    } else if ty == "Arc"@ && func == "new"@ {
        Some(("Arc::new"@, None))
    } else {
        None
    }
}

/// The construct a call through a path with segments `segments` denotes:
/// only two-segment paths in the table of [`call_construct`] allocate.
pub open spec fn path_call_construct(segments: Seq<Seq<char>>) -> Option<(Seq<char>, Option<Seq<char>>)> {
    if segments.len() == 2 {
        call_construct(segments[0], segments[1])
    } else {
        None
    }
}

/// The construct a method call `.method(...)` denotes.
pub open spec fn method_construct(method: Seq<char>) -> Option<(Seq<char>, Option<Seq<char>>)> {
    if method == "clone"@ {
        Some((".clone()"@, None))
    } else if method == "to_owned"@ {
        Some((".to_owned()"@, None))
    } else if method == "to_string"@ {
        Some((".to_string()"@, None))
    } else if method == "to_vec"@ {
        Some((".to_vec()"@, None))
    } else if method == "into_boxed_slice"@ {
        Some((".into_boxed_slice()"@, None))
    } else if method == "collect"@ {
        Some((".collect()"@, None))
    } else {
        None
    }
}

/// The construct a macro invocation denotes, by the last segment of its
/// path (`format_args!` does not allocate by itself).
pub open spec fn macro_construct(name: Seq<char>) -> Option<(Seq<char>, Option<Seq<char>>)> {
    if name == "vec"@ {
        Some(("vec!"@, None))
    } else if name == "format"@ {
        Some(("format!"@, None))
    } else if name == "string"@ {
        Some(("string!"@, None))
    } else {
        None
    }
}

/// Tests whether `s` is exactly the literal `lit`.
fn is_lit(s: &str, lit: &str) -> (b: bool)
    ensures
        b == (s@ == lit@),
{
    let v = chars_of(s);
    let b = range_eq_lit(&v, 0, v.len(), lit);
    assert(v@.subrange(0, v@.len() as int) =~= v@);
    b
}

/// Classify a call `Type::function(...)` by its path segments.
pub fn classify_call(segments: &Vec<String>) -> (c: Option<Construct>)
    ensures
        opt_construct_view(c) == path_call_construct(strings_view(segments@)),
{
    if segments.len() != 2 {
        return None;
    }
    let ty = segments[0].as_str();
    let func = segments[1].as_str();
    assert(strings_view(segments@)[0] == ty@ && strings_view(segments@)[1] == func@);
    if is_lit(ty, "Box") && is_lit(func, "new") {
        Some(Construct::new("Box::new"))
    } else if is_lit(ty, "Vec") && is_lit(func, "new") {
        Some(Construct::new("Vec::new"))
    } else if is_lit(ty, "Vec") && is_lit(func, "with_capacity") {
        Some(Construct::with_hint("Vec::with_capacity", "capacity × element size"))
    } else if is_lit(ty, "String") && is_lit(func, "new") {
        Some(Construct::new("String::new"))
    } else if is_lit(ty, "String") && is_lit(func, "with_capacity") {
        Some(Construct::with_hint("String::with_capacity", "capacity bytes"))
    } else if is_lit(ty, "String") && is_lit(func, "from") {
        Some(Construct::new("String::from"))
    } else if is_lit(ty, "HashMap") && is_lit(func, "new") {
        Some(Construct::new("HashMap::new"))
    } else if is_lit(ty, "HashMap") && is_lit(func, "with_capacity") {
        Some(Construct::with_hint("HashMap::with_capacity", "capacity × entry size"))
    } else if is_lit(ty, "HashSet") && is_lit(func, "new") {
        Some(Construct::new("HashSet::new"))
    } else if is_lit(ty, "HashSet") && is_lit(func, "with_capacity") {
        Some(Construct::with_hint("HashSet::with_capacity", "capacity × entry size"))
    } else if is_lit(ty, "BTreeMap") && is_lit(func, "new") {
        Some(Construct::new("BTreeMap::new"))
    } else if is_lit(ty, "BTreeSet") && is_lit(func, "new") {
        Some(Construct::new("BTreeSet::new"))
    } else if is_lit(ty, "VecDeque") && is_lit(func, "new") {
        Some(Construct::new("VecDeque::new"))
    } else if is_lit(ty, "VecDeque") && is_lit(func, "with_capacity") {
        Some(Construct::with_hint("VecDeque::with_capacity", "capacity × element size"))
    } else if is_lit(ty, "Rc") && is_lit(func, "new") {
        Some(Construct::new("Rc::new"))
    } else if is_lit(ty, "Arc") && is_lit(func, "new") {
        Some(Construct::new("Arc::new"))
    } else {
        None
    }
}

/// Classify a method call `.method(...)` by the method's name.
pub fn classify_method_call(method: &str) -> (c: Option<Construct>)
    ensures
        opt_construct_view(c) == method_construct(method@),
{
    if is_lit(method, "clone") {
        Some(Construct::new(".clone()"))
    } else if is_lit(method, "to_owned") {
        Some(Construct::new(".to_owned()"))
    } else if is_lit(method, "to_string") {
        Some(Construct::new(".to_string()"))
    } else if is_lit(method, "to_vec") {
        Some(Construct::new(".to_vec()"))
    } else if is_lit(method, "into_boxed_slice") {
        Some(Construct::new(".into_boxed_slice()"))
    } else if is_lit(method, "collect") {
        Some(Construct::new(".collect()"))
    } else {
        None
    }
}

/// Classify a macro invocation by the last segment of its path (none for a
/// path without segments).
pub fn classify_macro(last_segment: Option<&str>) -> (c: Option<Construct>)
    ensures
        opt_construct_view(c) == match last_segment {
            Some(name) => macro_construct(name@),
            None => None,
        },
{
    let name = match last_segment {
        Some(n) => n,
        None => return None,
    };
    if is_lit(name, "vec") {
        Some(Construct::new("vec!"))
    } else if is_lit(name, "format") {
        Some(Construct::new("format!"))
    } else if is_lit(name, "format_args") {
        // does not allocate by itself
        proof {
            reveal_strlit("format_args");
            reveal_strlit("vec");
            reveal_strlit("format");
            reveal_strlit("string");
            assert(name@.len() == 11);
            assert("string"@.len() == 6);
            assert(macro_construct(name@) is None);
        }
        None
    } else if is_lit(name, "string") {
        Some(Construct::new("string!"))
    } else {
        None
    }
}

/// Collects allocation sites as the syntax walk reports nodes.
#[derive(Debug, Default)]
pub struct AllocVisitor {
    pub sites: Vec<AllocSite>,
}

/// The site a construct yields on a line.
pub open spec fn site_of(line: usize, c: (Seq<char>, Option<Seq<char>>)) -> AllocSiteView {
    AllocSiteView { line, construct: c.0, amount_hint: c.1 }
}

impl AllocVisitor {
    /// A visitor with no sites yet.
    pub fn new() -> (v: Self)
        ensures
            v.sites@ == Seq::<AllocSite>::empty(),
    {
        AllocVisitor { sites: Vec::new() }
    }

    /// Records a site.
    pub fn record(&mut self, line: usize, construct: &str, amount_hint: Option<&str>)
        ensures
            sites_view(final(self).sites@) == sites_view(old(self).sites@).push(AllocSiteView {
                line,
                construct: construct@,
                amount_hint: match amount_hint {
                    Some(h) => Some(h@),
                    None => None,
                },
            }),
    {
        let hint = match amount_hint {
            Some(h) => Some(h.to_owned()),
            None => None,
        };
        let site = AllocSite { line, construct: construct.to_owned(), amount_hint: hint };
        let ghost prev = self.sites@;
        self.sites.push(site);
        assert(sites_view(self.sites@) =~= sites_view(prev).push(site@));
    }

    fn record_construct(&mut self, line: usize, c: Construct)
        ensures
            sites_view(final(self).sites@) == sites_view(old(self).sites@).push(site_of(line, construct_view(c))),
    {
        let hint = copy_opt_string(&c.hint);
        let site = AllocSite { line, construct: c.name, amount_hint: hint };
        let ghost prev = self.sites@;
        self.sites.push(site);
        assert(sites_view(self.sites@) =~= sites_view(prev).push(site@));
    }

    /// A call expression on `line`; `path_segments` are the segment names of
    /// the callee when the callee is a path, none otherwise.
    pub fn on_call(&mut self, path_segments: Option<&Vec<String>>, line: usize)
        ensures
            sites_view(final(self).sites@) == match path_segments {
                Some(segs) => match path_call_construct(strings_view(segs@)) {
                    Some(c) => sites_view(old(self).sites@).push(site_of(line, c)),
                    None => sites_view(old(self).sites@),
                },
                None => sites_view(old(self).sites@),
            },
    {
        if let Some(segs) = path_segments {
            if let Some(c) = classify_call(segs) {
                self.record_construct(line, c);
            }
        }
    }

    /// A method call `.method(...)` whose name is on `line`.
    pub fn on_method_call(&mut self, method: &str, line: usize)
        ensures
            sites_view(final(self).sites@) == match method_construct(method@) {
                Some(c) => sites_view(old(self).sites@).push(site_of(line, c)),
                None => sites_view(old(self).sites@),
            },
    {
        if let Some(c) = classify_method_call(method) {
            self.record_construct(line, c);
        }
    }

    /// A macro invocation whose path ends in `last_segment` on `line`.
    pub fn on_macro(&mut self, last_segment: Option<&str>, line: usize)
        ensures
            sites_view(final(self).sites@) == match last_segment {
                Some(name) => match macro_construct(name@) {
                    Some(c) => sites_view(old(self).sites@).push(site_of(line, c)),
                    None => sites_view(old(self).sites@),
                },
                None => sites_view(old(self).sites@),
            },
    {
        if let Some(c) = classify_macro(last_segment) {
            self.record_construct(line, c);
        }
    }
}

/// The first amount hint among a line's sites, if any.
pub open spec fn first_hint(g: Seq<AllocSiteView>) -> Option<Seq<char>>
    decreases g.len(),
{
    if g.len() == 0 {
        None
    } else if first_hint(g.drop_last()) is Some {
        first_hint(g.drop_last())
    } else {
        g.last().amount_hint
    }
}

/// The one static entry of a line holding the sites `g`: every construct, in
/// order, and the first hint. No amounts.
pub open spec fn site_entry(g: Seq<AllocSiteView>) -> EntryView {
    EntryView {
        source: Source::Static,
        kind: Kind::AllocSite,
        bytes: None,
        count: None,
        peak_bytes: None,
        stacks: None,
        constructs: Some(g.map_values(|t: AllocSiteView| t.construct)),
        amount_hint: first_hint(g),
        ty: None,
        stack_bytes: None,
    }
}

/// A site lies on the line keyed `key`.
pub open spec fn on_line(key: Seq<char>) -> spec_fn(AllocSiteView) -> bool {
    |t: AllocSiteView| decimal(t.line as nat) == key
}

/// The line map of a file's sites: one entry per line that has a site.
pub open spec fn site_lines(sites: Seq<AllocSiteView>) -> Map<Seq<char>, Seq<EntryView>> {
    Map::new(
        |k: Seq<char>| exists|i: int| 0 <= i < sites.len() && decimal(#[trigger] sites[i].line as nat) == k,
        |k: Seq<char>| seq![site_entry(sites.filter(on_line(k)))],
    )
}

/// The data of a file with source text `source` and sites `sites`.
pub open spec fn file_data_spec(source: Seq<char>, sites: Seq<AllocSiteView>) -> FileDataView {
    FileDataView { content_hash: blake3_hex(vstd::utf8::encode_utf8(source)), lines: site_lines(sites) }
}

/// Report data for one source file: its content hash and one static
/// allocation-site entry per line that has sites, merging the constructs of
/// a line into that entry.
pub fn file_data_from_sites(source: &str, sites: &Vec<AllocSite>) -> (fd: FileData)
    ensures
        fd@ == file_data_spec(source@, sites_view(sites@)),
{
    let content_hash = blake3_hex_digest(source.as_bytes());
    let ghost sv = sites_view(sites@);
    let mut lines: StrMap<LineData> = StrMap::new();
    let mut i: usize = 0;
    proof {
        assert(lines@ =~= site_lines(sv.take(0)));
    }
    while i < sites.len()
        invariant
            i <= sites@.len(),
            sv == sites_view(sites@),
            lines@ == site_lines(sv.take(i as int)),
        decreases sites@.len() - i,
    {
        let site = &sites[i];
        let ghost t = sv[i as int];
        let ghost key = decimal(site.line as nat);
        let ghost prev = lines@;
        let ghost pre = sv.take(i as int);
        assert(sv.take(i + 1) =~= pre.push(t));
        let line_key = u64_to_string(site.line as u64);
        match lines.find(line_key.as_str()) {
            Some(fi) => {
                let placeholder = LineData { entries: Vec::new() };
                let mut old_line = lines.replace_at(fi, placeholder);
                let ghost g = pre.filter(on_line(key));
                assert(old_line@ == seq![site_entry(g)]);
                assert(old_line.entries@.len() == 1);
                let ghost e0 = old_line.entries@[0];
                assert(e0@ == old_line@[0]);
                let mut e = old_line.entries.pop().unwrap();
                assert(e == e0);
                assert(e@ == site_entry(g));
                let constructs = match e.constructs {
                    Some(mut c) => {
                        let ghost c0 = c@;
                        c.push(site.construct.clone());
                        assert(strings_view(c@) =~= strings_view(c0).push(site.construct@));
                        Some(c)
                    },
                    None => None,
                };
                e.constructs = constructs;
                // If the new site has a hint and the entry has none, take it.
                if e.amount_hint.is_none() && site.amount_hint.is_some() {
                    e.amount_hint = copy_opt_string(&site.amount_hint);
                }
                proof {
                    pre.lemma_filter_push(t, on_line(key));
                    assert(g.push(t).drop_last() =~= g);
                    assert(g.push(t).map_values(|u: AllocSiteView| u.construct)
                        =~= g.map_values(|u: AllocSiteView| u.construct).push(t.construct));
                    assert(e@ == site_entry(g.push(t)));
                }
                let mut entries: Vec<Entry> = Vec::new();
                entries.push(e);
                lines.replace_at(fi, LineData { entries });
                proof {
                    assert(lines@ =~= site_lines(sv.take(i + 1))) by {
                        assert forall|k: Seq<char>| #[trigger] lines@.dom().contains(k)
                            <==> site_lines(sv.take(i + 1)).dom().contains(k) by {
                            if site_lines(sv.take(i + 1)).dom().contains(k) {
                                let j = choose|j: int| 0 <= j < sv.take(i + 1).len() && decimal(#[trigger] sv.take(i + 1)[j].line as nat) == k;
                                if j < i {
                                    assert(pre[j] == sv.take(i + 1)[j]);
                                }
                            }
                            if prev.dom().contains(k) {
                                let j = choose|j: int| 0 <= j < pre.len() && decimal(#[trigger] pre[j].line as nat) == k;
                                assert(sv.take(i + 1)[j] == pre[j]);
                            }
                        }
                        assert forall|k: Seq<char>| #[trigger] lines@.dom().contains(k) implies
                            lines@[k] == site_lines(sv.take(i + 1))[k] by {
                            if k != key {
                                pre.lemma_filter_push(t, on_line(k));
                            }
                        }
                    }
                }
            },
            None => {
                let hint = copy_opt_string(&site.amount_hint);
                let mut cs: Vec<String> = Vec::new();
                cs.push(site.construct.clone());
                let e = Entry::static_alloc_site(cs, hint);
                let mut entries: Vec<Entry> = Vec::new();
                entries.push(e);
                proof {
                    pre.lemma_filter_push(t, on_line(key));
                    assert(pre.all(|x: AllocSiteView| !on_line(key)(x))) by {
                        assert forall|j: int| 0 <= j < pre.len() implies !on_line(key)(#[trigger] pre[j]) by {
                            if on_line(key)(pre[j]) {
                                assert(decimal(pre[j].line as nat) == key);
                                assert(prev.dom().contains(key));
                            }
                        }
                    }
                    pre.lemma_all_neg_filter_empty(on_line(key));
                    let g1 = pre.filter(on_line(key)).push(t);
                    assert(g1 =~= seq![t]);
                    assert(g1.drop_last() =~= Seq::<AllocSiteView>::empty());
                    assert(first_hint(Seq::<AllocSiteView>::empty()) is None);
                    assert(t == site@);
                    assert(first_hint(g1) == t.amount_hint);
                    assert(g1.map_values(|u: AllocSiteView| u.construct) =~= seq![t.construct]);
                    assert(strings_view(cs@) =~= seq![site.construct@]);
                    assert(e@ == site_entry(g1));
                }
                lines.push_new(line_key, LineData { entries });
                proof {
                    assert(lines@ =~= site_lines(sv.take(i + 1))) by {
                        assert forall|k: Seq<char>| #[trigger] lines@.dom().contains(k)
                            <==> site_lines(sv.take(i + 1)).dom().contains(k) by {
                            if site_lines(sv.take(i + 1)).dom().contains(k) {
                                let j = choose|j: int| 0 <= j < sv.take(i + 1).len() && decimal(#[trigger] sv.take(i + 1)[j].line as nat) == k;
                                if j < i {
                                    assert(pre[j] == sv.take(i + 1)[j]);
                                }
                            }
                            if prev.dom().contains(k) {
                                let j = choose|j: int| 0 <= j < pre.len() && decimal(#[trigger] pre[j].line as nat) == k;
                                assert(sv.take(i + 1)[j] == pre[j]);
                            }
                            if k == key {
                                assert(sv.take(i + 1)[i as int] == t);
                            }
                        }
                        assert forall|k: Seq<char>| #[trigger] lines@.dom().contains(k) implies
                            lines@[k] == site_lines(sv.take(i + 1))[k] by {
                            if k != key {
                                pre.lemma_filter_push(t, on_line(k));
                            }
                        }
                    }
                }
            },
        }
        i += 1;
    }
    assert(sv.take(i as int) =~= sv);
    FileData { content_hash, lines }
}

/// Static entries made from sites carry no amounts: no bytes, no count, no
/// peak and no stacks, only constructs and at most a textual hint.
pub proof fn law_static_entries_carry_no_amounts(source: Seq<char>, sites: Seq<AllocSiteView>, line: Seq<char>)
    requires
        file_data_spec(source, sites).lines.dom().contains(line),
    ensures
        file_data_spec(source, sites).lines[line].len() == 1,
        file_data_spec(source, sites).lines[line][0].source == Source::Static,
        file_data_spec(source, sites).lines[line][0].kind == Kind::AllocSite,
        file_data_spec(source, sites).lines[line][0].bytes is None,
        file_data_spec(source, sites).lines[line][0].count is None,
        file_data_spec(source, sites).lines[line][0].peak_bytes is None,
        file_data_spec(source, sites).lines[line][0].stacks is None,
{
}

/// The method calls that allocate are exactly `clone`, `to_owned`,
/// `to_string`, `to_vec`, `into_boxed_slice` and `collect`; each is reported
/// as `.<method>()` with no hint.
pub proof fn law_allocating_method_calls(method: Seq<char>)
    ensures
        method_construct(method) is Some <==> (method == "clone"@ || method == "to_owned"@
            || method == "to_string"@ || method == "to_vec"@ || method == "into_boxed_slice"@
            || method == "collect"@),
        method_construct(method) is Some ==> method_construct(method) == Some((seq!['.'] + method + seq!['(', ')'], None::<Seq<char>>)),
{
    reveal_strlit("clone");
    reveal_strlit("to_owned");
    reveal_strlit("to_string");
    reveal_strlit("to_vec");
    reveal_strlit("into_boxed_slice");
    reveal_strlit("collect");
    reveal_strlit(".clone()");
    reveal_strlit(".to_owned()");
    reveal_strlit(".to_string()");
    reveal_strlit(".to_vec()");
    reveal_strlit(".into_boxed_slice()");
    reveal_strlit(".collect()");
    let named = seq!['.'] + method + seq!['(', ')'];
    if method == "clone"@ {
        assert(named =~= ".clone()"@);
    } else if method == "to_owned"@ {
        assert(named =~= ".to_owned()"@);
    } else if method == "to_string"@ {
        assert(named =~= ".to_string()"@);
    } else if method == "to_vec"@ {
        assert(named =~= ".to_vec()"@);
    } else if method == "into_boxed_slice"@ {
        assert(named =~= ".into_boxed_slice()"@);
    } else if method == "collect"@ {
        assert(named =~= ".collect()"@);
    }
}

/// The macros that allocate are exactly `vec!`, `format!` and `string!`;
/// each is reported as `<name>!` with no hint (`format_args!` is not one).
pub proof fn law_allocating_macros(name: Seq<char>)
    ensures
        macro_construct(name) is Some <==> (name == "vec"@ || name == "format"@ || name == "string"@),
        macro_construct(name) is Some ==> macro_construct(name) == Some((name.push('!'), None::<Seq<char>>)),
{
    reveal_strlit("vec");
    reveal_strlit("format");
    reveal_strlit("string");
    reveal_strlit("vec!");
    reveal_strlit("format!");
    reveal_strlit("string!");
    if name == "vec"@ {
        assert(name.push('!') =~= "vec!"@);
    } else if name == "format"@ {
        assert(name.push('!') =~= "format!"@);
    } else if name == "string"@ {
        assert(name.push('!') =~= "string!"@);
    }
}

/// A type whose `new` allocates (or, for `BTreeMap`/`BTreeSet`, is reported).
pub open spec fn allocating_new(ty: Seq<char>) -> bool {
    ty == "Box"@ || ty == "Vec"@ || ty == "String"@ || ty == "HashMap"@ || ty == "HashSet"@
        || ty == "BTreeMap"@ || ty == "BTreeSet"@ || ty == "VecDeque"@ || ty == "Rc"@ || ty == "Arc"@
}

/// A type with a `with_capacity` constructor.
pub open spec fn with_capacity_type(ty: Seq<char>) -> bool {
    ty == "Vec"@ || ty == "String"@ || ty == "HashMap"@ || ty == "HashSet"@ || ty == "VecDeque"@
}

/// Path calls that allocate are exactly two-segment `T::new` for the
/// allocating types, `T::with_capacity` for the collections that have it,
/// and `String::from`; each is reported under its own path `T::f`, and
/// exactly the `with_capacity` calls carry an amount hint.
pub proof fn law_allocating_path_calls(segments: Seq<Seq<char>>)
    ensures
        path_call_construct(segments) is Some <==> (segments.len() == 2 && (
            (allocating_new(segments[0]) && segments[1] == "new"@)
            || (with_capacity_type(segments[0]) && segments[1] == "with_capacity"@)
            || (segments[0] == "String"@ && segments[1] == "from"@))),
        path_call_construct(segments) is Some ==> ({
            let c = path_call_construct(segments).unwrap();
            &&& c.0 == segments[0] + seq![':', ':'] + segments[1]
            &&& (c.1 is Some <==> segments[1] == "with_capacity"@)
        }),
{
    reveal_strlit("Box");
    reveal_strlit("Vec");
    reveal_strlit("String");
    reveal_strlit("HashMap");
    reveal_strlit("HashSet");
    reveal_strlit("BTreeMap");
    reveal_strlit("BTreeSet");
    reveal_strlit("VecDeque");
    reveal_strlit("Rc");
    reveal_strlit("Arc");
    reveal_strlit("new");
    reveal_strlit("with_capacity");
    reveal_strlit("from");
    reveal_strlit("Box::new");
    reveal_strlit("Vec::new");
    reveal_strlit("Vec::with_capacity");
    reveal_strlit("String::new");
    reveal_strlit("String::with_capacity");
    reveal_strlit("String::from");
    reveal_strlit("HashMap::new");
    reveal_strlit("HashMap::with_capacity");
    reveal_strlit("HashSet::new");
    reveal_strlit("HashSet::with_capacity");
    reveal_strlit("BTreeMap::new");
    reveal_strlit("BTreeSet::new");
    reveal_strlit("VecDeque::new");
    reveal_strlit("VecDeque::with_capacity");
    reveal_strlit("Rc::new");
    reveal_strlit("Arc::new");
    if segments.len() == 2 {
        let ty = segments[0];
        let func = segments[1];
        let named = ty + seq![':', ':'] + func;
        if ty == "Box"@ && func == "new"@ { assert(named =~= "Box::new"@); }
        else if ty == "Vec"@ && func == "new"@ { assert(named =~= "Vec::new"@); }
        else if ty == "Vec"@ && func == "with_capacity"@ { assert(named =~= "Vec::with_capacity"@); }
        else if ty == "String"@ && func == "new"@ { assert(named =~= "String::new"@); }
        else if ty == "String"@ && func == "with_capacity"@ { assert(named =~= "String::with_capacity"@); }
        else if ty == "String"@ && func == "from"@ { assert(named =~= "String::from"@); }
        else if ty == "HashMap"@ && func == "new"@ { assert(named =~= "HashMap::new"@); }
        else if ty == "HashMap"@ && func == "with_capacity"@ { assert(named =~= "HashMap::with_capacity"@); }
        else if ty == "HashSet"@ && func == "new"@ { assert(named =~= "HashSet::new"@); }
        else if ty == "HashSet"@ && func == "with_capacity"@ { assert(named =~= "HashSet::with_capacity"@); }
        else if ty == "BTreeMap"@ && func == "new"@ { assert(named =~= "BTreeMap::new"@); }
        else if ty == "BTreeSet"@ && func == "new"@ { assert(named =~= "BTreeSet::new"@); }
        else if ty == "VecDeque"@ && func == "new"@ { assert(named =~= "VecDeque::new"@); }
        else if ty == "VecDeque"@ && func == "with_capacity"@ { assert(named =~= "VecDeque::with_capacity"@); }
        else if ty == "Rc"@ && func == "new"@ { assert(named =~= "Rc::new"@); }
        else if ty == "Arc"@ && func == "new"@ { assert(named =~= "Arc::new"@); }
    }
}

} // verus!
