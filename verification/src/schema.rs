//! The report format shared by every tool: one report, keyed
//! `file -> line -> entries`. Runtime and static analyses append entries; the
//! `source` and `kind` fields tell them apart.

use vstd::prelude::*;

use crate::strmap::StrMap;

verus! {

/// Current schema version. Bump when the shape changes.
pub const SCHEMA_VERSION: u32 = 1;

/// Where an entry came from.
#[derive(Debug, Clone, Copy, PartialEq, Eq, Structural)]
pub enum Source {
    Runtime,
    Static,
}

/// What kind of allocation information an entry carries.
#[derive(Debug, Clone, Copy, PartialEq, Eq, Structural)]
pub enum Kind {
    /// Runtime: cumulative heap allocation stats for this line.
    HeapCumulative,
    /// Static: an allocation-site construct was found on this line.
    AllocSite,
    /// Static: a type's stack size (upper bound).
    TypeSize,
}

/// A call stack captured at allocation time (runtime only).
#[derive(Debug, Clone)]
pub struct StackTrace {
    /// Frames from deepest (user code) to shallowest.
    pub frames: Vec<String>,
    /// Bytes attributed to this particular call path.
    pub bytes: u64,
}

/// A single allocation entry.
#[derive(Debug, Clone)]
pub struct Entry {
    pub source: Source,
    pub kind: Kind,
    /// Runtime: cumulative bytes allocated at this line.
    pub bytes: Option<u64>,
    /// Runtime: number of allocations at this line.
    pub count: Option<u64>,
    /// Runtime: peak bytes at this line.
    pub peak_bytes: Option<u64>,
    /// Runtime: call stacks that led to allocations at this line.
    pub stacks: Option<Vec<StackTrace>>,
    /// Static: the allocation-site constructs found.
    pub constructs: Option<Vec<String>>,
    /// Static: a human-readable hint about the amount, never a number.
    pub amount_hint: Option<String>,
    /// Static (type_size): the type name.
    pub ty: Option<String>,
    /// Static (type_size): stack size in bytes (an upper bound).
    pub stack_bytes: Option<u64>,
}

/// All allocation entries for a single source line.
#[derive(Debug, Clone)]
pub struct LineData {
    pub entries: Vec<Entry>,
}

/// Allocation data for a single source file.
#[derive(Debug)]
pub struct FileData {
    /// Hex-encoded blake3 hash of the file's contents at generation time.
    pub content_hash: String,
    /// Per-line entries, keyed by the 1-based line number in decimal.
    pub lines: StrMap<LineData>,
}

/// Root of the allocation report.
#[derive(Debug)]
pub struct AllocationReport {
    /// Schema version, [`SCHEMA_VERSION`] for reports this library makes.
    pub version: u32,
    /// RFC 3339 timestamp of when this report was generated.
    pub generated_at: String,
    /// Absolute path of the workspace root the report was generated from.
    pub workspace_root: String,
    /// Per-file data, keyed by path relative to `workspace_root`.
    pub files: StrMap<FileData>,
}

/// Abstract stack trace.
pub struct StackTraceView {
    pub frames: Seq<Seq<char>>,
    pub bytes: u64,
}

/// Abstract entry: every string taken by its characters.
pub struct EntryView {
    pub source: Source,
    pub kind: Kind,
    pub bytes: Option<u64>,
    pub count: Option<u64>,
    pub peak_bytes: Option<u64>,
    pub stacks: Option<Seq<StackTraceView>>,
    pub constructs: Option<Seq<Seq<char>>>,
    pub amount_hint: Option<Seq<char>>,
    pub ty: Option<Seq<char>>,
    pub stack_bytes: Option<u64>,
}

/// Abstract file data: the hash and the line map.
#[verifier::ext_equal]
pub struct FileDataView {
    pub content_hash: Seq<char>,
    pub lines: Map<Seq<char>, Seq<EntryView>>,
}

/// Abstract report.
#[verifier::ext_equal]
pub struct ReportView {
    pub version: u32,
    pub generated_at: Seq<char>,
    pub workspace_root: Seq<char>,
    pub files: Map<Seq<char>, FileDataView>,
}

/// The views of a sequence of strings.
pub open spec fn strings_view(v: Seq<String>) -> Seq<Seq<char>> {
    v.map_values(|s: String| s@)
}

/// The view of an optional string.
pub open spec fn opt_string_view(o: Option<String>) -> Option<Seq<char>> {
    match o {
        Some(s) => Some(s@),
        None => None,
    }
}

/// The views of a sequence of stack traces.
pub open spec fn stacks_view(v: Seq<StackTrace>) -> Seq<StackTraceView> {
    v.map_values(|t: StackTrace| t@)
}

/// The views of a sequence of entries.
pub open spec fn entries_view(v: Seq<Entry>) -> Seq<EntryView> {
    v.map_values(|e: Entry| e@)
}

impl View for StackTrace {
    type V = StackTraceView;

    open spec fn view(&self) -> StackTraceView {
        StackTraceView { frames: strings_view(self.frames@), bytes: self.bytes }
    }
}

impl View for Entry {
    type V = EntryView;

    open spec fn view(&self) -> EntryView {
        EntryView {
            source: self.source,
            kind: self.kind,
            bytes: self.bytes,
            count: self.count,
            peak_bytes: self.peak_bytes,
            stacks: match self.stacks {
                Some(v) => Some(stacks_view(v@)),
                None => None,
            },
            constructs: match self.constructs {
                Some(v) => Some(strings_view(v@)),
                None => None,
            },
            amount_hint: opt_string_view(self.amount_hint),
            ty: opt_string_view(self.ty),
            stack_bytes: self.stack_bytes,
        }
    }
}

impl View for LineData {
    type V = Seq<EntryView>;

    open spec fn view(&self) -> Seq<EntryView> {
        entries_view(self.entries@)
    }
}

impl View for FileData {
    type V = FileDataView;

    open spec fn view(&self) -> FileDataView {
        FileDataView { content_hash: self.content_hash@, lines: self.lines@ }
    }
}

impl View for AllocationReport {
    type V = ReportView;

    open spec fn view(&self) -> ReportView {
        ReportView {
            version: self.version,
            generated_at: self.generated_at@,
            workspace_root: self.workspace_root@,
            files: self.files@,
        }
    }
}

/// A copy of a list of strings.
pub fn copy_strings(v: &Vec<String>) -> (out: Vec<String>)
    ensures
        out@ == v@,
{
    let mut out: Vec<String> = Vec::new();
    let mut i: usize = 0;
    while i < v.len()
        invariant
            i <= v@.len(),
            out@ == v@.take(i as int),
        decreases v@.len() - i,
    {
        out.push(v[i].clone());
        i += 1;
        assert(out@ =~= v@.take(i as int));
    }
    assert(v@.take(v@.len() as int) =~= v@);
    out
}

/// A copy of an optional string.
pub fn copy_opt_string(o: &Option<String>) -> (out: Option<String>)
    ensures
        out == *o,
{
    match o {
        Some(s) => Some(s.clone()),
        None => None,
    }
}

impl StackTrace {
    /// A copy of this stack trace.
    pub fn copy(&self) -> (out: StackTrace)
        ensures
            out@ == self@,
    {
        StackTrace { frames: copy_strings(&self.frames), bytes: self.bytes }
    }
}

/// A copy of a list of stack traces.
pub fn copy_stacks(v: &Vec<StackTrace>) -> (out: Vec<StackTrace>)
    ensures
        stacks_view(out@) == stacks_view(v@),
{
    let mut out: Vec<StackTrace> = Vec::new();
    let mut i: usize = 0;
    while i < v.len()
        invariant
            i <= v@.len(),
            stacks_view(out@) == stacks_view(v@.take(i as int)),
        decreases v@.len() - i,
    {
        let c = v[i].copy();
        let ghost prev = out@;
        out.push(c);
        i += 1;
        assert(v@.take(i as int) =~= v@.take(i - 1).push(v@[i - 1]));
        assert(stacks_view(out@) =~= stacks_view(prev).push(c@));
        assert(stacks_view(v@.take(i as int)) =~= stacks_view(v@.take(i - 1)).push(v@[i - 1]@));
    }
    assert(v@.take(v@.len() as int) =~= v@);
    out
}

impl Entry {
    /// Create a runtime heap-cumulative entry.
    pub fn runtime_heap(bytes: u64, count: u64, peak_bytes: u64, stacks: Vec<StackTrace>) -> (e: Self)
        ensures
            e.stacks == Some(stacks),
            e@ == (EntryView {
                source: Source::Runtime,
                kind: Kind::HeapCumulative,
                bytes: Some(bytes),
                count: Some(count),
                peak_bytes: Some(peak_bytes),
                stacks: Some(stacks_view(stacks@)),
                constructs: None,
                amount_hint: None,
                ty: None,
                stack_bytes: None,
            }),
    {
        Entry {
            source: Source::Runtime,
            kind: Kind::HeapCumulative,
            bytes: Some(bytes),
            count: Some(count),
            peak_bytes: Some(peak_bytes),
            stacks: Some(stacks),
            constructs: None,
            amount_hint: None,
            ty: None,
            stack_bytes: None,
        }
    }

    /// Create a static allocation-site entry. It carries no amounts.
    pub fn static_alloc_site(constructs: Vec<String>, amount_hint: Option<String>) -> (e: Self)
        ensures
            e@ == (EntryView {
                source: Source::Static,
                kind: Kind::AllocSite,
                bytes: None,
                count: None,
                peak_bytes: None,
                stacks: None,
                constructs: Some(strings_view(constructs@)),
                amount_hint: opt_string_view(amount_hint),
                ty: None,
                stack_bytes: None,
            }),
    {
        Entry {
            source: Source::Static,
            kind: Kind::AllocSite,
            bytes: None,
            count: None,
            peak_bytes: None,
            stacks: None,
            constructs: Some(constructs),
            amount_hint,
            ty: None,
            stack_bytes: None,
        }
    }

    /// Create a static type-size entry.
    pub fn static_type_size(ty: &str, stack_bytes: u64) -> (e: Self)
        ensures
            e@ == (EntryView {
                source: Source::Static,
                kind: Kind::TypeSize,
                bytes: None,
                count: None,
                peak_bytes: None,
                stacks: None,
                constructs: None,
                amount_hint: None,
                ty: Some(ty@),
                stack_bytes: Some(stack_bytes),
            }),
    {
        Entry {
            source: Source::Static,
            kind: Kind::TypeSize,
            bytes: None,
            count: None,
            peak_bytes: None,
            stacks: None,
            constructs: None,
            amount_hint: None,
            ty: Some(ty.to_owned()),
            stack_bytes: Some(stack_bytes),
        }
    }

    /// A copy of this entry.
    pub fn copy(&self) -> (out: Entry)
        ensures
            out@ == self@,
    {
        let stacks = match &self.stacks {
            Some(v) => Some(copy_stacks(v)),
            None => None,
        };
        let constructs = match &self.constructs {
            Some(v) => Some(copy_strings(v)),
            None => None,
        };
        Entry {
            source: self.source,
            kind: self.kind,
            bytes: self.bytes,
            count: self.count,
            peak_bytes: self.peak_bytes,
            stacks,
            constructs,
            amount_hint: copy_opt_string(&self.amount_hint),
            ty: copy_opt_string(&self.ty),
            stack_bytes: self.stack_bytes,
        }
    }
}

/// Appends copies of `src` to `dst`.
pub fn append_entries(dst: &mut Vec<Entry>, src: &Vec<Entry>)
    ensures
        entries_view(final(dst)@) == entries_view(old(dst)@) + entries_view(src@),
{
    let mut i: usize = 0;
    while i < src.len()
        invariant
            i <= src@.len(),
            entries_view(dst@) == entries_view(old(dst)@) + entries_view(src@.take(i as int)),
        decreases src@.len() - i,
    {
        let c = src[i].copy();
        let ghost prev = dst@;
        dst.push(c);
        i += 1;
        assert(src@.take(i as int) =~= src@.take(i - 1).push(src@[i - 1]));
        assert(entries_view(dst@) =~= entries_view(prev).push(c@));
        assert(entries_view(src@.take(i as int)) =~= entries_view(src@.take(i - 1)).push(src@[i - 1]@));
        assert(entries_view(dst@) =~= entries_view(old(dst)@) + entries_view(src@.take(i as int)));
    }
    assert(src@.take(src@.len() as int) =~= src@);
}

impl LineData {
    /// A line with no entries.
    pub fn new() -> (l: Self)
        ensures
            l@ == Seq::<EntryView>::empty(),
    {
        let l = LineData { entries: Vec::new() };
        assert(l@ =~= Seq::<EntryView>::empty());
        l
    }
}

impl AllocationReport {
    /// Create a new empty report with the current schema version.
    pub fn new(workspace_root: &str, generated_at: &str) -> (r: Self)
        ensures
            r@ == (ReportView {
                version: SCHEMA_VERSION,
                generated_at: generated_at@,
                workspace_root: workspace_root@,
                files: Map::empty(),
            }),
    {
        AllocationReport {
            version: SCHEMA_VERSION,
            generated_at: generated_at.to_owned(),
            workspace_root: workspace_root.to_owned(),
            files: StrMap::new(),
        }
    }
}

} // verus!
