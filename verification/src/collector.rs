//! Raw allocation records from a profiling run, and building a report from
//! them.

use vstd::prelude::*;

use crate::attribution::{attribute, attributed_to, attribution_spec, attribution_target, key_view};
use crate::schema::{
    copy_opt_string, entries_view, stacks_view, AllocationReport, Entry, EntryView, FileData,
    FileDataView, Kind, LineData, ReportView, Source, StackTrace, StackTraceView, SCHEMA_VERSION,
};
use crate::strmap::StrMap;
use crate::text::{decimal, lemma_decimal_injective, push_decimal, replace_char, replace_char_str, u64_to_string};

verus! {

/// Declares `std::io::Error` to the verifier. Nothing is claimed of it: it is
/// carried as an opaque value inside [`CollectorError::Io`].
#[verifier::external_type_specification]
#[verifier::external_body]
pub struct ExIoError(std::io::Error);

/// Why collecting allocations failed.
#[derive(Debug)]
pub enum CollectorError {
    Io(std::io::Error),
    Parse(String),
}

impl From<std::io::Error> for CollectorError {
    fn from(e: std::io::Error) -> (r: Self) {
        CollectorError::Io(e)
    }
}

impl vstd::std_specs::convert::FromSpecImpl<std::io::Error> for CollectorError {
    open spec fn obeys_from_spec() -> bool {
        true
    }

    open spec fn from_spec(e: std::io::Error) -> Self {
        CollectorError::Io(e)
    }
}

/// Seam for allocation collector backends: a backend provides the raw
/// allocation records of a profiling run.
pub trait CollectorBackend {
    /// Read the profiling output and return the raw allocation records.
    fn collect(&self) -> Result<Vec<RawAllocation>, CollectorError>;
}

/// A resolved stack frame with file/line info.
#[derive(Debug, Clone)]
pub struct ResolvedFrame {
    /// The function name (demangled).
    pub function: String,
    /// Source file path (as it appears in the debug info).
    pub file: Option<String>,
    /// 1-based line number.
    pub line: Option<u32>,
}

/// A single allocation record extracted from a profiler backend.
#[derive(Debug, Clone)]
pub struct RawAllocation {
    /// Total bytes allocated at this program point.
    pub total_bytes: u64,
    /// Total number of allocation events at this program point.
    pub total_count: u64,
    /// Peak (max live) bytes at this program point.
    pub peak_bytes: u64,
    /// Resolved stack frames, from deepest (allocator) to shallowest.
    pub frames: Vec<ResolvedFrame>,
}

/// Abstract frame.
pub struct FrameView {
    pub function: Seq<char>,
    pub file: Option<Seq<char>>,
    pub line: Option<u32>,
}

/// Abstract allocation record.
pub struct RawAllocationView {
    pub total_bytes: u64,
    pub total_count: u64,
    pub peak_bytes: u64,
    pub frames: Seq<FrameView>,
}

impl View for ResolvedFrame {
    type V = FrameView;

    open spec fn view(&self) -> FrameView {
        FrameView {
            function: self.function@,
            file: match self.file {
                Some(f) => Some(f@),
                None => None,
            },
            line: self.line,
        }
    }
}

/// The views of a sequence of frames.
pub open spec fn frames_view(v: Seq<ResolvedFrame>) -> Seq<FrameView> {
    v.map_values(|f: ResolvedFrame| f@)
}

impl View for RawAllocation {
    type V = RawAllocationView;

    open spec fn view(&self) -> RawAllocationView {
        RawAllocationView {
            total_bytes: self.total_bytes,
            total_count: self.total_count,
            peak_bytes: self.peak_bytes,
            frames: frames_view(self.frames@),
        }
    }
}

/// The views of a sequence of allocation records.
pub open spec fn allocations_view(v: Seq<RawAllocation>) -> Seq<RawAllocationView> {
    v.map_values(|a: RawAllocation| a@)
}

impl ResolvedFrame {
    /// A copy of this frame.
    pub fn copy(&self) -> (out: ResolvedFrame)
        ensures
            out@ == self@,
    {
        ResolvedFrame { function: self.function.clone(), file: copy_opt_string(&self.file), line: self.line }
    }
}

impl RawAllocation {
    /// A copy of this record.
    pub fn copy(&self) -> (out: RawAllocation)
        ensures
            out@ == self@,
    {
        let mut frames: Vec<ResolvedFrame> = Vec::new();
        let mut i: usize = 0;
        while i < self.frames.len()
            invariant
                i <= self.frames@.len(),
                frames_view(frames@) == frames_view(self.frames@.take(i as int)),
            decreases self.frames@.len() - i,
        {
            let f = self.frames[i].copy();
            let ghost prev = frames@;
            frames.push(f);
            i += 1;
            assert(self.frames@.take(i as int) =~= self.frames@.take(i - 1).push(self.frames@[i - 1]));
            assert(frames_view(frames@) =~= frames_view(prev).push(f@));
            assert(frames_view(self.frames@.take(i as int)) =~= frames_view(self.frames@.take(i - 1)).push(self.frames@[i - 1]@));
        }
        assert(self.frames@.take(self.frames@.len() as int) =~= self.frames@);
        RawAllocation {
            total_bytes: self.total_bytes,
            total_count: self.total_count,
            peak_bytes: self.peak_bytes,
            frames,
        }
    }
}

/// Total bytes of a group of allocations.
pub open spec fn sum_bytes(g: Seq<RawAllocationView>) -> int
    decreases g.len(),
{
    if g.len() == 0 {
        0
    } else {
        sum_bytes(g.drop_last()) + g.last().total_bytes
    }
}

/// Total allocation count of a group of allocations.
pub open spec fn sum_count(g: Seq<RawAllocationView>) -> int
    decreases g.len(),
{
    if g.len() == 0 {
        0
    } else {
        sum_count(g.drop_last()) + g.last().total_count
    }
}

/// Largest peak of a group of allocations (0 for none).
pub open spec fn max_peak(g: Seq<RawAllocationView>) -> u64
    decreases g.len(),
{
    if g.len() == 0 {
        0
    } else if g.last().peak_bytes > max_peak(g.drop_last()) {
        g.last().peak_bytes
    } else {
        max_peak(g.drop_last())
    }
}

/// A frame as written into a stack trace: `function (file:line)`, or just
/// the function when the location is unknown.
pub open spec fn frame_text(f: FrameView) -> Seq<char> {
    match (f.file, f.line) {
        (Some(file), Some(line)) => f.function + " ("@ + file + ":"@ + decimal(line as nat) + ")"@,
        _ => f.function,
    }
}

/// The stack trace recorded for one allocation.
pub open spec fn stack_of(a: RawAllocationView) -> StackTraceView {
    StackTraceView { frames: a.frames.map_values(|f: FrameView| frame_text(f)), bytes: a.total_bytes }
}

/// The runtime entry for the allocations attributed to one line.
pub open spec fn runtime_entry(g: Seq<RawAllocationView>) -> EntryView {
    EntryView {
        source: Source::Runtime,
        kind: Kind::HeapCumulative,
        bytes: Some(sum_bytes(g) as u64),
        count: Some(sum_count(g) as u64),
        peak_bytes: Some(max_peak(g)),
        stacks: Some(g.map_values(|a: RawAllocationView| stack_of(a))),
        constructs: None,
        amount_hint: None,
        ty: None,
        stack_bytes: None,
    }
}

/// No line's totals overflow `u64`.
pub open spec fn sums_fit(attr: Map<(Seq<char>, u32), Seq<RawAllocationView>>) -> bool {
    forall|k: (Seq<char>, u32)| #[trigger] attr.dom().contains(k) ==>
        sum_bytes(attr[k]) <= u64::MAX && sum_count(attr[k]) <= u64::MAX
}

/// The file map a set of attributed groups yields: each file that some
/// group names, hash `"unknown"`, one runtime entry per attributed line.
pub open spec fn report_files(attr: Map<(Seq<char>, u32), Seq<RawAllocationView>>) -> Map<Seq<char>, FileDataView> {
    Map::new(
        |f: Seq<char>| exists|l: u32| #[trigger] attr.dom().contains((f, l)),
        |f: Seq<char>| FileDataView {
            content_hash: "unknown"@,
            lines: Map::new(
                |s: Seq<char>| exists|l: u32| #[trigger] attr.dom().contains((f, l)) && s == decimal(l as nat),
                |s: Seq<char>| seq![runtime_entry(attr[(f, choose|l: u32| #[trigger] attr.dom().contains((f, l)) && s == decimal(l as nat))])],
            ),
        },
    )
}

/// The report built from `allocs`: workspace root with `\` read as `/`.
pub open spec fn build_spec(allocs: Seq<RawAllocationView>, workspace_root: Seq<char>, generated_at: Seq<char>) -> ReportView {
    let ws = replace_char(workspace_root, '\\', '/');
    ReportView {
        version: SCHEMA_VERSION,
        generated_at: generated_at,
        workspace_root: ws,
        files: report_files(attribution_spec(allocs, ws)),
    }
}

/// A frame as written into a stack trace.
pub fn frame_string(f: &ResolvedFrame) -> (s: String)
    ensures
        s@ == frame_text(f@),
{
    match (&f.file, f.line) {
        (Some(file), Some(line)) => {
            let mut s = f.function.clone();
            s.append(" (");
            s.append(file.as_str());
            s.append(":");
            push_decimal(&mut s, line as u64);
            s.append(")");
            s
        },
        _ => f.function.clone(),
    }
}

/// The stack trace recorded for one allocation.
fn stack_trace_of(a: &RawAllocation) -> (t: StackTrace)
    ensures
        t@ == stack_of(a@),
{
    let mut frames: Vec<String> = Vec::new();
    let mut i: usize = 0;
    while i < a.frames.len()
        invariant
            i <= a.frames@.len(),
            frames@.map_values(|s: String| s@) == frames_view(a.frames@.take(i as int)).map_values(|f: FrameView| frame_text(f)),
        decreases a.frames@.len() - i,
    {
        let t = frame_string(&a.frames[i]);
        let ghost prev = frames@;
        frames.push(t);
        i += 1;
        assert(a.frames@.take(i as int) =~= a.frames@.take(i - 1).push(a.frames@[i - 1]));
        assert(frames@.map_values(|s: String| s@) =~= prev.map_values(|s: String| s@).push(t@));
        assert(frames_view(a.frames@.take(i as int)) =~= frames_view(a.frames@.take(i - 1)).push(a.frames@[i - 1]@));
        assert(frames@.map_values(|s: String| s@) =~= frames_view(a.frames@.take(i as int)).map_values(|f: FrameView| frame_text(f)));
    }
    assert(a.frames@.take(a.frames@.len() as int) =~= a.frames@);
    StackTrace { frames, bytes: a.total_bytes }
}

/// The runtime entry summarising the allocations of one line.
fn runtime_entry_of(records: &Vec<RawAllocation>) -> (e: Entry)
    requires
        sum_bytes(allocations_view(records@)) <= u64::MAX,
        sum_count(allocations_view(records@)) <= u64::MAX,
    ensures
        e@ == runtime_entry(allocations_view(records@)),
{
    let ghost g = allocations_view(records@);
    let mut total_bytes: u64 = 0;
    let mut total_count: u64 = 0;
    let mut peak_bytes: u64 = 0;
    let mut stacks: Vec<StackTrace> = Vec::new();
    let mut i: usize = 0;
    while i < records.len()
        invariant
            i <= records@.len(),
            g == allocations_view(records@),
            sum_bytes(g) <= u64::MAX,
            sum_count(g) <= u64::MAX,
            total_bytes == sum_bytes(g.take(i as int)),
            total_count == sum_count(g.take(i as int)),
            peak_bytes == max_peak(g.take(i as int)),
            stacks_view(stacks@) == g.take(i as int).map_values(|a: RawAllocationView| stack_of(a)),
        decreases records@.len() - i,
    {
        let alloc = &records[i];
        proof {
            assert(g.take(i + 1).drop_last() =~= g.take(i as int));
            lemma_sum_prefix(g, i + 1);
        }
        total_bytes = total_bytes + alloc.total_bytes;
        total_count = total_count + alloc.total_count;
        // Peak is the max across contributing program points.
        if alloc.peak_bytes > peak_bytes {
            peak_bytes = alloc.peak_bytes;
        }
        let t = stack_trace_of(alloc);
        let ghost prev = stacks@;
        stacks.push(t);
        i += 1;
        assert(g.take(i as int) =~= g.take(i - 1).push(g[i - 1]));
        assert(stacks_view(stacks@) =~= stacks_view(prev).push(t@));
        assert(stacks_view(stacks@) =~= g.take(i as int).map_values(|a: RawAllocationView| stack_of(a)));
    }
    assert(g.take(i as int) =~= g);
    Entry::runtime_heap(total_bytes, total_count, peak_bytes, stacks)
}

/// Sums over a prefix never exceed the sums over the whole group.
proof fn lemma_sum_prefix(g: Seq<RawAllocationView>, n: int)
    requires
        0 <= n <= g.len(),
    ensures
        sum_bytes(g.take(n)) <= sum_bytes(g),
        sum_count(g.take(n)) <= sum_count(g),
    decreases g.len() - n,
{
    if n < g.len() {
        lemma_sum_prefix(g, n + 1);
        assert(g.take(n + 1).drop_last() =~= g.take(n));
    } else {
        assert(g.take(n) =~= g);
    }
}

/// Build a report from raw allocations.
///
/// `workspace_root` is the workspace path (with `\` read as `/`); only frames
/// whose files lie in the workspace are considered (an absolute path must lie
/// under the root; a relative one is read by the rules of
/// [`crate::attribution::workspace_relative`]), and the first such frame of
/// each allocation is its target. Each attributed line gets one runtime entry
/// summing its allocations; files get the hash `"unknown"`, to be replaced by
/// [`crate::aggregate::refresh_hashes`] from the files' bytes.
pub fn build_report(allocations: &[RawAllocation], workspace_root: &str, generated_at: &str) -> (report: AllocationReport)
    requires
        sums_fit(attribution_spec(allocations_view(allocations@), replace_char(workspace_root@, '\\', '/'))),
    ensures
        report@ == build_spec(allocations_view(allocations@), workspace_root@, generated_at@),
{
    let ws_root_str = replace_char_str(workspace_root, '\\', '/');
    let mut report = AllocationReport::new(ws_root_str.as_str(), generated_at);
    let attributed = attribute(allocations, ws_root_str.as_str());
    let ghost attr = attributed@;
    let ghost keys = attributed.keys();
    let ghost ws = ws_root_str@;
    let ghost gen = generated_at@;
    let n = attributed.len();
    proof {
        assert(report.files@ =~= Map::<Seq<char>, FileDataView>::empty());
    }
    let mut i: usize = 0;
    while i < n
        invariant
            n == keys.len(),
            keys == attributed.keys(),
            attr == attributed@,
            keys.no_duplicates(),
            forall|k: (Seq<char>, u32)| #[trigger] attr.dom().contains(k) <==> keys.contains(k),
            sums_fit(attr),
            i <= n,
            report.version == SCHEMA_VERSION,
            report.generated_at@ == gen,
            report.workspace_root@ == ws,
            forall|f: Seq<char>| #[trigger] report.files@.dom().contains(f)
                <==> (exists|j: int| 0 <= j < i && (#[trigger] keys[j]).0 == f),
            forall|f: Seq<char>| #[trigger] report.files@.dom().contains(f) ==> report.files@[f].content_hash == "unknown"@,
            forall|f: Seq<char>, t: Seq<char>| report.files@.dom().contains(f) ==>
                (#[trigger] report.files@[f].lines.dom().contains(t)
                    <==> (exists|j: int| 0 <= j < i && (#[trigger] keys[j]).0 == f && t == decimal(keys[j].1 as nat))),
            forall|j: int| 0 <= j < i ==> report.files@.dom().contains((#[trigger] keys[j]).0)
                && report.files@[keys[j].0].lines[decimal(keys[j].1 as nat)] == seq![runtime_entry(attr[keys[j]])],
        decreases n - i,
    {
        let key = attributed.key_at(i);
        let records = attributed.group_at(i);
        let ghost kk = key_view(*key);
        let ghost fk = kk.0;
        let ghost lk = decimal(kk.1 as nat);
        let entry = runtime_entry_of(records);
        let mut entries: Vec<Entry> = Vec::new();
        entries.push(entry);
        let line_data = LineData { entries };
        assert(line_data@ =~= seq![runtime_entry(attr[kk])]);
        let line_key = u64_to_string(key.1 as u64);
        let ghost prev = report.files@;
        proof {
            // the line is new for its file
            assert forall|j: int| 0 <= j < i && (#[trigger] keys[j]).0 == fk implies lk != decimal(keys[j].1 as nat) by {
                lemma_decimal_injective(kk.1 as nat, keys[j].1 as nat);
                if lk == decimal(keys[j].1 as nat) {
                    assert(keys[j] == keys[i as int]);
                }
            }
        }
        match report.files.find(key.0.as_str()) {
            Some(fi) => {
                let placeholder = FileData { content_hash: String::new(), lines: StrMap::new() };
                let old_data = report.files.replace_at(fi, placeholder);
                let mut lines = old_data.lines;
                assert(!lines@.dom().contains(lk));
                lines.push_new(line_key, line_data);
                let fresh = FileData { content_hash: old_data.content_hash, lines };
                report.files.replace_at(fi, fresh);
            },
            None => {
                let mut lines: StrMap<LineData> = StrMap::new();
                lines.push_new(line_key, line_data);
                let fresh = FileData { content_hash: "unknown".to_owned(), lines };
                report.files.push_new(key.0.clone(), fresh);
            },
        }
        i += 1;
        proof {
            assert forall|f: Seq<char>| #[trigger] report.files@.dom().contains(f)
                <==> (exists|j: int| 0 <= j < i && (#[trigger] keys[j]).0 == f) by {
                if f == fk {
                    assert(keys[i - 1].0 == f);
                }
            }
            assert forall|f: Seq<char>, t: Seq<char>| report.files@.dom().contains(f) implies
                (#[trigger] report.files@[f].lines.dom().contains(t)
                    <==> (exists|j: int| 0 <= j < i && (#[trigger] keys[j]).0 == f && t == decimal(keys[j].1 as nat))) by {
                if f == fk && t == lk {
                    assert(keys[i - 1].0 == f && t == decimal(keys[i - 1].1 as nat));
                }
                if f != fk {
                    assert(report.files@[f] == prev[f]);
                }
            }
            assert forall|j: int| 0 <= j < i implies report.files@.dom().contains((#[trigger] keys[j]).0)
                && report.files@[keys[j].0].lines[decimal(keys[j].1 as nat)] == seq![runtime_entry(attr[keys[j]])] by {
                if j < i - 1 {
                    if keys[j].0 == fk {
                        lemma_decimal_injective(kk.1 as nat, keys[j].1 as nat);
                        assert(keys[j] != keys[i - 1]);
                    }
                }
            }
        }
    }
    proof {
        let files = report_files(attr);
        assert(report.files@ =~= files) by {
            assert forall|f: Seq<char>| #[trigger] report.files@.dom().contains(f) <==> files.dom().contains(f) by {
                if report.files@.dom().contains(f) {
                    let j = choose|j: int| 0 <= j < n && (#[trigger] keys[j]).0 == f;
                    assert(attr.dom().contains(keys[j]));
                    assert(attr.dom().contains((f, keys[j].1)));
                }
                if files.dom().contains(f) {
                    let l = choose|l: u32| #[trigger] attr.dom().contains((f, l));
                    assert(keys.contains((f, l)));
                    let j = choose|j: int| 0 <= j < keys.len() && keys[j] == (f, l);
                    assert(keys[j].0 == f);
                }
            }
            assert forall|f: Seq<char>| #[trigger] report.files@.dom().contains(f) implies report.files@[f] == files[f] by {
                let lines = report.files@[f].lines;
                assert(lines =~= files[f].lines) by {
                    assert forall|t: Seq<char>| #[trigger] lines.dom().contains(t) <==> files[f].lines.dom().contains(t) by {
                        if lines.dom().contains(t) {
                            let j = choose|j: int| 0 <= j < n && (#[trigger] keys[j]).0 == f && t == decimal(keys[j].1 as nat);
                            assert(attr.dom().contains(keys[j]));
                            assert(attr.dom().contains((f, keys[j].1)));
                        }
                        if files[f].lines.dom().contains(t) {
                            let l = choose|l: u32| #[trigger] attr.dom().contains((f, l)) && t == decimal(l as nat);
                            assert(keys.contains((f, l)));
                            let j = choose|j: int| 0 <= j < keys.len() && keys[j] == (f, l);
                            assert(keys[j].0 == f);
                        }
                    }
                    assert forall|t: Seq<char>| #[trigger] lines.dom().contains(t) implies lines[t] == files[f].lines[t] by {
                        let j = choose|j: int| 0 <= j < n && (#[trigger] keys[j]).0 == f && t == decimal(keys[j].1 as nat);
                        assert(attr.dom().contains(keys[j]));
                        let l = choose|l: u32| #[trigger] attr.dom().contains((f, l)) && t == decimal(l as nat);
                        lemma_decimal_injective(l as nat, keys[j].1 as nat);
                    }
                }
                assert(report.files@[f] =~= files[f]);
            }
        }
        assert(report@ =~= build_spec(allocations_view(allocations@), workspace_root@, generated_at@));
    }
    report
}

/// Runtime entries exist only for lines that executed: every line of a built
/// report holds exactly one runtime entry, summing a non-empty group of
/// allocations attributed to that file and line.
pub proof fn law_runtime_lines_come_from_allocations(
    allocs: Seq<RawAllocationView>,
    workspace_root: Seq<char>,
    generated_at: Seq<char>,
    file: Seq<char>,
    line: Seq<char>,
)
    requires
        build_spec(allocs, workspace_root, generated_at).files.dom().contains(file),
        build_spec(allocs, workspace_root, generated_at).files[file].lines.dom().contains(line),
    ensures
        ({
            let attr = attribution_spec(allocs, replace_char(workspace_root, '\\', '/'));
            let entries = build_spec(allocs, workspace_root, generated_at).files[file].lines[line];
            &&& entries.len() == 1
            &&& entries[0].source == Source::Runtime
            &&& entries[0].kind == Kind::HeapCumulative
            &&& exists|l: u32| #[trigger] attr.dom().contains((file, l)) && line == decimal(l as nat)
                && attr[(file, l)].len() > 0
                && entries[0] == runtime_entry(attr[(file, l)])
        }),
{
    let ws = replace_char(workspace_root, '\\', '/');
    let attr = attribution_spec(allocs, ws);
    let l = choose|l: u32| #[trigger] attr.dom().contains((file, l)) && line == decimal(l as nat);
    let i = choose|i: int| 0 <= i < allocs.len() && attribution_target(#[trigger] allocs[i].frames, ws) == Some((file, l));
    allocs.lemma_filter_contains(attributed_to(ws, (file, l)), i);
    assert(attr[(file, l)].len() > 0);
}

/// `max_peak` bounds every peak of its group and, for a non-empty group, is
/// one of them.
proof fn lemma_max_peak(g: Seq<RawAllocationView>)
    ensures
        forall|i: int| 0 <= i < g.len() ==> (#[trigger] g[i]).peak_bytes <= max_peak(g),
        g.len() > 0 ==> exists|i: int| 0 <= i < g.len() && (#[trigger] g[i]).peak_bytes == max_peak(g),
    decreases g.len(),
{
    if g.len() > 0 {
        let h = g.drop_last();
        lemma_max_peak(h);
        assert forall|i: int| 0 <= i < g.len() implies (#[trigger] g[i]).peak_bytes <= max_peak(g) by {
            if i < h.len() {
                assert(g[i] == h[i]);
            }
        }
        if g.last().peak_bytes > max_peak(h) || h.len() == 0 {
            assert(g[g.len() - 1].peak_bytes == max_peak(g));
        } else {
            let i = choose|i: int| 0 <= i < h.len() && (#[trigger] h[i]).peak_bytes == max_peak(h);
            assert(g[i] == h[i]);
        }
    }
}

/// The runtime entry of an attributed line is built from exactly the
/// allocations attributed there.
proof fn lemma_line_entry(allocs: Seq<RawAllocationView>, workspace_root: Seq<char>, generated_at: Seq<char>, file: Seq<char>, line: u32)
    requires
        attribution_spec(allocs, replace_char(workspace_root, '\\', '/')).dom().contains((file, line)),
    ensures
        ({
            let attr = attribution_spec(allocs, replace_char(workspace_root, '\\', '/'));
            let r = build_spec(allocs, workspace_root, generated_at);
            &&& r.files.dom().contains(file)
            &&& r.files[file].lines.dom().contains(decimal(line as nat))
            &&& r.files[file].lines[decimal(line as nat)] == seq![runtime_entry(attr[(file, line)])]
        }),
{
    let attr = attribution_spec(allocs, replace_char(workspace_root, '\\', '/'));
    let fd = report_files(attr)[file];
    assert(report_files(attr).dom().contains(file));
    let s = decimal(line as nat);
    assert(fd.lines.dom().contains(s));
    let l2 = choose|l: u32| #[trigger] attr.dom().contains((file, l)) && s == decimal(l as nat);
    lemma_decimal_injective(l2 as nat, line as nat);
}

/// The peak of an attributed line is the largest peak among the allocations
/// attributed to it: no attributed allocation peaks higher, and one of them
/// peaks exactly there.
pub proof fn law_line_peak_is_largest_attributed_peak(
    allocs: Seq<RawAllocationView>,
    workspace_root: Seq<char>,
    generated_at: Seq<char>,
    file: Seq<char>,
    line: u32,
)
    requires
        attribution_spec(allocs, replace_char(workspace_root, '\\', '/')).dom().contains((file, line)),
    ensures
        ({
            let ws = replace_char(workspace_root, '\\', '/');
            let e = build_spec(allocs, workspace_root, generated_at).files[file].lines[decimal(line as nat)][0];
            &&& e.peak_bytes is Some
            &&& forall|i: int| 0 <= i < allocs.len() && attribution_target(allocs[i].frames, ws) == Some((file, line))
                ==> (#[trigger] allocs[i]).peak_bytes <= e.peak_bytes.unwrap()
            &&& exists|i: int| 0 <= i < allocs.len() && attribution_target(allocs[i].frames, ws) == Some((file, line))
                && (#[trigger] allocs[i]).peak_bytes == e.peak_bytes.unwrap()
        }),
{
    let ws = replace_char(workspace_root, '\\', '/');
    let attr = attribution_spec(allocs, ws);
    lemma_line_entry(allocs, workspace_root, generated_at, file, line);
    let p = attributed_to(ws, (file, line));
    let g = attr[(file, line)];
    assert(g == allocs.filter(p));
    lemma_max_peak(g);
    assert forall|i: int| 0 <= i < allocs.len() && attribution_target(allocs[i].frames, ws) == Some((file, line))
        implies (#[trigger] allocs[i]).peak_bytes <= max_peak(g) by {
        allocs.lemma_filter_contains(p, i);
        let j = choose|j: int| 0 <= j < g.len() && g[j] == allocs[i];
    }
    let w = choose|i: int| 0 <= i < allocs.len() && attribution_target(#[trigger] allocs[i].frames, ws) == Some((file, line));
    allocs.lemma_filter_contains(p, w);
    assert(g.len() > 0);
    let j = choose|j: int| 0 <= j < g.len() && (#[trigger] g[j]).peak_bytes == max_peak(g);
    allocs.lemma_filter_pred(p, j);
    assert(g.contains(g[j]));
    allocs.lemma_filter_contains_rev(p, g[j]);
    let i = choose|i: int| 0 <= i < allocs.len() && allocs[i] == g[j];
    assert(attribution_target(allocs[i].frames, ws) == Some((file, line)));
}

/// Totals of a concatenation add up.
proof fn lemma_sums_add(a: Seq<RawAllocationView>, b: Seq<RawAllocationView>)
    ensures
        sum_bytes(a + b) == sum_bytes(a) + sum_bytes(b),
        sum_count(a + b) == sum_count(a) + sum_count(b),
        sum_bytes(a) >= 0,
        sum_count(a) >= 0,
    decreases b.len(),
{
    if b.len() == 0 {
        assert(a + b =~= a);
        lemma_sums_nonneg(a);
    } else {
        assert((a + b).drop_last() =~= a + b.drop_last());
        assert((a + b).last() == b.last());
        lemma_sums_add(a, b.drop_last());
    }
}

proof fn lemma_sums_nonneg(a: Seq<RawAllocationView>)
    ensures
        sum_bytes(a) >= 0,
        sum_count(a) >= 0,
    decreases a.len(),
{
    if a.len() > 0 {
        lemma_sums_nonneg(a.drop_last());
    }
}

/// A line's runtime entry for one allocation holds that allocation's bytes,
/// count, peak and stack; the entry for two groups together holds their
/// summed bytes and counts, the larger peak, and their stacks in order.
pub proof fn law_runtime_entry_totals(a: RawAllocationView, g1: Seq<RawAllocationView>, g2: Seq<RawAllocationView>)
    requires
        sum_bytes(g1 + g2) <= u64::MAX,
        sum_count(g1 + g2) <= u64::MAX,
    ensures
        runtime_entry(seq![a]).bytes == Some(a.total_bytes),
        runtime_entry(seq![a]).count == Some(a.total_count),
        runtime_entry(seq![a]).peak_bytes == Some(a.peak_bytes),
        runtime_entry(seq![a]).stacks == Some(seq![stack_of(a)]),
        runtime_entry(g1 + g2).bytes.unwrap() == runtime_entry(g1).bytes.unwrap() + runtime_entry(g2).bytes.unwrap(),
        runtime_entry(g1 + g2).count.unwrap() == runtime_entry(g1).count.unwrap() + runtime_entry(g2).count.unwrap(),
        runtime_entry(g1 + g2).peak_bytes.unwrap() == (if runtime_entry(g1).peak_bytes.unwrap() >= runtime_entry(g2).peak_bytes.unwrap() {
            runtime_entry(g1).peak_bytes.unwrap()
        } else {
            runtime_entry(g2).peak_bytes.unwrap()
        }),
        runtime_entry(g1 + g2).stacks.unwrap() == runtime_entry(g1).stacks.unwrap() + runtime_entry(g2).stacks.unwrap(),
{
    assert(seq![a].drop_last() =~= Seq::<RawAllocationView>::empty());
    assert(seq![a].last() == a);
    assert(sum_bytes(Seq::<RawAllocationView>::empty()) == 0);
    assert(sum_count(Seq::<RawAllocationView>::empty()) == 0);
    assert(sum_bytes(seq![a]) == a.total_bytes);
    assert(sum_count(seq![a]) == a.total_count);
    assert(max_peak(Seq::<RawAllocationView>::empty()) == 0);
    assert(max_peak(seq![a]) == a.peak_bytes);
    assert(seq![a].map_values(|x: RawAllocationView| stack_of(x)) =~= seq![stack_of(a)]);
    lemma_sums_add(g1, g2);
    lemma_sums_nonneg(g2);
    lemma_max_peak(g1);
    lemma_max_peak(g2);
    lemma_max_peak(g1 + g2);
    let m = max_peak(g1 + g2);
    assert forall|i: int| 0 <= i < g1.len() implies (#[trigger] g1[i]).peak_bytes <= m by {
        assert((g1 + g2)[i] == g1[i]);
    }
    assert forall|i: int| 0 <= i < g2.len() implies (#[trigger] g2[i]).peak_bytes <= m by {
        assert((g1 + g2)[g1.len() + i] == g2[i]);
    }
    if g1.len() + g2.len() > 0 {
        let k = choose|k: int| 0 <= k < (g1 + g2).len() && (#[trigger] (g1 + g2)[k]).peak_bytes == m;
        if k < g1.len() {
            assert((g1 + g2)[k] == g1[k]);
        } else {
            assert((g1 + g2)[k] == g2[k - g1.len()]);
        }
    } else {
        assert(g1 + g2 =~= Seq::<RawAllocationView>::empty());
    }
    if g1.len() == 0 {
        assert(max_peak(g1) == 0);
    }
    if g2.len() == 0 {
        assert(max_peak(g2) == 0);
    }
    assert((g1 + g2).map_values(|x: RawAllocationView| stack_of(x))
        =~= g1.map_values(|x: RawAllocationView| stack_of(x)) + g2.map_values(|x: RawAllocationView| stack_of(x)));
}

} // verus!
