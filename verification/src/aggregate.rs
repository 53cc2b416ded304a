//! Merging a runtime report and a static report into one.

use vstd::prelude::*;

use crate::schema::{
    append_entries, entries_view, AllocationReport, Entry, EntryView, FileData, FileDataView, LineData,
    ReportView, SCHEMA_VERSION,
};
use crate::hashing::{blake3_hex, blake3_hex_digest};
use crate::strmap::StrMap;
use crate::text::{decimal, push_decimal};

verus! {

/// The value under `k`, if any.
pub open spec fn lookup<V>(m: Map<Seq<char>, V>, k: Seq<char>) -> Option<V> {
    if m.dom().contains(k) {
        Some(m[k])
    } else {
        None
    }
}

/// The entries of a line in an optional line map (none when absent).
pub open spec fn line_entries(m: Option<Map<Seq<char>, Seq<EntryView>>>, k: Seq<char>) -> Seq<EntryView> {
    match m {
        Some(m) => if m.dom().contains(k) { m[k] } else { Seq::empty() },
        None => Seq::empty(),
    }
}

/// The keys of an optional map.
pub open spec fn has_key<V>(m: Option<Map<Seq<char>, V>>, k: Seq<char>) -> bool {
    match m {
        Some(m) => m.dom().contains(k),
        None => false,
    }
}

/// Line maps combined: every line of either, with the first map's entries
/// followed by the second's.
pub open spec fn merged_lines(
    a: Option<Map<Seq<char>, Seq<EntryView>>>,
    b: Option<Map<Seq<char>, Seq<EntryView>>>,
) -> Map<Seq<char>, Seq<EntryView>> {
    Map::new(
        |k: Seq<char>| has_key(a, k) || has_key(b, k),
        |k: Seq<char>| line_entries(a, k) + line_entries(b, k),
    )
}

/// The line map of an optional file.
pub open spec fn lines_of(f: Option<FileDataView>) -> Option<Map<Seq<char>, Seq<EntryView>>> {
    match f {
        Some(f) => Some(f.lines),
        None => None,
    }
}

/// A merged file: the runtime hash when there is one, else the static one,
/// else `"unknown"`; lines combined with runtime entries first.
pub open spec fn merged_file(rt: Option<FileDataView>, st: Option<FileDataView>) -> FileDataView {
    FileDataView {
        content_hash: match rt {
            Some(r) => r.content_hash,
            None => match st {
                Some(s) => s.content_hash,
                None => "unknown"@,
            },
        },
        lines: merged_lines(lines_of(rt), lines_of(st)),
    }
}

/// The file map of an optional report.
pub open spec fn files_of(r: Option<ReportView>) -> Option<Map<Seq<char>, FileDataView>> {
    match r {
        Some(r) => Some(r.files),
        None => None,
    }
}

/// The file under `k` in an optional file map.
pub open spec fn file_at(m: Option<Map<Seq<char>, FileDataView>>, k: Seq<char>) -> Option<FileDataView> {
    match m {
        Some(m) => lookup(m, k),
        None => None,
    }
}

/// The merge of two optional reports.
pub open spec fn merge_spec(rt: Option<ReportView>, st: Option<ReportView>) -> ReportView {
    match (rt, st) {
        (None, None) => ReportView {
            version: SCHEMA_VERSION,
            generated_at: Seq::empty(),
            workspace_root: Seq::empty(),
            files: Map::empty(),
        },
        _ => {
            let head = match rt {
                Some(r) => r,
                None => st.unwrap(),
            };
            ReportView {
                version: SCHEMA_VERSION,
                generated_at: head.generated_at,
                workspace_root: head.workspace_root,
                files: Map::new(
                    |k: Seq<char>| has_key(files_of(rt), k) || has_key(files_of(st), k),
                    |k: Seq<char>| merged_file(file_at(files_of(rt), k), file_at(files_of(st), k)),
                ),
            }
        },
    }
}

/// The view of an optional borrowed value.
pub open spec fn opt_view<T: View>(o: Option<&T>) -> Option<T::V> {
    match o {
        Some(t) => Some(t@),
        None => None,
    }
}

/// Combines two optional line maps, the first map's entries first on each line.
fn merge_line_maps(a: Option<&StrMap<LineData>>, b: Option<&StrMap<LineData>>) -> (out: StrMap<LineData>)
    ensures
        out@ == merged_lines(opt_view(a), opt_view(b)),
{
    let ghost am = opt_view(a);
    let ghost bm = opt_view(b);
    let mut out: StrMap<LineData> = StrMap::new();
    if let Some(a) = a {
        let n = a.len();
        let mut i: usize = 0;
        while i < n
            invariant
                n == a.keys().len(),
                a.keys().no_duplicates(),
                forall|k: Seq<char>| #[trigger] a@.dom().contains(k) <==> a.keys().contains(k),
                am == Some(a@),
                bm == opt_view(b),
                i <= n,
                forall|k: Seq<char>| #[trigger] out@.dom().contains(k) <==> a.keys().take(i as int).contains(k),
                forall|k: Seq<char>| #[trigger] out@.dom().contains(k) ==> out@[k] == line_entries(am, k) + line_entries(bm, k),
            decreases n - i,
        {
            let key = a.key_at(i);
            let la = a.value_at(i);
            let mut entries: Vec<Entry> = Vec::new();
            append_entries(&mut entries, &la.entries);
            if let Some(b) = b {
                if let Some(lb) = b.get(key.as_str()) {
                    append_entries(&mut entries, &lb.entries);
                }
            }
            let ghost ka = key@;
            proof {
                assert(!a.keys().take(i as int).contains(ka)) by {
                    if a.keys().take(i as int).contains(ka) {
                        let j = choose|j: int| 0 <= j < i && #[trigger] a.keys().take(i as int)[j] == ka;
                        assert(a.keys()[j] == a.keys()[i as int]);
                    }
                }
            }
            let line = LineData { entries };
            assert(line@ == line_entries(am, ka) + line_entries(bm, ka)) by {
                assert(entries_view(Seq::<Entry>::empty()) =~= Seq::<EntryView>::empty());
            }
            let ghost prev_out = out@;
            out.push_new(key.clone(), line);
            i += 1;
            proof {
                assert forall|k: Seq<char>| #[trigger] out@.dom().contains(k) <==> a.keys().take(i as int).contains(k) by {
                    assert(out@.dom().contains(k) == (prev_out.dom().contains(k) || k == ka));
                    assert(prev_out.dom().contains(k) <==> a.keys().take(i - 1).contains(k));
                    assert(a.keys().take(i as int) =~= a.keys().take(i - 1).push(ka));
                    assert(a.keys().take(i as int)[i - 1] == ka);
                    if a.keys().take(i - 1).contains(k) {
                        let j = choose|j: int| 0 <= j < i - 1 && #[trigger] a.keys().take(i - 1)[j] == k;
                        assert(a.keys().take(i as int)[j] == k);
                    }
                }
            }
        }
        assert(a.keys().take(n as int) =~= a.keys());
    }
    let ghost after_a = out@;
    if let Some(b) = b {
        let n = b.len();
        let mut j: usize = 0;
        while j < n
            invariant
                n == b.keys().len(),
                b.keys().no_duplicates(),
                forall|k: Seq<char>| #[trigger] b@.dom().contains(k) <==> b.keys().contains(k),
                bm == Some(b@),
                am == opt_view(a),
                j <= n,
                forall|k: Seq<char>| #[trigger] out@.dom().contains(k) <==> (has_key(am, k) || b.keys().take(j as int).contains(k)),
                forall|k: Seq<char>| #[trigger] out@.dom().contains(k) ==> out@[k] == line_entries(am, k) + line_entries(bm, k),
            decreases n - j,
        {
            let key = b.key_at(j);
            let lb = b.value_at(j);
            let in_a = match a {
                Some(a) => a.contains_key(key.as_str()),
                None => false,
            };
            let ghost kb = key@;
            let ghost prev_out = out@;
            if !in_a {
                proof {
                    assert(!out@.dom().contains(kb)) by {
                        if b.keys().take(j as int).contains(kb) {
                            let t = choose|t: int| 0 <= t < j && #[trigger] b.keys().take(j as int)[t] == kb;
                            assert(b.keys()[t] == b.keys()[j as int]);
                        }
                    }
                }
                let mut entries: Vec<Entry> = Vec::new();
                append_entries(&mut entries, &lb.entries);
                let line = LineData { entries };
                assert(line@ == line_entries(am, kb) + line_entries(bm, kb)) by {
                    assert(entries_view(Seq::<Entry>::empty()) =~= Seq::<EntryView>::empty());
                    assert(Seq::<EntryView>::empty() + lb@ =~= lb@);
                }
                out.push_new(key.clone(), line);
            }
            j += 1;
            proof {
                assert forall|k: Seq<char>| #[trigger] out@.dom().contains(k) <==> (has_key(am, k) || b.keys().take(j as int).contains(k)) by {
                    assert(prev_out.dom().contains(k) <==> (has_key(am, k) || b.keys().take(j - 1).contains(k)));
                    if in_a {
                        assert(out@ == prev_out);
                    } else {
                        assert(out@.dom().contains(k) == (prev_out.dom().contains(k) || k == kb));
                    }
                    assert(b.keys().take(j as int) =~= b.keys().take(j - 1).push(kb));
                    assert(b.keys().take(j as int)[j - 1] == kb);
                    if b.keys().take(j - 1).contains(k) {
                        let t = choose|t: int| 0 <= t < j - 1 && #[trigger] b.keys().take(j - 1)[t] == k;
                        assert(b.keys().take(j as int)[t] == k);
                    }
                }
            }
        }
        assert(b.keys().take(n as int) =~= b.keys());
    }
    proof {
        assert(out@ =~= merged_lines(am, bm)) by {
            assert forall|k: Seq<char>| #[trigger] out@.dom().contains(k) <==> merged_lines(am, bm).dom().contains(k) by {
                if let Some(aa) = am {
                    if aa.dom().contains(k) {
                        assert(a.unwrap().keys().take(a.unwrap().keys().len() as int) =~= a.unwrap().keys());
                    }
                }
            }
        }
    }
    out
}

/// Merges the data of one file present in at least one report.
fn merge_file(rt: Option<&FileData>, st: Option<&FileData>) -> (out: FileData)
    requires
        rt is Some || st is Some,
    ensures
        out@ == merged_file(opt_view(rt), opt_view(st)),
{
    let content_hash = match rt {
        Some(r) => r.content_hash.clone(),
        None => st.unwrap().content_hash.clone(),
    };
    let a = match rt {
        Some(r) => Some(&r.lines),
        None => None,
    };
    let b = match st {
        Some(s) => Some(&s.lines),
        None => None,
    };
    let lines = merge_line_maps(a, b);
    proof {
        assert(opt_view(a) == lines_of(opt_view(rt)));
        assert(opt_view(b) == lines_of(opt_view(st)));
    }
    FileData { content_hash, lines }
}

/// Merge two reports into one.
///
/// - Entries from both reports are combined per file and line, runtime
///   entries first.
/// - A file's content hash comes from `runtime` when it has the file, else
///   from `static_report`.
/// - `workspace_root` and `generated_at` come from `runtime` when it is
///   given, else from `static_report`; with neither the result is an empty
///   report with empty strings.
pub fn merge(runtime: Option<&AllocationReport>, static_report: Option<&AllocationReport>) -> (merged: AllocationReport)
    ensures
        merged@ == merge_spec(opt_view(runtime), opt_view(static_report)),
{
    let ghost rtv = opt_view(runtime);
    let ghost stv = opt_view(static_report);
    let mut merged = match (runtime, static_report) {
        (Some(r), _) => AllocationReport::new(r.workspace_root.as_str(), r.generated_at.as_str()),
        (None, Some(s)) => AllocationReport::new(s.workspace_root.as_str(), s.generated_at.as_str()),
        (None, None) => {
            let m = AllocationReport::new("", "");
            proof {
                reveal_strlit("");
                assert(m@ =~= merge_spec(rtv, stv));
            }
            return m;
        },
    };
    let ghost rf = files_of(rtv);
    let ghost sf = files_of(stv);
    let ghost g = merged.generated_at@;
    let ghost w = merged.workspace_root@;
    assert(merged.files@ =~= Map::<Seq<char>, FileDataView>::empty());
    if let Some(r) = runtime {
        let n = r.files.len();
        let mut i: usize = 0;
        while i < n
            invariant
                n == r.files.keys().len(),
                r.files.keys().no_duplicates(),
                forall|k: Seq<char>| #[trigger] r.files@.dom().contains(k) <==> r.files.keys().contains(k),
                rf == Some(r.files@),
                sf == files_of(opt_view(static_report)),
                merged.version == SCHEMA_VERSION,
                merged.generated_at@ == g,
                merged.workspace_root@ == w,
                i <= n,
                forall|k: Seq<char>| #[trigger] merged.files@.dom().contains(k) <==> r.files.keys().take(i as int).contains(k),
                forall|k: Seq<char>| #[trigger] merged.files@.dom().contains(k) ==> merged.files@[k] == merged_file(file_at(rf, k), file_at(sf, k)),
            decreases n - i,
        {
            let key = r.files.key_at(i);
            let fr = r.files.value_at(i);
            let fs = match static_report {
                Some(s) => s.files.get(key.as_str()),
                None => None,
            };
            let ghost ka = key@;
            proof {
                assert(!r.files.keys().take(i as int).contains(ka)) by {
                    if r.files.keys().take(i as int).contains(ka) {
                        let j = choose|j: int| 0 <= j < i && #[trigger] r.files.keys().take(i as int)[j] == ka;
                        assert(r.files.keys()[j] == r.files.keys()[i as int]);
                    }
                }
            }
            let fd = merge_file(Some(fr), fs);
            proof {
                assert(opt_view(Some(fr)) == file_at(rf, ka));
                assert(opt_view(fs) == file_at(sf, ka));
            }
            let ghost prev = merged.files@;
            merged.files.push_new(key.clone(), fd);
            i += 1;
            proof {
                assert forall|k: Seq<char>| #[trigger] merged.files@.dom().contains(k) <==> r.files.keys().take(i as int).contains(k) by {
                    assert(merged.files@.dom().contains(k) == (prev.dom().contains(k) || k == ka));
                    assert(prev.dom().contains(k) <==> r.files.keys().take(i - 1).contains(k));
                    assert(r.files.keys().take(i as int) =~= r.files.keys().take(i - 1).push(ka));
                    assert(r.files.keys().take(i as int)[i - 1] == ka);
                    if r.files.keys().take(i - 1).contains(k) {
                        let j = choose|j: int| 0 <= j < i - 1 && #[trigger] r.files.keys().take(i - 1)[j] == k;
                        assert(r.files.keys().take(i as int)[j] == k);
                    }
                }
            }
        }
        assert(r.files.keys().take(n as int) =~= r.files.keys());
    }
    if let Some(s) = static_report {
        let n = s.files.len();
        let mut j: usize = 0;
        while j < n
            invariant
                n == s.files.keys().len(),
                s.files.keys().no_duplicates(),
                forall|k: Seq<char>| #[trigger] s.files@.dom().contains(k) <==> s.files.keys().contains(k),
                sf == Some(s.files@),
                rf == files_of(opt_view(runtime)),
                merged.version == SCHEMA_VERSION,
                merged.generated_at@ == g,
                merged.workspace_root@ == w,
                j <= n,
                forall|k: Seq<char>| #[trigger] merged.files@.dom().contains(k) <==> (has_key(rf, k) || s.files.keys().take(j as int).contains(k)),
                forall|k: Seq<char>| #[trigger] merged.files@.dom().contains(k) ==> merged.files@[k] == merged_file(file_at(rf, k), file_at(sf, k)),
            decreases n - j,
        {
            let key = s.files.key_at(j);
            let fs = s.files.value_at(j);
            let in_rt = match runtime {
                Some(r) => r.files.contains_key(key.as_str()),
                None => false,
            };
            let ghost kb = key@;
            let ghost prev = merged.files@;
            if !in_rt {
                proof {
                    assert(!merged.files@.dom().contains(kb)) by {
                        if s.files.keys().take(j as int).contains(kb) {
                            let t = choose|t: int| 0 <= t < j && #[trigger] s.files.keys().take(j as int)[t] == kb;
                            assert(s.files.keys()[t] == s.files.keys()[j as int]);
                        }
                    }
                }
                let fd = merge_file(None, Some(fs));
                proof {
                    assert(opt_view(Some(fs)) == file_at(sf, kb));
                    assert(opt_view::<FileData>(None) == file_at(rf, kb));
                }
                merged.files.push_new(key.clone(), fd);
            }
            j += 1;
            proof {
                assert forall|k: Seq<char>| #[trigger] merged.files@.dom().contains(k) <==> (has_key(rf, k) || s.files.keys().take(j as int).contains(k)) by {
                    assert(prev.dom().contains(k) <==> (has_key(rf, k) || s.files.keys().take(j - 1).contains(k)));
                    if in_rt {
                        assert(merged.files@ == prev);
                    } else {
                        assert(merged.files@.dom().contains(k) == (prev.dom().contains(k) || k == kb));
                    }
                    assert(s.files.keys().take(j as int) =~= s.files.keys().take(j - 1).push(kb));
                    assert(s.files.keys().take(j as int)[j - 1] == kb);
                    if s.files.keys().take(j - 1).contains(k) {
                        let t = choose|t: int| 0 <= t < j - 1 && #[trigger] s.files.keys().take(j - 1)[t] == k;
                        assert(s.files.keys().take(j as int)[t] == k);
                    }
                }
            }
        }
        assert(s.files.keys().take(n as int) =~= s.files.keys());
    }
    proof {
        let spec = merge_spec(rtv, stv);
        assert(merged.files@ =~= spec.files) by {
            assert forall|k: Seq<char>| #[trigger] merged.files@.dom().contains(k) <==> spec.files.dom().contains(k) by {
                if let Some(rr) = rf {
                    if rr.dom().contains(k) {
                        assert(runtime.unwrap().files.keys().take(runtime.unwrap().files.keys().len() as int) =~= runtime.unwrap().files.keys());
                    }
                }
            }
        }
        assert(merged@ =~= spec);
    }
    merged
}

/// Merging a report with nothing gives back the same files, hashes and
/// lines, under the current schema version.
pub proof fn law_merge_with_nothing_keeps_report(r: ReportView)
    ensures
        merge_spec(Some(r), None) == (ReportView { version: SCHEMA_VERSION, ..r }),
        merge_spec(None, Some(r)) == (ReportView { version: SCHEMA_VERSION, ..r }),
{
    assert forall|k: Seq<char>| #[trigger] r.files.dom().contains(k) implies merged_file(Some(r.files[k]), None) == r.files[k]
        && merged_file(None, Some(r.files[k])) == r.files[k] by {
        assert(merged_lines(Some(r.files[k].lines), None) =~= r.files[k].lines) by {
            assert forall|l: Seq<char>| #[trigger] r.files[k].lines.dom().contains(l) implies
                line_entries(Some(r.files[k].lines), l) + line_entries(None, l) == r.files[k].lines[l] by {
                assert(r.files[k].lines[l] + Seq::<EntryView>::empty() =~= r.files[k].lines[l]);
            }
        }
        assert(merged_lines(None, Some(r.files[k].lines)) =~= r.files[k].lines) by {
            assert forall|l: Seq<char>| #[trigger] r.files[k].lines.dom().contains(l) implies
                line_entries(None, l) + line_entries(Some(r.files[k].lines), l) == r.files[k].lines[l] by {
                assert(Seq::<EntryView>::empty() + r.files[k].lines[l] =~= r.files[k].lines[l]);
            }
        }
        assert(merged_file(Some(r.files[k]), None) =~= r.files[k]);
        assert(merged_file(None, Some(r.files[k])) =~= r.files[k]);
    }
    assert(merge_spec(Some(r), None) =~= (ReportView { version: SCHEMA_VERSION, ..r }));
    assert(merge_spec(None, Some(r)) =~= (ReportView { version: SCHEMA_VERSION, ..r }));
}

/// Merging nothing with nothing gives an empty report.
pub proof fn law_merge_nothing_is_empty()
    ensures
        merge_spec(None, None).files == Map::<Seq<char>, FileDataView>::empty(),
        merge_spec(None, None).version == SCHEMA_VERSION,
{
}

/// Every line of the merged report holds the runtime entries of that line
/// followed by the static ones: nothing is dropped, reordered or invented.
pub proof fn law_merge_line_is_runtime_then_static(rt: ReportView, st: ReportView, file: Seq<char>, line: Seq<char>)
    requires
        merge_spec(Some(rt), Some(st)).files.dom().contains(file),
    ensures
        merge_spec(Some(rt), Some(st)).files[file].lines.dom().contains(line)
            <==> (has_key(lines_of(lookup(rt.files, file)), line) || has_key(lines_of(lookup(st.files, file)), line)),
        merge_spec(Some(rt), Some(st)).files[file].lines.dom().contains(line) ==>
            merge_spec(Some(rt), Some(st)).files[file].lines[line]
                == line_entries(lines_of(lookup(rt.files, file)), line) + line_entries(lines_of(lookup(st.files, file)), line),
{
}

/// The merged report has exactly the files of both inputs, and a shared
/// file keeps the runtime hash.
pub proof fn law_merge_files_and_hash(rt: ReportView, st: ReportView, file: Seq<char>)
    ensures
        merge_spec(Some(rt), Some(st)).files.dom().contains(file)
            <==> (rt.files.dom().contains(file) || st.files.dom().contains(file)),
        rt.files.dom().contains(file) ==>
            merge_spec(Some(rt), Some(st)).files[file].content_hash == rt.files[file].content_hash,
        !rt.files.dom().contains(file) && st.files.dom().contains(file) ==>
            merge_spec(Some(rt), Some(st)).files[file].content_hash == st.files[file].content_hash,
{
}

/// A report whose file hashes are recomputed from `sources`: a file whose
/// bytes are known gets their blake3 hash, every other file keeps its hash.
pub open spec fn refreshed(r: ReportView, sources: Map<Seq<char>, Seq<u8>>) -> ReportView {
    ReportView {
        files: Map::new(
            |k: Seq<char>| r.files.dom().contains(k),
            |k: Seq<char>| if sources.dom().contains(k) {
                FileDataView { content_hash: blake3_hex(sources[k]), ..r.files[k] }
            } else {
                r.files[k]
            },
        ),
        ..r
    }
}

/// Refresh content hashes in a report from the files' current bytes.
///
/// `sources` maps a file path (as keyed in the report) to the bytes read
/// from disk; a file that could not be read is absent and keeps its hash.
pub fn refresh_hashes(report: &mut AllocationReport, sources: &StrMap<Vec<u8>>)
    ensures
        final(report)@ == refreshed(old(report)@, sources@),
{
    let ghost r0 = report@;
    let n = report.files.len();
    let mut i: usize = 0;
    while i < n
        invariant
            n == report.files.keys().len(),
            i <= n,
            report.version == r0.version,
            report.generated_at@ == r0.generated_at,
            report.workspace_root@ == r0.workspace_root,
            report.files@.dom() == r0.files.dom(),
            forall|k: Seq<char>| #[trigger] r0.files.dom().contains(k) <==> report.files.keys().contains(k),
            report.files.keys().no_duplicates(),
            forall|j: int| 0 <= j < i ==> #[trigger] report.files@[report.files.keys()[j]]
                == refreshed(r0, sources@).files[report.files.keys()[j]],
            forall|j: int| i <= j < n ==> #[trigger] report.files@[report.files.keys()[j]]
                == r0.files[report.files.keys()[j]],
        decreases n - i,
    {
        let key = report.files.key_at(i).clone();
        let ghost kk = key@;
        match sources.get(key.as_str()) {
            Some(bytes) => {
                let hash = blake3_hex_digest(bytes.as_slice());
                let old_data = report.files.replace_at(i, FileData { content_hash: String::new(), lines: StrMap::new() });
                let fresh = FileData { content_hash: hash, lines: old_data.lines };
                let ghost before = report.files@;
                report.files.replace_at(i, fresh);
                proof {
                    assert(report.files.keys()[i as int] == kk);
                    assert forall|j: int| 0 <= j < n && j != i implies #[trigger] report.files.keys()[j] != kk by {}
                }
            },
            None => {},
        }
        i += 1;
    }
    proof {
        assert(report.files@ =~= refreshed(r0, sources@).files) by {
            assert forall|k: Seq<char>| #[trigger] report.files@.dom().contains(k) implies report.files@[k] == refreshed(r0, sources@).files[k] by {
                let j = choose|j: int| 0 <= j < n && #[trigger] report.files.keys()[j] == k;
            }
        }
        assert(report@ =~= refreshed(r0, sources@));
    }
}

/// The message that rejects a report written with another schema version.
pub open spec fn version_mismatch_message(got: u32) -> Seq<char> {
    "schema version mismatch: expected "@ + decimal(SCHEMA_VERSION as nat) + ", got "@ + decimal(got as nat)
}

/// Accept a parsed report only when it has the current schema version.
pub fn check_version(report: AllocationReport) -> (r: Result<AllocationReport, String>)
    ensures
        report.version == SCHEMA_VERSION ==> r is Ok && r.unwrap()@ == report@,
        report.version != SCHEMA_VERSION ==> r is Err && r->Err_0@ == version_mismatch_message(report.version),
{
    if report.version != SCHEMA_VERSION {
        let mut msg = String::new();
        msg.append("schema version mismatch: expected ");
        push_decimal(&mut msg, SCHEMA_VERSION as u64);
        msg.append(", got ");
        push_decimal(&mut msg, report.version as u64);
        proof {
            reveal_strlit("schema version mismatch: expected ");
            reveal_strlit(", got ");
            assert(msg@ =~= version_mismatch_message(report.version));
        }
        return Err(msg);
    }
    Ok(report)
}

/// Refreshing hashes changes nothing but hashes: the same files, the same
/// lines and entries, the same root, time and version.
pub proof fn law_refresh_changes_only_hashes(r: ReportView, sources: Map<Seq<char>, Seq<u8>>)
    ensures
        refreshed(r, sources).files.dom() == r.files.dom(),
        forall|k: Seq<char>| #[trigger] r.files.dom().contains(k) ==> refreshed(r, sources).files[k].lines == r.files[k].lines,
        refreshed(r, sources).version == r.version,
        refreshed(r, sources).generated_at == r.generated_at,
        refreshed(r, sources).workspace_root == r.workspace_root,
{
    assert(refreshed(r, sources).files.dom() =~= r.files.dom());
}

/// After refreshing, every file of the report whose bytes are given has the
/// blake3 hash of those bytes, whatever hash it had before (the placeholder
/// `"unknown"` included), and every other file keeps its hash.
pub proof fn law_refresh_hashes_the_given_files(r: ReportView, sources: Map<Seq<char>, Seq<u8>>)
    ensures
        forall|k: Seq<char>| #[trigger] r.files.dom().contains(k) && sources.dom().contains(k)
            ==> refreshed(r, sources).files[k].content_hash == blake3_hex(sources[k]),
        forall|k: Seq<char>| #[trigger] r.files.dom().contains(k) && !sources.dom().contains(k)
            ==> refreshed(r, sources).files[k].content_hash == r.files[k].content_hash,
{
}

} // verus!
