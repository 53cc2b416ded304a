use tare::aggregate::check_version;
use tare::{merge, refresh_hashes, AllocationReport, Entry, FileData, LineData, Source, StackTrace, StrMap};

fn runtime_report() -> AllocationReport {
    let mut report = AllocationReport::new("/project", "2026-07-17T12:00:00Z");
    let mut lines = StrMap::new();
    lines.insert(
        "10".to_string(),
        LineData {
            entries: vec![Entry::runtime_heap(
                1024,
                5,
                512,
                vec![StackTrace {
                    frames: vec!["app::run".to_string()],
                    bytes: 1024,
                }],
            )],
        },
    );
    lines.insert(
        "20".to_string(),
        LineData {
            entries: vec![Entry::runtime_heap(48, 1, 48, vec![])],
        },
    );
    report.files.insert(
        "src/main.rs".to_string(),
        FileData {
            content_hash: "rt_hash_abc".to_string(),
            lines,
        },
    );
    report
}

fn static_report() -> AllocationReport {
    let mut report = AllocationReport::new("/project", "2026-07-17T12:00:00Z");
    let mut lines = StrMap::new();
    lines.insert(
        "10".to_string(),
        LineData {
            entries: vec![Entry::static_alloc_site(
                vec!["Vec::with_capacity".to_string()],
                Some("n * size_of::<T>()".to_string()),
            )],
        },
    );
    lines.insert(
        "30".to_string(),
        LineData {
            entries: vec![Entry::static_alloc_site(vec!["format!".to_string()], None)],
        },
    );
    report.files.insert(
        "src/main.rs".to_string(),
        FileData {
            content_hash: "st_hash_def".to_string(),
            lines,
        },
    );
    // A file only in static.
    let mut lib_lines = StrMap::new();
    lib_lines.insert(
        "5".to_string(),
        LineData {
            entries: vec![Entry::static_alloc_site(vec!["Box::new".to_string()], None)],
        },
    );
    report.files.insert(
        "src/lib.rs".to_string(),
        FileData {
            content_hash: "lib_hash_ghi".to_string(),
            lines: lib_lines,
        },
    );
    report
}

#[test]
fn merge_combines_entries_on_same_line() {
    let rt = runtime_report();
    let st = static_report();
    let merged = merge(Some(&rt), Some(&st));

    let main_rs = merged.files.get("src/main.rs").unwrap();

    // Line 10 should have both runtime and static entries.
    let line10 = main_rs.lines.get("10").unwrap();
    assert_eq!(line10.entries.len(), 2);
    assert!(line10.entries.iter().any(|e| e.source == Source::Runtime));
    assert!(line10.entries.iter().any(|e| e.source == Source::Static));
}

#[test]
fn merge_preserves_unique_lines() {
    let rt = runtime_report();
    let st = static_report();
    let merged = merge(Some(&rt), Some(&st));

    let main_rs = merged.files.get("src/main.rs").unwrap();

    // Line 20: runtime only.
    assert!(main_rs.lines.contains_key("20"));
    assert_eq!(main_rs.lines.get("20").unwrap().entries.len(), 1);
    assert_eq!(main_rs.lines.get("20").unwrap().entries[0].source, Source::Runtime);

    // Line 30: static only.
    assert!(main_rs.lines.contains_key("30"));
    assert_eq!(main_rs.lines.get("30").unwrap().entries.len(), 1);
    assert_eq!(main_rs.lines.get("30").unwrap().entries[0].source, Source::Static);
}

#[test]
fn merge_preserves_files_from_single_source() {
    let rt = runtime_report();
    let st = static_report();
    let merged = merge(Some(&rt), Some(&st));

    // src/lib.rs only in static.
    assert!(merged.files.contains_key("src/lib.rs"));
    let lib_rs = merged.files.get("src/lib.rs").unwrap();
    assert_eq!(lib_rs.content_hash, "lib_hash_ghi");
}

#[test]
fn merge_prefers_runtime_hash() {
    let rt = runtime_report();
    let st = static_report();
    let merged = merge(Some(&rt), Some(&st));

    // Runtime hash takes priority for shared files.
    let main_rs = merged.files.get("src/main.rs").unwrap();
    assert_eq!(main_rs.content_hash, "rt_hash_abc");
}

#[test]
fn merge_runtime_only() {
    let rt = runtime_report();
    let merged = merge(Some(&rt), None);
    assert_eq!(merged.files.len(), 1);
    assert!(merged.files.contains_key("src/main.rs"));
}

#[test]
fn merge_static_only() {
    let st = static_report();
    let merged = merge(None, Some(&st));
    assert_eq!(merged.files.len(), 2);
}

#[test]
fn merge_nothing() {
    let merged = merge(None, None);
    assert!(merged.files.is_empty());
}

#[test]
fn merge_puts_runtime_entries_first() {
    let rt = runtime_report();
    let st = static_report();
    let merged = merge(Some(&rt), Some(&st));
    let line10 = merged.files.get("src/main.rs").unwrap().lines.get("10").unwrap();
    assert_eq!(line10.entries[0].source, Source::Runtime);
    assert_eq!(line10.entries[0].bytes, Some(1024));
    assert_eq!(line10.entries[1].source, Source::Static);
    assert_eq!(
        line10.entries[1].amount_hint.as_deref(),
        Some("n * size_of::<T>()")
    );
    // Three distinct lines in the shared file.
    assert_eq!(merged.files.get("src/main.rs").unwrap().lines.len(), 3);
}

#[test]
fn merge_takes_root_and_time_from_runtime_first() {
    let rt = AllocationReport::new("/rt", "t1");
    let st = AllocationReport::new("/st", "t2");
    let merged = merge(Some(&rt), Some(&st));
    assert_eq!(merged.workspace_root, "/rt");
    assert_eq!(merged.generated_at, "t1");
    let merged = merge(None, Some(&st));
    assert_eq!(merged.workspace_root, "/st");
    assert_eq!(merged.generated_at, "t2");
    let merged = merge(None, None);
    assert_eq!(merged.workspace_root, "");
    assert_eq!(merged.generated_at, "");
    assert_eq!(merged.version, 1);
}

#[test]
fn merge_with_nothing_keeps_lines_and_hash() {
    let st = static_report();
    let merged = merge(None, Some(&st));
    let main_rs = merged.files.get("src/main.rs").unwrap();
    assert_eq!(main_rs.content_hash, "st_hash_def");
    assert_eq!(main_rs.lines.len(), 2);
    assert_eq!(
        main_rs.lines.get("30").unwrap().entries[0].constructs,
        Some(vec!["format!".to_string()])
    );
}

#[test]
fn refresh_hashes_replaces_only_known_files() {
    let mut report = static_report();
    let mut sources: StrMap<Vec<u8>> = StrMap::new();
    sources.insert("src/lib.rs".to_string(), b"fn lib() {}".to_vec());
    refresh_hashes(&mut report, &sources);
    let lib_rs = report.files.get("src/lib.rs").unwrap();
    assert_eq!(lib_rs.content_hash, blake3::hash(b"fn lib() {}").to_hex().to_string());
    assert_eq!(lib_rs.content_hash.len(), 64);
    assert_ne!(lib_rs.content_hash, "lib_hash_ghi");
    // A file whose bytes are unknown keeps its hash and its lines.
    let main_rs = report.files.get("src/main.rs").unwrap();
    assert_eq!(main_rs.content_hash, "st_hash_def");
    assert_eq!(main_rs.lines.len(), 2);
}

#[test]
fn check_version_accepts_current_and_rejects_others() {
    let report = AllocationReport::new("/p", "t");
    assert!(check_version(report).is_ok());
    let mut report = AllocationReport::new("/p", "t");
    report.version = 99;
    let err = check_version(report).unwrap_err();
    assert!(err.contains("version mismatch"));
    assert_eq!(err, "schema version mismatch: expected 1, got 99");
}
