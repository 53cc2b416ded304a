use tare::{build_report, Kind, RawAllocation, ResolvedFrame, Source};

fn frame(func: &str, file: Option<&str>, line: Option<u32>) -> ResolvedFrame {
    ResolvedFrame {
        function: func.to_string(),
        file: file.map(|s| s.to_string()),
        line,
    }
}

#[test]
fn build_report_sums_per_line() {
    let allocs = vec![
        RawAllocation {
            total_bytes: 100,
            total_count: 1,
            peak_bytes: 60,
            frames: vec![
                frame("alloc::alloc", Some("alloc/src/alloc.rs"), Some(1)),
                frame("foo::bar", Some("mycrate/src/lib.rs"), Some(10)),
            ],
        },
        RawAllocation {
            total_bytes: 200,
            total_count: 2,
            peak_bytes: 40,
            frames: vec![frame("foo::bar", Some("mycrate/src/lib.rs"), Some(10))],
        },
        RawAllocation {
            total_bytes: 50,
            total_count: 1,
            peak_bytes: 50,
            frames: vec![frame("foo::baz", None, None), frame("foo::baz", Some("mycrate/src/lib.rs"), Some(20))],
        },
        RawAllocation {
            total_bytes: 9,
            total_count: 9,
            peak_bytes: 9,
            frames: vec![frame("std::x", Some("std/src/x.rs"), Some(2))],
        },
    ];
    let report = build_report(&allocs, "C:\\work\\proj", "2026-07-17T12:00:00Z");
    assert_eq!(report.workspace_root, "C:/work/proj");
    assert_eq!(report.generated_at, "2026-07-17T12:00:00Z");
    assert_eq!(report.files.len(), 1);
    let lib = report.files.get("mycrate/src/lib.rs").unwrap();
    assert_eq!(lib.content_hash, "unknown");
    assert_eq!(lib.lines.len(), 2);
    let line10 = lib.lines.get("10").unwrap();
    assert_eq!(line10.entries.len(), 1);
    let e = &line10.entries[0];
    assert_eq!(e.source, Source::Runtime);
    assert_eq!(e.kind, Kind::HeapCumulative);
    assert_eq!(e.bytes, Some(300));
    assert_eq!(e.count, Some(3));
    // Peak is the max across contributing program points.
    assert_eq!(e.peak_bytes, Some(60));
    let stacks = e.stacks.as_ref().unwrap();
    assert_eq!(stacks.len(), 2);
    assert_eq!(
        stacks[0].frames,
        vec![
            "alloc::alloc (alloc/src/alloc.rs:1)".to_string(),
            "foo::bar (mycrate/src/lib.rs:10)".to_string()
        ]
    );
    assert_eq!(stacks[0].bytes, 100);
    let line20 = lib.lines.get("20").unwrap();
    assert_eq!(line20.entries[0].stacks.as_ref().unwrap()[0].frames[0], "foo::baz");
    assert!(e.constructs.is_none() && e.amount_hint.is_none());
}

#[test]
fn build_report_of_nothing_is_empty() {
    let report = build_report(&[], "/w", "t");
    assert!(report.files.is_empty());
    assert_eq!(report.version, 1);
}
