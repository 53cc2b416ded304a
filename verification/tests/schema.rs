use tare::{duplicate_data, AllocationReport, Entry, Kind, Source, SCHEMA_VERSION};

#[test]
fn new_report_is_empty_with_current_version() {
    let report = AllocationReport::new("/home/user/project", "2026-07-17T12:00:00Z");
    assert_eq!(report.version, SCHEMA_VERSION);
    assert_eq!(report.workspace_root, "/home/user/project");
    assert_eq!(report.generated_at, "2026-07-17T12:00:00Z");
    assert!(report.files.is_empty());
}

#[test]
fn runtime_entry_has_no_static_fields() {
    let entry = Entry::runtime_heap(1024, 1, 1024, vec![]);
    assert_eq!(entry.source, Source::Runtime);
    assert_eq!(entry.kind, Kind::HeapCumulative);
    assert_eq!(entry.bytes, Some(1024));
    assert!(entry.constructs.is_none());
    assert!(entry.amount_hint.is_none());
    assert!(entry.ty.is_none());
    assert!(entry.stack_bytes.is_none());
}

#[test]
fn static_entries_have_no_runtime_fields() {
    let entry = Entry::static_alloc_site(vec!["Box::new".to_string()], None);
    assert_eq!(entry.kind, Kind::AllocSite);
    assert!(entry.bytes.is_none());
    assert!(entry.count.is_none());
    assert!(entry.peak_bytes.is_none());
    assert!(entry.stacks.is_none());
    let t = Entry::static_type_size("Row", 24);
    assert_eq!(t.source, Source::Static);
    assert_eq!(t.kind, Kind::TypeSize);
    assert_eq!(t.ty.as_deref(), Some("Row"));
    assert_eq!(t.stack_bytes, Some(24));
    assert!(t.bytes.is_none() && t.constructs.is_none());
}

#[test]
fn duplicate_data_copies_every_string() {
    let data = vec!["item_0".to_string(), "item_1".to_string()];
    assert_eq!(duplicate_data(&data), data);
    assert!(duplicate_data(&[]).is_empty());
}
