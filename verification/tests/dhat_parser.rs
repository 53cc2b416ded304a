use tare::{allocations_from_dhat, parse_frame, DhatBackend, DhatJson, ProgramPoint};

#[test]
fn parse_frame_with_file() {
    let f = parse_frame("0x7ff7ce9aec81: sample::build_rows (sample\\src\\lib.rs:12:0)").unwrap();
    assert_eq!(f.function, "sample::build_rows");
    assert_eq!(f.file.as_deref(), Some("sample/src/lib.rs"));
    assert_eq!(f.line, Some(12));
}

#[test]
fn parse_frame_unix_path() {
    let f = parse_frame("0x55a1234abcde: mymod::func (src/main.rs:42:0)").unwrap();
    assert_eq!(f.function, "mymod::func");
    assert_eq!(f.file.as_deref(), Some("src/main.rs"));
    assert_eq!(f.line, Some(42));
}

#[test]
fn parse_frame_root() {
    assert!(parse_frame("[root]").is_none());
}

#[test]
fn parse_frame_alloc_internal() {
    let f = parse_frame("0x7ff7ce9b11cc: alloc::alloc::impl$1::allocate (alloc\\src\\alloc.rs:429:0)").unwrap();
    assert_eq!(f.function, "alloc::alloc::impl$1::allocate");
    assert_eq!(f.file.as_deref(), Some("alloc/src/alloc.rs"));
}

#[test]
fn parse_frame_complex_generic() {
    let f = parse_frame(
        "0x7ff7ce9b059b: core::iter::traits::iterator::Iterator::collect<core::iter::adapters::map::Map<core::slice::iter::Iter<alloc::string::String>,sample::duplicate_data::closure_env$0>,alloc::vec::Vec<alloc::string::String,alloc::alloc::Global> > (iter\\traits\\iterator.rs:2035:0)",
    )
    .unwrap();
    assert!(f.function.starts_with("core::iter::traits::iterator::Iterator::collect"));
    assert_eq!(f.file.as_deref(), Some("iter/traits/iterator.rs"));
    assert_eq!(f.line, Some(2035));
}

#[test]
fn parse_frame_fn_pointer_in_generic() {
    // This frame has `(*)` and `(ref$<str$>)` inside the function name,
    // which can confuse naive matching.
    let input = r#"0x7ff7ce9b242d: enum2$<core::option::Option<ref$<str$> > >::map_or_else<ref$<str$>,alloc::string::String,alloc::fmt::format::closure_env$0,alloc::string::String (*)(ref$<str$>)> (core\src\option.rs:1278:0)"#;
    let f = parse_frame(input).unwrap();
    assert!(
        f.function.contains("map_or_else"),
        "function should contain map_or_else, got: {}",
        f.function
    );
    assert_eq!(f.file.as_deref(), Some("core/src/option.rs"));
    assert_eq!(f.line, Some(1278));
}

#[test]
fn parse_frame_without_location_keeps_whole_name() {
    let f = parse_frame("0xABCdef: ???").unwrap();
    assert_eq!(f.function, "???");
    assert_eq!(f.file, None);
    assert_eq!(f.line, None);
    // A parenthesis group that is no location stays in the name.
    let f = parse_frame("0x1: f (not:a:loc)").unwrap();
    assert_eq!(f.function, "f (not:a:loc)");
    assert_eq!(f.file, None);
}

#[test]
fn parse_frame_needs_the_address() {
    assert!(parse_frame("sample::f (src/lib.rs:1:0)").is_none());
    assert!(parse_frame("0x: f (src/lib.rs:1:0)").is_none());
    assert!(parse_frame("0x12 f (src/lib.rs:1:0)").is_none());
}

#[test]
fn parse_frame_line_overflow_keeps_file() {
    let f = parse_frame("0x1: f (src/lib.rs:99999999999:0)").unwrap();
    assert_eq!(f.function, "f");
    assert_eq!(f.file.as_deref(), Some("src/lib.rs"));
    assert_eq!(f.line, None);
    let f = parse_frame("0x1: f (a:b.rs:4294967295:7)").unwrap();
    assert_eq!(f.file.as_deref(), Some("a:b.rs"));
    assert_eq!(f.line, Some(4294967295));
}

#[test]
fn allocations_skip_points_without_frames() {
    let dhat = DhatJson {
        ftbl: vec![
            "[root]".to_string(),
            "0x10: sample::build_rows (sample/src/lib.rs:12:0)".to_string(),
        ],
        pps: vec![
            ProgramPoint { tb: 10, tbk: 1, gb: 5, fs: vec![0] },
            ProgramPoint { tb: 20, tbk: 2, gb: 8, fs: vec![0, 1, 7] },
        ],
    };
    let allocs = allocations_from_dhat(&dhat);
    assert_eq!(allocs.len(), 1);
    assert_eq!(allocs[0].total_bytes, 20);
    assert_eq!(allocs[0].total_count, 2);
    assert_eq!(allocs[0].peak_bytes, 8);
    assert_eq!(allocs[0].frames.len(), 1);
    assert_eq!(allocs[0].frames[0].line, Some(12));
}

#[test]
fn backend_remembers_its_path() {
    let b = DhatBackend::new("dhat-heap.json");
    assert_eq!(b.path(), "dhat-heap.json");
}

#[test]
fn parse_frame_reads_back_formatted_frames() {
    let cases = [
        ("f", "src/a.rs", 1u32, 0u32),
        ("outer (inner) (x:1:2)", "dir\\sub\\file.rs", 4294967295, 7),
        ("core::ops::FnOnce::call_once<fn() (*)()>", "C:\\x:y\\z.rs", 30, 12),
    ];
    for (f, p, l, c) in cases {
        let s = format!("0x1f: {f} ({p}:{l}:{c})");
        let got = parse_frame(&s).expect("frame");
        assert_eq!(got.function, f);
        assert_eq!(got.file, Some(p.replace('\\', "/")));
        assert_eq!(got.line, Some(l));
    }
}

#[test]
fn parse_frame_unicode_digits_end_the_location_without_a_line() {
    let f = parse_frame("0x1: f (a.rs:\u{661}\u{662}:0)").unwrap();
    assert_eq!(f.function, "f");
    assert_eq!(f.file, Some("a.rs".to_string()));
    assert_eq!(f.line, None);

    let g = parse_frame("0x1: g (b\\c.rs:7:\u{967})").unwrap();
    assert_eq!(g.function, "g");
    assert_eq!(g.file, Some("b/c.rs".to_string()));
    assert_eq!(g.line, Some(7));

    // A digit-like character outside `\d` is no location.
    let h = parse_frame("0x1: h (d.rs:\u{b2}:0)").unwrap();
    assert_eq!(h.function, "h (d.rs:\u{b2}:0)");
    assert_eq!(h.file, None);
}
