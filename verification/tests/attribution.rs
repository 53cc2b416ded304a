use tare::{attribute, extract_workspace_relative_path, find_attribution_frame, RawAllocation, ResolvedFrame};

fn frame(func: &str, file: Option<&str>, line: Option<u32>) -> ResolvedFrame {
    ResolvedFrame {
        function: func.to_string(),
        file: file.map(|s| s.to_string()),
        line,
    }
}

#[test]
fn attributes_to_first_workspace_frame() {
    let frames = vec![
        frame("alloc::alloc::allocate", Some("alloc/src/alloc.rs"), Some(429)),
        frame("alloc::raw_vec::grow", Some("src/raw_vec/mod.rs"), Some(449)),
        frame("Vec::with_capacity", Some("src/vec/mod.rs"), Some(526)),
        frame("sample::build_rows", Some("sample/src/lib.rs"), Some(12)),
        frame("sample::main", Some("sample/src/main.rs"), Some(12)),
    ];

    let result = find_attribution_frame(&frames, "/home/user/project");
    assert_eq!(result, Some(("sample/src/lib.rs".to_string(), 12)));
}

#[test]
fn skips_std_lib_frames() {
    let frames = vec![
        frame("alloc::alloc::allocate", Some("alloc/src/alloc.rs"), Some(429)),
        frame("std::io::stdout", Some("std/src/io/stdio.rs"), Some(719)),
    ];

    let result = find_attribution_frame(&frames, "/home/user/project");
    assert_eq!(result, None);
}

#[test]
fn attributes_absolute_path() {
    let frames = vec![
        frame("alloc::alloc::allocate", Some("alloc/src/alloc.rs"), Some(429)),
        frame("myapp::handler", Some("/home/user/project/src/main.rs"), Some(42)),
    ];

    let result = find_attribution_frame(&frames, "/home/user/project");
    assert_eq!(result, Some(("src/main.rs".to_string(), 42)));
}

#[test]
fn strips_workspace_dir_prefix() {
    // When workspace_root="/abs/path/sample" and frame path is "sample/src/lib.rs",
    // the "sample/" prefix should be stripped -> "src/lib.rs".
    let frames = vec![
        frame("alloc::alloc::allocate", Some("alloc/src/alloc.rs"), Some(429)),
        frame("sample::build_rows", Some("sample/src/lib.rs"), Some(12)),
    ];

    let result = find_attribution_frame(&frames, "/abs/path/sample");
    assert_eq!(result, Some(("src/lib.rs".to_string(), 12)));
}

#[test]
fn groups_allocations_by_line() {
    let allocs = vec![
        RawAllocation {
            total_bytes: 100,
            total_count: 1,
            peak_bytes: 100,
            frames: vec![
                frame("alloc::alloc", Some("alloc/src/alloc.rs"), Some(1)),
                frame("foo::bar", Some("mycrate/src/lib.rs"), Some(10)),
            ],
        },
        RawAllocation {
            total_bytes: 200,
            total_count: 2,
            peak_bytes: 200,
            frames: vec![
                frame("alloc::alloc", Some("alloc/src/alloc.rs"), Some(1)),
                frame("foo::bar", Some("mycrate/src/lib.rs"), Some(10)),
            ],
        },
        RawAllocation {
            total_bytes: 50,
            total_count: 1,
            peak_bytes: 50,
            frames: vec![
                frame("alloc::alloc", Some("alloc/src/alloc.rs"), Some(1)),
                frame("foo::baz", Some("mycrate/src/lib.rs"), Some(20)),
            ],
        },
    ];

    let result = attribute(&allocs, "/project");

    // Two distinct lines.
    assert_eq!(result.len(), 2);

    let line10 = result.get(&("mycrate/src/lib.rs".to_string(), 10)).unwrap();
    assert_eq!(line10.len(), 2); // two allocations at line 10

    let line20 = result.get(&("mycrate/src/lib.rs".to_string(), 20)).unwrap();
    assert_eq!(line20.len(), 1);
}

#[test]
fn attribution_keeps_allocation_order_and_drops_unattributed() {
    let allocs = vec![
        RawAllocation {
            total_bytes: 7,
            total_count: 1,
            peak_bytes: 7,
            frames: vec![frame("std::x", Some("std/src/x.rs"), Some(3))],
        },
        RawAllocation {
            total_bytes: 1,
            total_count: 1,
            peak_bytes: 1,
            frames: vec![frame("a::f", Some("a/src/lib.rs"), Some(5))],
        },
        RawAllocation {
            total_bytes: 2,
            total_count: 1,
            peak_bytes: 2,
            frames: vec![frame("a::f", Some("a/src/lib.rs"), Some(5))],
        },
    ];
    let result = attribute(&allocs, "/w");
    assert_eq!(result.len(), 1);
    let group = result.get(&("a/src/lib.rs".to_string(), 5)).unwrap();
    assert_eq!(group[0].total_bytes, 1);
    assert_eq!(group[1].total_bytes, 2);
    assert!(result.get(&("std/src/x.rs".to_string(), 3)).is_none());
}

#[test]
fn frames_without_line_or_file_are_skipped() {
    let frames = vec![
        frame("a::f", Some("a/src/lib.rs"), None),
        frame("a::g", None, Some(4)),
        frame("a::h", Some("a\\src\\main.rs"), Some(9)),
    ];
    assert_eq!(
        find_attribution_frame(&frames, "/w/"),
        Some(("a/src/main.rs".to_string(), 9))
    );
}

#[test]
fn relative_path_rules() {
    // Case 1: under the root; leading slashes go.
    assert_eq!(
        extract_workspace_relative_path("C:\\ws\\proj\\src\\a.rs", "C:/ws/proj"),
        Some("src/a.rs".to_string())
    );
    // Case 2: an absolute path outside the root.
    assert_eq!(extract_workspace_relative_path("/ws/other/src/a.rs", "/ws/proj"), None);
    assert_eq!(extract_workspace_relative_path("D:\\lib\\src\\a.rs", "C:/ws/proj"), None);
    // Case 3 blocked by a std path after the directory name, then case 5.
    assert_eq!(extract_workspace_relative_path("proj/alloc/x.rs", "/ws/proj"), None);
    // Case 4: known std paths.
    assert_eq!(extract_workspace_relative_path("core/src/option.rs", "/ws/proj"), None);
    // Case 5: a first segment naming a std tree.
    assert_eq!(extract_workspace_relative_path("iter/src/x.rs", "/ws/proj"), None);
    assert_eq!(extract_workspace_relative_path("src/main.rs", "/ws/proj"), None);
    assert_eq!(
        extract_workspace_relative_path("other/src/main.rs", "/ws/proj"),
        Some("other/src/main.rs".to_string())
    );
    // Case 6: nothing that looks like a source path.
    assert_eq!(extract_workspace_relative_path("build.rs", "/ws/proj"), None);
}

#[test]
fn absolute_paths_outside_root_are_not_attributed() {
    let frames = vec![frame(
        "alloc::raw_vec::finish_grow",
        Some("/rustc/abc123/library/alloc/src/raw_vec.rs"),
        Some(5),
    )];
    assert_eq!(find_attribution_frame(&frames, "/home/user/project"), None);

    let frames = vec![
        frame("alloc::raw_vec::finish_grow", Some("/rustc/abc123/library/alloc/src/raw_vec.rs"), Some(5)),
        frame("myapp::run", Some("/home/user/project/src/lib.rs"), Some(9)),
    ];
    assert_eq!(
        find_attribution_frame(&frames, "/home/user/project/"),
        Some(("src/lib.rs".to_string(), 9))
    );
}

#[test]
fn attributing_a_concatenation_appends_groups() {
    let alloc = |bytes: u64, file: &str, line: u32| RawAllocation {
        total_bytes: bytes,
        total_count: 1,
        peak_bytes: bytes,
        frames: vec![frame("f", Some(file), Some(line))],
    };
    let xs = vec![alloc(1, "a/src/x.rs", 3), alloc(2, "a/src/x.rs", 4), alloc(3, "alloc/src/y.rs", 3)];
    let ys = vec![alloc(4, "a/src/x.rs", 3), alloc(5, "a/src/x.rs", 9)];
    let both: Vec<RawAllocation> = xs.iter().chain(ys.iter()).cloned().collect();
    let (gx, gy, gb) = (attribute(&xs, "/ws"), attribute(&ys, "/ws"), attribute(&both, "/ws"));
    let bytes = |g: Option<&Vec<RawAllocation>>| -> Vec<u64> {
        g.map(|v| v.iter().map(|a| a.total_bytes).collect()).unwrap_or_default()
    };
    for key in [("a/src/x.rs", 3u32), ("a/src/x.rs", 4), ("a/src/x.rs", 9), ("alloc/src/y.rs", 3)] {
        let k = (key.0.to_string(), key.1);
        let mut expected = bytes(gx.get(&k));
        expected.extend(bytes(gy.get(&k)));
        assert_eq!(bytes(gb.get(&k)), expected);
    }
    assert_eq!(bytes(gb.get(&("a/src/x.rs".to_string(), 3))), vec![1, 4]);
}
