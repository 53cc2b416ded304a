use tare::cli::{package_name, parse_args, ArgsError, ProfileTarget};
use tare::rfc3339_from_unix_secs;

fn args(a: &[&str]) -> Vec<String> {
    a.iter().map(|s| s.to_string()).collect()
}

#[test]
fn parse_args_targets() {
    assert_eq!(parse_args(&args(&["sample"])), Ok(("sample".to_string(), ProfileTarget::DefaultBin)));
    assert_eq!(
        parse_args(&args(&["sample", "--bench", "alloc_bench"])),
        Ok(("sample".to_string(), ProfileTarget::Bench("alloc_bench".to_string())))
    );
    assert_eq!(
        parse_args(&args(&["sample", "--bench", "b", "--bin", "main"])),
        Ok(("sample".to_string(), ProfileTarget::Bin("main".to_string())))
    );
}

#[test]
fn parse_args_errors() {
    assert_eq!(parse_args(&args(&[])), Err(ArgsError::MissingCrateRoot));
    assert_eq!(parse_args(&args(&["s", "--bench"])), Err(ArgsError::MissingBenchName));
    assert_eq!(parse_args(&args(&["s", "--bin"])), Err(ArgsError::MissingBinName));
    assert_eq!(parse_args(&args(&["s", "-x"])), Err(ArgsError::UnknownOption("-x".to_string())));
}

#[test]
fn package_name_from_cargo_toml() {
    let toml = "[package]\n  name = \"sample\"\nversion = \"0.1.0\"\n";
    assert_eq!(package_name(toml), Some("sample".to_string()));
    assert_eq!(package_name("[package]\r\nname='tare-static'\r\n"), Some("tare-static".to_string()));
    assert_eq!(package_name("[package]\nversion = \"1\"\n"), None);
    assert_eq!(package_name("[package]\nname_only\nname = a = b"), Some("a".to_string()));
    assert_eq!(package_name(""), None);
}

#[test]
fn package_name_reads_only_the_package_table() {
    let toml = "[lib]\nname = \"mylib\"\n[package]\nname = \"mypkg\"\n";
    assert_eq!(package_name(toml), Some("mypkg".to_string()));
    // No name line outside the table counts.
    assert_eq!(package_name("name = \"loose\"\n[package]\nversion = \"1\"\n"), None);
    assert_eq!(package_name("[package]\nversion = \"1\"\n[[bin]]\nname = \"tool\"\n"), None);
    // A comment after the header and indentation are allowed.
    assert_eq!(
        package_name("[workspace]\n  [package]   # main crate\n\tname = \"p\"\n"),
        Some("p".to_string())
    );
}

#[test]
fn rfc3339_known_instants() {
    assert_eq!(rfc3339_from_unix_secs(0), "1970-01-01T00:00:00Z");
    assert_eq!(rfc3339_from_unix_secs(1784289600), "2026-07-17T12:00:00Z");
    assert_eq!(rfc3339_from_unix_secs(951782400), "2000-02-29T00:00:00Z");
    assert_eq!(rfc3339_from_unix_secs(1709251199), "2024-02-29T23:59:59Z");
    assert_eq!(rfc3339_from_unix_secs(253402300799), "9999-12-31T23:59:59Z");
    assert_eq!(rfc3339_from_unix_secs(253402300800), "10000-01-01T00:00:00Z");
}
