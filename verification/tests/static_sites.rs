use tare::static_sites::{classify_call, classify_macro, classify_method_call};
use tare::{file_data_from_sites, AllocSite, AllocVisitor, Kind, Source};

fn segs(a: &str, b: &str) -> Vec<String> {
    vec![a.to_string(), b.to_string()]
}

#[test]
fn classify_call_table() {
    let c = classify_call(&segs("Vec", "with_capacity")).unwrap();
    assert_eq!(c.name, "Vec::with_capacity");
    assert_eq!(c.hint.as_deref(), Some("capacity × element size"));
    assert_eq!(classify_call(&segs("Box", "new")).unwrap().name, "Box::new");
    assert!(classify_call(&segs("Box", "new")).unwrap().hint.is_none());
    assert_eq!(classify_call(&segs("HashMap", "new")).unwrap().name, "HashMap::new");
    assert_eq!(classify_call(&segs("String", "with_capacity")).unwrap().hint.as_deref(), Some("capacity bytes"));
    assert_eq!(classify_call(&segs("Rc", "new")).unwrap().name, "Rc::new");
    assert_eq!(classify_call(&segs("Arc", "new")).unwrap().name, "Arc::new");
    assert!(classify_call(&segs("Vec", "len")).is_none());
    assert!(classify_call(&vec!["std".to_string(), "vec".to_string(), "Vec".to_string()]).is_none());
    assert!(classify_call(&vec!["new".to_string()]).is_none());
}

#[test]
fn classify_method_and_macro() {
    assert_eq!(classify_method_call("clone").unwrap().name, ".clone()");
    assert_eq!(classify_method_call("collect").unwrap().name, ".collect()");
    assert_eq!(classify_method_call("to_owned").unwrap().name, ".to_owned()");
    assert!(classify_method_call("len").is_none());
    assert!(classify_method_call("iter").is_none());
    assert_eq!(classify_macro(Some("vec")).unwrap().name, "vec!");
    assert_eq!(classify_macro(Some("format")).unwrap().name, "format!");
    assert!(classify_macro(Some("format_args")).is_none());
    assert!(classify_macro(Some("println")).is_none());
    assert!(classify_macro(None).is_none());
}

#[test]
fn visitor_records_only_allocation_sites() {
    let mut v = AllocVisitor::new();
    v.on_call(Some(&segs("Vec", "with_capacity")), 3);
    v.on_call(None, 4);
    v.on_method_call("len", 5);
    v.on_method_call("clone", 6);
    v.on_macro(Some("format"), 7);
    v.on_macro(Some("println"), 8);
    assert_eq!(v.sites.len(), 3);
    assert_eq!(v.sites[0].line, 3);
    assert_eq!(v.sites[0].construct, "Vec::with_capacity");
    assert!(v.sites[0].amount_hint.is_some());
    assert_eq!(v.sites[1].construct, ".clone()");
    assert_eq!(v.sites[2].construct, "format!");
}

fn site(line: usize, c: &str, hint: Option<&str>) -> AllocSite {
    AllocSite {
        line,
        construct: c.to_string(),
        amount_hint: hint.map(|h| h.to_string()),
    }
}

#[test]
fn constructs_on_one_line_share_an_entry() {
    let sites = vec![site(3, ".clone()", None), site(3, ".collect()", None), site(5, "Box::new", None)];
    let fd = file_data_from_sites("x", &sites);
    let line3 = fd.lines.get("3").expect("should have line 3");
    assert_eq!(line3.entries.len(), 1);
    let constructs = line3.entries[0].constructs.as_ref().unwrap();
    assert_eq!(constructs, &vec![".clone()".to_string(), ".collect()".to_string()]);
    assert_eq!(fd.lines.len(), 2);
    let e = &fd.lines.get("5").unwrap().entries[0];
    assert_eq!(e.source, Source::Static);
    assert_eq!(e.kind, Kind::AllocSite);
    assert!(e.bytes.is_none() && e.count.is_none() && e.peak_bytes.is_none() && e.stacks.is_none());
}

#[test]
fn first_hint_on_a_line_wins() {
    let sites = vec![site(2, "vec!", None), site(2, "Vec::with_capacity", Some("h1")), site(2, "String::with_capacity", Some("h2"))];
    let fd = file_data_from_sites("", &sites);
    let e = &fd.lines.get("2").unwrap().entries[0];
    assert_eq!(e.amount_hint.as_deref(), Some("h1"));
    assert_eq!(e.constructs.as_ref().unwrap().len(), 3);
}

#[test]
fn content_hash_is_blake3() {
    let src = "fn main() {}";
    let file_data = file_data_from_sites(src, &vec![]);
    let expected = blake3::hash(src.as_bytes()).to_hex().to_string();
    assert_eq!(file_data.content_hash, expected);
    assert!(file_data.lines.is_empty());
}
