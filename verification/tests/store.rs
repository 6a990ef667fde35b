use sniffers::store::{load_store, parse_store, render_store, Error, Mapping};

fn getd(m: &Mapping, k: &str) -> Option<String> {
    m.get(&k.to_string()).cloned()
}

#[test]
fn parse_empty_store() {
    let m = parse_store("").unwrap();
    assert_eq!(m.len(), 0);
}

#[test]
fn parse_single_record() {
    let m = parse_store("/x/a.txt\tABCD\n").unwrap();
    assert_eq!(m.len(), 1);
    assert_eq!(getd(&m, "/x/a.txt"), Some("ABCD".to_string()));
    assert_eq!(getd(&m, "/x/b.txt"), None);
}

#[test]
fn parse_without_trailing_newline() {
    let m = parse_store("/x/a.txt\tABCD").unwrap();
    assert_eq!(m.len(), 1);
    assert_eq!(getd(&m, "/x/a.txt"), Some("ABCD".to_string()));
}

#[test]
fn parse_skips_empty_lines() {
    let m = parse_store("\n/x/a.txt\tAB\n\n/x/b.txt\tCD\n\n").unwrap();
    assert_eq!(m.len(), 2);
    assert_eq!(getd(&m, "/x/a.txt"), Some("AB".to_string()));
    assert_eq!(getd(&m, "/x/b.txt"), Some("CD".to_string()));
}

#[test]
fn parse_duplicate_path_last_wins() {
    let m = parse_store("/x/p\tAA\n/x/p\tBB\n").unwrap();
    assert_eq!(m.len(), 1);
    assert_eq!(getd(&m, "/x/p"), Some("BB".to_string()));
}

#[test]
fn corrupt_record_without_delimiter() {
    let r = parse_store("/x/a.txt\tAB\nno-delimiter-here\n");
    match r {
        Err(Error::CorruptRecord(line)) => assert_eq!(line, "no-delimiter-here"),
        other => panic!("expected a corrupt record, got {:?}", other.map(|m| m.len())),
    }
}

#[test]
fn corrupt_record_with_two_delimiters() {
    let r = parse_store("/x/a\tAB\tCD\n");
    assert!(matches!(r, Err(Error::CorruptRecord(_))));
}

#[test]
fn load_missing_store_fails() {
    let r = load_store(None);
    assert!(matches!(r, Err(Error::StoreNotFound)));
}

#[test]
fn load_present_store() {
    let m = load_store(Some("/x/a\tAB\n")).unwrap();
    assert_eq!(getd(&m, "/x/a"), Some("AB".to_string()));
}

#[test]
fn render_then_parse_round_trip() {
    let text = "/x/a.txt\tAB\n/x/b.txt\tCD\n";
    let m = parse_store(text).unwrap();
    let out = render_store(&m);
    let m2 = parse_store(&out).unwrap();
    assert_eq!(m2.len(), m.len());
    assert_eq!(getd(&m2, "/x/a.txt"), getd(&m, "/x/a.txt"));
    assert_eq!(getd(&m2, "/x/b.txt"), getd(&m, "/x/b.txt"));
}

#[test]
fn render_store_format() {
    let m = parse_store("/x/a\tAB\n").unwrap();
    assert_eq!(render_store(&m), "/x/a\tAB\n");
}
