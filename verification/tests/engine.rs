use sniffers::digest::digest_hex;
use sniffers::store::Error;
use sniffers::Sniffer;

fn rec(path: &str, content: &[u8]) -> (String, String) {
    (path.to_string(), digest_hex(content))
}

fn engine() -> Sniffer {
    Sniffer::new().path("/x").hash_store_file("/x/.sniff_store")
}

#[test]
fn builder_sets_fields() {
    let s = Sniffer::new();
    assert_eq!(s.path, "");
    assert_eq!(s.hash_store_file, "");
    let s = s.path("/some/dir").hash_store_file("/some/dir/.sniff_store");
    assert_eq!(s.path, "/some/dir");
    assert_eq!(s.hash_store_file, "/some/dir/.sniff_store");
}

#[test]
fn default_uses_store_file_constant() {
    let s = Sniffer::default();
    assert_eq!(s.path, "");
    assert_eq!(s.hash_store_file, sniffers::sniffer::HASH_STORE_FILE);
}

#[test]
fn index_writes_one_record_per_file() {
    let s = engine();
    let walk = vec![rec("/x/a.txt", b"hello"), rec("/x/b.txt", b"v1")];
    let text = s.index(&walk);
    let expected = format!(
        "/x/a.txt\t{}\n/x/b.txt\t{}\n",
        digest_hex(b"hello"),
        digest_hex(b"v1")
    );
    assert_eq!(text, expected);
}

#[test]
fn index_duplicate_path_last_wins() {
    let s = engine();
    let walk = vec![rec("/x/a", b"one"), rec("/x/a", b"two")];
    let text = s.index(&walk);
    assert_eq!(text, format!("/x/a\t{}\n", digest_hex(b"two")));
}

#[test]
fn sniff_without_store_fails() {
    let s = engine();
    let r = s.sniff(None, &vec![rec("/x/a.txt", b"hello")]);
    assert!(matches!(r, Err(Error::StoreNotFound)));
}

#[test]
fn sniff_on_corrupt_store_fails() {
    let s = engine();
    let r = s.sniff(Some("garbage line without delimiter\n"), &vec![]);
    match r {
        Err(Error::CorruptRecord(line)) => {
            assert_eq!(line, "garbage line without delimiter")
        }
        _ => panic!("expected a corrupt record"),
    }
}

#[test]
fn new_file_detected_exactly_once() {
    let s = engine();
    // an indexed empty directory, then a.txt with content "hello" appears
    let store = s.index(&vec![]);
    assert_eq!(store, "");
    let walk = vec![rec("/x/a.txt", b"hello")];
    let (text, changed) = s.sniff(Some(&store), &walk).unwrap();
    assert_eq!(changed, vec!["/x/a.txt".to_string()]);
    assert_eq!(text, format!("/x/a.txt\t{}\n", digest_hex(b"hello")));
}

#[test]
fn modification_detected_then_quiet() {
    let s = engine();
    let store = s.index(&vec![rec("/x/b.txt", b"v1")]);
    // b.txt is rewritten to "v2"
    let walk = vec![rec("/x/b.txt", b"v2")];
    let (text, changed) = s.sniff(Some(&store), &walk).unwrap();
    assert_eq!(changed, vec!["/x/b.txt".to_string()]);
    // a second sniff with no further changes reports nothing
    let (_, changed2) = s.sniff(Some(&text), &walk).unwrap();
    assert!(changed2.is_empty());
}

#[test]
fn unchanged_files_not_reported() {
    let s = engine();
    let walk = vec![rec("/x/a.txt", b"hello"), rec("/x/b.txt", b"v1")];
    let store = s.index(&walk);
    let (_, changed) = s.sniff(Some(&store), &walk).unwrap();
    assert!(changed.is_empty());
}

#[test]
fn sniff_twice_reports_nothing_the_second_time() {
    let s = engine();
    let store = s.index(&vec![rec("/x/a.txt", b"hello")]);
    // two files appear, one changes
    let walk = vec![
        rec("/x/a.txt", b"hello again"),
        rec("/x/new.txt", b"fresh"),
    ];
    let (text, changed) = s.sniff(Some(&store), &walk).unwrap();
    assert_eq!(
        changed,
        vec!["/x/a.txt".to_string(), "/x/new.txt".to_string()]
    );
    let (_, changed2) = s.sniff(Some(&text), &walk).unwrap();
    assert!(changed2.is_empty());
}

#[test]
fn store_file_itself_never_reported() {
    let s = engine();
    let store = s.index(&vec![]);
    // the store's own backing file turns up in the walk with a fresh digest
    let walk = vec![
        rec("/x/.sniff_store", b"whatever the last rewrite left"),
        rec("/x/c.txt", b"data"),
    ];
    let (text, changed) = s.sniff(Some(&store), &walk).unwrap();
    assert_eq!(changed, vec!["/x/c.txt".to_string()]);
    // its digest is still recorded in the rewritten store
    assert!(text.contains("/x/.sniff_store"));
    // and rewriting the store between runs still reports nothing new
    let walk2 = vec![
        rec("/x/.sniff_store", b"rewritten again"),
        rec("/x/c.txt", b"data"),
    ];
    let (_, changed2) = s.sniff(Some(&text), &walk2).unwrap();
    assert!(changed2.is_empty());
}

#[test]
fn changed_paths_keep_walk_order() {
    let s = engine();
    let store = s.index(&vec![]);
    let walk = vec![
        rec("/x/z.txt", b"3"),
        rec("/x/a.txt", b"1"),
        rec("/x/m.txt", b"2"),
    ];
    let (_, changed) = s.sniff(Some(&store), &walk).unwrap();
    assert_eq!(
        changed,
        vec![
            "/x/z.txt".to_string(),
            "/x/a.txt".to_string(),
            "/x/m.txt".to_string()
        ]
    );
}

#[test]
fn round_trip_after_sniff() {
    // loading the store right after a sniff yields the mapping it wrote
    let s = engine();
    let store = s.index(&vec![rec("/x/a.txt", b"hello")]);
    let walk = vec![rec("/x/a.txt", b"changed"), rec("/x/b.txt", b"new")];
    let (text, _) = s.sniff(Some(&store), &walk).unwrap();
    let m = sniffers::store::parse_store(&text).unwrap();
    assert_eq!(m.len(), 2);
    assert_eq!(
        m.get(&"/x/a.txt".to_string()).cloned(),
        Some(digest_hex(b"changed"))
    );
    assert_eq!(
        m.get(&"/x/b.txt".to_string()).cloned(),
        Some(digest_hex(b"new"))
    );
}
