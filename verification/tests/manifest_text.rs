use artifact_installer::artifact::Version;
use artifact_installer::manifest::ManifestEntry;
use artifact_installer::manifest_text::{
    append_decimal, is_plain, read_entry, read_number, split, write_entry,
};

fn entry(name: &str, version: Option<Version>, path: &str, at: u64) -> ManifestEntry {
    ManifestEntry { name: name.to_string(), version, path: path.to_string(), installed_at: at }
}

fn same(a: &ManifestEntry, b: &ManifestEntry) -> bool {
    a.name == b.name && a.version == b.version && a.path == b.path && a.installed_at == b.installed_at
}

#[test]
fn record_is_written_field_by_field() {
    let v = Version { major: 1, minor: 20, patch: 3 };
    assert_eq!(
        write_entry(&entry("lib", Some(v), "/env/bin/lib", 42)).unwrap(),
        "lib\t1\t1\t20\t3\t/env/bin/lib\t42"
    );
    assert_eq!(write_entry(&entry("tool", None, "/t", 0)).unwrap(), "tool\t0\t0\t0\t0\t/t\t0");
}

#[test]
fn what_was_written_reads_back() {
    let cases = vec![
        entry("lib", Some(Version { major: 0, minor: 0, patch: 0 }), "/env/bin/lib", 1),
        entry("lib", None, "", u64::MAX),
        entry("", Some(Version { major: u64::MAX, minor: 10, patch: 909 }), "a b:c", 1700000000),
        entry("m1-with-submodules", None, "/home/u/.movement/bin/m1-with-submodules", 100),
    ];
    for e in &cases {
        let line = write_entry(e).unwrap();
        let back = read_entry(&line).unwrap();
        assert!(same(e, &back), "{:?} came back as {:?}", e, back);
    }
}

#[test]
fn fields_with_tabs_or_line_breaks_are_not_written() {
    assert!(write_entry(&entry("a\tb", None, "/p", 1)).is_none());
    assert!(write_entry(&entry("a", None, "/p\nq", 1)).is_none());
    assert!(is_plain("a b"));
    assert!(is_plain(""));
    assert!(!is_plain("\t"));
    assert!(!is_plain("x\n"));
}

#[test]
fn malformed_lines_are_refused() {
    assert!(read_entry("").is_none());
    assert!(read_entry("lib\t1\t1\t2\t3\t/p").is_none());
    assert!(read_entry("lib\t1\t1\t2\t3\t/p\t4\t5").is_none());
    assert!(read_entry("lib\t2\t1\t2\t3\t/p\t4").is_none());
    assert!(read_entry("lib\t1\tx\t2\t3\t/p\t4").is_none());
    assert!(read_entry("lib\t1\t1\t\t3\t/p\t4").is_none());
    assert!(read_entry("lib\t1\t1\t2\t3\t/p\t18446744073709551616").is_none());
    assert!(read_entry("lib\t1\t1\t2\t3\t/p\t-4").is_none());
    let e = read_entry("lib\t0\t7\t8\t9\t/p\t4").unwrap();
    assert_eq!(e.version, None);
    assert_eq!(e.name, "lib");
    assert_eq!(e.path, "/p");
    assert_eq!(e.installed_at, 4);
}

#[test]
fn numbers_are_decimal() {
    assert_eq!(read_number("0"), Some(0));
    assert_eq!(read_number("007"), Some(7));
    assert_eq!(read_number("18446744073709551615"), Some(u64::MAX));
    assert_eq!(read_number("18446744073709551616"), None);
    assert_eq!(read_number("99999999999999999999"), None);
    assert_eq!(read_number(""), None);
    assert_eq!(read_number("12a"), None);
    assert_eq!(read_number("+1"), None);
    let mut out = String::from("n=");
    append_decimal(&mut out, 0);
    append_decimal(&mut out, 1234567890);
    append_decimal(&mut out, u64::MAX);
    assert_eq!(out, "n=0123456789018446744073709551615");
}

#[test]
fn split_keeps_empty_fields() {
    assert_eq!(split("a\t\tb"), vec!["a".to_string(), "".to_string(), "b".to_string()]);
    assert_eq!(split(""), vec!["".to_string()]);
    assert_eq!(split("\t"), vec!["".to_string(), "".to_string()]);
    assert_eq!(split("one"), vec!["one".to_string()]);
}
