use chancery::list::{list_text, sort_entries};
use chancery::publish::{build_release, packages_stanza, publish_suite};
use chancery::repo::{
    add_name, insert_entry, new_entry, orphaned_files, pool_path, promote_entries, remove_entries, Config,
    Entry, PromoteError,
};
use chancery::pkg::parse;
use chancery::hex::sha256_hex;

fn entry() -> Entry {
    Entry {
        name: "foo".into(),
        version: "1.0".into(),
        arch: "x86_64".into(),
        suite: "stable".into(),
        component: "main".into(),
        filename: "pool/f/foo/foo_1.0_x86_64.hpkg".into(),
        size: 42,
        sha256: "deadbeef".into(),
        display_name: "Foo".into(),
        exec_path: "/usr/bin/foo".into(),
        caps: String::new(),
        depends: String::new(),
    }
}

fn entry_of(name: &str, version: &str, suite: &str) -> Entry {
    let mut e = entry();
    e.name = name.into();
    e.version = version.into();
    e.suite = suite.into();
    e.filename = pool_path(name, version, "x86_64");
    e
}

#[test]
fn pool_path_is_buckets() {
    assert_eq!(pool_path("foo", "1.0", "x86_64"), "pool/f/foo/foo_1.0_x86_64.hpkg");
}

#[test]
fn pool_path_lowercases_the_bucket() {
    assert_eq!(pool_path("Foo", "2", "arm"), "pool/f/Foo/Foo_2_arm.hpkg");
    assert_eq!(pool_path("", "1", "a"), "pool/_//_1_a.hpkg");
}

#[test]
fn pool_path_of_validated_fields_stays_in_the_pool() {
    let p = pool_path("x.y", "1.0~rc1", "x86.");
    let parts: Vec<&str> = p.split('/').collect();
    assert_eq!(parts.len(), 4);
    assert_eq!(parts[0], "pool");
    assert!(parts.iter().all(|c| !c.is_empty() && !c.starts_with('.')));
}

#[test]
fn packages_stanza_omits_empty_optional_fields() {
    let s = packages_stanza(&entry());
    assert!(s.contains("Package: foo\n"));
    assert!(s.contains("SHA256: deadbeef\n"));
    assert!(!s.contains("Depends:"));
    assert!(!s.contains("Caps:"));
}

#[test]
fn packages_stanza_full_text() {
    let mut e = entry();
    e.depends = "bar".into();
    e.caps = "net".into();
    assert_eq!(
        packages_stanza(&e),
        "Package: foo\nVersion: 1.0\nArchitecture: x86_64\nDepends: bar\nFilename: pool/f/foo/foo_1.0_x86_64.hpkg\nSize: 42\nSHA256: deadbeef\nDisplay-Name: Foo\nExec: /usr/bin/foo\nCaps: net\n"
    );
}

#[test]
fn build_release_is_deterministic_given_date() {
    let cfg = Config {
        origin: "Test".into(),
        suites: vec!["stable".into()],
        components: vec!["main".into()],
        architectures: vec!["x86_64".into()],
    };
    let pkgs = vec![("main/binary-x86_64/Packages".to_string(), 10u64, "abcd".to_string())];
    let date = "Mon, 01 Jan 2024 00:00:00 UTC";
    let a = build_release(&cfg, "stable", &pkgs, date);
    let b = build_release(&cfg, "stable", &pkgs, date);
    assert_eq!(a, b);
    assert!(a.contains("Date: Mon, 01 Jan 2024 00:00:00 UTC\n"));
    assert!(a.contains(" abcd 10 main/binary-x86_64/Packages\n"));
}

#[test]
fn build_release_full_text() {
    let cfg = Config {
        origin: "Aegis".into(),
        suites: vec!["stable".into()],
        components: vec!["main".into(), "extra".into()],
        architectures: vec!["x86_64".into(), "arm64".into()],
    };
    let pkgs = vec![
        ("main/binary-x86_64/Packages".to_string(), 0u64, "aa".to_string()),
        ("extra/binary-arm64/Packages".to_string(), 1234567u64, "bb".to_string()),
    ];
    assert_eq!(
        build_release(&cfg, "testing", &pkgs, "D"),
        "Origin: Aegis\nSuite: testing\nCodename: testing\nArchitectures: x86_64 arm64\nComponents: main extra\nDate: D\nSHA256:\n aa 0 main/binary-x86_64/Packages\n bb 1234567 extra/binary-arm64/Packages\n"
    );
}

#[test]
fn publish_suite_pins_each_packages_file() {
    let cfg = Config {
        origin: "O".into(),
        suites: vec!["stable".into(), "testing".into()],
        components: vec!["main".into()],
        architectures: vec!["x86_64".into(), "arm64".into()],
    };
    let mut e = entry();
    e.display_name = "Föö".into();
    let db = vec![e, entry_of("bar", "2.0", "testing")];
    let idx = publish_suite(&cfg, &db, "stable", "D");
    assert_eq!(idx.entry_count, 1);
    assert_eq!(idx.files.len(), 1);
    assert_eq!(idx.files[0].rel, "main/binary-x86_64/Packages");
    let body = format!("{}\n", packages_stanza(&db[0]));
    assert_eq!(idx.files[0].body, body);
    let line = format!(" {} {} main/binary-x86_64/Packages\n", sha256_hex(body.as_bytes()), body.len());
    assert!(idx.release.ends_with(&line));
    assert!(idx.release.starts_with("Origin: O\nSuite: stable\n"));
    let empty = publish_suite(&cfg, &db, "unstable", "D");
    assert_eq!(empty.entry_count, 0);
    assert!(empty.files.is_empty());
    assert!(empty.release.ends_with("SHA256:\n"));
}

#[test]
fn insert_entry_supersedes_the_same_slot() {
    let mut db = vec![entry_of("foo", "1.0", "stable"), entry_of("bar", "1.0", "stable")];
    let mut newer = entry_of("foo", "1.0", "stable");
    newer.size = 7;
    insert_entry(&mut db, newer);
    assert_eq!(db.len(), 2);
    assert_eq!(db[0].name, "bar");
    assert_eq!(db[1].name, "foo");
    assert_eq!(db[1].size, 7);
    insert_entry(&mut db, entry_of("foo", "1.1", "stable"));
    assert_eq!(db.len(), 3);
    let again = entry_of("foo", "1.1", "stable");
    insert_entry(&mut db, again);
    assert_eq!(db.len(), 3);
}

#[test]
fn remove_entries_filters_by_version_and_suite() {
    let mut db = vec![
        entry_of("foo", "1.0", "stable"),
        entry_of("foo", "1.0", "testing"),
        entry_of("foo", "2.0", "stable"),
        entry_of("bar", "1.0", "stable"),
    ];
    let removed = remove_entries(&mut db, "foo", Some("1.0"), None);
    assert_eq!(removed.len(), 2);
    assert_eq!(db.len(), 2);
    assert!(db.iter().all(|e| !(e.name == "foo" && e.version == "1.0")));
    let orphans = orphaned_files(&removed, &db);
    assert_eq!(orphans, vec!["pool/f/foo/foo_1.0_x86_64.hpkg".to_string(); 2]);
    let removed = remove_entries(&mut db, "foo", None, Some("stable"));
    assert_eq!(removed.len(), 1);
    assert_eq!(db.len(), 1);
    let none = remove_entries(&mut db, "nothing", None, None);
    assert!(none.is_empty());
}

#[test]
fn orphaned_files_keeps_shared_pool_files() {
    let removed = vec![entry_of("foo", "1.0", "stable")];
    let remaining = vec![entry_of("foo", "1.0", "testing")];
    assert!(orphaned_files(&removed, &remaining).is_empty());
}

#[test]
fn promote_copies_between_suites() {
    let mut db = vec![entry_of("foo", "1.0", "testing"), entry_of("foo", "1.1", "testing"), entry_of("foo", "1.0", "stable")];
    assert_eq!(promote_entries(&mut db, "foo", "testing", "stable"), Ok(2));
    assert_eq!(db.len(), 4);
    assert_eq!(db.iter().filter(|e| e.suite == "testing").count(), 2);
    assert_eq!(db.iter().filter(|e| e.suite == "stable").count(), 2);
    assert_eq!(promote_entries(&mut db, "bar", "testing", "stable"), Err(PromoteError::NoSuchPackage));
    assert_eq!(db.len(), 4);
}

#[test]
fn add_name_and_register() {
    let mut list = vec!["stable".to_string()];
    assert!(!add_name(&mut list, "stable"));
    assert!(add_name(&mut list, "testing"));
    assert!(!add_name(&mut list, "testing"));
    assert_eq!(list, vec!["stable".to_string(), "testing".to_string()]);
    let mut cfg = Config::initial("Aegis Repository");
    assert_eq!(cfg.suites, vec!["stable".to_string()]);
    assert_eq!(cfg.components, vec!["main".to_string()]);
    assert_eq!(cfg.architectures, vec!["x86_64".to_string()]);
    cfg.register("testing", "main", "arm64");
    assert_eq!(cfg.suites, vec!["stable".to_string(), "testing".to_string()]);
    assert_eq!(cfg.components, vec!["main".to_string()]);
    assert_eq!(cfg.architectures, vec!["x86_64".to_string(), "arm64".to_string()]);
    assert_eq!(cfg.origin, "Aegis Repository");
}

#[test]
fn new_entry_from_manifest() {
    let m = parse("id=foo\nname=Foo\nversion=1.0\nexec=/usr/bin/foo\ncaps=net\n").unwrap();
    let e = new_entry(&m, "stable", "main", b"abc");
    assert_eq!(e.filename, "pool/f/foo/foo_1.0_x86_64.hpkg");
    assert_eq!(e.size, 3);
    assert_eq!(e.sha256, "ba7816bf8f01cfea414140de5dae2223b00361a396177a9cb410ff61f20015ad");
    assert_eq!(e.display_name, "Foo");
    assert_eq!(e.caps, "net");
    assert_eq!(e.suite, "stable");
    let s = packages_stanza(&e);
    assert!(s.contains("Package: foo\n"));
    assert!(s.contains("Caps: net\n"));
}

#[test]
fn list_sorts_by_name_version_suite() {
    let db = vec![
        entry_of("foo", "1.10", "stable"),
        entry_of("foo", "1.9", "testing"),
        entry_of("bar", "2.0", "stable"),
        entry_of("foo", "1.9", "stable"),
    ];
    let sorted = sort_entries(db);
    let keys: Vec<(String, String, String)> =
        sorted.iter().map(|e| (e.name.clone(), e.version.clone(), e.suite.clone())).collect();
    assert_eq!(
        keys,
        vec![
            ("bar".to_string(), "2.0".to_string(), "stable".to_string()),
            ("foo".to_string(), "1.9".to_string(), "stable".to_string()),
            ("foo".to_string(), "1.9".to_string(), "testing".to_string()),
            ("foo".to_string(), "1.10".to_string(), "stable".to_string()),
        ]
    );
}

#[test]
fn list_text_table() {
    assert_eq!(list_text(vec![]), "(no packages)\n");
    let out = list_text(vec![entry_of("foo", "1.0", "stable")]);
    let expected = format!(
        "{:<20} {:<12} {:<8} {:<10} COMPONENT\n{:<20} {:<12} {:<8} {:<10} {}\n",
        "PACKAGE", "VERSION", "ARCH", "SUITE", "foo", "1.0", "x86_64", "stable", "main"
    );
    assert_eq!(out, expected);
}

#[test]
fn sorted_listing_is_ordered_pairwise() {
    let db = vec![
        entry_of("b", "10", "x"),
        entry_of("a", "2", "y"),
        entry_of("b", "9", "x"),
        entry_of("a", "02", "x"),
        entry_of("a", "2", "x"),
        entry_of("c", "1", "z"),
    ];
    let sorted = sort_entries(db);
    for i in 0..sorted.len() {
        for j in i + 1..sorted.len() {
            let (x, y) = (&sorted[i], &sorted[j]);
            let o = x.name.cmp(&y.name)
                .then_with(|| chancery::version::version_cmp(&x.version, &y.version))
                .then_with(|| x.suite.cmp(&y.suite));
            assert_ne!(o, std::cmp::Ordering::Greater);
        }
    }
    // stable: "a 02 x" and "a 2 x" compare equal and keep their order
    assert_eq!(sorted[0].version, "02");
    assert_eq!(sorted[1].version, "2");
}
