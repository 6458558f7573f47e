use chancery::hex::{hex, unhex};
use chancery::pkg::read_manifest;
use chancery::publish::publish_suite;
use chancery::repo::{Config, Entry, Placement, PromoteError, TargetSuite};
use chancery::field::FieldProblem;
use chancery::sign::{generate, public_point, sign};
use p256::ecdsa::signature::Verifier;
use p256::ecdsa::{DerSignature, VerifyingKey};
use tar::{Builder, Header};

fn make_hpkg(manifest: &[u8]) -> Vec<u8> {
    let mut ar = Builder::new(Vec::new());
    let mut h = Header::new_ustar();
    h.set_path("manifest").unwrap();
    h.set_size(manifest.len() as u64);
    h.set_mode(0o644);
    h.set_cksum();
    ar.append(&h, manifest).unwrap();
    ar.into_inner().unwrap()
}

#[test]
fn add_publish_sign_verifies_under_public_point() {
    let data = make_hpkg(b"id=foo\nname=Foo\nversion=1.0\nexec=/usr/bin/foo\ncaps=net\n");
    let key = generate().unwrap();
    let anchor = format!("{}\n", hex(&public_point(&key)));

    let mut cfg = Config::initial("Test Repo");
    let mut db: Vec<Entry> = Vec::new();
    let m = read_manifest(&data).unwrap();
    let place = Placement::check("stable", "main").unwrap();
    let e = place.add(&mut db, &mut cfg, &m, &data);
    assert_eq!(e.filename, "pool/f/foo/foo_1.0_x86_64.hpkg");
    assert_eq!(e.size, data.len() as u64);
    assert_eq!(db.len(), 1);

    let idx = publish_suite(&cfg, &db, "stable", "Thu, 01 Jan 2026 00:00:00 UTC");
    assert_eq!(idx.entry_count, 1);
    let packages = idx
        .files
        .iter()
        .find(|f| f.rel == "main/binary-x86_64/Packages")
        .expect("Packages file");
    assert!(packages.body.contains("Package: foo\n"));
    assert!(packages.body.contains("Caps: net\n"));

    let sig_der = sign(&key, idx.release.as_bytes());
    let point = unhex(&anchor).unwrap();
    let vk = VerifyingKey::from_sec1_bytes(&point).unwrap();
    let sig = DerSignature::try_from(sig_der.as_slice()).unwrap();
    vk.verify(idx.release.as_bytes(), &sig).expect("Release signature must verify");
}

#[test]
fn placement_refuses_unsafe_suite_first() {
    let e = Placement::check("../x", "..").err().unwrap();
    assert_eq!(e.kind, "suite");
    assert_eq!(e.value, "../x");
    assert!(matches!(e.problem, FieldProblem::LeadingDot));
    let e = Placement::check("stable", "a/b").err().unwrap();
    assert_eq!(e.kind, "component");
    assert!(matches!(e.problem, FieldProblem::InvalidChar('/')));
}

#[test]
fn placement_add_registers_names() {
    let data = make_hpkg(b"id=bar\nname=Bar\nversion=2.1\nexec=/bin/bar\narch=aarch64\n");
    let mut cfg = Config::initial("o");
    let mut db: Vec<Entry> = Vec::new();
    let m = read_manifest(&data).unwrap();
    let place = Placement::check("testing", "contrib").unwrap();
    let e = place.add(&mut db, &mut cfg, &m, &data);
    assert_eq!(e.suite, "testing");
    assert_eq!(e.component, "contrib");
    assert_eq!(cfg.suites, vec!["stable".to_string(), "testing".to_string()]);
    assert_eq!(cfg.components, vec!["main".to_string(), "contrib".to_string()]);
    assert_eq!(cfg.architectures, vec!["x86_64".to_string(), "aarch64".to_string()]);
    // Adding the same package again supersedes it and records nothing new.
    place.add(&mut db, &mut cfg, &m, &data);
    assert_eq!(db.len(), 1);
    assert_eq!(cfg.suites.len(), 2);
}

#[test]
fn target_suite_promotes_and_records() {
    let data = make_hpkg(b"id=foo\nname=Foo\nversion=1.0\nexec=/usr/bin/foo\n");
    let mut cfg = Config::initial("o");
    let mut db: Vec<Entry> = Vec::new();
    let m = read_manifest(&data).unwrap();
    Placement::check("testing", "main").unwrap().add(&mut db, &mut cfg, &m, &data);

    assert!(TargetSuite::check("").is_err());
    let e = TargetSuite::check("a..b").err().unwrap();
    assert_eq!(e.kind, "suite");
    assert!(matches!(e.problem, FieldProblem::DoubleDot));

    let to = TargetSuite::check("stable").unwrap();
    assert!(matches!(to.promote(&mut db, &mut cfg, "nope", "testing"), Err(PromoteError::NoSuchPackage)));
    assert_eq!(db.len(), 1);
    // "stable" is already configured, so the configuration does not change.
    assert_eq!(to.promote(&mut db, &mut cfg, "foo", "testing").ok(), Some(false));
    assert_eq!(db.len(), 2);
    assert!(db.iter().any(|e| e.suite == "stable" && e.name == "foo"));
    let to = TargetSuite::check("edge").unwrap();
    assert_eq!(to.promote(&mut db, &mut cfg, "foo", "testing").ok(), Some(true));
    assert!(cfg.suites.iter().any(|s| s == "edge"));
}
