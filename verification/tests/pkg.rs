use chancery::field::{validate_field, FieldProblem};
use chancery::pkg::{parse, read_manifest, reject_control, ManifestError, MAX_MANIFEST_BYTES};

fn base() -> String {
    "id=foo\nname=Foo\nversion=1.0\nexec=/usr/bin/foo\n".to_string()
}

#[test]
fn parses_required_fields_and_defaults_arch() {
    let m = parse(&base()).unwrap();
    assert_eq!(m.id, "foo");
    assert_eq!(m.version, "1.0");
    assert_eq!(m.arch, "x86_64");
}

#[test]
fn skips_comments_and_blanks_and_keeps_equals_in_value() {
    let text = "# a comment\n\nid=foo\nname=Foo\nversion=1.0\nexec=/bin/foo\ncaps=net=on\n";
    let m = parse(text).unwrap();
    assert_eq!(m.caps, "net=on");
}

#[test]
fn rejects_missing_required() {
    let text = "id=foo\nname=Foo\n";
    assert!(parse(text).is_err());
}

#[test]
fn rejects_path_traversal_in_version() {
    let text = "id=foo\nname=Foo\nversion=../../../etc/x\nexec=/bin/foo\n";
    assert!(parse(text).is_err());
}

#[test]
fn rejects_slash_in_id() {
    let text = "id=a/b\nname=Foo\nversion=1.0\nexec=/bin/foo\n";
    assert!(parse(text).is_err());
}

#[test]
fn rejects_control_chars_in_name() {
    let text = "id=foo\nname=Foo\u{7}Bar\nversion=1.0\nexec=/bin/foo\n";
    assert!(parse(text).is_err());
}

#[test]
fn parse_reads_every_field_trimmed_and_last_wins() {
    let text = "  id = foo \r\nname=Foo Bar\nversion=1.0\nversion=2.0\nexec= /bin/foo\ncaps=net\ndepends=bar\narch=aarch64\nunknown=x\nnoequals\n";
    let m = parse(text).unwrap();
    assert_eq!(m.id, "foo");
    assert_eq!(m.name, "Foo Bar");
    assert_eq!(m.version, "2.0");
    assert_eq!(m.exec_path, "/bin/foo");
    assert_eq!(m.caps, "net");
    assert_eq!(m.depends, "bar");
    assert_eq!(m.arch, "aarch64");
}

#[test]
fn parse_without_final_newline() {
    let m = parse("id=foo\nname=Foo\nversion=1.0\nexec=/bin/foo").unwrap();
    assert_eq!(m.exec_path, "/bin/foo");
    assert_eq!(m.caps, "");
}

#[test]
fn parse_reports_each_refusal() {
    assert!(matches!(parse("id=foo\nname=Foo\nversion=1.0\n"), Err(ManifestError::MissingField)));
    match parse("id=.foo\nname=Foo\nversion=1.0\nexec=/bin/foo\n") {
        Err(ManifestError::InvalidField(e)) => {
            assert_eq!(e.kind, "id");
            assert_eq!(e.value, ".foo");
            assert_eq!(e.problem, FieldProblem::LeadingDot);
        }
        _ => panic!("expected an invalid id"),
    }
    match parse("id=foo\nname=Foo\nversion=1.0\nexec=/bin/foo\narch=x 86\n") {
        Err(ManifestError::InvalidField(e)) => {
            assert_eq!(e.kind, "arch");
            assert_eq!(e.problem, FieldProblem::InvalidChar(' '));
        }
        _ => panic!("expected an invalid arch"),
    }
    match parse("id=foo\nname=Foo\nversion=1.0\nexec=/bin/foo\ndepends=a\u{1b}b\n") {
        Err(ManifestError::ControlChar { kind, ch }) => {
            assert_eq!(kind, "depends");
            assert_eq!(ch, '\u{1b}');
        }
        _ => panic!("expected a control character"),
    }
}

#[test]
fn reject_control_names_the_first_control_char() {
    assert!(reject_control("name", "plain text").is_ok());
    match reject_control("exec", "a\u{9f}b\u{7}") {
        Err(ManifestError::ControlChar { kind, ch }) => {
            assert_eq!(kind, "exec");
            assert_eq!(ch, '\u{9f}');
        }
        _ => panic!("expected a control character"),
    }
}

#[test]
fn validate_field_reports_each_problem() {
    assert_eq!(validate_field("id", "").unwrap_err().problem, FieldProblem::Empty);
    assert_eq!(validate_field("id", ".").unwrap_err().problem, FieldProblem::LeadingDot);
    assert_eq!(validate_field("id", "a..b").unwrap_err().problem, FieldProblem::DoubleDot);
    assert_eq!(validate_field("id", "a/b").unwrap_err().problem, FieldProblem::InvalidChar('/'));
    let e = validate_field("suite", "é").unwrap_err();
    assert_eq!(e.kind, "suite");
    assert_eq!(e.value, "é");
    assert!(validate_field("version", "1:2.0~rc1+b2-3_x").is_ok());
}

fn archive(members: &[(&str, &[u8])]) -> Vec<u8> {
    let mut ar = tar::Builder::new(Vec::new());
    for (path, data) in members {
        let mut h = tar::Header::new_ustar();
        h.set_path(path).unwrap();
        h.set_size(data.len() as u64);
        h.set_mode(0o644);
        h.set_cksum();
        ar.append(&h, *data).unwrap();
    }
    ar.into_inner().unwrap()
}

#[test]
fn read_manifest_finds_the_manifest_member() {
    let data = archive(&[
        ("usr/bin/foo", b"binary"),
        ("./manifest", b"id=foo\nname=Foo\nversion=1.0\nexec=/usr/bin/foo\ncaps=net\n"),
    ]);
    let m = read_manifest(&data).unwrap();
    assert_eq!(m.id, "foo");
    assert_eq!(m.caps, "net");
}

#[test]
fn read_manifest_refuses_bad_archives() {
    let data = archive(&[("readme", b"hello")]);
    assert!(matches!(read_manifest(&data), Err(ManifestError::NoManifest)));
    let data = archive(&[("manifest", &[0xff, 0xfe])]);
    assert!(matches!(read_manifest(&data), Err(ManifestError::NotUtf8)));
    let big = vec![b'#'; MAX_MANIFEST_BYTES + 1];
    let data = archive(&[("manifest", &big)]);
    assert!(matches!(read_manifest(&data), Err(ManifestError::TooLarge)));
    let data = archive(&[("manifest", b"id=evil\nname=Evil\nversion=../../../../tmp/pwned\nexec=/bin/sh\n")]);
    assert!(matches!(read_manifest(&data), Err(ManifestError::InvalidField(_))));
    let mut data = archive(&[("manifest", b"id=foo\n")]);
    data[0] ^= 0xff;
    assert!(matches!(read_manifest(&data), Err(ManifestError::Archive)));
}

#[test]
fn accepted_manifest_fields_hold_no_control_chars() {
    let m = parse("id=foo\nname=Foo\tBar\nversion=1.0\nexec=/bin/foo\n");
    assert!(matches!(m, Err(ManifestError::ControlChar { .. })));
    let m = parse("id=foo\nname=Foo Bar\nversion=1.0\nexec=/bin/foo\n").unwrap();
    for f in [&m.id, &m.name, &m.version, &m.exec_path, &m.caps, &m.depends, &m.arch] {
        assert!(!f.chars().any(|c| c.is_control()));
    }
}
