use std::cmp::Ordering;
use chancery::field::validate_field;
use chancery::hex::{hex, sha256_hex, unhex, UnhexError};
use chancery::version::{lex_cmp, version_cmp};

#[test]
fn hex_unhex_roundtrip() {
    let data = [0x00u8, 0x01, 0xfe, 0xff, 0x42];
    assert_eq!(unhex(&hex(&data)).unwrap(), data);
}

#[test]
fn unhex_rejects_odd_and_non_ascii() {
    assert!(unhex("abc").is_err());
    assert!(unhex("éé").is_err());
    assert!(unhex("zz").is_err());
}

#[test]
fn version_ordering_is_numeric() {
    assert_eq!(version_cmp("1.9", "1.10"), Ordering::Less);
    assert_eq!(version_cmp("9", "10"), Ordering::Less);
    assert_eq!(version_cmp("1.0", "1.0"), Ordering::Equal);
    assert_eq!(version_cmp("2.0", "1.99"), Ordering::Greater);
    assert_eq!(version_cmp("1.0.1", "1.0"), Ordering::Greater);
}

#[test]
fn validate_field_rejects_traversal() {
    assert!(validate_field("version", "1.2.3").is_ok());
    assert!(validate_field("version", "../../etc/passwd").is_err());
    assert!(validate_field("version", "..").is_err());
    assert!(validate_field("id", ".hidden").is_err());
    assert!(validate_field("id", "a/b").is_err());
    assert!(validate_field("id", "a b").is_err());
    assert!(validate_field("id", "").is_err());
}

#[test]
fn hex_encodes_lowercase() {
    assert_eq!(hex(&[0xde, 0xad, 0xBE, 0xef, 0x00, 0x0a]), "deadbeef000a");
    assert_eq!(hex(&[]), "");
}

#[test]
fn unhex_details() {
    assert_eq!(unhex("  DEADbeef\n").unwrap(), vec![0xde, 0xad, 0xbe, 0xef]);
    assert_eq!(unhex("+f0a").unwrap(), vec![0x0f, 0x0a]);
    assert_eq!(unhex("").unwrap(), Vec::<u8>::new());
    assert_eq!(unhex("abc"), Err(UnhexError::OddLength));
    assert_eq!(unhex("éé"), Err(UnhexError::NonAscii));
    assert_eq!(unhex("zz"), Err(UnhexError::InvalidDigit));
    assert_eq!(unhex("-f"), Err(UnhexError::InvalidDigit));
}

#[test]
fn unhex_of_hex_gives_the_bytes_back() {
    let all: Vec<u8> = (0..=255u8).collect();
    assert_eq!(unhex(&hex(&all)).unwrap(), all);
}

#[test]
fn sha256_hex_known_vectors() {
    assert_eq!(sha256_hex(b""), "e3b0c44298fc1c149afbf4c8996fb92427ae41e4649b934ca495991b7852b855");
    assert_eq!(sha256_hex(b"abc"), "ba7816bf8f01cfea414140de5dae2223b00361a396177a9cb410ff61f20015ad");
}

#[test]
fn version_ordering_details() {
    assert_eq!(version_cmp("1.0a", "1.0b"), Ordering::Less);
    assert_eq!(version_cmp("01", "1"), Ordering::Equal);
    assert_eq!(version_cmp("", ""), Ordering::Equal);
    assert_eq!(version_cmp("", "0"), Ordering::Less);
    assert_eq!(version_cmp("a", "1"), Ordering::Greater);
    // runs past u128::MAX compare as equal caps
    let huge = "9".repeat(60);
    let huger = "9".repeat(61);
    assert_eq!(version_cmp(&huge, &huger), Ordering::Equal);
}

#[test]
fn version_cmp_is_reflexive_and_antisymmetric() {
    let vs = ["1.0", "1.10", "1.9", "2.0~rc1", "1.0.1", "10", "a1", ""];
    for a in vs {
        assert_eq!(version_cmp(a, a), Ordering::Equal);
        for b in vs {
            assert_eq!(version_cmp(b, a), version_cmp(a, b).reverse());
        }
    }
}

#[test]
fn lex_cmp_matches_string_order() {
    let vs = ["", "a", "ab", "b", "B", "é", "z"];
    for a in vs {
        for b in vs {
            assert_eq!(lex_cmp(a, b), a.cmp(b));
        }
    }
}

#[test]
fn version_cmp_is_transitive_on_samples() {
    let vs = ["1.0", "1.10", "1.9", "2.0~rc1", "2.0", "1.0.1", "10", "a1", "", "01", "1", "~", "!1"];
    for a in vs {
        for b in vs {
            for c in vs {
                if version_cmp(a, b) != Ordering::Greater && version_cmp(b, c) != Ordering::Greater {
                    assert_ne!(version_cmp(a, c), Ordering::Greater, "{a} {b} {c}");
                }
            }
        }
    }
}
