use chancery::anchor::{key_export, AnchorError};
use chancery::hex::UnhexError;
use chancery::layout::{chancery_dir, config_path, db_path, join, key_path, pubkey_path};
use chancery::serve::{answer, request_path, Answer, Resolution};

#[test]
fn key_export_plain_and_header() {
    let point: Vec<u8> = (0..65u8).collect();
    let text = format!("{}\n", chancery::hex::hex(&point));
    assert_eq!(key_export(&text, false).unwrap(), text);
    let h = key_export(&text, true).unwrap();
    let mut expected = String::from("/* GENERATED by `chancery key --header` — repository trust anchor. */\n#ifndef HERALD_TRUSTED_KEY_H\n#define HERALD_TRUSTED_KEY_H\nstatic const unsigned char herald_trusted_key[65] = {\n");
    let mut line = String::from("    ");
    for (i, b) in point.iter().enumerate() {
        line.push_str(&format!("0x{b:02x},"));
        if (i + 1) % 12 == 0 {
            expected.push_str(&line);
            expected.push('\n');
            line = String::from("    ");
        }
    }
    expected.push_str(&line);
    expected.push_str("\n};\n#endif\n");
    assert_eq!(h, expected);
    assert_eq!(key_export("abcd", true), Err(AnchorError::WrongLength(2)));
    assert_eq!(key_export("xyz", true), Err(AnchorError::Hex(UnhexError::OddLength)));
    assert_eq!(key_export(" xyz ", false).unwrap(), "xyz\n");
}

#[test]
fn layout_paths_join_like_path() {
    assert_eq!(join("repo", "x"), "repo/x");
    assert_eq!(join("repo/", "x"), "repo/x");
    assert_eq!(join("", "x"), "x");
    assert_eq!(chancery_dir("/srv/repo"), "/srv/repo/.chancery");
    assert_eq!(config_path("."), "./.chancery/config.toml");
    assert_eq!(db_path("/"), "/.chancery/db.json");
    assert_eq!(key_path("r"), "r/.chancery/signing.key");
    assert_eq!(pubkey_path("r"), "r/key.pub");
    let p = std::path::Path::new("/srv/repo").join(".chancery").join("config.toml");
    assert_eq!(config_path("/srv/repo"), p.to_str().unwrap());
}

#[test]
fn request_paths() {
    assert_eq!(request_path("/dists/stable/Release?x=1"), "dists/stable/Release");
    assert_eq!(request_path("///key.pub"), "key.pub");
    assert_eq!(request_path("/"), "");
    assert_eq!(request_path("?a"), "");
}

#[test]
fn answers() {
    let r = |inside_root, inside_control, is_file| Some(Resolution { inside_root, inside_control, is_file });
    assert_eq!(answer(r(true, false, true)), Answer::Serve);
    assert_eq!(answer(r(true, true, true)), Answer::Forbidden);
    assert_eq!(answer(r(false, false, true)), Answer::Forbidden);
    assert_eq!(answer(r(true, false, false)), Answer::NotFound);
    assert_eq!(answer(None), Answer::NotFound);
}
