use p256::ecdsa::signature::Verifier;
use p256::ecdsa::{DerSignature, VerifyingKey};
use p256::pkcs8::EncodePrivateKey;
use chancery::hex::hex;
use chancery::sign::{generate, import, key_file_text, load_key, public_point, sign, KeyError, SigningKey};

#[test]
fn sign_verify_roundtrip() {
    let key = generate().unwrap();
    let msg = b"hello herald";
    let der = sign(&key, msg);
    let pt = public_point(&key);
    assert_eq!(pt.len(), 65);
    assert_eq!(pt[0], 0x04);

    let vk = VerifyingKey::from_sec1_bytes(&pt).unwrap();
    let sig = DerSignature::try_from(der.as_slice()).unwrap();
    assert!(vk.verify(msg, &sig).is_ok());
}

#[test]
fn signs_deterministically() {
    let key = generate().unwrap();
    let msg = b"reproducible";
    assert_eq!(sign(&key, msg), sign(&key, msg));
}

#[test]
fn save_load_roundtrip() {
    let key = generate().unwrap();
    let text = key_file_text(&key);
    assert!(text.ends_with('\n'));
    assert_eq!(text.len(), 65);
    let loaded = load_key(&text).unwrap();
    assert_eq!(key.to_bytes(), loaded.to_bytes());
}

#[test]
fn load_key_refusals() {
    assert!(matches!(load_key("zz"), Err(KeyError::Hex(_))));
    assert!(matches!(load_key("abcd"), Err(KeyError::WrongLength(2))));
    assert!(matches!(load_key(&"00".repeat(32)), Err(KeyError::InvalidKey)));
    let order = "ffffffff00000000ffffffffffffffffbce6faada7179e84f3b9cac2fc632551";
    assert!(matches!(load_key(order), Err(KeyError::InvalidKey)));
    let below = "ffffffff00000000ffffffffffffffffbce6faada7179e84f3b9cac2fc632550";
    assert!(load_key(below).is_ok());
}

#[test]
fn from_scalar_checks_the_range() {
    assert!(SigningKey::from_scalar(&[0u8; 32]).is_none());
    assert!(SigningKey::from_scalar(&[1u8; 31]).is_none());
    let mut one = [0u8; 32];
    one[31] = 1;
    assert_eq!(SigningKey::from_scalar(&one).unwrap().to_bytes(), one);
}

#[test]
fn import_accepts_hex_sec1_and_pkcs8() {
    let key = generate().unwrap();
    let bytes = key.to_bytes();
    let from_hex = import(&format!("  {}\n", hex(&bytes))).unwrap();
    assert_eq!(from_hex.to_bytes(), bytes);

    let sk = p256::SecretKey::from_slice(&bytes).unwrap();
    let sec1 = sk.to_sec1_pem(Default::default()).unwrap();
    assert_eq!(import(&sec1).unwrap().to_bytes(), bytes);
    let pkcs8 = sk.to_pkcs8_pem(Default::default()).unwrap();
    assert_eq!(import(&pkcs8).unwrap().to_bytes(), bytes);

    assert!(matches!(import(&"0".repeat(64)), Err(KeyError::InvalidKey)));
    assert!(matches!(import("not a key"), Err(KeyError::Unparseable(_))));
}

#[test]
fn public_point_matches_p256() {
    let key = generate().unwrap();
    let sk = p256::ecdsa::SigningKey::from_slice(&key.to_bytes()).unwrap();
    let expected = sk.verifying_key().to_encoded_point(false);
    assert_eq!(public_point(&key).as_slice(), expected.as_bytes());
}

#[test]
fn generated_keys_are_valid_and_fresh() {
    let a = generate().unwrap();
    let b = generate().unwrap();
    assert!(p256::SecretKey::from_slice(&a.to_bytes()).is_ok());
    assert!(SigningKey::from_scalar(&a.to_bytes()).is_some());
    assert_ne!(a.to_bytes(), b.to_bytes());
}
