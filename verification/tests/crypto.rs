use symmetry::crypto::{
    derive_key, open, random_bytes, seal, CryptoError, EncFile, EncParseError, KeyMode,
    KEY_LEN, NONCE_LEN, SALT_LEN,
};

#[test]
fn seal_open_roundtrip() {
    let key = random_bytes::<KEY_LEN>();
    let enc = seal(&key, b"SECRET=hunter2\n", b".env", KeyMode::Keychain).unwrap();
    let plain = open(&key, &enc, b".env").unwrap();
    assert_eq!(plain, b"SECRET=hunter2\n");
}

#[test]
fn wrong_key_fails() {
    let key = random_bytes::<KEY_LEN>();
    let other = random_bytes::<KEY_LEN>();
    let enc = seal(&key, b"SECRET=1", b".env", KeyMode::Keychain).unwrap();
    assert!(open(&other, &enc, b".env").is_err());
}

#[test]
fn wrong_aad_fails() {
    let key = random_bytes::<KEY_LEN>();
    let enc = seal(&key, b"SECRET=1", b"apps/web/.env", KeyMode::Keychain).unwrap();
    assert!(open(&key, &enc, b"apps/api/.env").is_err());
}

#[test]
fn tampered_ciphertext_fails() {
    let key = random_bytes::<KEY_LEN>();
    let mut enc = seal(&key, b"SECRET=1", b".env", KeyMode::Keychain).unwrap();
    enc.ciphertext[0] ^= 1;
    assert!(open(&key, &enc, b".env").is_err());
}

#[test]
fn render_parse_roundtrip_keychain() {
    let key = random_bytes::<KEY_LEN>();
    let enc = seal(&key, &[7u8; 500], b".env", KeyMode::Keychain).unwrap();
    let parsed = EncFile::parse(&enc.render()).unwrap();
    assert_eq!(parsed.mode, KeyMode::Keychain);
    assert_eq!(parsed.nonce, enc.nonce);
    assert_eq!(parsed.ciphertext, enc.ciphertext);
    assert_eq!(open(&key, &parsed, b".env").unwrap(), vec![7u8; 500]);
}

#[test]
fn render_parse_roundtrip_password() {
    let salt = random_bytes::<SALT_LEN>();
    let key = derive_key("correct horse", &salt).unwrap();
    let enc = seal(&key, b"A=1\n", b".env", KeyMode::Password { salt }).unwrap();
    let parsed = EncFile::parse(&enc.render()).unwrap();
    let KeyMode::Password { salt: parsed_salt } = parsed.mode else {
        panic!("expected password mode");
    };
    let key2 = derive_key("correct horse", &parsed_salt).unwrap();
    assert_eq!(open(&key2, &parsed, b".env").unwrap(), b"A=1\n");
}

#[test]
fn parse_rejects_garbage() {
    assert!(EncFile::parse("").is_err());
    assert!(EncFile::parse("not a header\n").is_err());
    assert!(EncFile::parse("SYMMETRY v1\nkey: keychain\n\n").is_err());
}

// A nonce of 24 zero bytes and a salt of 16 zero bytes, in base64.
const NONCE0: &str = "AAAAAAAAAAAAAAAAAAAAAAAAAAAAAAAA";
const SALT0: &str = "AAAAAAAAAAAAAAAAAAAAAA==";

#[test]
fn render_has_the_documented_layout() {
    let enc = EncFile {
        mode: KeyMode::Keychain,
        nonce: [0u8; NONCE_LEN],
        ciphertext: vec![0u8; 3],
    };
    assert_eq!(
        enc.render(),
        format!("SYMMETRY v1\nkey: keychain\nnonce: {NONCE0}\n\nAAAA\n")
    );
    let enc = EncFile {
        mode: KeyMode::Password { salt: [0u8; SALT_LEN] },
        nonce: [0u8; NONCE_LEN],
        ciphertext: vec![0u8; 3],
    };
    assert_eq!(
        enc.render(),
        format!("SYMMETRY v1\nkey: password\nsalt: {SALT0}\nnonce: {NONCE0}\n\nAAAA\n")
    );
}

#[test]
fn render_wraps_the_ciphertext_at_76_columns() {
    let enc = EncFile {
        mode: KeyMode::Keychain,
        nonce: [0u8; NONCE_LEN],
        ciphertext: vec![0u8; 60],
    };
    let text = enc.render();
    let body: Vec<&str> = text.lines().skip(4).collect();
    assert_eq!(body.len(), 2);
    assert_eq!(body[0].len(), 76);
    assert_eq!(body[1].len(), 4);
    let parsed = EncFile::parse(&text).unwrap();
    assert_eq!(parsed.ciphertext, vec![0u8; 60]);
}

#[test]
fn parse_names_each_defect() {
    let p = |t: String| EncFile::parse(&t).err().unwrap();
    assert!(matches!(p("".into()), EncParseError::NotEncrypted));
    assert!(matches!(
        p("SYMMETRY v1\nno colon here\n\nAAAA\n".into()),
        EncParseError::MalformedHeader(l) if l == "no colon here"
    ));
    assert!(matches!(
        p("SYMMETRY v1\nkey: password\nsalt: AAAA\n".into()),
        EncParseError::InvalidSalt(_)
    ));
    assert!(matches!(
        p("SYMMETRY v1\nkey: keychain\nnonce: !!\n".into()),
        EncParseError::InvalidNonce(_)
    ));
    assert!(matches!(
        p(format!("SYMMETRY v1\nkey: password\nnonce: {NONCE0}\n\nAAAA\n")),
        EncParseError::MissingSalt
    ));
    assert!(matches!(
        p(format!("SYMMETRY v1\nkey: hsm\nnonce: {NONCE0}\n\nAAAA\n")),
        EncParseError::UnknownKeyMode(k) if k == "hsm"
    ));
    assert!(matches!(
        p(format!("SYMMETRY v1\nkey: keychain\nsalt: {SALT0}\nnonce: {NONCE0}\n\nAAAA\n")),
        EncParseError::UnknownKeyMode(k) if k == "keychain"
    ));
    assert!(matches!(
        p(format!("SYMMETRY v1\nnonce: {NONCE0}\n\nAAAA\n")),
        EncParseError::MissingKeyHeader
    ));
    assert!(matches!(
        p("SYMMETRY v1\nkey: keychain\n\nAAAA\n".into()),
        EncParseError::MissingNonce
    ));
    assert!(matches!(
        p(format!("SYMMETRY v1\nkey: keychain\nnonce: {NONCE0}\n\n!!!!\n")),
        EncParseError::InvalidCiphertext(_)
    ));
    assert!(matches!(
        p(format!("SYMMETRY v1\nkey: keychain\nnonce: {NONCE0}\n\n")),
        EncParseError::MissingCiphertext
    ));
}

#[test]
fn parse_ignores_unknown_headers_and_surrounding_space() {
    let text = format!("  SYMMETRY v1  \r\nkey:keychain\nfuture: 1\n nonce : {NONCE0}\n\n AA\nAA \n");
    let parsed = EncFile::parse(&text).unwrap();
    assert_eq!(parsed.mode, KeyMode::Keychain);
    assert_eq!(parsed.nonce, [0u8; NONCE_LEN]);
    assert_eq!(parsed.ciphertext, vec![0u8; 3]);
}

#[test]
fn derive_key_is_deterministic_per_password_and_salt() {
    let salt = [9u8; SALT_LEN];
    let a = derive_key("pw", &salt).unwrap();
    assert_eq!(a, derive_key("pw", &salt).unwrap());
    assert_ne!(a, derive_key("pw2", &salt).unwrap());
    assert_ne!(a, derive_key("pw", &[8u8; SALT_LEN]).unwrap());
    assert_ne!(a, [0u8; KEY_LEN]);
}

#[test]
fn derive_key_rejects_a_short_salt() {
    assert!(matches!(derive_key("pw", &[1u8; 7]), Err(CryptoError::KeyDerivation(_))));
}

#[test]
fn sealing_adds_a_tag_and_hides_the_plaintext() {
    let key = [3u8; KEY_LEN];
    let enc = seal(&key, b"SECRET=1", b".env", KeyMode::Keychain).unwrap();
    assert_eq!(enc.ciphertext.len(), 8 + 16);
    assert_ne!(&enc.ciphertext[..8], b"SECRET=1");
    let again = seal(&key, b"SECRET=1", b".env", KeyMode::Keychain).unwrap();
    assert_ne!(enc.nonce, again.nonce);
    assert!(matches!(open(&[4u8; KEY_LEN], &enc, b".env"), Err(CryptoError::Decryption)));
}

#[test]
fn random_bytes_differ_between_calls() {
    assert_ne!(random_bytes::<32>(), random_bytes::<32>());
}
