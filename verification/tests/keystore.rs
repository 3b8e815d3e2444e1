use base64::Engine;
use symmetry::crypto::{derive_key, KEY_LEN, SALT_LEN};
use symmetry::keystore::{
    decode_payload, encode_payload, keychain_account, stored_key_from, KeySource, KeychainError,
    PayloadError, StoredKey,
};

#[test]
fn payload_roundtrips_both_modes() {
    let key = [42u8; KEY_LEN];
    for strict in [false, true] {
        let payload = encode_payload(&key, strict);
        assert_eq!(decode_payload(&payload).unwrap(), StoredKey { key, strict });
    }
}

#[test]
fn legacy_plain_base64_payload_is_not_strict() {
    let key = [7u8; KEY_LEN];
    let stored =
        decode_payload(&base64::engine::general_purpose::STANDARD.encode(key)).unwrap();
    assert!(!stored.strict);
    assert_eq!(stored.key, key);
}

#[test]
fn payload_rejects_garbage() {
    assert!(decode_payload("not base64!!").is_err());
    assert!(decode_payload("strict:short").is_err());
}

#[test]
fn payload_has_the_documented_form() {
    let key = [0u8; KEY_LEN];
    let plain = "AAAAAAAAAAAAAAAAAAAAAAAAAAAAAAAAAAAAAAAAAAA=";
    assert_eq!(encode_payload(&key, false), plain);
    assert_eq!(encode_payload(&key, true), format!("strict:{plain}"));
}

#[test]
fn payload_errors_name_their_cause() {
    assert!(matches!(decode_payload("@@@@"), Err(PayloadError::NotBase64(_))));
    assert!(matches!(decode_payload("AAAA"), Err(PayloadError::WrongLength)));
    assert!(matches!(decode_payload("strict:AAAA"), Err(PayloadError::WrongLength)));
}

#[test]
fn password_comes_from_the_environment_and_is_remembered() {
    let mut keys = KeySource::new("project", Some("hunter2".to_string()));
    assert_eq!(keys.password(false).unwrap(), "hunter2");
    assert_eq!(keys.password(true).unwrap(), "hunter2");
    let salt = [5u8; SALT_LEN];
    assert_eq!(
        keys.password_key(&salt).unwrap(),
        derive_key("hunter2", &salt).unwrap()
    );
    keys.forget_secrets();
}

#[test]
fn a_fresh_key_source_has_read_nothing() {
    let keys = KeySource::new("project", None);
    assert!(!keys.keychain_errored());
}

#[test]
fn a_stored_key_loads_back_where_a_keychain_is_available() {
    let id = symmetry::manifest::Manifest::new(vec![]).project_id;
    let key = [0x5au8; KEY_LEN];
    if symmetry::keystore::store_key(&id, &key, false).is_ok() {
        let loaded = symmetry::keystore::load_key(&id).unwrap().unwrap();
        assert_eq!(loaded, StoredKey { key, strict: false });
        assert_eq!(
            symmetry::commands::export(&id).unwrap(),
            base64::engine::general_purpose::STANDARD.encode(key)
        );
    }
}

#[test]
fn the_keychain_entry_and_what_it_returns_are_read_exactly() {
    let at = keychain_account("1234");
    assert_eq!((at.service.as_str(), at.account.as_str()), ("symmetry", "1234"));
    let key = [9u8; KEY_LEN];
    assert_eq!(
        stored_key_from(Ok(Some(encode_payload(&key, true)))).unwrap(),
        Some(StoredKey { key, strict: true })
    );
    assert_eq!(stored_key_from(Ok(None)).unwrap(), None);
    assert!(matches!(stored_key_from(Ok(Some("AAAA".to_string()))), Err(KeychainError::Payload(PayloadError::WrongLength))));
    assert!(matches!(stored_key_from(Err("denied".to_string())), Err(KeychainError::Read(m)) if m == "denied"));
}

#[test]
fn a_confirmed_password_must_match() {
    assert_eq!(
        symmetry::keystore::confirm_password("pw".to_string(), Some("pw".to_string())).unwrap(),
        "pw"
    );
    assert_eq!(symmetry::keystore::confirm_password("pw".to_string(), None).unwrap(), "pw");
    assert!(matches!(
        symmetry::keystore::confirm_password("pw".to_string(), Some("px".to_string())),
        Err(symmetry::keystore::KeyError::PasswordMismatch)
    ));
    assert!(matches!(
        symmetry::keystore::confirm_password(String::new(), None),
        Err(symmetry::keystore::KeyError::EmptyPassword)
    ));
}

#[test]
fn a_password_is_asked_for_when_none_is_at_hand() {
    let mut keys = KeySource::new("project", Some(String::new()));
    assert!(matches!(
        keys.password(true),
        Err(symmetry::keystore::KeyError::PasswordNeeded { confirm: true })
    ));
    let salt = [3u8; SALT_LEN];
    assert!(matches!(
        keys.password_key(&salt),
        Err(symmetry::keystore::KeyError::PasswordNeeded { confirm: false })
    ));
    assert!(matches!(
        keys.remember(String::new()),
        Err(symmetry::keystore::KeyError::EmptyPassword)
    ));
    keys.remember("typed".to_string()).unwrap();
    assert_eq!(keys.password(true).unwrap(), "typed");
    assert_eq!(keys.password_key(&salt).unwrap(), derive_key("typed", &salt).unwrap());
    keys.remember("again".to_string()).unwrap();
    assert_eq!(keys.password(false).unwrap(), "again");
    keys.forget_secrets();
}

#[test]
fn a_remembered_password_comes_before_the_environment() {
    let mut keys = KeySource::new("project", Some("from-env".to_string()));
    keys.remember("typed".to_string()).unwrap();
    assert_eq!(keys.password(false).unwrap(), "typed");
}

#[test]
fn payload_outside_the_alphabet_is_not_base64() {
    assert!(matches!(decode_payload("not base64!!"), Err(PayloadError::NotBase64(_))));
    assert!(matches!(decode_payload("strict:AA AA"), Err(PayloadError::NotBase64(_))));
}

#[test]
fn password_calls_leave_the_keychain_unread() {
    let mut keys = KeySource::new("project", Some("pw".to_string()));
    assert!(!keys.keychain_errored());
    keys.password(false).unwrap();
    keys.remember("other".to_string()).unwrap();
    keys.password_key(&[0u8; SALT_LEN]).unwrap();
    assert!(!keys.keychain_errored());
}
