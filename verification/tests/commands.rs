use symmetry::commands::{
    entry_source, key_status, lock_state, restore_decision, split_command, EntrySource,
    KeyStatus, LockState, Restore,
};
use symmetry::keystore::{KeychainError, StoredKey};
use symmetry::paths::{enc_path, nearest, strip_enc, NearestError};
use symmetry::scan::{is_env_file, path_less, sort_paths};
use symmetry::vars::{mask, validate_key};

fn paths(strs: &[&str]) -> Vec<String> {
    strs.iter().map(|s| s.to_string()).collect()
}

#[test]
fn enc_path_and_strip_enc_roundtrip() {
    assert_eq!(enc_path("apps/web/.env"), "apps/web/.env.enc");
    assert_eq!(strip_enc("apps/web/.env.enc"), "apps/web/.env");
    assert_eq!(strip_enc(".env.local.enc"), ".env.local");
    assert_eq!(strip_enc(".env"), ".env");
}

#[test]
fn single_file_wins_from_anywhere() {
    let files = paths(&["apps/web/.env"]);
    assert_eq!(nearest(&files, "").unwrap(), "apps/web/.env");
}

#[test]
fn picks_deepest_matching_directory() {
    let files = paths(&[".env", "apps/web/.env", "apps/api/.env"]);
    assert_eq!(nearest(&files, "apps/web").unwrap(), "apps/web/.env");
    assert_eq!(
        nearest(&files, "apps/web/src/components").unwrap(),
        "apps/web/.env"
    );
    assert_eq!(nearest(&files, "").unwrap(), ".env");
}

#[test]
fn no_match_is_an_error() {
    let files = paths(&["apps/web/.env", "apps/api/.env"]);
    assert!(nearest(&files, "docs").is_err());
}

#[test]
fn same_directory_tie_is_an_error() {
    let files = paths(&["apps/web/.env", "apps/web/.env.local"]);
    assert!(nearest(&files, "apps/web").is_err());
}

#[test]
fn masks_values() {
    assert_eq!(mask("abc"), "••••");
    assert_eq!(mask("sk_test_abc123"), "sk••••••••••23");
    // long values don't leak their exact length
    assert_eq!(mask(&"x".repeat(100)), format!("xx{}xx", "•".repeat(12)));
}

#[test]
fn validates_variable_names() {
    assert!(validate_key("API_KEY").is_ok());
    assert!(validate_key("_private").is_ok());
    assert!(validate_key("KEY2").is_ok());
    assert!(validate_key("").is_err());
    assert!(validate_key("2KEY").is_err());
    assert!(validate_key("KEY=VALUE").is_err());
    assert!(validate_key("KEY NAME").is_err());
}

#[test]
fn recognizes_env_files() {
    assert!(is_env_file(".env"));
    assert!(is_env_file(".env.local"));
    assert!(is_env_file(".env.production"));
    assert!(!is_env_file(".env.enc"));
    assert!(!is_env_file(".env.local.enc"));
    assert!(!is_env_file(".env.example"));
    assert!(!is_env_file(".env.sample"));
    assert!(!is_env_file(".env.template"));
    assert!(!is_env_file("env"));
    assert!(!is_env_file("my.env"));
}

#[test]
fn nearest_errors_name_their_cause() {
    assert!(matches!(nearest(&[], "apps"), Err(NearestError::NoFiles)));
    let files = paths(&["apps/web/.env", "apps/api/.env"]);
    assert!(matches!(nearest(&files, "docs"), Err(NearestError::NoMatch)));
    let tie = paths(&["apps/web/.env", "apps/web/.env.local", "apps/.env"]);
    match nearest(&tie, "apps/web/src") {
        Err(NearestError::Ambiguous(w)) => {
            assert_eq!(w, paths(&["apps/web/.env", "apps/web/.env.local"]))
        }
        _ => panic!("expected an ambiguity"),
    }
}

#[test]
fn nearest_prefers_the_deeper_of_nested_directories() {
    let files = paths(&["apps/.env", "apps/web/.env", ".env"]);
    assert_eq!(nearest(&files, "apps/web/src").unwrap(), "apps/web/.env");
    assert_eq!(nearest(&files, "apps/api").unwrap(), "apps/.env");
    assert_eq!(nearest(&files, "docs").unwrap(), ".env");
}

#[test]
fn strip_enc_undoes_enc_path() {
    for p in ["a", ".env", "apps/web/.env.local", "x.enc"] {
        assert_eq!(strip_enc(&enc_path(p)), p);
    }
}

#[test]
fn mask_shows_ends_of_medium_values() {
    assert_eq!(mask("abcd"), "••••");
    assert_eq!(mask("abcde"), "ab•de");
    assert_eq!(mask(&"y".repeat(16)), mask(&"y".repeat(40)));
}

#[test]
fn restore_decision_protects_edited_plaintext() {
    assert_eq!(restore_decision(None, b"A=1\n", false), Restore::Write);
    assert_eq!(
        restore_decision(Some(&b"A=1\n"[..]), b"A=1\n", false),
        Restore::AlreadyDecrypted
    );
    assert_eq!(
        restore_decision(Some(&b"A=2\n"[..]), b"A=1\n", false),
        Restore::Conflict
    );
    assert_eq!(restore_decision(Some(&b"A=2\n"[..]), b"A=1\n", true), Restore::Write);
}

#[test]
fn lock_state_of_each_pair() {
    assert_eq!(lock_state(true, false), LockState::Locked);
    assert_eq!(lock_state(true, true), LockState::LockedWithPlaintext);
    assert_eq!(lock_state(false, true), LockState::Unlocked);
    assert_eq!(lock_state(false, false), LockState::Missing);
}

#[test]
fn entry_source_prefers_the_encrypted_version() {
    assert_eq!(entry_source(true, true).ok(), Some(EntrySource::Encrypted));
    assert_eq!(entry_source(false, true).ok(), Some(EntrySource::Plaintext));
    assert!(entry_source(false, false).is_err());
}

#[test]
fn split_command_takes_the_program_first() {
    let (p, args) = split_command(&paths(&["npm", "run", "dev"])).unwrap();
    assert_eq!(p, "npm");
    assert_eq!(args, paths(&["run", "dev"]));
    assert!(split_command(&[]).is_err());
}

#[test]
fn key_status_reports_where_the_key_lives() {
    let k = StoredKey { key: [1u8; 32], strict: true };
    assert!(matches!(key_status(Ok(Some(k))), KeyStatus::KeychainStrict));
    let k = StoredKey { key: [1u8; 32], strict: false };
    assert!(matches!(key_status(Ok(Some(k))), KeyStatus::Keychain));
    assert!(matches!(key_status(Ok(None)), KeyStatus::PasswordMode));
    assert!(matches!(
        key_status(Err(KeychainError::Read("x".to_string()))),
        KeyStatus::Unreadable(_)
    ));
}

#[test]
fn scan_results_are_listed_in_path_order() {
    let found = paths(&["apps/web/.env", ".env", "apps/api/.env.production", "apps.env/.env"]);
    assert_eq!(
        sort_paths(&found),
        paths(&[".env", "apps/api/.env.production", "apps/web/.env", "apps.env/.env"])
    );
    assert!(path_less("a/b", "a.b"));
    assert!(!path_less("a.b", "a/b"));
    assert!(path_less("a", "a/b"));
    assert!(!path_less("a/b", "a/b"));
}
