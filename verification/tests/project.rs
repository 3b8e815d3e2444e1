use symmetry::auth::{supported, verify_user, AuthError};
use symmetry::cli::StrictMode;
use symmetry::commands::{
    decrypt_entry, decrypt_entry_full, decrypt_targets, encrypt, gitignore_update, import,
    import_key_bytes, plan_strict, resolve_target, run_targets, seal_entry, seal_new_entry, show_filter, show_targets, strict,
    unmanaged, EntryError, KeyCommandError, StrictChange, StrictOutcome, TargetError,
    GITIGNORE_BLOCK,
};
use symmetry::crypto::{CryptoError, KeyMode, KEY_LEN};
use symmetry::keystore::{KeySource, KeychainError, StoredKey};
use symmetry::manifest::{
    color_choice_from_cwd, require_project, ColorChoice, Manifest, Project, ProjectError,
};
use symmetry::paths::{
    aad_for, ancestors, find_root, normalize, rel_cwd, rel_to_root, same_path, starts_with_path,
    strip_prefix,
};
use symmetry::scan::is_skip_dir;
use symmetry::setup::{
    choose_key, key_options, require_strict_support, select_files, store_key_for, summary,
    Hint, KeyChoice, KeyOption, KeySetup,
};

fn strings(v: &[&str]) -> Vec<String> {
    v.iter().map(|s| s.to_string()).collect()
}

#[test]
fn normalizes_dot_components() {
    assert_eq!(normalize("/a/b/../c/./d"), "/a/c/d");
}

#[test]
fn normalize_keeps_what_cannot_be_resolved() {
    assert_eq!(normalize("a/./b/"), "a/b");
    assert_eq!(normalize("../x"), "x");
    assert_eq!(normalize("/.."), "/");
}

#[test]
fn rel_to_root_resolves_relative_and_absolute_paths() {
    assert_eq!(rel_to_root("/p", "/p/apps", "web/.env").ok().unwrap(), "apps/web/.env");
    assert_eq!(rel_to_root("/p", "/p/apps", "../.env").ok().unwrap(), ".env");
    assert_eq!(rel_to_root("/p", "/elsewhere", "/p/x/.env").ok().unwrap(), "x/.env");
    assert!(rel_to_root("/p", "/p", "../q/.env").is_err());
}

#[test]
fn find_root_takes_the_nearest_manifest() {
    assert_eq!(ancestors("/p/apps/web"), strings(&["/p/apps/web", "/p/apps", "/p", "/"]));
    assert_eq!(find_root("/p/apps/web", &[false, false, true]), Some("/p".to_string()));
    assert_eq!(find_root("/p/apps/web", &[false, true, true]), Some("/p/apps".to_string()));
    assert_eq!(find_root("/p", &[false, false]), None);
}

#[test]
fn path_comparisons_go_by_component() {
    assert!(same_path("a/b", "a//b/"));
    assert!(!same_path("a/b", "a/bc"));
    assert!(starts_with_path("apps/web/src", "apps/web"));
    assert!(!starts_with_path("apps/webby", "apps/web"));
    assert_eq!(strip_prefix("/p", "/p/a/b"), Some("a/b".to_string()));
    assert_eq!(strip_prefix("/p", "/q/a"), None);
    assert_eq!(rel_cwd("/p", "/p/apps"), "apps");
    assert_eq!(rel_cwd("/p", "/q"), "");
}

#[test]
fn aad_uses_forward_slashes() {
    assert_eq!(aad_for("apps\\web\\.env"), b"apps/web/.env".to_vec());
    assert_eq!(aad_for(".env"), b".env".to_vec());
}

#[test]
fn manifest_adds_each_path_once() {
    let mut m = Manifest::new(strings(&[".env"]));
    assert_eq!(m.version, 1);
    assert_eq!(m.project_id.len(), 36);
    assert_eq!(m.color, ColorChoice::Auto);
    m.add("apps/web/.env".to_string());
    m.add("apps//web/.env".to_string());
    m.add(".env".to_string());
    assert_eq!(m.paths(), strings(&[".env", "apps/web/.env"]));
    assert!(m.contains("apps/web/.env"));
    assert!(!m.contains("apps/api/.env"));
}

#[test]
fn project_ids_are_fresh() {
    assert_ne!(Manifest::new(vec![]).project_id, Manifest::new(vec![]).project_id);
}

#[test]
fn require_project_reports_why_there_is_none() {
    let m = Manifest::new(strings(&[".env"]));
    let id = m.project_id.clone();
    let found = Project::Found("/p".to_string(), m);
    assert_eq!(color_choice_from_cwd(&found), ColorChoice::Auto);
    let (root, m2) = require_project(&found).unwrap();
    assert_eq!(root, "/p");
    assert_eq!(m2.project_id, id);
    assert!(matches!(require_project(&Project::Missing), Err(ProjectError::Missing)));
    match require_project(&Project::Invalid("bad toml".to_string())) {
        Err(ProjectError::Invalid(msg)) => assert_eq!(msg, "bad toml"),
        _ => panic!("expected Invalid"),
    }
}

#[test]
fn targets_come_from_paths_or_the_manifest() {
    let m = Manifest::new(strings(&[".env", "apps/web/.env"]));
    assert_eq!(
        decrypt_targets("/p", "/p", &m, &[]).unwrap(),
        strings(&[".env", "apps/web/.env"])
    );
    assert_eq!(
        decrypt_targets("/p", "/p/apps", &m, &strings(&["web/.env.enc"])).unwrap(),
        strings(&["apps/web/.env"])
    );
    assert!(matches!(
        decrypt_targets("/p", "/p", &m, &strings(&["/q/.env"])),
        Err(TargetError::Outside(p)) if p == "/q/.env"
    ));
    let empty = Manifest::new(vec![]);
    assert!(matches!(decrypt_targets("/p", "/p", &empty, &[]), Err(TargetError::NoFiles)));
}

#[test]
fn encrypt_adds_new_paths_to_the_manifest() {
    let mut m = Manifest::new(strings(&[".env"]));
    let targets = encrypt("/p", "/p", &mut m, &strings(&["apps/api/.env.staging"])).unwrap();
    assert_eq!(targets, strings(&["apps/api/.env.staging"]));
    assert_eq!(m.paths(), strings(&[".env", "apps/api/.env.staging"]));
    assert_eq!(encrypt("/p", "/p", &mut m, &[]).unwrap(), m.paths());
}

#[test]
fn run_and_set_find_their_file() {
    let m = Manifest::new(strings(&[".env", "apps/web/.env", "apps/api/.env"]));
    assert_eq!(resolve_target("/p", "/p/apps/web", &m, None).unwrap(), "apps/web/.env");
    assert_eq!(
        resolve_target("/p", "/p/apps", &m, Some("api/.env".to_string())).unwrap(),
        "apps/api/.env"
    );
    assert!(matches!(
        run_targets("/p", "/p/apps", &Manifest::new(strings(&["apps/web/.env", "apps/api/.env"])), None, false),
        Err(TargetError::Nearest(_))
    ));
    assert_eq!(run_targets("/p", "/p", &m, None, true).unwrap(), m.paths());
}

#[test]
fn show_lists_the_files_under_the_filter() {
    let m = Manifest::new(strings(&[".env", "apps/web/.env", "apps/api/.env"]));
    assert_eq!(show_filter("/p", "/p/apps", None).unwrap(), "apps");
    assert_eq!(show_filter("/p", "/p", Some("apps/web/.env.enc".to_string())).unwrap(), "apps/web/.env");
    assert_eq!(show_targets(&m, "apps").unwrap(), strings(&["apps/web/.env", "apps/api/.env"]));
    assert_eq!(show_targets(&m, "").unwrap(), m.paths());
    assert!(matches!(show_targets(&m, "docs"), Err(TargetError::NoneUnder(f)) if f == "docs"));
}

#[test]
fn status_lists_unmanaged_files() {
    let m = Manifest::new(strings(&[".env", "apps/web/.env"]));
    let found = strings(&[".env", "apps/api/.env.staging", "apps/web/.env"]);
    assert_eq!(unmanaged(&m, &found), strings(&["apps/api/.env.staging"]));
}

#[test]
fn gitignore_block_is_added_once() {
    let first = gitignore_update("target/\n").unwrap();
    assert_eq!(first, format!("target/\n\n{GITIGNORE_BLOCK}"));
    assert!(first.contains(".env.*"));
    assert!(first.contains("!*.enc"));
    assert_eq!(gitignore_update(&first), None);
    assert_eq!(gitignore_update("node_modules").unwrap(), format!("node_modules\n\n{GITIGNORE_BLOCK}"));
    assert_eq!(gitignore_update("").unwrap(), GITIGNORE_BLOCK);
}

#[test]
fn skip_dirs_are_recognized() {
    assert!(is_skip_dir("node_modules"));
    assert!(is_skip_dir(".git"));
    assert!(!is_skip_dir("apps"));
}

#[test]
fn entries_sealed_with_a_password_decrypt_with_it() {
    let mut keys = KeySource::new("project", Some("pw".to_string()));
    let text = seal_new_entry(&mut keys, None, "apps/web/.env", b"A=1\n").unwrap();
    assert!(text.starts_with("SYMMETRY v1\nkey: password\n"));
    let mut reader = KeySource::new("project", Some("pw".to_string()));
    let (plain, mode) = decrypt_entry_full(&text, "apps/web/.env", &mut reader).unwrap();
    assert_eq!(plain, b"A=1\n");
    let resealed = seal_entry("apps/web/.env", &mut reader, b"A=2\n", &mode).unwrap();
    assert_eq!(decrypt_entry(&resealed, "apps/web/.env", &mut reader).unwrap(), b"A=2\n");
    let mut wrong = KeySource::new("project", Some("other".to_string()));
    assert!(matches!(
        decrypt_entry(&resealed, "apps/web/.env", &mut wrong),
        Err(EntryError::Crypto(CryptoError::Decryption))
    ));
    assert!(matches!(
        decrypt_entry(&resealed, "apps/api/.env", &mut reader),
        Err(EntryError::Crypto(CryptoError::Decryption))
    ));
    assert!(matches!(
        decrypt_entry("plain text", ".env", &mut reader),
        Err(EntryError::Parse(_))
    ));
}

#[test]
fn entries_sealed_with_a_given_key_decrypt_with_it() {
    let key = [6u8; KEY_LEN];
    let mut keys = KeySource::new("project", None);
    let text = seal_new_entry(&mut keys, Some(key), ".env", b"S=1\n").unwrap();
    assert!(text.starts_with("SYMMETRY v1\nkey: keychain\n"));
    let enc = symmetry::crypto::EncFile::parse(&text).unwrap();
    assert_eq!(enc.mode, KeyMode::Keychain);
    assert_eq!(symmetry::crypto::open(&key, &enc, b".env").unwrap(), b"S=1\n");
}

#[test]
fn strict_mode_is_refused_where_unsupported() {
    assert!(!supported());
    assert!(matches!(verify_user("why"), Err(AuthError::Unsupported)));
    assert!(matches!(require_strict_support(), Err(AuthError::Unsupported)));
    assert!(matches!(import("p", "AAAA", true), Err(KeyCommandError::StrictUnsupported)));
    assert!(matches!(strict("p", StrictMode::On.is_on()), Err(KeyCommandError::StrictUnsupported)));
}

#[test]
fn import_checks_the_key_before_storing_it() {
    assert!(matches!(import("p", "not base64!", false), Err(KeyCommandError::NotBase64(_))));
    assert!(matches!(import("p", "  AAAA  ", false), Err(KeyCommandError::WrongLength(3))));
}

#[test]
fn key_choice_follows_the_flags() {
    assert_eq!(choose_key(true, true, true).unwrap(), Some(KeyChoice::Password));
    assert!(matches!(choose_key(false, true, true), Err(AuthError::Unsupported)));
    assert_eq!(
        choose_key(false, false, false).unwrap(),
        Some(KeyChoice::Keychain { strict: false })
    );
    assert_eq!(choose_key(false, false, true).unwrap(), None);
    assert_eq!(key_options(), vec![KeyOption::Keychain, KeyOption::Password]);
    assert_eq!(KeyOption::Password.choice(), KeyChoice::Password);
    assert_eq!(KeyOption::KeychainStrict.choice(), KeyChoice::Keychain { strict: true });
    assert!(matches!(store_key_for(KeyChoice::Password, "p"), KeySetup::PasswordMode));
}

#[test]
fn picked_files_keep_the_pick_order() {
    let found = strings(&[".env", "a/.env", "b/.env"]);
    assert_eq!(select_files(&found, &[2, 0]).ok().unwrap(), strings(&["b/.env", ".env"]));
    assert!(select_files(&found, &[]).is_err());
}

#[test]
fn summary_hints_depend_on_what_was_done() {
    assert_eq!(summary(0, false), vec![Hint::AddFile]);
    assert_eq!(summary(2, false), vec![Hint::EncryptNow, Hint::Run, Hint::Show]);
    assert_eq!(summary(2, true), vec![Hint::Run, Hint::Show]);
}

#[test]
fn imported_keys_are_decoded_exactly() {
    let b64 = "AQIDBAUGBwgJCgsMDQ4PEBESExQVFhcYGRobHB0eHyA=";
    let expected: Vec<u8> = (1u8..=32).collect();
    assert_eq!(import_key_bytes(b64).unwrap().to_vec(), expected);
    assert_eq!(import_key_bytes(&format!("\n  {b64}\t")).unwrap().to_vec(), expected);
    assert!(matches!(import_key_bytes("AAAA"), Err(KeyCommandError::WrongLength(3))));
    assert!(matches!(import_key_bytes("%%"), Err(KeyCommandError::NotBase64(_))));
}

#[test]
fn strict_changes_only_a_key_in_the_other_mode() {
    let key = |strict| Ok(Some(StoredKey { key: [2u8; KEY_LEN], strict }));
    assert!(matches!(plan_strict(key(true), true), Ok(StrictOutcome::Unchanged)));
    assert!(matches!(plan_strict(key(false), true), Ok(StrictOutcome::Changed)));
    assert!(matches!(plan_strict(key(true), false), Ok(StrictOutcome::Changed)));
    assert!(matches!(plan_strict(Ok(None), false), Err(KeyCommandError::NoKeychainKey)));
    assert!(matches!(
        plan_strict(Err(KeychainError::Unavailable("no dbus".to_string())), false),
        Err(KeyCommandError::Keychain(KeychainError::Unavailable(_)))
    ));
}

#[test]
fn strict_from_follows_what_the_keychain_holds() {
    let key = |strict| Ok(Some(StoredKey { key: [2u8; KEY_LEN], strict }));
    assert!(matches!(symmetry::commands::strict_from("p", true, key(true)), Ok(StrictChange::Unchanged)));
    assert!(matches!(symmetry::commands::strict_from("p", false, key(false)), Ok(StrictChange::Unchanged)));
    assert!(matches!(symmetry::commands::strict_from("p", false, Ok(None)), Err(KeyCommandError::NoKeychainKey)));
    assert!(matches!(
        symmetry::commands::strict_from("p", false, Err(KeychainError::Read("locked".to_string()))),
        Err(KeyCommandError::Keychain(KeychainError::Read(_)))
    ));
}

#[test]
fn encrypt_leaves_the_manifest_alone_on_error() {
    let mut m = Manifest::new(strings(&[".env"]));
    let before = m.paths();
    assert!(matches!(
        encrypt("/p", "/p", &mut m, &strings(&["a/.env", "/q/.env"])),
        Err(TargetError::Outside(_))
    ));
    assert_eq!(m.paths(), before);
}

#[test]
fn a_held_key_decrypts_what_it_sealed() {
    let mut keys = KeySource::new("project", Some("pw".to_string()));
    let text = seal_entry(".env", &mut keys, b"K=v\n", &KeyMode::Password { salt: [1u8; 16] }).unwrap();
    let mut reader = KeySource::new("other", Some("pw".to_string()));
    assert_eq!(decrypt_entry(&text, ".env", &mut reader).unwrap(), b"K=v\n");
}

#[test]
fn normalizing_twice_is_normalizing_once() {
    for p in ["/a/b/../c/./d", "./x/../../y/", "a//b/.", "/..", ""] {
        let once = normalize(p);
        assert_eq!(normalize(&once), once);
        assert!(!once.split('/').any(|c| c == "." || c == ".."));
    }
}

#[test]
fn init_encrypts_now_when_told_or_asked() {
    assert_eq!(symmetry::setup::encrypt_now(true, false), symmetry::setup::EncryptNow::Yes);
    assert_eq!(symmetry::setup::encrypt_now(false, true), symmetry::setup::EncryptNow::Ask);
    assert_eq!(symmetry::setup::encrypt_now(false, false), symmetry::setup::EncryptNow::No);
}

#[test]
fn normalize_drops_what_dot_dot_cannot_remove() {
    assert_eq!(normalize("a/../.."), "");
    assert_eq!(normalize("/.."), "/");
    assert_eq!(normalize("../a"), "a");
    assert_eq!(normalize("/a/b/.."), "/a");
}

#[test]
fn the_first_outside_path_is_the_one_reported() {
    let mut m = Manifest::new(strings(&[".env"]));
    assert!(matches!(
        encrypt("/p", "/p", &mut m, &strings(&["a/.env", "/q/.env", "/r/.env"])),
        Err(TargetError::Outside(p)) if p == "/q/.env"
    ));
    assert!(matches!(
        decrypt_targets("/p", "/p", &m, &strings(&["/r/.env", "/q/.env"])),
        Err(TargetError::Outside(p)) if p == "/r/.env"
    ));
    assert_eq!(m.paths(), strings(&[".env"]));
}

#[test]
fn a_kept_key_is_the_key_recorded() {
    let id = Manifest::new(vec![]).project_id;
    let key = [0x3cu8; KEY_LEN];
    match symmetry::setup::keep_key(&id, &key, false) {
        KeySetup::Stored { strict, receipt } => {
            assert!(!strict);
            assert_eq!(receipt.account, id);
            assert_eq!(
                symmetry::keystore::decode_payload(&receipt.payload).unwrap(),
                StoredKey { key, strict: false }
            );
        }
        KeySetup::FellBack(e) => assert!(matches!(
            e,
            KeychainError::Unavailable(_) | KeychainError::Store(_)
        )),
        KeySetup::PasswordMode => panic!("keep_key never settles on password mode"),
    }
}

#[test]
fn sealing_without_a_password_at_hand_asks_for_one() {
    let mut keys = KeySource::new("project", None);
    assert!(matches!(
        seal_new_entry(&mut keys, None, ".env", b"A=1\n"),
        Err(EntryError::Key(symmetry::keystore::KeyError::PasswordNeeded { confirm: true }))
    ));
    keys.remember("pw".to_string()).unwrap();
    let text = seal_new_entry(&mut keys, None, ".env", b"A=1\n").unwrap();
    let mut reader = KeySource::new("project", Some("pw".to_string()));
    assert_eq!(decrypt_entry(&text, ".env", &mut reader).unwrap(), b"A=1\n");
}
