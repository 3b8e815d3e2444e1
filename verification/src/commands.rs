//! What the commands decide: which files they act on, how an entry is
//! decrypted or sealed with the project's key, when a plaintext may be
//! overwritten, and how the key commands treat the keychain.

use vstd::prelude::*;

use crate::auth::{strict_supported, supported};
use crate::crypto::{
    argon2id_key, derive_key, open, open_spec, parse_spec, random_bytes, seal, CryptoError,
    EncFile, EncFileView, EncParseError, KeyMode, ModeView, ParseFailure, KEY_LEN, SALT_LEN,
};
use crate::keystore::{
    env_usable, load_key, password_at_hand, store_key, stores, KeyError,
    KeySource, KeychainError, KeychainReceipt, KeychainState, StoredKey,
};
use crate::manifest::Manifest;
use crate::paths::{
    aad_for, aad_spec, comps, is_prefix, nearest, nearest_spec, rel_cwd, rel_cwd_spec,
    rel_to_root, rel_to_root_spec, starts_with_path, strip_enc, strip_enc_spec, NearestError,
    keep, lemma_keep_exact, lemma_keep_subsequence, subsequence_of,
};

verus! {

// ---------------------------------------------------------------------------
// Decrypting and sealing entries
// ---------------------------------------------------------------------------

/// Why an entry could not be decrypted or sealed.
#[derive(Debug)]
pub enum EntryError {
    /// The encrypted file is malformed.
    Parse(EncParseError),
    /// No key could be had.
    Key(KeyError),
    /// Encryption or decryption failed.
    Crypto(CryptoError),
}

/// The key a key source holds for a key mode once it has been asked for
/// it: the keychain key, or the key derived from the remembered password
/// and the file's salt.
pub open spec fn held_key(ks: KeySource, mode: ModeView) -> Option<Seq<u8>> {
    match mode {
        ModeView::Keychain => match ks.keychain_state() {
            KeychainState::Found(sk) => Some(sk.key@),
            _ => None,
        },
        ModeView::Password(salt) => match ks.remembered() {
            Some(pw) => Some(argon2id_key(vstd::utf8::encode_utf8(pw), salt)),
            None => None,
        },
    }
}

/// The key a key source gives for a key mode without consulting anything
/// outside it: the keychain key it has read (when strict mode does not
/// hold it back), or the Argon2id key of the password at hand and the
/// file's salt (when Argon2 accepts the password's length).
pub open spec fn ready_key(ks: KeySource, mode: ModeView) -> Option<Seq<u8>> {
    match mode {
        ModeView::Keychain => match ks.keychain_state() {
            KeychainState::Found(sk) => if !sk.strict || ks.is_verified() {
                Some(sk.key@)
            } else {
                None
            },
            _ => None,
        },
        ModeView::Password(salt) => match password_at_hand(ks) {
            Some(pw) => if vstd::utf8::encode_utf8(pw).len() <= 0xffff_ffff {
                Some(argon2id_key(vstd::utf8::encode_utf8(pw), salt))
            } else {
                None
            },
            None => None,
        },
    }
}

/// `text` is an encrypted file that the key source, with the key it has
/// ready for the file's mode, decrypts to `p` at location `rel`.
pub open spec fn decrypts_to(ks: KeySource, text: Seq<char>, rel: Seq<char>, p: Seq<u8>) -> bool {
    match parse_spec(text) {
        Ok(e) => match ready_key(ks, e.mode) {
            Some(k) => open_spec(k, e, aad_spec(rel)) == Some(p),
            None => false,
        },
        Err(_) => false,
    }
}

/// With the key the source holds for the file's mode, the file opens to `p`.
pub open spec fn opens_to(ks: KeySource, e: EncFileView, rel: Seq<char>, p: Seq<u8>) -> bool {
    match held_key(ks, e.mode) {
        Some(k) => open_spec(k, e, aad_spec(rel)) == Some(p),
        None => false,
    }
}

/// With the key the source holds for the file's mode, the file does not open.
pub open spec fn fails_to_open(ks: KeySource, e: EncFileView, rel: Seq<char>) -> bool {
    match held_key(ks, e.mode) {
        Some(k) => open_spec(k, e, aad_spec(rel)) is None,
        None => false,
    }
}

/// `text` is a file in `mode` that opens, with the key the source holds for
/// that mode, to `p`.
pub open spec fn seals(ks: KeySource, mode: ModeView, rel: Seq<char>, text: Seq<char>, p: Seq<u8>) -> bool {
    match parse_spec(text) {
        Ok(e) => e.mode == mode && opens_to(ks, e, rel, p),
        Err(_) => false,
    }
}

/// The key for a file's mode: the keychain key (strict-mode gated), or the
/// key derived from the password and the file's salt.
fn key_for(keys: &mut KeySource, mode: &KeyMode) -> (r: Result<[u8; KEY_LEN], KeyError>)
    ensures
        final(keys).project() == old(keys).project(),
        r matches Ok(k) ==> held_key(*final(keys), mode@) == Some(k@),
        *mode is Keychain ==> match final(keys).keychain_state() {
            KeychainState::Failed => r matches Err(e) && e is Keychain,
            KeychainState::Empty => r matches Err(e) && e is NoKey,
            KeychainState::Found(sk) => if sk.strict && !old(keys).is_verified() {
                r matches Err(e) && e is Auth
            } else {
                r == Ok::<[u8; KEY_LEN], KeyError>(sk.key)
            },
            KeychainState::Unread => false,
        },
        *mode is Password ==> match old(keys).remembered() {
            Some(p) => vstd::utf8::encode_utf8(p).len() <= 0xffff_ffff ==> r is Ok,
            None => env_usable(old(keys).env_password()) && vstd::utf8::encode_utf8(
                old(keys).env_password().unwrap(),
            ).len() <= 0xffff_ffff ==> r is Ok,
        },
        ready_key(*old(keys), mode@) matches Some(k) ==> (r matches Ok(x) && x@ == k && held_key(
            *final(keys),
            mode@,
        ) == Some(k)),
{
    match mode {
        KeyMode::Keychain => keys.require_keychain(),
        KeyMode::Password { salt } => keys.password_key(salt),
    }
}

/// Read an entry's encrypted text and decrypt it, resolving the key
/// according to the file header (keychain or password). Also returns the
/// file's key mode so it can be re-encrypted the same way.
pub fn decrypt_entry_full(text: &str, rel: &str, keys: &mut KeySource) -> (r: Result<
    (Vec<u8>, KeyMode),
    EntryError,
>)
    ensures
        final(keys).project() == old(keys).project(),
        match parse_spec(text@) {
            Err(f) => r matches Err(EntryError::Parse(x)) && x@ == f,
            Ok(e) => match r {
                Ok(pm) => pm.1@ == e.mode && opens_to(*final(keys), e, rel@, pm.0@),
                Err(EntryError::Crypto(c)) => c is Decryption && fails_to_open(
                    *final(keys),
                    e,
                    rel@,
                ),
                Err(EntryError::Key(_)) => true,
                Err(EntryError::Parse(_)) => false,
            },
        },
        parse_spec(text@) matches Ok(e) ==> (ready_key(*old(keys), e.mode) matches Some(k) ==> match open_spec(
            k,
            e,
            aad_spec(rel@),
        ) {
            Some(p) => r matches Ok(pm) && pm.0@ == p && pm.1@ == e.mode,
            None => r matches Err(EntryError::Crypto(c)) && c is Decryption,
        }),
        r matches Err(EntryError::Key(_)) ==> (parse_spec(text@) matches Ok(e) && ready_key(
            *old(keys),
            e.mode,
        ) is None),
{
    let enc = match EncFile::parse(text) {
        Ok(e) => e,
        Err(e) => {
            return Err(EntryError::Parse(e));
        },
    };
    let key = match key_for(keys, &enc.mode) {
        Ok(k) => k,
        Err(e) => {
            return Err(EntryError::Key(e));
        },
    };
    let aad = aad_for(rel);
    match open(&key, &enc, aad.as_slice()) {
        Ok(p) => Ok((p, enc.mode)),
        Err(e) => Err(EntryError::Crypto(e)),
    }
}

/// Decrypt an entry's encrypted text (see `decrypt_entry_full`).
pub fn decrypt_entry(text: &str, rel: &str, keys: &mut KeySource) -> (r: Result<
    Vec<u8>,
    EntryError,
>)
    ensures
        final(keys).project() == old(keys).project(),
        match parse_spec(text@) {
            Err(f) => r matches Err(EntryError::Parse(x)) && x@ == f,
            Ok(e) => match r {
                Ok(p) => opens_to(*final(keys), e, rel@, p@),
                Err(EntryError::Crypto(c)) => c is Decryption && fails_to_open(
                    *final(keys),
                    e,
                    rel@,
                ),
                Err(EntryError::Key(_)) => true,
                Err(EntryError::Parse(_)) => false,
            },
        },
        parse_spec(text@) matches Ok(e) ==> (ready_key(*old(keys), e.mode) matches Some(k) ==> match open_spec(
            k,
            e,
            aad_spec(rel@),
        ) {
            Some(p) => r matches Ok(x) && x@ == p,
            None => r matches Err(EntryError::Crypto(c)) && c is Decryption,
        }),
        r matches Err(EntryError::Key(_)) ==> (parse_spec(text@) matches Ok(e) && ready_key(
            *old(keys),
            e.mode,
        ) is None),
        forall|p: Seq<u8>| decrypts_to(*old(keys), text@, rel@, p) ==> (r matches Ok(x) && x@ == p),
{
    match decrypt_entry_full(text, rel, keys) {
        Ok(pm) => Ok(pm.0),
        Err(e) => Err(e),
    }
}

/// The armored text that seals `plaintext` for `rel`, keeping the key mode
/// it had. Password mode reuses the file's salt: the same password derives
/// the same key, and secrecy comes from the fresh nonce. The text parses
/// back to a file in that mode which opens to the plaintext.
pub fn seal_entry(rel: &str, keys: &mut KeySource, plaintext: &[u8], mode: &KeyMode) -> (r:
    Result<String, EntryError>)
    ensures
        final(keys).project() == old(keys).project(),
        r matches Ok(text) ==> seals(*final(keys), mode@, rel@, text@, plaintext@),
        r matches Err(EntryError::Crypto(c)) ==> c is Encryption && plaintext@.len() / 64
            >= 0xffff_ffff,
        r is Ok ==> plaintext@.len() / 64 < 0xffff_ffff,
        r matches Err(e) ==> !(e is Parse),
        ready_key(*old(keys), mode@) matches Some(k) ==> (plaintext@.len() / 64 < 0xffff_ffff ==> (
        r matches Ok(text) && (parse_spec(text@) matches Ok(e) && e.mode == mode@ && open_spec(
            k,
            e,
            aad_spec(rel@),
        ) == Some(plaintext@)) && decrypts_to(*old(keys), text@, rel@, plaintext@))),
{
    let key = match key_for(keys, mode) {
        Ok(k) => k,
        Err(e) => {
            return Err(EntryError::Key(e));
        },
    };
    let aad = aad_for(rel);
    match seal(&key, plaintext, aad.as_slice(), *mode) {
        Ok(enc) => Ok(enc.render()),
        Err(e) => Err(EntryError::Crypto(e)),
    }
}

/// What a sealed entry holds is what decrypting it gives back: the text
/// parses, in the mode it was sealed in, and a key source that holds the
/// same key for that mode opens it to the plaintext and to nothing else,
/// so decryption then fails only for want of the key.
pub proof fn law_decrypt_after_seal(
    sealer: KeySource,
    reader: KeySource,
    mode: ModeView,
    rel: Seq<char>,
    text: Seq<char>,
    plaintext: Seq<u8>,
)
    requires
        seals(sealer, mode, rel, text, plaintext),
        held_key(reader, mode) == held_key(sealer, mode),
    ensures
        parse_spec(text) matches Ok(e) && e.mode == mode && opens_to(reader, e, rel, plaintext)
            && !fails_to_open(reader, e, rel) && forall|q: Seq<u8>|
            opens_to(reader, e, rel, q) ==> q == plaintext,
{
}

/// Sealing then decrypting gives the plaintext back: what `seal_entry`
/// returns with a key ready for the mode, every key source that has the
/// same key ready for that mode decrypts to the plaintext (so
/// `decrypt_entry` returns it), and not to anything else.
pub proof fn law_seal_then_decrypt(
    sealer: KeySource,
    reader: KeySource,
    mode: ModeView,
    rel: Seq<char>,
    text: Seq<char>,
    plaintext: Seq<u8>,
)
    requires
        parse_spec(text) matches Ok(e) && e.mode == mode,
        decrypts_to(sealer, text, rel, plaintext),
        ready_key(reader, mode) == ready_key(sealer, mode),
    ensures
        decrypts_to(reader, text, rel, plaintext),
        forall|q: Seq<u8>| decrypts_to(reader, text, rel, q) ==> q == plaintext,
{
}

/// The armored text that seals a plaintext being encrypted for the first
/// time: with the keychain key when there is one, else with a key derived
/// from the (confirmed) password and a fresh salt.
pub fn seal_new_entry(
    keys: &mut KeySource,
    keychain_key: Option<[u8; KEY_LEN]>,
    rel: &str,
    plaintext: &[u8],
) -> (r: Result<String, EntryError>)
    ensures
        final(keys).project() == old(keys).project(),
        r matches Ok(text) ==> parse_spec(text@) matches Ok(e) && match keychain_key {
            Some(k) => e.mode == ModeView::Keychain && open_spec(k@, e, aad_spec(rel@)) == Some(
                plaintext@,
            ),
            None => e.mode matches ModeView::Password(salt) && final(keys).remembered() matches Some(
                pw,
            ) && open_spec(argon2id_key(vstd::utf8::encode_utf8(pw), salt), e, aad_spec(rel@))
                == Some(plaintext@),
        },
        r matches Err(e) ==> !(e is Parse),
        keychain_key matches Some(k) ==> (plaintext@.len() / 64 < 0xffff_ffff ==> (r matches Ok(
            text,
        ) && parse_spec(text@) matches Ok(e) && e.mode == ModeView::Keychain && open_spec(
            k@,
            e,
            aad_spec(rel@),
        ) == Some(plaintext@))),
        keychain_key is None && password_at_hand(*old(keys)) is None ==> (r matches Err(
            EntryError::Key(KeyError::PasswordNeeded { confirm: c }),
        ) && c),
        keychain_key is None ==> (password_at_hand(*old(keys)) matches Some(pw) ==> (
        vstd::utf8::encode_utf8(pw).len() <= 0xffff_ffff && plaintext@.len() / 64 < 0xffff_ffff
            ==> (r is Ok && final(keys).remembered() == Some(pw)))),
{
    let aad = aad_for(rel);
    let sealed = match keychain_key {
        Some(key) => seal(&key, plaintext, aad.as_slice(), KeyMode::Keychain),
        None => {
            let password = match keys.password(true) {
                Ok(p) => p,
                Err(e) => {
                    return Err(EntryError::Key(e));
                },
            };
            let salt = random_bytes::<SALT_LEN>();
            let key = match derive_key(password.as_str(), salt.as_slice()) {
                Ok(k) => k,
                Err(e) => {
                    return Err(EntryError::Crypto(e));
                },
            };
            seal(&key, plaintext, aad.as_slice(), KeyMode::Password { salt })
        },
    };
    match sealed {
        Ok(enc) => Ok(enc.render()),
        Err(e) => Err(EntryError::Crypto(e)),
    }
}

/// What `encrypt` does with a target.
#[derive(Clone, Copy, PartialEq, Eq, Structural, Debug)]
pub enum EncryptStep {
    /// Seal the plaintext file.
    Seal,
    /// Nothing to do: only the encrypted file is there.
    AlreadyEncrypted,
    /// Skip it: neither version is there.
    NotFound,
}

pub fn encrypt_step(plain_exists: bool, enc_exists: bool) -> (r: EncryptStep)
    ensures
        r == (if plain_exists {
            EncryptStep::Seal
        } else if enc_exists {
            EncryptStep::AlreadyEncrypted
        } else {
            EncryptStep::NotFound
        }),
{
    if plain_exists {
        EncryptStep::Seal
    } else if enc_exists {
        EncryptStep::AlreadyEncrypted
    } else {
        EncryptStep::NotFound
    }
}

// ---------------------------------------------------------------------------
// Decrypting onto an existing plaintext
// ---------------------------------------------------------------------------

/// What `decrypt` does with a decrypted entry.
#[derive(Clone, Copy, PartialEq, Eq, Debug)]
pub enum Restore {
    /// Write the plaintext file.
    Write,
    /// The plaintext on disk already equals it; leave it.
    AlreadyDecrypted,
    /// A differing plaintext is on disk and `--force` was not given.
    Conflict,
}

fn bytes_eq(a: &[u8], b: &[u8]) -> (r: bool)
    ensures
        r == (a@ == b@),
{
    if a.len() != b.len() {
        return false;
    }
    let mut i: usize = 0;
    while i < a.len()
        invariant
            a@.len() == b@.len(),
            i <= a@.len(),
            forall|j: int| 0 <= j < i ==> a@[j] == b@[j],
        decreases a@.len() - i,
    {
        if a[i] != b[i] {
            return false;
        }
        i = i + 1;
    }
    assert(a@ =~= b@);
    true
}

/// Decide how to restore a plaintext: an existing file that already holds
/// it is left alone, a differing one is only overwritten with `force`.
pub fn restore_decision(existing: Option<&[u8]>, plaintext: &[u8], force: bool) -> (r: Restore)
    ensures
        r == (match existing {
            None => Restore::Write,
            Some(old) => if old@ == plaintext@ {
                Restore::AlreadyDecrypted
            } else if force {
                Restore::Write
            } else {
                Restore::Conflict
            },
        }),
{
    match existing {
        None => Restore::Write,
        Some(old) => {
            if bytes_eq(old, plaintext) {
                Restore::AlreadyDecrypted
            } else if force {
                Restore::Write
            } else {
                Restore::Conflict
            }
        },
    }
}


// ---------------------------------------------------------------------------
// Which files a command acts on
// ---------------------------------------------------------------------------

/// Why a command has no files to act on.
#[derive(Debug)]
pub enum TargetError {
    /// A user-supplied path lies outside the project root; that path.
    Outside(String),
    /// The manifest lists no env files.
    NoFiles,
    /// No single env file is nearest to the current directory.
    Nearest(NearestError),
    /// No managed env file lies under the filter; the filter.
    NoneUnder(String),
}

/// The root-relative, `.enc`-stripped form of a user-supplied path.
pub open spec fn target_of(root: Seq<char>, cwd: Seq<char>, path: Seq<char>) -> Option<Seq<char>> {
    match rel_to_root_spec(root, cwd, path) {
        Some(rel) => Some(strip_enc_spec(rel)),
        None => None,
    }
}

/// `e` names the first of `paths` that lies outside the root, every path
/// before it lying inside.
pub open spec fn first_outside(root: Seq<char>, cwd: Seq<char>, paths: Seq<String>, e: TargetError) -> bool {
    match e {
        TargetError::Outside(p) => exists|i: int|
            0 <= i < paths.len() && paths[i]@ == p@ && target_of(root, cwd, #[trigger] paths[i]@) is None
                && forall|j: int| 0 <= j < i ==> target_of(root, cwd, #[trigger] paths[j]@) is Some,
        _ => false,
    }
}

/// Resolve user-supplied paths (relative to cwd or absolute) to
/// root-relative env file paths, in order; the first path outside the
/// root is an error.
pub fn resolve_targets(root: &str, cwd: &str, paths: &[String]) -> (r: Result<
    Vec<String>,
    TargetError,
>)
    ensures
        match r {
            Ok(ts) => ts@.len() == paths@.len() && forall|i: int|
                0 <= i < paths@.len() ==> target_of(root@, cwd@, #[trigger] paths@[i]@) == Some(
                    ts@[i]@,
                ),
            Err(e) => first_outside(root@, cwd@, paths@, e),
        },
{
    let mut out: Vec<String> = Vec::new();
    let mut i: usize = 0;
    while i < paths.len()
        invariant
            i <= paths@.len(),
            out@.len() == i,
            forall|j: int|
                0 <= j < i ==> target_of(root@, cwd@, #[trigger] paths@[j]@) == Some(out@[j]@),
        decreases paths@.len() - i,
    {
        let rel = match rel_to_root(root, cwd, paths[i].as_str()) {
            Ok(rel) => rel,
            Err(_) => {
                assert(target_of(root@, cwd@, paths@[i as int]@) is None);
                let p = paths[i].clone();
                assert(first_outside(root@, cwd@, paths@, TargetError::Outside(p)));
                return Err(TargetError::Outside(p));
            },
        };
        out.push(strip_enc(rel.as_str()));
        i = i + 1;
    }
    Ok(out)
}

/// Some path of `fp` equals `rel` (component by component).
pub open spec fn has_path(fp: Seq<Seq<char>>, rel: Seq<char>) -> bool {
    exists|i: int| 0 <= i < fp.len() && comps(#[trigger] fp[i]) == comps(rel)
}

/// The managed paths after adding each of `rels` that is not yet managed.
pub open spec fn add_all(fp: Seq<Seq<char>>, rels: Seq<Seq<char>>) -> Seq<Seq<char>>
    decreases rels.len(),
{
    if rels.len() == 0 {
        fp
    } else {
        let before = add_all(fp, rels.drop_last());
        if has_path(before, rels.last()) {
            before
        } else {
            before.push(rels.last())
        }
    }
}

proof fn lemma_has_path(m: Manifest, rel: Seq<char>)
    ensures
        m.has(rel) == has_path(m.file_paths(), rel),
{
    if m.has(rel) {
        let i = choose|i: int| 0 <= i < m.files@.len() && comps(#[trigger] m.files@[i].path@) == comps(rel);
        assert(m.file_paths()[i] == m.files@[i].path@);
    }
    if has_path(m.file_paths(), rel) {
        let i = choose|i: int| 0 <= i < m.file_paths().len() && comps(#[trigger] m.file_paths()[i]) == comps(rel);
        assert(m.file_paths()[i] == m.files@[i].path@);
    }
}

/// The files `encrypt` acts on: every managed file when no paths are
/// given, else the given paths, which become managed too.
pub fn encrypt(root: &str, cwd: &str, manifest: &mut Manifest, paths: &[String]) -> (r: Result<
    Vec<String>,
    TargetError,
>)
    ensures
        final(manifest).project_id == old(manifest).project_id,
        final(manifest).version == old(manifest).version,
        final(manifest).color == old(manifest).color,
        paths@.len() == 0 ==> final(manifest).file_paths() == old(manifest).file_paths() && if old(
            manifest,
        ).file_paths().len() == 0 {
            r matches Err(e) && e is NoFiles
        } else {
            r matches Ok(ts) && ts.deep_view() == old(manifest).file_paths()
        },
        paths@.len() > 0 ==> match r {
            Ok(ts) => ts@.len() == paths@.len() && (forall|i: int|
                0 <= i < paths@.len() ==> target_of(root@, cwd@, #[trigger] paths@[i]@) == Some(
                    ts@[i]@,
                )) && final(manifest).file_paths() == add_all(
                old(manifest).file_paths(),
                ts.deep_view(),
            ),
            Err(e) => first_outside(root@, cwd@, paths@, e),
        },
        r is Err ==> *final(manifest) == *old(manifest),
{
    if paths.len() == 0 {
        let targets = manifest.paths();
        if targets.len() == 0 {
            return Err(TargetError::NoFiles);
        }
        return Ok(targets);
    }
    let targets = match resolve_targets(root, cwd, paths) {
        Ok(ts) => ts,
        Err(e) => {
            return Err(e);
        },
    };
    let mut k: usize = 0;
    let ghost fp0 = manifest.file_paths();
    assert(targets.deep_view().take(0) =~= Seq::<Seq<char>>::empty());
    while k < targets.len()
        invariant
            k <= targets@.len(),
            manifest.project_id == old(manifest).project_id,
            manifest.version == old(manifest).version,
            manifest.color == old(manifest).color,
            fp0 == old(manifest).file_paths(),
            manifest.file_paths() == add_all(fp0, targets.deep_view().take(k as int)),
        decreases targets@.len() - k,
    {
        proof {
            lemma_has_path(*manifest, targets@[k as int]@);
            let t = targets.deep_view().take(k + 1);
            assert(t.drop_last() =~= targets.deep_view().take(k as int));
            assert(t.last() == targets@[k as int]@);
        }
        manifest.add(targets[k].clone());
        k = k + 1;
    }
    assert(targets.deep_view().take(k as int) =~= targets.deep_view());
    Ok(targets)
}

/// The files `decrypt` acts on: every managed file when no paths are
/// given, else the given paths.
pub fn decrypt_targets(root: &str, cwd: &str, manifest: &Manifest, paths: &[String]) -> (r:
    Result<Vec<String>, TargetError>)
    ensures
        paths@.len() == 0 ==> if manifest.file_paths().len() == 0 {
            r matches Err(e) && e is NoFiles
        } else {
            r matches Ok(ts) && ts.deep_view() == manifest.file_paths()
        },
        paths@.len() > 0 ==> match r {
            Ok(ts) => ts@.len() == paths@.len() && forall|i: int|
                0 <= i < paths@.len() ==> target_of(root@, cwd@, #[trigger] paths@[i]@) == Some(
                    ts@[i]@,
                ),
            Err(e) => first_outside(root@, cwd@, paths@, e),
        },
{
    if paths.len() == 0 {
        let targets = manifest.paths();
        if targets.len() == 0 {
            return Err(TargetError::NoFiles);
        }
        return Ok(targets);
    }
    resolve_targets(root, cwd, paths)
}

/// Resolve which env file a command should act on: an explicit file, or
/// the one nearest to the current directory.
pub fn resolve_target(root: &str, cwd: &str, manifest: &Manifest, file: Option<String>) -> (r:
    Result<String, TargetError>)
    ensures
        match file {
            Some(p) => match target_of(root@, cwd@, p@) {
                Some(t) => r matches Ok(s) && s@ == t,
                None => r matches Err(TargetError::Outside(x)) && x@ == p@,
            },
            None => match nearest_spec(manifest.file_paths(), rel_cwd_spec(root@, cwd@)) {
                Ok(f) => r matches Ok(s) && s@ == f,
                Err(f) => r matches Err(TargetError::Nearest(e)) && e@ == f,
            },
        },
{
    match file {
        Some(path) => match rel_to_root(root, cwd, path.as_str()) {
            Ok(rel) => Ok(strip_enc(rel.as_str())),
            Err(_) => Err(TargetError::Outside(path)),
        },
        None => {
            let here = rel_cwd(root, cwd);
            let paths = manifest.paths();
            match nearest(paths.as_slice(), here.as_str()) {
                Ok(f) => Ok(f),
                Err(e) => Err(TargetError::Nearest(e)),
            }
        },
    }
}

/// The files `run` injects: every managed file (in manifest order) with
/// `all`, else the one `resolve_target` picks.
pub fn run_targets(
    root: &str,
    cwd: &str,
    manifest: &Manifest,
    file: Option<String>,
    all: bool,
) -> (r: Result<Vec<String>, TargetError>)
    ensures
        all ==> if manifest.file_paths().len() == 0 {
            r matches Err(e) && e is NoFiles
        } else {
            r matches Ok(ts) && ts.deep_view() == manifest.file_paths()
        },
        !all ==> match file {
            Some(p) => match target_of(root@, cwd@, p@) {
                Some(t) => r matches Ok(ts) && ts.deep_view() == seq![t],
                None => r matches Err(TargetError::Outside(x)) && x@ == p@,
            },
            None => match nearest_spec(manifest.file_paths(), rel_cwd_spec(root@, cwd@)) {
                Ok(f) => r matches Ok(ts) && ts.deep_view() == seq![f],
                Err(f) => r matches Err(TargetError::Nearest(e)) && e@ == f,
            },
        },
{
    if all {
        let targets = manifest.paths();
        if targets.len() == 0 {
            return Err(TargetError::NoFiles);
        }
        return Ok(targets);
    }
    match resolve_target(root, cwd, manifest, file) {
        Ok(t) => {
            let mut v: Vec<String> = Vec::new();
            v.push(t);
            assert(v.deep_view() =~= seq![v@[0]@]);
            Ok(v)
        },
        Err(e) => Err(e),
    }
}

/// The path `show` filters by: the given path (root-relative, `.enc`
/// stripped), or the current directory relative to the root.
pub fn show_filter(root: &str, cwd: &str, path: Option<String>) -> (r: Result<String, TargetError>)
    ensures
        match path {
            Some(p) => match target_of(root@, cwd@, p@) {
                Some(t) => r matches Ok(s) && s@ == t,
                None => r matches Err(TargetError::Outside(x)) && x@ == p@,
            },
            None => r matches Ok(s) && s@ == rel_cwd_spec(root@, cwd@),
        },
{
    match path {
        Some(p) => match rel_to_root(root, cwd, p.as_str()) {
            Ok(rel) => Ok(strip_enc(rel.as_str())),
            Err(_) => Err(TargetError::Outside(p)),
        },
        None => Ok(rel_cwd(root, cwd)),
    }
}

/// The managed files at or under `filter`, in order.
pub open spec fn under(fp: Seq<Seq<char>>, filter: Seq<char>) -> Seq<Seq<char>>
    decreases fp.len(),
{
    if fp.len() == 0 {
        seq![]
    } else {
        under(fp.drop_last(), filter) + (if is_prefix(comps(filter), comps(fp.last())) {
            seq![fp.last()]
        } else {
            seq![]
        })
    }
}

proof fn lemma_under_keep(fp: Seq<Seq<char>>, filter: Seq<char>)
    ensures
        under(fp, filter) == keep(fp, |f: Seq<char>| is_prefix(comps(filter), comps(f))),
    decreases fp.len(),
{
    if fp.len() > 0 {
        lemma_under_keep(fp.drop_last(), filter);
    }
}

/// `show` lists exactly the managed files that lie at or under the
/// filter, comparing whole components (`apps/web` holds
/// `apps/web/.env`, not `apps/web-admin/.env`), in manifest order.
pub proof fn law_show_lists_what_lies_under(fp: Seq<Seq<char>>, filter: Seq<char>)
    ensures
        forall|k: int|
            0 <= k < under(fp, filter).len() ==> fp.contains(#[trigger] under(fp, filter)[k])
                && is_prefix(comps(filter), comps(under(fp, filter)[k])),
        forall|j: int|
            0 <= j < fp.len() && is_prefix(comps(filter), comps(#[trigger] fp[j])) ==> under(
                fp,
                filter,
            ).contains(fp[j]),
        subsequence_of(under(fp, filter), fp),
{
    let p = |f: Seq<char>| is_prefix(comps(filter), comps(f));
    lemma_under_keep(fp, filter);
    lemma_keep_exact(fp, p);
    lemma_keep_subsequence(fp, p);
}

/// The files `show` lists: the managed files at or under the filter; none
/// is an error.
pub fn show_targets(manifest: &Manifest, filter: &str) -> (r: Result<Vec<String>, TargetError>)
    ensures
        match r {
            Ok(ts) => ts.deep_view() == under(manifest.file_paths(), filter@) && ts@.len() > 0,
            Err(TargetError::NoneUnder(f)) => f@ == filter@ && under(
                manifest.file_paths(),
                filter@,
            ).len() == 0,
            Err(_) => false,
        },
{
    let paths = manifest.paths();
    let ghost fp = paths.deep_view();
    let mut out: Vec<String> = Vec::new();
    let mut k: usize = 0;
    assert(fp.take(0) =~= Seq::<Seq<char>>::empty());
    assert(out.deep_view() =~= Seq::<Seq<char>>::empty());
    while k < paths.len()
        invariant
            k <= paths@.len(),
            fp == paths.deep_view(),
            out.deep_view() == under(fp.take(k as int), filter@),
        decreases paths@.len() - k,
    {
        proof {
            let t = fp.take(k + 1);
            assert(t.drop_last() =~= fp.take(k as int));
            assert(t.last() == paths@[k as int]@);
        }
        if starts_with_path(paths[k].as_str(), filter) {
            let ghost before = out.deep_view();
            out.push(paths[k].clone());
            assert(out.deep_view() =~= before + seq![paths@[k as int]@]);
        }
        k = k + 1;
    }
    assert(fp.take(k as int) =~= fp);
    if out.len() == 0 {
        return Err(TargetError::NoneUnder(filter.to_owned()));
    }
    Ok(out)
}

// ---------------------------------------------------------------------------
// Reading an entry, and the command to run
// ---------------------------------------------------------------------------

/// Which version of a managed file a command reads.
#[derive(Clone, Copy, PartialEq, Eq, Structural, Debug)]
pub enum EntrySource {
    /// The `.enc` sibling, decrypted.
    Encrypted,
    /// The plaintext file, which is not encrypted yet.
    Plaintext,
}

/// The file has neither an encrypted nor a plaintext version.
#[derive(Debug)]
pub struct NoVersion;

/// The encrypted version when there is one, else the plaintext file.
pub fn entry_source(enc_exists: bool, plain_exists: bool) -> (r: Result<EntrySource, NoVersion>)
    ensures
        enc_exists ==> r == Ok::<EntrySource, NoVersion>(EntrySource::Encrypted),
        !enc_exists && plain_exists ==> r == Ok::<EntrySource, NoVersion>(EntrySource::Plaintext),
        !enc_exists && !plain_exists ==> r is Err,
{
    if enc_exists {
        Ok(EntrySource::Encrypted)
    } else if plain_exists {
        Ok(EntrySource::Plaintext)
    } else {
        Err(NoVersion)
    }
}

/// `run` was given no command after `--`.
#[derive(Debug)]
pub struct MissingCommand;

/// The program to run and its arguments.
pub fn split_command(command: &[String]) -> (r: Result<(String, Vec<String>), MissingCommand>)
    ensures
        command@.len() == 0 <==> r is Err,
        r matches Ok((p, args)) ==> p@ == command@[0]@ && args@.len() == command@.len() - 1
            && forall|k: int| 0 <= k < args@.len() ==> (#[trigger] args@[k])@ == command@[k + 1]@,
{
    if command.len() == 0 {
        return Err(MissingCommand);
    }
    let program = command[0].clone();
    let mut args: Vec<String> = Vec::new();
    let mut k: usize = 1;
    while k < command.len()
        invariant
            1 <= k <= command@.len(),
            args@.len() == k - 1,
            forall|j: int| 0 <= j < args@.len() ==> (#[trigger] args@[j])@ == command@[j + 1]@,
        decreases command@.len() - k,
    {
        args.push(command[k].clone());
        k = k + 1;
    }
    Ok((program, args))
}

// ---------------------------------------------------------------------------
// Status
// ---------------------------------------------------------------------------

/// Where the project key lives, as `status` reports it.
#[derive(Debug)]
pub enum KeyStatus {
    /// In the keychain, with strict mode on.
    KeychainStrict,
    /// In the keychain.
    Keychain,
    /// No key in the keychain: password mode.
    PasswordMode,
    /// The keychain could not be read.
    Unreadable(KeychainError),
}

pub fn key_status(loaded: Result<Option<StoredKey>, KeychainError>) -> (r: KeyStatus)
    ensures
        match loaded {
            Ok(Some(k)) => if k.strict {
                r is KeychainStrict
            } else {
                r is Keychain
            },
            Ok(None) => r is PasswordMode,
            Err(e) => r matches KeyStatus::Unreadable(x) && x == e,
        },
{
    match loaded {
        Ok(Some(k)) => if k.strict {
            KeyStatus::KeychainStrict
        } else {
            KeyStatus::Keychain
        },
        Ok(None) => KeyStatus::PasswordMode,
        Err(e) => KeyStatus::Unreadable(e),
    }
}

/// The encryption state of a managed file.
#[derive(Clone, Copy, PartialEq, Eq, Debug)]
pub enum LockState {
    Locked,
    LockedWithPlaintext,
    Unlocked,
    Missing,
}

/// The state of a file from whether its `.enc` and plaintext exist.
pub fn lock_state(enc_exists: bool, plain_exists: bool) -> (r: LockState)
    ensures
        r == (if enc_exists {
            if plain_exists {
                LockState::LockedWithPlaintext
            } else {
                LockState::Locked
            }
        } else if plain_exists {
            LockState::Unlocked
        } else {
            LockState::Missing
        }),
{
    match (enc_exists, plain_exists) {
        (true, false) => LockState::Locked,
        (true, true) => LockState::LockedWithPlaintext,
        (false, true) => LockState::Unlocked,
        (false, false) => LockState::Missing,
    }
}

impl LockState {
    /// The label `status` prints.
    pub fn label(&self) -> (r: &'static str)
        ensures
            r@ == (match *self {
                LockState::Locked => "locked"@,
                LockState::LockedWithPlaintext => "locked + plaintext on disk"@,
                LockState::Unlocked => "unlocked"@,
                LockState::Missing => "missing"@,
            }),
    {
        match self {
            LockState::Locked => "locked",
            LockState::LockedWithPlaintext => "locked + plaintext on disk",
            LockState::Unlocked => "unlocked",
            LockState::Missing => "missing",
        }
    }
}

/// The files found that the manifest does not manage, in order.
pub open spec fn unmanaged_spec(m: Manifest, found: Seq<Seq<char>>) -> Seq<Seq<char>>
    decreases found.len(),
{
    if found.len() == 0 {
        seq![]
    } else {
        unmanaged_spec(m, found.drop_last()) + (if m.has(found.last()) {
            seq![]
        } else {
            seq![found.last()]
        })
    }
}

proof fn lemma_unmanaged_keep(m: Manifest, found: Seq<Seq<char>>)
    ensures
        unmanaged_spec(m, found) == keep(found, |f: Seq<char>| !m.has(f)),
    decreases found.len(),
{
    if found.len() > 0 {
        lemma_unmanaged_keep(m, found.drop_last());
    }
}

/// `status` reports exactly the files found that the manifest does not
/// manage, each one found, in the order found.
pub proof fn law_unmanaged_lists_what_is_not_managed(m: Manifest, found: Seq<Seq<char>>)
    ensures
        forall|k: int|
            0 <= k < unmanaged_spec(m, found).len() ==> found.contains(
                #[trigger] unmanaged_spec(m, found)[k],
            ) && !m.has(unmanaged_spec(m, found)[k]),
        forall|j: int|
            0 <= j < found.len() && !m.has(#[trigger] found[j]) ==> unmanaged_spec(m, found).contains(
                found[j],
            ),
        subsequence_of(unmanaged_spec(m, found), found),
{
    let p = |f: Seq<char>| !m.has(f);
    lemma_unmanaged_keep(m, found);
    lemma_keep_exact(found, p);
    lemma_keep_subsequence(found, p);
}

/// The env files found that the manifest does not manage.
pub fn unmanaged(manifest: &Manifest, found: &[String]) -> (r: Vec<String>)
    ensures
        r.deep_view() == unmanaged_spec(*manifest, found.deep_view()),
{
    let ghost fd = found.deep_view();
    let mut out: Vec<String> = Vec::new();
    let mut k: usize = 0;
    assert(fd.take(0) =~= Seq::<Seq<char>>::empty());
    assert(out.deep_view() =~= Seq::<Seq<char>>::empty());
    while k < found.len()
        invariant
            k <= found@.len(),
            fd == found.deep_view(),
            out.deep_view() == unmanaged_spec(*manifest, fd.take(k as int)),
        decreases found@.len() - k,
    {
        proof {
            let t = fd.take(k + 1);
            assert(t.drop_last() =~= fd.take(k as int));
            assert(t.last() == found@[k as int]@);
        }
        if !manifest.contains(found[k].as_str()) {
            let ghost before = out.deep_view();
            out.push(found[k].clone());
            assert(out.deep_view() =~= before + seq![found@[k as int]@]);
        }
        k = k + 1;
    }
    assert(fd.take(k as int) =~= fd);
    out
}


// ---------------------------------------------------------------------------
// Setup: the .gitignore block
// ---------------------------------------------------------------------------

/// The lines `init` adds to .gitignore.
pub const GITIGNORE_BLOCK: &'static str = "# symmetry: keep plaintext env files out of git, but commit encrypted ones\n.env\n.env.*\n!*.enc\n!.env.example\n!.env.sample\n!.env.template\n";

/// `pat` occurs in `s`.
pub open spec fn occurs(s: Seq<char>, pat: Seq<char>) -> bool {
    exists|i: int| 0 <= i && i + pat.len() <= s.len() && #[trigger] s.subrange(i, i + pat.len()) == pat
}

/// The marker that shows the block is already there.
pub open spec fn gitignore_marker() -> Seq<char> {
    "# symmetry:"@
}

/// The new .gitignore text: the existing text (set apart by a blank line
/// when there is any) followed by the block; `None` when the block is
/// already there.
pub open spec fn gitignore_spec(existing: Seq<char>) -> Option<Seq<char>> {
    if occurs(existing, gitignore_marker()) {
        None
    } else {
        let head = if existing.len() == 0 {
            existing
        } else if existing.last() == '\n' {
            existing + seq!['\n']
        } else {
            existing + seq!['\n', '\n']
        };
        Some(head + GITIGNORE_BLOCK@)
    }
}

fn occurs_in(s: &[char], pat: &[char]) -> (r: bool)
    ensures
        r == occurs(s@, pat@),
{
    if pat.len() > s.len() {
        return false;
    }
    let n = s.len();
    let last = n - pat.len();
    let mut i: usize = 0;
    while i <= last
        invariant
            n == s@.len(),
            last + pat@.len() == s@.len(),
            i <= last + 1,
            forall|k: int| 0 <= k < i ==> #[trigger] s@.subrange(k, k + pat@.len()) != pat@,
        decreases last + 1 - i,
    {
        let mut j: usize = 0;
        while j < pat.len() && s[i + j] == pat[j]
            invariant
                j <= pat@.len(),
                i <= last,
                n == s@.len(),
                last + pat@.len() == s@.len(),
                forall|m: int| 0 <= m < j ==> s@[i + m] == pat@[m],
            decreases pat@.len() - j,
        {
            j = j + 1;
        }
        if j == pat.len() {
            assert(s@.subrange(i as int, i + pat@.len()) =~= pat@);
            return true;
        }
        assert(s@.subrange(i as int, i + pat@.len())[j as int] != pat@[j as int]);
        i = i + 1;
    }
    proof {
        if occurs(s@, pat@) {
            let k = choose|k: int|
                0 <= k && k + pat@.len() <= s@.len() && #[trigger] s@.subrange(k, k + pat@.len())
                    == pat@;
            assert(k < i);
        }
    }
    false
}

/// The new .gitignore text, or `None` when it already has the block.
pub fn gitignore_update(existing: &str) -> (r: Option<String>)
    ensures
        match gitignore_spec(existing@) {
            Some(t) => r matches Some(s) && s@ == t,
            None => r is None,
        },
{
    let text = crate::text::chars_of(existing);
    let marker = crate::text::chars_of("# symmetry:");
    if occurs_in(&text, &marker) {
        return None;
    }
    let mut out = text;
    if out.len() > 0 {
        if out[out.len() - 1] != '\n' {
            out.push('\n');
        }
        out.push('\n');
    }
    let block = crate::text::chars_of(GITIGNORE_BLOCK);
    let ghost start = out@;
    let mut k: usize = 0;
    while k < block.len()
        invariant
            k <= block@.len(),
            out@ == start + block@.subrange(0, k as int),
        decreases block@.len() - k,
    {
        out.push(block[k]);
        k = k + 1;
        assert(out@ =~= start + block@.subrange(0, k as int));
    }
    assert(block@.subrange(0, block@.len() as int) =~= block@);
    Some(crate::text::string_of(&out))
}

/// Adding the block is done once: on the text it gives, the update has
/// nothing more to add.
pub proof fn law_gitignore_once(existing: Seq<char>)
    ensures
        gitignore_spec(existing) matches Some(t) ==> gitignore_spec(t) is None,
{
    if let Some(t) = gitignore_spec(existing) {
        reveal_strlit("# symmetry:");
        reveal_strlit("# symmetry: keep plaintext env files out of git, but commit encrypted ones\n.env\n.env.*\n!*.enc\n!.env.example\n!.env.sample\n!.env.template\n");
        let m = gitignore_marker();
        let head_len = t.len() - GITIGNORE_BLOCK@.len();
        assert(t.subrange(head_len, head_len + m.len()) =~= m);
    }
}

// ---------------------------------------------------------------------------
// Key commands
// ---------------------------------------------------------------------------

/// Why a key command failed.
#[derive(Debug)]
pub enum KeyCommandError {
    /// Strict mode is not supported on this platform.
    StrictUnsupported,
    /// The keychain holds no key for this project.
    NoKeychainKey,
    /// The keychain failed.
    Keychain(KeychainError),
    /// The key could not be released.
    Key(KeyError),
    /// The key to import is not base64; the decoder's message.
    NotBase64(String),
    /// The key to import has the wrong length; the length it has.
    WrongLength(usize),
}

/// What `key strict` did.
#[derive(Clone, Copy, PartialEq, Eq, Debug)]
pub enum StrictOutcome {
    /// The key was already in the requested mode.
    Unchanged,
    /// The key was stored again in the requested mode.
    Changed,
}

/// Calls `zeroize::Zeroize::zeroize` on a byte vector: its bytes are zeroed
/// and it is left empty.
#[verifier::external_body]
fn wipe_bytes(v: &mut Vec<u8>)
    ensures
        final(v)@.len() == 0,
{
    zeroize::Zeroize::zeroize(v);
}

/// What exporting gives with a key source in state `ks` that was
/// `verified` before: the base64 of the keychain key it released, or why
/// it released none.
pub open spec fn export_outcome(ks: KeySource, verified: bool, r: Result<String, KeyCommandError>) -> bool {
    match ks.keychain_state() {
        KeychainState::Failed => r matches Err(KeyCommandError::Key(e)) && e is Keychain,
        KeychainState::Empty => r matches Err(KeyCommandError::Key(e)) && e is NoKey,
        KeychainState::Found(sk) => if sk.strict && !verified {
            r matches Err(KeyCommandError::Key(e)) && e is Auth
        } else {
            r matches Ok(s) && s@ == crate::b64::b64_encoding(sk.key@)
                && crate::b64::b64_decoding(s@) == Some(sk.key@)
        },
        KeychainState::Unread => false,
    }
}

/// The base64 of the key the key source releases from the keychain;
/// strict-mode verification applies. The released key is wiped once it is
/// encoded.
pub fn export_key(keys: &mut KeySource) -> (r: Result<String, KeyCommandError>)
    ensures
        final(keys).project() == old(keys).project(),
        export_outcome(*final(keys), old(keys).is_verified(), r),
{
    let mut key = match keys.require_keychain() {
        Ok(k) => k,
        Err(e) => {
            return Err(KeyCommandError::Key(e));
        },
    };
    let encoded = crate::b64::b64_encode(key.as_slice());
    crate::keystore::wipe_key(&mut key);
    Ok(encoded)
}

/// Print-ready base64 of the project key (for sharing with a teammate
/// over a secure channel); strict-mode verification applies. The key
/// source is the project's, fresh (not verified), and its secrets are
/// wiped afterwards.
pub fn export(project_id: &str) -> (r: Result<String, KeyCommandError>)
    ensures
        exists|ks: KeySource| ks.project() == project_id@ && #[trigger] export_outcome(ks, false, r),
        r matches Ok(s) ==> crate::b64::b64_decoding(s@) matches Some(k) && k.len() == KEY_LEN
            && s@ == crate::b64::b64_encoding(k),
        r matches Err(e) ==> e is Key,
{
    let mut keys = KeySource::new(project_id, None);
    let r = export_key(&mut keys);
    let ghost read = keys;
    assert(export_outcome(read, false, r));
    keys.forget_secrets();
    r
}

/// The key to import: the base64 text with surrounding whitespace ignored,
/// which must decode to exactly `KEY_LEN` bytes.
pub fn import_key_bytes(key: &str) -> (r: Result<[u8; KEY_LEN], KeyCommandError>)
    ensures
        match crate::b64::b64_decoding(crate::text::trim(key@)) {
            None => r matches Err(e) && e is NotBase64,
            Some(b) => if b.len() != KEY_LEN {
                r matches Err(KeyCommandError::WrongLength(n)) && n == b.len()
            } else {
                r matches Ok(k) && k@ == b
            },
        },
{
    let trimmed = crate::text::trim_chars(&crate::text::chars_of(key));
    let text = crate::text::string_of(&trimmed);
    let mut bytes = match crate::b64::b64_decode(text.as_str()) {
        Ok(b) => b,
        Err(m) => {
            return Err(KeyCommandError::NotBase64(m));
        },
    };
    if bytes.len() != KEY_LEN {
        let n = bytes.len();
        wipe_bytes(&mut bytes);
        return Err(KeyCommandError::WrongLength(n));
    }
    let mut k = [0u8; KEY_LEN];
    let mut i: usize = 0;
    while i < KEY_LEN
        invariant
            i <= KEY_LEN,
            bytes@.len() == KEY_LEN,
            k@.len() == KEY_LEN,
            forall|j: int| 0 <= j < i ==> k@[j] == bytes@[j],
        decreases KEY_LEN - i,
    {
        k[i] = bytes[i];
        i = i + 1;
    }
    assert(k@ =~= bytes@);
    wipe_bytes(&mut bytes);
    Ok(k)
}

/// Store a shared project key (base64, surrounding whitespace ignored) in
/// this machine's keychain, in strict mode or not.
pub fn import(project_id: &str, key: &str, strict: bool) -> (r: Result<
    KeychainReceipt,
    KeyCommandError,
>)
    ensures
        strict && !strict_supported() ==> (r matches Err(e) && e is StrictUnsupported),
        !(strict && !strict_supported()) ==> match crate::b64::b64_decoding(crate::text::trim(key@)) {
            None => r matches Err(e) && e is NotBase64,
            Some(b) => if b.len() != KEY_LEN {
                r matches Err(KeyCommandError::WrongLength(n)) && n == b.len()
            } else {
                match r {
                    Ok(rc) => stores(rc, project_id@, b, strict),
                    Err(e) => e is Keychain,
                }
            },
        },
{
    if strict && !supported() {
        return Err(KeyCommandError::StrictUnsupported);
    }
    let mut k = match import_key_bytes(key) {
        Ok(k) => k,
        Err(e) => {
            return Err(e);
        },
    };
    let stored = store_key(project_id, &k, strict);
    crate::keystore::wipe_key(&mut k);
    match stored {
        Ok(rc) => Ok(rc),
        Err(e) => Err(KeyCommandError::Keychain(e)),
    }
}

/// What `key strict` has to do, given what the keychain holds for the
/// project: nothing when the key is already in the requested mode, else
/// store it again in that mode.
pub fn plan_strict(loaded: Result<Option<StoredKey>, KeychainError>, on: bool) -> (r: Result<
    StrictOutcome,
    KeyCommandError,
>)
    ensures
        match loaded {
            Err(e) => r matches Err(KeyCommandError::Keychain(x)) && x == e,
            Ok(None) => r matches Err(e) && e is NoKeychainKey,
            Ok(Some(k)) => r == Ok::<StrictOutcome, KeyCommandError>(
                if k.strict == on {
                    StrictOutcome::Unchanged
                } else {
                    StrictOutcome::Changed
                },
            ),
        },
{
    match loaded {
        Ok(Some(stored)) => if stored.strict == on {
            Ok(StrictOutcome::Unchanged)
        } else {
            Ok(StrictOutcome::Changed)
        },
        Ok(None) => Err(KeyCommandError::NoKeychainKey),
        Err(e) => Err(KeyCommandError::Keychain(e)),
    }
}

/// What `key strict` did: nothing, or stored the key again (the receipt
/// of what was written; its payload holds the key, so wipe it).
pub enum StrictChange {
    Unchanged,
    Changed(KeychainReceipt),
}

/// The keychain, as `ks` read it for the project, released the key that
/// the receipt records under the project's entry with the strict flag
/// `on`.
pub open spec fn released_stored(ks: KeySource, rc: KeychainReceipt, project_id: Seq<char>, on: bool) -> bool {
    &&& ks.project() == project_id
    &&& ks.keychain_state() matches KeychainState::Found(sk)
    &&& stores(rc, project_id, sk.key@, on)
}

/// The outcomes `key strict` allows once the keychain has read `loaded`:
/// its error, an error when no key is stored, nothing to do when the key
/// is already in the requested mode, and otherwise the key that the
/// keychain released for the project stored again in that mode under the
/// project's entry, or a failure to release or store it.
pub open spec fn strict_outcome(
    project_id: Seq<char>,
    on: bool,
    loaded: Result<Option<StoredKey>, KeychainError>,
    r: Result<StrictChange, KeyCommandError>,
) -> bool {
    match loaded {
        Err(e) => r matches Err(KeyCommandError::Keychain(x)) && x == e,
        Ok(None) => r matches Err(e) && e is NoKeychainKey,
        Ok(Some(k)) => if k.strict == on {
            r matches Ok(StrictChange::Unchanged)
        } else {
            match r {
                Ok(StrictChange::Changed(rc)) => exists|ks: KeySource|
                    #[trigger] released_stored(ks, rc, project_id, on),
                Ok(StrictChange::Unchanged) => false,
                Err(KeyCommandError::Key(_)) => true,
                Err(KeyCommandError::Keychain(e)) => e is Store || e is Unavailable,
                Err(_) => false,
            }
        },
    }
}

/// `key strict` once the keychain has been read (`loaded`): nothing to do
/// when the key is already in the requested mode; otherwise the key is
/// released from the keychain (strict-mode verification applies, so
/// relaxing strict mode needs the user) and stored again in that mode.
pub fn strict_from(
    project_id: &str,
    on: bool,
    loaded: Result<Option<StoredKey>, KeychainError>,
) -> (r: Result<StrictChange, KeyCommandError>)
    ensures
        strict_outcome(project_id@, on, loaded, r),
{
    match plan_strict(loaded, on) {
        Ok(StrictOutcome::Changed) => {},
        Ok(StrictOutcome::Unchanged) => {
            return Ok(StrictChange::Unchanged);
        },
        Err(e) => {
            return Err(e);
        },
    }
    let mut keys = KeySource::new(project_id, None);
    let mut key = match keys.require_keychain() {
        Ok(k) => k,
        Err(e) => {
            keys.forget_secrets();
            return Err(KeyCommandError::Key(e));
        },
    };
    let ghost released = keys;
    keys.forget_secrets();
    let stored = store_key(project_id, &key, on);
    let ghost kv = key@;
    crate::keystore::wipe_key(&mut key);
    match stored {
        Ok(rc) => {
            assert(stores(rc, project_id@, kv, on));
            let res: Result<StrictChange, KeyCommandError> = Ok(StrictChange::Changed(rc));
            assert(match res {
                Ok(StrictChange::Changed(x)) => released_stored(released, x, project_id@, on),
                _ => false,
            });
            assert(strict_outcome(project_id@, on, loaded, res));
            res
        },
        Err(e) => Err(KeyCommandError::Keychain(e)),
    }
}

/// Turn strict mode on or off for the project's keychain key. Changing the
/// setting is itself a key use: verification is required to relax it. The
/// outcome is one that [`strict_outcome`] allows for what the keychain
/// held for the project.
pub fn strict(project_id: &str, on: bool) -> (r: Result<StrictChange, KeyCommandError>)
    ensures
        on && !strict_supported() ==> (r matches Err(e) && e is StrictUnsupported),
        !(on && !strict_supported()) ==> !(r matches Err(e) && e is StrictUnsupported)
            && exists|loaded: Result<Option<StoredKey>, KeychainError>|
            #[trigger] strict_outcome(project_id@, on, loaded, r),
{
    if on && !supported() {
        return Err(KeyCommandError::StrictUnsupported);
    }
    let loaded = load_key(project_id);
    let ghost read = loaded;
    let r = strict_from(project_id, on, loaded);
    assert(strict_outcome(project_id@, on, read, r));
    r
}

} // verus!
