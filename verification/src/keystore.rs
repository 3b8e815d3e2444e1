//! The project key in the system keychain, and the per-invocation key
//! source that caches key material and enforces strict-mode verification.

use vstd::prelude::*;
use vstd::string::StringSliceAdditionalSpecFns;
use zeroize::Zeroize;

use crate::auth::{verify_user, AuthError};
use crate::b64::{b64_decode, b64_decoding, b64_encode, b64_encoding, b64_text, is_b64_char};
use crate::crypto::{argon2id_key, derive_key, CryptoError, KEY_LEN, SALT_LEN};
use crate::text::{chars_of, copy_range, string_of};

verus! {

/// The keychain service name under which project keys are stored.
pub const SERVICE: &'static str = "symmetry";

/// The environment variable that supplies the password non-interactively.
pub const PASSWORD_ENV: &'static str = "SYMMETRY_PASSWORD";

/// Strict-mode keys demand OS user verification before each use. The
/// marker lives inside the keychain payload, not in symmetry.toml, so it
/// can't be switched off by editing a file.
pub open spec fn strict_prefix() -> Seq<char> {
    seq!['s', 't', 'r', 'i', 'c', 't', ':']
}

#[derive(Clone, Copy, PartialEq, Debug)]
pub struct StoredKey {
    pub key: [u8; KEY_LEN],
    pub strict: bool,
}

/// Why a keychain payload could not be read as a key.
#[derive(Debug)]
pub enum PayloadError {
    /// Not valid base64; the decoder's message.
    NotBase64(String),
    /// Decoded to something other than a 32-byte key.
    WrongLength,
}

pub enum PayloadFailure {
    NotBase64,
    WrongLength,
}

impl View for PayloadError {
    type V = PayloadFailure;

    open spec fn view(&self) -> PayloadFailure {
        match self {
            PayloadError::NotBase64(_) => PayloadFailure::NotBase64,
            PayloadError::WrongLength => PayloadFailure::WrongLength,
        }
    }
}

/// The keychain payload for a key: its base64, after `strict:` in strict mode.
pub open spec fn payload_spec(key: Seq<u8>, strict: bool) -> Seq<char> {
    if strict {
        strict_prefix() + b64_encoding(key)
    } else {
        b64_encoding(key)
    }
}

/// Whether a keychain payload starts with the strict-mode marker.
pub open spec fn payload_strict(payload: Seq<char>) -> bool {
    payload.len() >= 7 && payload.take(7) == strict_prefix()
}

/// The base64 part of a keychain payload: what follows the marker, if any.
pub open spec fn payload_body(payload: Seq<char>) -> Seq<char> {
    if payload_strict(payload) {
        payload.skip(7)
    } else {
        payload
    }
}

/// What a keychain payload denotes: the key bytes and the strict flag.
pub open spec fn decode_payload_spec(payload: Seq<char>) -> Result<(Seq<u8>, bool), PayloadFailure> {
    let strict = payload_strict(payload);
    let encoded = payload_body(payload);
    match b64_decoding(encoded) {
        None => Err(PayloadFailure::NotBase64),
        Some(b) => if b.len() == KEY_LEN {
            Ok((b, strict))
        } else {
            Err(PayloadFailure::WrongLength)
        },
    }
}

/// The keychain payload for a key. Decoding it gives the key and the
/// strict flag back.
pub fn encode_payload(key: &[u8; KEY_LEN], strict: bool) -> (r: String)
    ensures
        r@ == payload_spec(key@, strict),
        decode_payload_spec(r@) == Ok::<(Seq<u8>, bool), PayloadFailure>((key@, strict)),
{
    let encoded = b64_encode(key.as_slice());
    let ghost e = encoded@;
    proof {
        if e.len() >= 7 {
            assert(is_b64_char(e[6]));
            assert(e.take(7)[6] != strict_prefix()[6]);
        }
    }
    if strict {
        let mut out: Vec<char> = Vec::new();
        out.push('s');
        out.push('t');
        out.push('r');
        out.push('i');
        out.push('c');
        out.push('t');
        out.push(':');
        let ec = chars_of(encoded.as_str());
        let mut k: usize = 0;
        let ghost start = out@;
        while k < ec.len()
            invariant
                k <= ec@.len(),
                out@ == start + ec@.subrange(0, k as int),
            decreases ec@.len() - k,
        {
            out.push(ec[k]);
            k = k + 1;
            assert(out@ =~= start + ec@.subrange(0, k as int));
        }
        proof {
            assert(start =~= strict_prefix());
            assert(ec@.subrange(0, ec@.len() as int) =~= e);
            assert(out@.take(7) =~= strict_prefix());
            assert(out@.skip(7) =~= e);
        }
        string_of(&out)
    } else {
        encoded
    }
}

/// Read a keychain payload: an optional `strict:` marker, then the base64
/// of a 32-byte key.
pub fn decode_payload(payload: &str) -> (r: Result<StoredKey, PayloadError>)
    ensures
        match decode_payload_spec(payload@) {
            Ok(ks) => r matches Ok(sk) && sk.key@ == ks.0 && sk.strict == ks.1,
            Err(f) => r matches Err(e) && e@ == f,
        },
        !b64_text(payload_body(payload@)) ==> (r matches Err(e) && e is NotBase64),
{
    let p = chars_of(payload);
    let strict = p.len() >= 7 && p[0] == 's' && p[1] == 't' && p[2] == 'r' && p[3] == 'i' && p[4]
        == 'c' && p[5] == 't' && p[6] == ':';
    proof {
        if p@.len() >= 7 {
            if strict {
                assert(p@.take(7) =~= strict_prefix());
            } else {
                if p@.take(7) == strict_prefix() {
                    assert(p@.take(7)[0] == p@[0]);
                    assert(p@.take(7)[1] == p@[1]);
                    assert(p@.take(7)[2] == p@[2]);
                    assert(p@.take(7)[3] == p@[3]);
                    assert(p@.take(7)[4] == p@[4]);
                    assert(p@.take(7)[5] == p@[5]);
                    assert(p@.take(7)[6] == p@[6]);
                }
            }
        }
    }
    let encoded = if strict {
        copy_range(&p, 7, p.len())
    } else {
        copy_range(&p, 0, p.len())
    };
    proof {
        if strict {
            assert(encoded@ =~= p@.skip(7));
        } else {
            assert(encoded@ =~= p@);
        }
    }
    let text = string_of(&encoded);
    match b64_decode(text.as_str()) {
        Err(m) => Err(PayloadError::NotBase64(m)),
        Ok(bytes) => {
            if bytes.len() != KEY_LEN {
                return Err(PayloadError::WrongLength);
            }
            let mut key = [0u8; KEY_LEN];
            let mut k: usize = 0;
            while k < KEY_LEN
                invariant
                    k <= KEY_LEN,
                    bytes@.len() == KEY_LEN,
                    key@.len() == KEY_LEN,
                    forall|j: int| 0 <= j < k ==> key@[j] == bytes@[j],
                decreases KEY_LEN - k,
            {
                key[k] = bytes[k];
                k = k + 1;
            }
            assert(key@ =~= bytes@);
            Ok(StoredKey { key, strict })
        },
    }
}

// ---------------------------------------------------------------------------
// The system keychain
// ---------------------------------------------------------------------------

#[verifier::external_type_specification]
#[verifier::external_body]
pub struct ExKeyringEntry(keyring::Entry);

/// An entry of the system keychain, with the service and account it was
/// opened for.
pub struct KeychainEntry {
    entry: keyring::Entry,
    pub service: String,
    pub account: String,
}

/// What storing in the keychain was handed: the service, the account and
/// the payload written.
pub struct KeychainReceipt {
    pub service: String,
    pub account: String,
    pub payload: String,
}

impl KeychainReceipt {
    /// Wipe the payload, which holds the key, from memory.
    pub fn wipe(&mut self)
        ensures
            final(self).service == old(self).service,
            final(self).account == old(self).account,
            final(self).payload@.len() == 0,
    {
        wipe_string(&mut self.payload);
    }
}

/// Calls `keyring::Entry::new`, keeping the service and account it is
/// given alongside the entry. Whether the platform store accepts them is
/// up to the platform; the error is carried as its rendered message.
#[verifier::external_body]
fn keychain_entry(service: &str, user: &str) -> (r: Result<KeychainEntry, String>)
    ensures
        r matches Ok(e) ==> e.service@ == service@ && e.account@ == user@,
{
    match keyring::Entry::new(service, user) {
        Ok(e) => Ok(KeychainEntry { entry: e, service: service.to_owned(), account: user.to_owned() }),
        Err(e) => Err(format!("{e}")),
    }
}

/// Calls `keyring::Entry::set_password` on the entry. Whether the store
/// takes it depends on the platform; on success the receipt repeats the
/// entry's service and account and the payload it was given.
#[verifier::external_body]
fn keychain_set(entry: &KeychainEntry, payload: &str) -> (r: Result<KeychainReceipt, String>)
    ensures
        r matches Ok(rc) ==> rc.service@ == entry.service@ && rc.account@ == entry.account@
            && rc.payload@ == payload@,
{
    match entry.entry.set_password(payload) {
        Ok(()) => Ok(
            KeychainReceipt {
                service: entry.service.clone(),
                account: entry.account.clone(),
                payload: payload.to_owned(),
            },
        ),
        Err(e) => Err(format!("{e}")),
    }
}

/// Calls `keyring::Entry::get_password` on the entry, with the `NoEntry`
/// error read as `Ok(None)`. What the platform store holds is not claimed.
#[verifier::external_body]
fn keychain_get(entry: &KeychainEntry) -> (r: Result<Option<String>, String>) {
    match entry.entry.get_password() {
        Ok(p) => Ok(Some(p)),
        Err(keyring::Error::NoEntry) => Ok(None),
        Err(e) => Err(format!("{e}")),
    }
}

/// Why the keychain could not be used.
#[derive(Debug)]
pub enum KeychainError {
    /// The keychain cannot be accessed; the platform's message.
    Unavailable(String),
    /// Storing the key failed; the platform's message.
    Store(String),
    /// Reading the key failed; the platform's message.
    Read(String),
    /// The stored entry is not a key.
    Payload(PayloadError),
}

impl KeychainError {
    /// A copy of this error.
    pub fn duplicate(&self) -> (r: KeychainError)
        ensures
            r == *self,
    {
        match self {
            KeychainError::Unavailable(m) => KeychainError::Unavailable(m.clone()),
            KeychainError::Store(m) => KeychainError::Store(m.clone()),
            KeychainError::Read(m) => KeychainError::Read(m.clone()),
            KeychainError::Payload(PayloadError::NotBase64(m)) => KeychainError::Payload(
                PayloadError::NotBase64(m.clone()),
            ),
            KeychainError::Payload(PayloadError::WrongLength) => KeychainError::Payload(
                PayloadError::WrongLength,
            ),
        }
    }
}

/// The keychain entry of a project: the service and the account.
pub struct KeychainAccount {
    pub service: String,
    pub account: String,
}

/// The entry a project's key lives under: service `symmetry`, account the
/// project id.
pub fn keychain_account(project_id: &str) -> (r: KeychainAccount)
    ensures
        r.service@ == SERVICE@,
        r.account@ == project_id@,
{
    KeychainAccount { service: SERVICE.to_owned(), account: project_id.to_owned() }
}

/// What reading the keychain came to, given what the keychain returned for
/// the project's entry: no entry, a payload, or the platform's message.
pub fn stored_key_from(read: Result<Option<String>, String>) -> (r: Result<
    Option<StoredKey>,
    KeychainError,
>)
    ensures
        match read {
            Err(m) => r matches Err(KeychainError::Read(x)) && x@ == m@,
            Ok(None) => r matches Ok(None),
            Ok(Some(p)) => match decode_payload_spec(p@) {
                Ok(ks) => r matches Ok(Some(sk)) && sk.key@ == ks.0 && sk.strict == ks.1,
                Err(f) => r matches Err(KeychainError::Payload(e)) && e@ == f,
            },
        },
{
    match read {
        Ok(Some(payload)) => match decode_payload(payload.as_str()) {
            Ok(k) => Ok(Some(k)),
            Err(e) => Err(KeychainError::Payload(e)),
        },
        Ok(None) => Ok(None),
        Err(m) => Err(KeychainError::Read(m)),
    }
}

/// The receipt is of the project's entry and records `key` with the
/// strict flag.
pub open spec fn stores(rc: KeychainReceipt, project_id: Seq<char>, key: Seq<u8>, strict: bool) -> bool {
    &&& rc.service@ == SERVICE@
    &&& rc.account@ == project_id
    &&& decode_payload_spec(rc.payload@) == Ok::<(Seq<u8>, bool), PayloadFailure>((key, strict))
}

/// The receipt is of the project's entry and records some key with the
/// strict flag.
pub open spec fn stores_some_key(rc: KeychainReceipt, project_id: Seq<char>, strict: bool) -> bool {
    exists|k: Seq<u8>| k.len() == KEY_LEN && #[trigger] stores(rc, project_id, k, strict)
}

/// Store the project key (with its strict flag) in the system keychain,
/// under [`keychain_account`] and as [`encode_payload`] writes it. The
/// receipt tells what was written; its payload holds the key, so callers
/// wipe it.
pub fn store_key(project_id: &str, key: &[u8; KEY_LEN], strict: bool) -> (r: Result<
    KeychainReceipt,
    KeychainError,
>)
    ensures
        r matches Err(e) ==> (e is Unavailable || e is Store),
        r matches Ok(rc) ==> rc.payload@ == payload_spec(key@, strict) && stores(
            rc,
            project_id@,
            key@,
            strict,
        ),
{
    let at = keychain_account(project_id);
    let entry = match keychain_entry(at.service.as_str(), at.account.as_str()) {
        Ok(e) => e,
        Err(m) => {
            return Err(KeychainError::Unavailable(m));
        },
    };
    let mut payload = encode_payload(key, strict);
    let stored = keychain_set(&entry, payload.as_str());
    wipe_string(&mut payload);
    match stored {
        Ok(rc) => Ok(rc),
        Err(m) => Err(KeychainError::Store(m)),
    }
}

/// Load the project key without any strict-mode gating (callers that hand
/// key material to crypto must go through KeySource instead). Ok(None)
/// means the keychain works but holds no key for this project; Err means
/// the keychain itself is unavailable or holds something that is no key.
/// The entry read is [`keychain_account`]'s, and what it returned is read
/// by [`stored_key_from`].
pub fn load_key(project_id: &str) -> (r: Result<Option<StoredKey>, KeychainError>)
    ensures
        r matches Err(e) ==> (e is Unavailable || e is Read || e is Payload),
        r matches Ok(Some(k)) ==> exists|p: Seq<char>|
            decode_payload_spec(p) == Ok::<(Seq<u8>, bool), PayloadFailure>((k.key@, k.strict)),
        r matches Err(KeychainError::Payload(e)) ==> exists|p: Seq<char>|
            decode_payload_spec(p) == Err::<(Seq<u8>, bool), PayloadFailure>(e@),
{
    let at = keychain_account(project_id);
    let entry = match keychain_entry(at.service.as_str(), at.account.as_str()) {
        Ok(e) => e,
        Err(m) => {
            return Err(KeychainError::Unavailable(m));
        },
    };
    stored_key_from(keychain_get(&entry))
}

// ---------------------------------------------------------------------------
// The per-invocation key source
// ---------------------------------------------------------------------------

/// Calls `zeroize::Zeroize::zeroize` on a key: every byte becomes zero.
#[verifier::external_body]
pub(crate) fn wipe_key(key: &mut [u8; KEY_LEN])
    ensures
        final(key)@ == Seq::new(KEY_LEN as nat, |i: int| 0u8),
    no_unwind
{
    key.zeroize();
}

/// Calls `zeroize::Zeroize::zeroize` on a `String`: its bytes are zeroed
/// and it is left empty.
#[verifier::external_body]
fn wipe_string(s: &mut String)
    ensures
        final(s)@.len() == 0,
    no_unwind
{
    s.zeroize();
}

/// The password typed at the prompt, checked: it must not be empty, and
/// when it was asked for twice (`again`), both entries must be equal.
pub fn confirm_password(first: String, again: Option<String>) -> (r: Result<String, KeyError>)
    ensures
        first@.len() == 0 ==> (r matches Err(e) && e is EmptyPassword),
        first@.len() > 0 ==> match again {
            Some(a) => if a@ == first@ {
                r matches Ok(s) && s@ == first@
            } else {
                r matches Err(e) && e is PasswordMismatch
            },
            None => r matches Ok(s) && s@ == first@,
        },
{
    if first.as_str().is_empty() {
        return Err(KeyError::EmptyPassword);
    }
    match again {
        Some(a) => {
            let x = chars_of(first.as_str());
            let y = chars_of(a.as_str());
            if crate::text::chars_eq(x.as_slice(), y.as_slice()) {
                Ok(first)
            } else {
                Err(KeyError::PasswordMismatch)
            }
        },
        None => Ok(first),
    }
}

/// Why no key could be released.
#[derive(Debug)]
pub enum KeyError {
    /// The keychain is unavailable or holds no key.
    Keychain(KeychainError),
    /// Strict-mode user verification did not pass.
    Auth(AuthError),
    /// The keychain holds no key for this project.
    NoKey,
    /// A password is needed and none is at hand: it has to be typed (twice
    /// when `confirm`) and remembered with [`KeySource::remember`].
    PasswordNeeded { confirm: bool },
    /// The password typed was empty.
    EmptyPassword,
    /// The password and its confirmation differ.
    PasswordMismatch,
    /// Deriving a key from the password failed.
    KeyDerivation(CryptoError),
}

/// A password value that is set and not empty.
pub open spec fn env_usable(e: Option<Seq<char>>) -> bool {
    e is Some && e.unwrap().len() > 0
}

/// The password a key source can give without asking: the remembered one,
/// else a usable `$SYMMETRY_PASSWORD`.
pub open spec fn password_at_hand(ks: KeySource) -> Option<Seq<char>> {
    match ks.remembered() {
        Some(p) => Some(p),
        None => if env_usable(ks.env_password()) {
            ks.env_password()
        } else {
            None
        },
    }
}

/// What the key source knows of the keychain.
pub enum KeychainState {
    /// Not read yet in this invocation.
    Unread,
    /// Reading it failed.
    Failed,
    /// It holds no key for this project.
    Empty,
    /// It holds this key.
    Found(StoredKey),
}

/// One call on a key source took it from `a` to `b`: the project is the
/// same, a keychain state once read stays as it was (the keychain is read
/// at most once), and a user once verified stays verified.
pub open spec fn ks_step(a: KeySource, b: KeySource) -> bool {
    &&& b.project() == a.project()
    &&& a.keychain_state() != KeychainState::Unread ==> b.keychain_state() == a.keychain_state()
    &&& a.is_verified() ==> b.is_verified()
}

/// Over any run of calls on one key source (`forget_secrets`, which ends
/// its use, aside), each state relates to every later one as one call
/// does: the keychain is read at most once, what it gave is never read
/// again or changed, and the user is verified at most once.
pub proof fn law_key_source_run(s: Seq<KeySource>, i: int, j: int)
    requires
        forall|k: int| 0 < k < s.len() ==> #[trigger] ks_step(s[k - 1], s[k]),
        0 <= i <= j < s.len(),
    ensures
        ks_step(s[i], s[j]),
    decreases j - i,
{
    if i < j {
        law_key_source_run(s, i, j - 1);
        assert(ks_step(s[j - 1], s[j]));
    }
}

proof fn lemma_first_read(s: Seq<KeySource>, j: int)
    requires
        forall|k: int| 0 < k < s.len() ==> #[trigger] ks_step(s[k - 1], s[k]),
        0 <= j < s.len(),
        s[j].keychain_state() != KeychainState::Unread,
    ensures
        exists|k: int|
            0 <= k <= j && #[trigger] s[k].keychain_state() == s[j].keychain_state() && forall|m: int|
                0 <= m < k ==> #[trigger] s[m].keychain_state() == KeychainState::Unread,
    decreases j,
{
    if j > 0 && s[j - 1].keychain_state() != KeychainState::Unread {
        lemma_first_read(s, j - 1);
        assert(ks_step(s[j - 1], s[j]));
    } else {
        assert forall|m: int| 0 <= m < j implies #[trigger] s[m].keychain_state()
            == KeychainState::Unread by {
            if s[m].keychain_state() != KeychainState::Unread {
                law_key_source_run(s, m, j - 1);
            }
        }
        assert(s[j].keychain_state() == s[j].keychain_state());
    }
}

/// Over any run of calls on one key source, the keychain counts as
/// errored (`keychain_errored`) exactly when the one read of it that took
/// place failed: not before the keychain is read, not when it holds no
/// key, and not for a failed user verification.
pub proof fn law_keychain_errored_run(s: Seq<KeySource>, j: int)
    requires
        forall|k: int| 0 < k < s.len() ==> #[trigger] ks_step(s[k - 1], s[k]),
        0 <= j < s.len(),
    ensures
        (s[j].keychain_state() == KeychainState::Failed) <==> exists|k: int|
            0 <= k <= j && #[trigger] s[k].keychain_state() == KeychainState::Failed && forall|m: int|
                0 <= m < k ==> #[trigger] s[m].keychain_state() == KeychainState::Unread,
{
    if s[j].keychain_state() == KeychainState::Failed {
        lemma_first_read(s, j);
    }
    if exists|k: int|
        0 <= k <= j && #[trigger] s[k].keychain_state() == KeychainState::Failed && forall|m: int|
            0 <= m < k ==> #[trigger] s[m].keychain_state() == KeychainState::Unread {
        let k = choose|k: int|
            0 <= k <= j && #[trigger] s[k].keychain_state() == KeychainState::Failed && forall|m: int|
                0 <= m < k ==> #[trigger] s[m].keychain_state() == KeychainState::Unread;
        law_key_source_run(s, k, j);
    }
}

/// Caches key material so multi-file operations prompt/hit the keychain
/// once, and enforces strict-mode user verification before key release.
pub struct KeySource {
    project_id: String,
    keychain: Option<Result<Option<StoredKey>, KeychainError>>,
    verified: bool,
    password: Option<String>,
    env_password: Option<String>,
}

impl KeySource {
    /// A remembered password is never empty.
    #[verifier::type_invariant]
    spec fn inv(&self) -> bool {
        self.password matches Some(p) ==> p@.len() > 0
    }

    pub closed spec fn project(&self) -> Seq<char> {
        self.project_id@
    }

    pub closed spec fn keychain_state(&self) -> KeychainState {
        match self.keychain {
            None => KeychainState::Unread,
            Some(Err(_)) => KeychainState::Failed,
            Some(Ok(None)) => KeychainState::Empty,
            Some(Ok(Some(k))) => KeychainState::Found(k),
        }
    }

    /// Whether the OS user has been verified in this invocation.
    pub closed spec fn is_verified(&self) -> bool {
        self.verified
    }

    /// The password remembered for this invocation.
    pub closed spec fn remembered(&self) -> Option<Seq<char>> {
        match self.password {
            Some(p) => Some(p@),
            None => None,
        }
    }

    /// The value of `$SYMMETRY_PASSWORD`, as given at construction.
    pub closed spec fn env_password(&self) -> Option<Seq<char>> {
        match self.env_password {
            Some(p) => Some(p@),
            None => None,
        }
    }

    /// A key source for a project; `env_password` is the value of
    /// `$SYMMETRY_PASSWORD`, if set.
    pub fn new(project_id: &str, env_password: Option<String>) -> (r: KeySource)
        ensures
            r.project() == project_id@,
            r.keychain_state() == KeychainState::Unread,
            !r.is_verified(),
            r.remembered() is None,
            r.env_password() == (match env_password {
                Some(p) => Some(p@),
                None => None::<Seq<char>>,
            }),
    {
        KeySource {
            project_id: project_id.to_owned(),
            keychain: None,
            verified: false,
            password: None,
            env_password,
        }
    }

    /// Read the keychain once per invocation; later calls give the cached
    /// outcome.
    fn load(&mut self) -> (r: Result<Option<StoredKey>, KeychainError>)
        ensures
            final(self).keychain_state() != KeychainState::Unread,
            old(self).keychain_state() != KeychainState::Unread ==> final(self).keychain_state()
                == old(self).keychain_state(),
            final(self).project() == old(self).project(),
            final(self).is_verified() == old(self).is_verified(),
            final(self).remembered() == old(self).remembered(),
            final(self).env_password() == old(self).env_password(),
            match final(self).keychain_state() {
                KeychainState::Failed => r is Err,
                KeychainState::Empty => r == Ok::<Option<StoredKey>, KeychainError>(None),
                KeychainState::Found(k) => r == Ok::<Option<StoredKey>, KeychainError>(Some(k)),
                KeychainState::Unread => false,
            },
    {
        proof {
            use_type_invariant(&*self);
        }
        if self.keychain.is_none() {
            let loaded = load_key(self.project_id.as_str());
            self.keychain = Some(loaded);
        }
        match &self.keychain {
            Some(Ok(stored)) => Ok(*stored),
            Some(Err(e)) => Err(e.duplicate()),
            None => Ok(None),
        }
    }

    /// Whether the keychain itself failed (as opposed to holding no key).
    pub fn keychain_errored(&self) -> (r: bool)
        ensures
            r == (self.keychain_state() == KeychainState::Failed),
    {
        match &self.keychain {
            Some(Err(_)) => true,
            _ => false,
        }
    }

    /// The keychain key, None if the keychain works but holds no key for
    /// this project, or Err if the keychain is unavailable. Strict keys
    /// require passing OS user verification, once per invocation.
    pub fn try_keychain(&mut self) -> (r: Result<Option<[u8; KEY_LEN]>, KeyError>)
        ensures
            ks_step(*old(self), *final(self)),
            final(self).keychain_state() != KeychainState::Unread,
            old(self).keychain_state() != KeychainState::Unread ==> final(self).keychain_state()
                == old(self).keychain_state(),
            final(self).project() == old(self).project(),
            final(self).remembered() == old(self).remembered(),
            final(self).env_password() == old(self).env_password(),
            match final(self).keychain_state() {
                KeychainState::Failed => r matches Err(e) && e is Keychain
                    && final(self).is_verified() == old(self).is_verified(),
                KeychainState::Empty => r == Ok::<Option<[u8; KEY_LEN]>, KeyError>(None)
                    && final(self).is_verified() == old(self).is_verified(),
                KeychainState::Found(sk) => if sk.strict && !old(self).is_verified() {
                    r matches Err(e) && e is Auth && !final(self).is_verified()
                } else {
                    r == Ok::<Option<[u8; KEY_LEN]>, KeyError>(Some(sk.key))
                        && final(self).is_verified() == old(self).is_verified()
                },
                KeychainState::Unread => false,
            },
    {
        proof {
            use_type_invariant(&*self);
        }
        let stored = match self.load() {
            Ok(s) => s,
            Err(e) => {
                return Err(KeyError::Keychain(e));
            },
        };
        match stored {
            None => Ok(None),
            Some(stored) => {
                if stored.strict && !self.verified {
                    match verify_user("unlock this project's env encryption key") {
                        Ok(()) => {
                            self.verified = true;
                        },
                        Err(e) => {
                            return Err(KeyError::Auth(e));
                        },
                    }
                }
                Ok(Some(stored.key))
            },
        }
    }

    /// The keychain key; no key in the keychain is an error.
    pub fn require_keychain(&mut self) -> (r: Result<[u8; KEY_LEN], KeyError>)
        ensures
            ks_step(*old(self), *final(self)),
            final(self).keychain_state() != KeychainState::Unread,
            old(self).keychain_state() != KeychainState::Unread ==> final(self).keychain_state()
                == old(self).keychain_state(),
            final(self).project() == old(self).project(),
            final(self).remembered() == old(self).remembered(),
            final(self).env_password() == old(self).env_password(),
            match final(self).keychain_state() {
                KeychainState::Failed => r matches Err(e) && e is Keychain,
                KeychainState::Empty => r matches Err(e) && e is NoKey,
                KeychainState::Found(sk) => if sk.strict && !old(self).is_verified() {
                    r matches Err(e) && e is Auth
                } else {
                    r == Ok::<[u8; KEY_LEN], KeyError>(sk.key)
                },
                KeychainState::Unread => false,
            },
            match final(self).keychain_state() {
                KeychainState::Found(sk) => if sk.strict && !old(self).is_verified() {
                    !final(self).is_verified()
                } else {
                    final(self).is_verified() == old(self).is_verified()
                },
                _ => final(self).is_verified() == old(self).is_verified(),
            },
    {
        match self.try_keychain() {
            Ok(Some(k)) => Ok(k),
            Ok(None) => Err(KeyError::NoKey),
            Err(e) => Err(e),
        }
    }

    /// The password: the one remembered for this invocation, else
    /// $SYMMETRY_PASSWORD when it is set and not empty (then remembered).
    /// With neither, the password has to be typed: the error says so, and
    /// whether it is to be asked twice (`confirm`, used when encrypting).
    pub fn password(&mut self, confirm: bool) -> (r: Result<String, KeyError>)
        ensures
            ks_step(*old(self), *final(self)),
            final(self).project() == old(self).project(),
            final(self).keychain_state() == old(self).keychain_state(),
            final(self).is_verified() == old(self).is_verified(),
            final(self).env_password() == old(self).env_password(),
            match password_at_hand(*old(self)) {
                Some(p) => r matches Ok(s) && s@ == p && final(self).remembered() == Some(p),
                None => r matches Err(KeyError::PasswordNeeded { confirm: c }) && c == confirm
                    && final(self).remembered() == old(self).remembered(),
            },
    {
        proof {
            use_type_invariant(&*self);
        }
        if self.password.is_none() {
            let from_env = match &self.env_password {
                Some(pw) => if pw.as_str().is_empty() {
                    None
                } else {
                    Some(pw.clone())
                },
                None => None,
            };
            match from_env {
                Some(pw) => {
                    self.password = Some(pw);
                },
                None => {
                    return Err(KeyError::PasswordNeeded { confirm });
                },
            }
        }
        match &self.password {
            Some(pw) => Ok(pw.clone()),
            None => Err(KeyError::PasswordNeeded { confirm }),
        }
    }

    /// Remember the password typed for this invocation (checked with
    /// [`confirm_password`]), wiping any earlier one; an empty password is
    /// refused.
    pub fn remember(&mut self, password: String) -> (r: Result<(), KeyError>)
        ensures
            ks_step(*old(self), *final(self)),
            final(self).project() == old(self).project(),
            final(self).keychain_state() == old(self).keychain_state(),
            final(self).is_verified() == old(self).is_verified(),
            final(self).env_password() == old(self).env_password(),
            password@.len() == 0 ==> (r matches Err(e) && e is EmptyPassword)
                && final(self).remembered() == old(self).remembered(),
            password@.len() > 0 ==> r is Ok && final(self).remembered() == Some(password@),
    {
        proof {
            use_type_invariant(&*self);
        }
        if password.as_str().is_empty() {
            return Err(KeyError::EmptyPassword);
        }
        let mut earlier: Option<String> = Some(password);
        std::mem::swap(&mut earlier, &mut self.password);
        if let Some(mut pw) = earlier {
            wipe_string(&mut pw);
        }
        Ok(())
    }

    /// The key a password-mode file with this salt is sealed under: the
    /// Argon2id key of the password (asked once per invocation) and salt.
    pub fn password_key(&mut self, salt: &[u8; SALT_LEN]) -> (r: Result<[u8; KEY_LEN], KeyError>)
        ensures
            ks_step(*old(self), *final(self)),
            final(self).project() == old(self).project(),
            final(self).keychain_state() == old(self).keychain_state(),
            final(self).is_verified() == old(self).is_verified(),
            final(self).env_password() == old(self).env_password(),
            r matches Ok(k) ==> final(self).remembered() matches Some(pw) && k@ == argon2id_key(
                vstd::utf8::encode_utf8(pw),
                salt@,
            ),
            old(self).remembered() matches Some(p) ==> final(self).remembered() == old(
                self,
            ).remembered(),
            old(self).remembered() matches Some(p) ==> (vstd::utf8::encode_utf8(p).len()
                <= 0xffff_ffff ==> (r matches Ok(k) && k@ == argon2id_key(
                vstd::utf8::encode_utf8(p),
                salt@,
            ))),
            old(self).remembered() is None && env_usable(old(self).env_password())
                && vstd::utf8::encode_utf8(old(self).env_password().unwrap()).len() <= 0xffff_ffff
                ==> (r matches Ok(k) && k@ == argon2id_key(
                vstd::utf8::encode_utf8(old(self).env_password().unwrap()),
                salt@,
            ) && final(self).remembered() == old(self).env_password()),
            r matches Err(KeyError::KeyDerivation(_)) ==> (final(self).remembered() matches Some(pw)
                && vstd::utf8::encode_utf8(pw).len() > 0xffff_ffff),
            password_at_hand(*old(self)) is None ==> (r matches Err(
                KeyError::PasswordNeeded { confirm: c },
            ) && !c && final(self).remembered() is None),
            r matches Err(e) ==> (e is KeyDerivation || e is PasswordNeeded),
    {
        let pw = match self.password(false) {
            Ok(p) => p,
            Err(e) => {
                return Err(e);
            },
        };
        match derive_key(pw.as_str(), salt.as_slice()) {
            Ok(k) => Ok(k),
            Err(e) => Err(KeyError::KeyDerivation(e)),
        }
    }

    /// Wipe the cached key and password from memory and forget them.
    pub fn forget_secrets(&mut self)
        ensures
            final(self).project() == old(self).project(),
            final(self).keychain_state() == KeychainState::Unread,
            final(self).is_verified() == old(self).is_verified(),
            final(self).remembered() is None,
            final(self).env_password() is None,
        no_unwind
    {
        proof {
            use_type_invariant(&*self);
        }
        let mut keychain: Option<Result<Option<StoredKey>, KeychainError>> = None;
        std::mem::swap(&mut keychain, &mut self.keychain);
        if let Some(Ok(Some(mut stored))) = keychain {
            wipe_key(&mut stored.key);
        }
        let mut password: Option<String> = None;
        std::mem::swap(&mut password, &mut self.password);
        if let Some(mut pw) = password {
            wipe_string(&mut pw);
        }
        let mut env_password: Option<String> = None;
        std::mem::swap(&mut env_password, &mut self.env_password);
        if let Some(mut pw) = env_password {
            wipe_string(&mut pw);
        }
    }
}

} // verus!
