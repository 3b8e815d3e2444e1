//! What `init` decides: where the project key lives, which of the found
//! env files are managed, and which hints close the setup.

use vstd::prelude::*;

use crate::auth::{strict_supported, supported, AuthError};
use crate::crypto::{random_bytes, KEY_LEN};
use crate::keystore::{
    store_key, stores, stores_some_key, wipe_key, KeychainError, KeychainReceipt,
};

verus! {

/// Where the project key lives.
#[derive(Clone, Copy, PartialEq, Eq, Structural, Debug)]
pub enum KeyChoice {
    /// A random key in the system keychain, with or without strict mode.
    Keychain { strict: bool },
    /// A key derived from a password typed when it is needed.
    Password,
}

/// An entry of the menu that asks where the key should live.
#[derive(Clone, Copy, PartialEq, Eq, Structural, Debug)]
pub enum KeyOption {
    Keychain,
    KeychainStrict,
    Password,
}

impl KeyOption {
    /// The choice the entry stands for.
    pub fn choice(self) -> (r: KeyChoice)
        ensures
            r == (match self {
                KeyOption::Keychain => KeyChoice::Keychain { strict: false },
                KeyOption::KeychainStrict => KeyChoice::Keychain { strict: true },
                KeyOption::Password => KeyChoice::Password,
            }),
    {
        match self {
            KeyOption::Keychain => KeyChoice::Keychain { strict: false },
            KeyOption::KeychainStrict => KeyChoice::Keychain { strict: true },
            KeyOption::Password => KeyChoice::Password,
        }
    }
}

/// The menu entries, in order: the keychain first, then strict mode where
/// the platform supports it, then a password last.
pub open spec fn key_options_spec() -> Seq<KeyOption> {
    if strict_supported() {
        seq![KeyOption::Keychain, KeyOption::KeychainStrict, KeyOption::Password]
    } else {
        seq![KeyOption::Keychain, KeyOption::Password]
    }
}

pub fn key_options() -> (r: Vec<KeyOption>)
    ensures
        r@ == key_options_spec(),
{
    let mut v: Vec<KeyOption> = Vec::new();
    v.push(KeyOption::Keychain);
    if supported() {
        v.push(KeyOption::KeychainStrict);
    }
    v.push(KeyOption::Password);
    assert(v@ =~= key_options_spec());
    v
}

/// Fails when strict mode cannot be enforced on this platform.
pub fn require_strict_support() -> (r: Result<(), AuthError>)
    ensures
        r is Ok <==> strict_supported(),
{
    if !supported() {
        return Err(AuthError::Unsupported);
    }
    Ok(())
}

/// Where the key lives when the flags decide it: a password when asked
/// for, the keychain in strict mode when asked for (where supported), and
/// the plain keychain when nobody can be asked. `None`: ask with the menu.
pub fn choose_key(password: bool, strict: bool, interactive: bool) -> (r: Result<
    Option<KeyChoice>,
    AuthError,
>)
    ensures
        r == (if password {
            Ok(Some(KeyChoice::Password))
        } else if strict {
            if strict_supported() {
                Ok(Some(KeyChoice::Keychain { strict: true }))
            } else {
                Err(AuthError::Unsupported)
            }
        } else if !interactive {
            Ok(Some(KeyChoice::Keychain { strict: false }))
        } else {
            Ok(None)
        }),
{
    if password {
        return Ok(Some(KeyChoice::Password));
    }
    if strict {
        match require_strict_support() {
            Ok(()) => {
                return Ok(Some(KeyChoice::Keychain { strict: true }));
            },
            Err(e) => {
                return Err(e);
            },
        }
    }
    if !interactive {
        return Ok(Some(KeyChoice::Keychain { strict: false }));
    }
    Ok(None)
}

/// What setting up the key came to.
pub enum KeySetup {
    /// Password mode: the password is chosen at the first encryption.
    PasswordMode,
    /// A new random key is in the keychain; the receipt of what was
    /// written (its payload holds the key: wipe it).
    Stored { strict: bool, receipt: KeychainReceipt },
    /// The keychain refused the key; password mode is used instead.
    FellBack(KeychainError),
}

/// Keeps a newly made project key in the keychain with the strict flag:
/// the receipt records exactly this key under the project's entry; when
/// the keychain refuses it, password mode is used instead.
pub fn keep_key(project_id: &str, key: &[u8; KEY_LEN], strict: bool) -> (r: KeySetup)
    ensures
        match r {
            KeySetup::Stored { strict: s, receipt } => s == strict && stores(
                receipt,
                project_id@,
                key@,
                strict,
            ),
            KeySetup::FellBack(e) => e is Unavailable || e is Store,
            KeySetup::PasswordMode => false,
        },
{
    match store_key(project_id, key, strict) {
        Ok(receipt) => KeySetup::Stored { strict, receipt },
        Err(e) => KeySetup::FellBack(e),
    }
}

/// Generates the project key and stores it in the keychain, or settles on
/// password mode. The key is wiped from memory afterwards.
pub fn store_key_for(choice: KeyChoice, project_id: &str) -> (r: KeySetup)
    ensures
        choice is Password ==> r is PasswordMode,
        choice matches KeyChoice::Keychain { strict } ==> match r {
            KeySetup::Stored { strict: s, receipt: rc } => s == strict && stores_some_key(
                rc,
                project_id@,
                strict,
            ),
            KeySetup::FellBack(e) => e is Unavailable || e is Store,
            KeySetup::PasswordMode => false,
        },
{
    match choice {
        KeyChoice::Password => KeySetup::PasswordMode,
        KeyChoice::Keychain { strict } => {
            let mut key: [u8; KEY_LEN] = random_bytes::<KEY_LEN>();
            let r = keep_key(project_id, &key, strict);
            let ghost kv = key@;
            wipe_key(&mut key);
            let ghost g = r;
            proof {
                match g {
                    KeySetup::Stored { strict: s, receipt } => {
                        assert(kv.len() == KEY_LEN && stores(receipt, project_id@, kv, strict));
                    },
                    _ => {},
                }
            }
            r
        },
    }
}

/// Whether `init` encrypts the managed files right away.
#[derive(Clone, Copy, PartialEq, Eq, Structural, Debug)]
pub enum EncryptNow {
    /// Yes: `--yes` was given.
    Yes,
    /// Ask the user, who is at a terminal.
    Ask,
    /// No: nobody can be asked.
    No,
}

pub fn encrypt_now(yes: bool, interactive: bool) -> (r: EncryptNow)
    ensures
        r == (if yes {
            EncryptNow::Yes
        } else if interactive {
            EncryptNow::Ask
        } else {
            EncryptNow::No
        }),
{
    if yes {
        EncryptNow::Yes
    } else if interactive {
        EncryptNow::Ask
    } else {
        EncryptNow::No
    }
}

/// Whether the found files are offered in a menu: only when there is a
/// choice to make and someone to make it.
pub fn asks_for_files(found: usize, interactive: bool) -> (r: bool)
    ensures
        r == (found > 1 && interactive),
{
    found > 1 && interactive
}

/// No file was picked from the menu.
#[derive(Debug)]
pub struct NoneSelected;

/// The found files at the picked positions, in the order picked; picking
/// none is an error.
pub fn select_files(found: &[String], picks: &[usize]) -> (r: Result<Vec<String>, NoneSelected>)
    requires
        forall|k: int| 0 <= k < picks@.len() ==> #[trigger] picks@[k] < found@.len(),
    ensures
        picks@.len() == 0 <==> r is Err,
        r matches Ok(v) ==> v@.len() == picks@.len() && forall|k: int|
            0 <= k < picks@.len() ==> (#[trigger] v@[k])@ == found@[picks@[k] as int]@,
{
    if picks.len() == 0 {
        return Err(NoneSelected);
    }
    let mut out: Vec<String> = Vec::new();
    let mut k: usize = 0;
    while k < picks.len()
        invariant
            k <= picks@.len(),
            forall|j: int| 0 <= j < picks@.len() ==> #[trigger] picks@[j] < found@.len(),
            out@.len() == k,
            forall|j: int| 0 <= j < k ==> (#[trigger] out@[j])@ == found@[picks@[j] as int]@,
        decreases picks@.len() - k,
    {
        let i = picks[k];
        out.push(found[i].clone());
        k = k + 1;
    }
    Ok(out)
}

/// A hint printed at the end of the setup.
#[derive(Clone, Copy, PartialEq, Eq, Structural, Debug)]
pub enum Hint {
    /// How to add a file.
    AddFile,
    /// How to encrypt now.
    EncryptNow,
    /// How to run a command with the secrets injected.
    Run,
    /// How to inspect the variables.
    Show,
}

pub open spec fn summary_spec(selected: nat, encrypted: bool) -> Seq<Hint> {
    if selected == 0 {
        seq![Hint::AddFile]
    } else if !encrypted {
        seq![Hint::EncryptNow, Hint::Run, Hint::Show]
    } else {
        seq![Hint::Run, Hint::Show]
    }
}

/// The closing hints: how to add a file when none is managed; otherwise
/// how to encrypt (when that was skipped), run and inspect.
pub fn summary(selected: usize, encrypted: bool) -> (r: Vec<Hint>)
    ensures
        r@ == summary_spec(selected as nat, encrypted),
{
    let mut v: Vec<Hint> = Vec::new();
    if selected == 0 {
        v.push(Hint::AddFile);
        assert(v@ =~= summary_spec(selected as nat, encrypted));
        return v;
    }
    if !encrypted {
        v.push(Hint::EncryptNow);
    }
    v.push(Hint::Run);
    v.push(Hint::Show);
    assert(v@ =~= summary_spec(selected as nat, encrypted));
    v
}

} // verus!
