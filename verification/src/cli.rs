//! The commands of the `symmetry` tool as plain values. The command line
//! is parsed into these by the program around the library.

use vstd::prelude::*;

verus! {

/// A parsed command line.
pub struct Cli {
    pub command: Command,
}

/// What `key strict` sets strict mode to.
#[derive(Clone, Copy, PartialEq, Eq, Structural, Debug)]
pub enum StrictMode {
    On,
    Off,
}

impl StrictMode {
    /// Whether strict mode is to be on.
    pub fn is_on(self) -> (r: bool)
        ensures
            r == (self == StrictMode::On),
    {
        match self {
            StrictMode::On => true,
            StrictMode::Off => false,
        }
    }
}

/// The subcommands.
pub enum Command {
    /// Scan for env files, write the manifest and set up a key.
    Init { password: bool, strict: bool, yes: bool },
    /// Encrypt env files to `.enc` siblings (alias `lock`).
    Encrypt { paths: Vec<String>, keep: bool },
    /// Restore plaintext env files from their `.enc` siblings (alias `unlock`).
    Decrypt { paths: Vec<String>, force: bool },
    /// Run a command with the decrypted variables injected.
    Run { file: Option<String>, all: bool, command: Vec<String> },
    /// Show the encryption state of each managed env file.
    Status,
    /// List the variables of managed env files, masked unless revealed.
    Show { path: Option<String>, reveal: bool },
    /// Set or add a variable, re-encrypting in place.
    SetVar { key: String, value: String, file: Option<String> },
    /// Remove a variable, re-encrypting in place.
    Unset { key: String, file: Option<String> },
    /// Export, import or protect the project key.
    Key { action: KeyAction },
}

/// The `key` subcommands.
pub enum KeyAction {
    /// Print the project key as base64.
    Export,
    /// Store a shared project key in this machine's keychain.
    Import { key: String, strict: bool },
    /// Turn strict mode on or off for the stored key.
    Strict { mode: StrictMode },
}

} // verus!
