//! OS user verification for strict mode.
//!
//! This build verifies no OS user: it is the fail-closed variant, so a
//! strict-mode key is never released and strict mode cannot be turned on.

use vstd::prelude::*;

verus! {

/// Why user verification did not pass.
#[derive(Debug)]
pub enum AuthError {
    /// Strict mode is not supported on this platform.
    Unsupported,
}

/// Whether this build can verify the OS user: it cannot.
pub open spec fn strict_supported() -> bool {
    false
}

/// Whether strict mode can be enforced on this platform. Checked before
/// letting the user turn strict mode on, so they can't lock themselves out.
pub fn supported() -> (r: bool)
    ensures
        r == strict_supported(),
{
    false
}

/// Verify the OS user before a strict-mode key is used. Fails closed.
pub fn verify_user(reason: &str) -> (r: Result<(), AuthError>)
    ensures
        r matches Err(e) && e is Unsupported,
{
    Err(AuthError::Unsupported)
}

} // verus!
