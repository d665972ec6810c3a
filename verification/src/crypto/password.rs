//! Salts for deriving keys from passwords.

use vstd::prelude::*;

verus! {

/// Number of bytes in a password salt.
pub const PASSWORD_SALT_LEN: usize = 16;

/// Calls `rand::random` for sixteen bytes. What comes back depends on
/// chance, so nothing is said of it.
#[verifier::external_body]
fn random_salt() -> (out: [u8; 16]) {
    rand::random()
}

/// The salt of a repository: the one that is stored, or, if none is
/// stored yet, a new one drawn at random, which is then to be stored.
/// Returns the salt and whether it is new.
pub fn get_or_generate_password_salt(stored: Option<[u8; 16]>) -> (r: ([u8; 16], bool))
    ensures
        r.1 == stored.is_none(),
        stored.is_some() ==> r.0 == stored.unwrap(),
{
    match stored {
        Some(salt) => (salt, false),
        None => (random_salt(), true),
    }
}

} // verus!
