//! Access to a repository: blind, read or write, and which secrets are
//! stored for each.

use crate::crypto::hash;
use crate::crypto::hash::sha3_256;
use crate::network::message::RepositoryId;
use vstd::prelude::*;

verus! {

/// A symmetric key: the read key of a repository, or a key that stands in for one.
#[derive(Clone, Copy, Debug, PartialEq, Eq, Structural)]
pub struct SecretKey {
    pub key: hash::Hash,
}

/// The secret half of a signing key pair.
#[derive(Clone, Copy, Debug, PartialEq, Eq, Structural)]
pub struct SigningKey {
    pub key: hash::Hash,
}

/// What a replica may do with a repository.
#[derive(Clone, Copy, Debug, PartialEq, Eq, Structural)]
pub enum AccessMode {
    /// Sync it, without reading it.
    Blind,
    /// Read it.
    Read,
    /// Read it and write to it.
    Write,
}

/// The secrets that give access to a repository.
#[derive(Clone, Copy, Debug, PartialEq, Eq, Structural)]
pub enum AccessSecrets {
    Blind { id: RepositoryId },
    Read { id: RepositoryId, read_key: SecretKey },
    Write { id: RepositoryId, read_key: SecretKey, write_key: SigningKey },
}

/// What is stored of the secrets of a repository. A key is stored in each
/// place whatever the access is, so that what is stored does not tell
/// which access it gives.
#[derive(Clone, Copy, Debug, PartialEq, Eq, Structural)]
pub struct StoredSecrets {
    /// Stored, encrypted, as the read key.
    pub read_key: SecretKey,
    /// The validator of the read key, to be stored encrypted under `read_key`.
    pub read_key_validator: hash::Hash,
    /// Stored, encrypted, as the write key.
    pub write_key: SigningKey,
}

/// The text that is hashed together with the id of a repository to make
/// its read key validator: the 18 bytes of `read_key_validator`.
pub open spec fn validator_salt() -> Seq<u8> {
    seq![
        114u8, 101u8, 97u8, 100u8, 95u8, 107u8, 101u8, 121u8, 95u8, 118u8, 97u8, 108u8, 105u8,
        100u8, 97u8, 116u8, 111u8, 114u8,
    ]
}

/// What validates the read key of the repository with id `id`: the hash
/// of the id followed by a fixed text.
pub open spec fn spec_read_key_validator(id: RepositoryId) -> hash::Hash {
    hash::Hash::spec_from_bytes(sha3_256(id.key.key.spec_bytes() + validator_salt()))
}

pub fn read_key_validator(id: &RepositoryId) -> (h: hash::Hash)
    ensures
        h == spec_read_key_validator(*id),
{
    let mut buf: Vec<u8> = Vec::new();
    id.key.key.write_to(&mut buf);
    let ghost head = buf@;
    let salt: [u8; 18] = [
        114, 101, 97, 100, 95, 107, 101, 121, 95, 118, 97, 108, 105, 100, 97, 116, 111, 114,
    ];
    let mut i: usize = 0;
    while i < 18
        invariant
            i <= 18,
            salt@ == validator_salt(),
            buf@ == head + validator_salt().subrange(0, i as int),
        decreases 18 - i,
    {
        buf.push(salt[i]);
        assert(buf@ =~= head + validator_salt().subrange(0, i + 1));
        i = i + 1;
    }
    assert(validator_salt().subrange(0, 18) =~= validator_salt());
    hash::Hash::digest(buf.as_slice())
}

impl AccessSecrets {
    pub fn id(&self) -> (id: &RepositoryId)
        ensures
            *id == (match self {
                AccessSecrets::Blind { id } => *id,
                AccessSecrets::Read { id, .. } => *id,
                AccessSecrets::Write { id, .. } => *id,
            }),
    {
        match self {
            AccessSecrets::Blind { id } => id,
            AccessSecrets::Read { id, .. } => id,
            AccessSecrets::Write { id, .. } => id,
        }
    }

    pub fn access_mode(&self) -> (m: AccessMode)
        ensures
            m == (match self {
                AccessSecrets::Blind { .. } => AccessMode::Blind,
                AccessSecrets::Read { .. } => AccessMode::Read,
                AccessSecrets::Write { .. } => AccessMode::Write,
            }),
    {
        match self {
            AccessSecrets::Blind { .. } => AccessMode::Blind,
            AccessSecrets::Read { .. } => AccessMode::Read,
            AccessSecrets::Write { .. } => AccessMode::Write,
        }
    }

    /// The read key, where the access is not blind.
    pub fn read_key(&self) -> (k: Option<SecretKey>)
        ensures
            k == (match self {
                AccessSecrets::Blind { .. } => None,
                AccessSecrets::Read { read_key, .. } => Some(*read_key),
                AccessSecrets::Write { read_key, .. } => Some(*read_key),
            }),
    {
        match self {
            AccessSecrets::Blind { .. } => None,
            AccessSecrets::Read { read_key, .. } => Some(*read_key),
            AccessSecrets::Write { read_key, .. } => Some(*read_key),
        }
    }
}

/// What to store of `secrets`. The keys that `secrets` lacks are stood in
/// for by `dummy_read_key` and `dummy_write_key`, which are to be drawn
/// at random: a stored key that gives no access cannot be told from one
/// that does.
pub fn set_access_secrets(
    secrets: &AccessSecrets,
    dummy_read_key: SecretKey,
    dummy_write_key: SigningKey,
) -> (stored: StoredSecrets)
    ensures
        stored == (match *secrets {
            AccessSecrets::Blind { id } => StoredSecrets {
                read_key: dummy_read_key,
                read_key_validator: spec_read_key_validator(id),
                write_key: dummy_write_key,
            },
            AccessSecrets::Read { id, read_key } => StoredSecrets {
                read_key,
                read_key_validator: spec_read_key_validator(id),
                write_key: dummy_write_key,
            },
            AccessSecrets::Write { id, read_key, write_key } => StoredSecrets {
                read_key,
                read_key_validator: spec_read_key_validator(id),
                write_key,
            },
        }),
{
    match *secrets {
        AccessSecrets::Blind { id } => StoredSecrets {
            read_key: dummy_read_key,
            read_key_validator: read_key_validator(&id),
            write_key: dummy_write_key,
        },
        AccessSecrets::Read { id, read_key } => StoredSecrets {
            read_key,
            read_key_validator: read_key_validator(&id),
            write_key: dummy_write_key,
        },
        AccessSecrets::Write { id, read_key, write_key } => StoredSecrets {
            read_key,
            read_key_validator: read_key_validator(&id),
            write_key,
        },
    }
}

/// The write key, if the one that was stored is that of the repository:
/// if the repository id that its public half gives, `derived_id`, is `id`.
pub fn get_write_key(id: &RepositoryId, write_key: SigningKey, derived_id: &RepositoryId) -> (r:
    Option<SigningKey>)
    ensures
        r == (if *derived_id == *id {
            Some(write_key)
        } else {
            None
        }),
{
    if *derived_id == *id {
        Some(write_key)
    } else {
        None
    }
}

/// The read key, if the one that was stored is that of the repository: if
/// what was stored as its validator and decrypted with it, `validator`,
/// is the validator of the repository.
pub fn get_read_key(id: &RepositoryId, read_key: SecretKey, validator: &hash::Hash) -> (r: Option<
    SecretKey,
>)
    ensures
        r == (if *validator == spec_read_key_validator(*id) {
            Some(read_key)
        } else {
            None
        }),
{
    if *validator == read_key_validator(id) {
        Some(read_key)
    } else {
        None
    }
}

/// The access that the stored secrets give, as they were decrypted with
/// the key of the user: write access if the write key is that of the
/// repository, else read access if the read key is, else blind access.
pub fn get_access_secrets(
    id: RepositoryId,
    read_key: SecretKey,
    validator: &hash::Hash,
    write_key: SigningKey,
    derived_id: &RepositoryId,
) -> (secrets: AccessSecrets)
    ensures
        secrets == (if *derived_id == id {
            AccessSecrets::Write { id, read_key, write_key }
        } else if *validator == spec_read_key_validator(id) {
            AccessSecrets::Read { id, read_key }
        } else {
            AccessSecrets::Blind { id }
        }),
{
    match get_write_key(&id, write_key, derived_id) {
        Some(write_key) => {
            return AccessSecrets::Write { id, read_key, write_key };
        },
        None => {},
    }
    match get_read_key(&id, read_key, validator) {
        Some(read_key) => AccessSecrets::Read { id, read_key },
        None => AccessSecrets::Blind { id },
    }
}

} // verus!
