use ouisync::branch::{directory_step, Component, DirectoryStep, Lookup};
use ouisync::crypto::hash;
use ouisync::crypto::sign::PublicKey;
use ouisync::error::Error;
use ouisync::index::branch_data::BranchData;
use ouisync::network::registry::{info_hash, repository_info_hash};
use ouisync::protocol::block::BlockId;
use ouisync::protocol::summary::SingleBlockPresence;
use ouisync::store::Store;

fn writer() -> PublicKey {
    PublicKey { key: hash::Hash { hi: 0xbb01, lo: 17 } }
}

fn place(n: u64) -> hash::Hash {
    hash::Hash::digest(&n.to_le_bytes())
}

fn id(n: u64) -> BlockId {
    BlockId { hash: hash::Hash::digest(&(n + 1000).to_le_bytes()) }
}

#[test]
fn names_lead_into_directories() {
    assert_eq!(directory_step(Component::RootDir, Lookup::NotFound), Ok(DirectoryStep::Stay));
    assert_eq!(directory_step(Component::CurDir, Lookup::File), Ok(DirectoryStep::Stay));
    assert_eq!(directory_step(Component::Normal, Lookup::Directory), Ok(DirectoryStep::Open));
    assert_eq!(directory_step(Component::Normal, Lookup::NotFound), Ok(DirectoryStep::Create));
    assert_eq!(directory_step(Component::Normal, Lookup::Tombstone), Ok(DirectoryStep::Create));
}

#[test]
fn a_file_is_no_directory() {
    assert_eq!(directory_step(Component::Normal, Lookup::File), Err(Error::EntryIsFile));
}

#[test]
fn paths_that_are_not_normalized_are_refused() {
    assert_eq!(
        directory_step(Component::ParentDir, Lookup::Directory),
        Err(Error::OperationNotSupported)
    );
    assert_eq!(
        directory_step(Component::Prefix, Lookup::NotFound),
        Err(Error::OperationNotSupported)
    );
}

#[test]
fn info_hash_of_the_empty_name() {
    assert_eq!(info_hash(&[]), "a7ffc6f8bf1ed76651c14756a061d662f580ff4d");
}

#[test]
fn info_hash_is_the_raw_hash_in_hexadecimal() {
    let name = [1u8, 2, 3, 15, 16, 255];
    let raw = repository_info_hash(&name);
    let text = info_hash(&name);
    assert_eq!(text.len(), 40);
    let digits = "0123456789abcdef".as_bytes();
    for (i, byte) in raw.iter().enumerate() {
        assert_eq!(text.as_bytes()[2 * i], digits[(byte >> 4) as usize]);
        assert_eq!(text.as_bytes()[2 * i + 1], digits[(byte & 15) as usize]);
    }
    assert_ne!(text.as_bytes(), &name[..]);
}

#[test]
fn insert_leaves_other_locators_alone() {
    let mut store = Store::new();
    let branch = BranchData::new(writer());
    for n in 0..40u64 {
        assert_eq!(
            branch.load_or_create_snapshot(&store).insert_block(
                &mut store,
                &place(n),
                &id(n),
                SingleBlockPresence::Present
            ),
            Ok(true)
        );
        for earlier in 0..=n {
            assert_eq!(branch.get(&store, &place(earlier)).unwrap().0, id(earlier));
        }
    }
    // Another block at one of the places.
    assert_eq!(
        branch.load_or_create_snapshot(&store).insert_block(
            &mut store,
            &place(7),
            &id(500),
            SingleBlockPresence::Missing
        ),
        Ok(true)
    );
    for n in 0..40u64 {
        let expected = if n == 7 { id(500) } else { id(n) };
        assert_eq!(branch.get(&store, &place(n)).unwrap().0, expected);
    }
}

#[test]
fn remove_leaves_other_locators_alone() {
    let mut store = Store::new();
    let branch = BranchData::new(writer());
    for n in 0..40u64 {
        branch
            .load_or_create_snapshot(&store)
            .insert_block(&mut store, &place(n), &id(n), SingleBlockPresence::Present)
            .unwrap();
    }
    for gone in 0..40u64 {
        assert_eq!(
            branch.load_or_create_snapshot(&store).remove_block(&mut store, &place(gone), None),
            Ok(true)
        );
        for n in 0..40u64 {
            if n <= gone {
                assert_eq!(branch.get(&store, &place(n)), Err(Error::EntryNotFound));
            } else {
                assert_eq!(branch.get(&store, &place(n)).unwrap().0, id(n));
            }
        }
    }
}

// The directories of a toy tree, by their paths; the root is the empty path.
fn ensure_directory(tree: &mut Vec<String>, files: &[&str], path: &str) -> Result<String, Error> {
    let mut current = String::new();
    for part in std::path::Path::new(path).components() {
        let (component, name) = match part {
            std::path::Component::RootDir => (Component::RootDir, String::new()),
            std::path::Component::CurDir => (Component::CurDir, String::new()),
            std::path::Component::ParentDir => (Component::ParentDir, String::new()),
            std::path::Component::Prefix(_) => (Component::Prefix, String::new()),
            std::path::Component::Normal(name) => {
                (Component::Normal, name.to_str().unwrap().to_string())
            }
        };
        let target = format!("{}/{}", current, name);
        let found = if tree.contains(&target) {
            Lookup::Directory
        } else if files.contains(&target.as_str()) {
            Lookup::File
        } else {
            Lookup::NotFound
        };
        match directory_step(component, found)? {
            DirectoryStep::Stay => {}
            DirectoryStep::Open => current = target,
            DirectoryStep::Create => {
                tree.push(target.clone());
                current = target;
            }
        }
    }
    Ok(current)
}

#[test]
fn branch_ensure_root_directory_exists() {
    let mut tree = Vec::new();
    assert_eq!(ensure_directory(&mut tree, &[], "/"), Ok(String::new()));
    assert!(tree.is_empty());
}

#[test]
fn branch_ensure_subdirectory_exists() {
    let mut tree = Vec::new();
    assert_eq!(ensure_directory(&mut tree, &[], "/dir"), Ok("/dir".to_string()));
    assert_eq!(tree, vec!["/dir".to_string()]);
    // The directory is there now, and is opened.
    assert_eq!(ensure_directory(&mut tree, &[], "/dir/below"), Ok("/dir/below".to_string()));
    assert_eq!(tree, vec!["/dir".to_string(), "/dir/below".to_string()]);
    assert_eq!(ensure_directory(&mut tree, &["/dir/file"], "/dir/file"), Err(Error::EntryIsFile));
    assert_eq!(ensure_directory(&mut tree, &[], "/dir/../x"), Err(Error::OperationNotSupported));
    assert_eq!(tree.len(), 2);
}

#[test]
fn block_expiration_is_switched_on_once() {
    let mut expiration = ouisync::store::expiration::BlockExpiration::new();
    assert_eq!(expiration.block_expiration(), None);

    // No time, no expiration.
    assert!(!expiration.set_block_expiration(None));
    assert_eq!(expiration.block_expiration(), None);

    assert!(expiration.set_block_expiration(Some(60_000)));
    assert_eq!(expiration.block_expiration(), Some(60_000));

    // Once on, the time changes, and no time leaves it as it is.
    assert!(!expiration.set_block_expiration(Some(1_000)));
    assert_eq!(expiration.block_expiration(), Some(1_000));
    assert!(!expiration.set_block_expiration(None));
    assert_eq!(expiration.block_expiration(), Some(1_000));
}
