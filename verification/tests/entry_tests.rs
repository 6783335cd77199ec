use std::collections::HashMap;
use std::sync::{Arc, Mutex};

use keyring::credential::{Credential, CredentialApi, CredentialBuilderApi, CredentialPersistence};
use keyring_cursed::entry::assemble_frames;
use keyring_cursed::format::encode_part;
use keyring_cursed::{max_chunk_size, Corruption, Entry, Error};

type StoreMap = Arc<Mutex<HashMap<(String, String), Vec<u8>>>>;

/// An in-memory credential store shared by every entry built from it, so the
/// library's multi-part protocol can be exercised end to end.
struct SharedStoreBuilder {
    map: StoreMap,
}

struct SharedCredential {
    map: StoreMap,
    service: String,
    user: String,
}

impl SharedCredential {
    fn key(&self) -> (String, String) {
        (self.service.clone(), self.user.clone())
    }
}

impl CredentialApi for SharedCredential {
    fn set_secret(&self, secret: &[u8]) -> keyring::Result<()> {
        self.map.lock().unwrap().insert(self.key(), secret.to_vec());
        Ok(())
    }

    fn get_secret(&self) -> keyring::Result<Vec<u8>> {
        match self.map.lock().unwrap().get(&self.key()) {
            Some(v) => Ok(v.clone()),
            None => Err(keyring::Error::NoEntry),
        }
    }

    fn delete_credential(&self) -> keyring::Result<()> {
        match self.map.lock().unwrap().remove(&self.key()) {
            Some(_) => Ok(()),
            None => Err(keyring::Error::NoEntry),
        }
    }

    fn as_any(&self) -> &dyn std::any::Any {
        self
    }
}

impl CredentialBuilderApi for SharedStoreBuilder {
    fn build(
        &self,
        _target: Option<&str>,
        service: &str,
        user: &str,
    ) -> keyring::Result<Box<Credential>> {
        Ok(Box::new(SharedCredential {
            map: Arc::clone(&self.map),
            service: service.to_string(),
            user: user.to_string(),
        }))
    }

    fn as_any(&self) -> &dyn std::any::Any {
        self
    }

    fn persistence(&self) -> CredentialPersistence {
        CredentialPersistence::ProcessOnly
    }
}

fn install_shared_store() -> StoreMap {
    let map: StoreMap = Arc::new(Mutex::new(HashMap::new()));
    keyring::set_default_credential_builder(Box::new(SharedStoreBuilder {
        map: Arc::clone(&map),
    }));
    map
}

#[test]
fn new_rejects_empty_fields() {
    assert!(matches!(Entry::new("", "user"), Err(Error::InvalidArgument(_))));
    assert!(matches!(Entry::new("svc", ""), Err(Error::InvalidArgument(_))));
    assert!(Entry::new("svc", "user").is_ok());
}

#[test]
fn get_on_fresh_identity_is_not_found() {
    install_shared_store();
    let entry = Entry::new("svc-fresh", "user-fresh").unwrap();
    assert!(matches!(entry.get_secret(), Err(Error::NotFound)));
}

#[test]
fn small_secret_round_trip() {
    install_shared_store();
    let entry = Entry::new("svc-small", "user-small").unwrap();
    entry.set_secret(b"tiny").unwrap();
    assert_eq!(entry.get_secret().unwrap(), b"tiny");
}

#[test]
fn empty_secret_round_trip() {
    install_shared_store();
    let entry = Entry::new("svc-empty", "user-empty").unwrap();
    entry.set_secret(b"").unwrap();
    assert_eq!(entry.get_secret().unwrap(), b"");
}

#[test]
fn idempotent_delete_round() {
    install_shared_store();
    let entry = Entry::new("svc-del", "user-del").unwrap();
    // Fresh identity: delete succeeds with no prior state.
    entry.delete_credential().unwrap();
    entry.set_secret(b"temporary").unwrap();
    entry.delete_credential().unwrap();
    assert!(matches!(entry.get_secret(), Err(Error::NotFound)));
    // Deleting again still succeeds.
    entry.delete_credential().unwrap();
}

#[test]
fn large_secret_round_trip_four_parts() {
    install_shared_store();
    let chunk_size = max_chunk_size();
    let n = 3 * chunk_size + 500;
    let secret: Vec<u8> = (0..n).map(|i| (i % 256) as u8).collect();
    let entry = Entry::new("svc-large", "user-large").unwrap();
    entry.set_secret(&secret).unwrap();
    assert_eq!(entry.get_secret().unwrap(), secret);
    // The secret occupies exactly 4 physical parts.
    let part4 = keyring::Entry::new("svc-large", "user-large.4").unwrap();
    assert!(part4.get_secret().is_ok());
    let part5 = keyring::Entry::new("svc-large", "user-large.5").unwrap();
    assert!(matches!(part5.get_secret(), Err(keyring::Error::NoEntry)));
}

#[test]
fn corrupted_total_is_detected() {
    install_shared_store();
    let chunk_size = max_chunk_size();
    let secret: Vec<u8> = vec![7u8; 2 * chunk_size + 10];
    let entry = Entry::new("svc-corrupt", "user-corrupt").unwrap();
    entry.set_secret(&secret).unwrap();
    // Rewrite part 2's stored header with a mismatched total.
    let part2 = keyring::Entry::new("svc-corrupt", "user-corrupt.2").unwrap();
    let stored = part2.get_secret().unwrap();
    let bar = stored.iter().position(|&b| b == b'|').unwrap();
    let mut tampered: Vec<u8> = b"2/9|".to_vec();
    tampered.extend_from_slice(&stored[bar + 1..]);
    part2.set_secret(&tampered).unwrap();
    assert!(matches!(entry.get_secret(), Err(Error::CorruptedSecret(_))));
}

#[test]
fn overwrite_shrink_returns_only_new_value() {
    install_shared_store();
    let chunk_size = max_chunk_size();
    let long: Vec<u8> = vec![1u8; 4 * chunk_size + 3]; // five parts
    let entry = Entry::new("svc-shrink", "user-shrink").unwrap();
    entry.set_secret(&long).unwrap();
    entry.set_secret(b"short").unwrap();
    assert_eq!(entry.get_secret().unwrap(), b"short");
    // No orphaned old parts survive the shrink.
    let part2 = keyring::Entry::new("svc-shrink", "user-shrink.2").unwrap();
    assert!(matches!(part2.get_secret(), Err(keyring::Error::NoEntry)));
}

#[test]
fn password_round_trip() {
    install_shared_store();
    let entry = Entry::new("svc-pw", "user-pw").unwrap();
    entry.set_password("correct horse battery staple").unwrap();
    assert_eq!(entry.get_password().unwrap(), "correct horse battery staple");
}

#[test]
fn get_password_rejects_invalid_utf8() {
    install_shared_store();
    let entry = Entry::new("svc-utf8", "user-utf8").unwrap();
    entry.set_secret(&[0xff, 0xfe, 0x80]).unwrap();
    assert!(matches!(entry.get_password(), Err(Error::BadEncoding)));
}

#[test]
fn assemble_concatenates_in_part_order() {
    let frames = vec![
        encode_part(1, 3, b"ab"),
        encode_part(2, 3, b"cd"),
        encode_part(3, 3, b"ef"),
    ];
    assert_eq!(assemble_frames(&frames).unwrap(), b"abcdef");
}

#[test]
fn assemble_detects_wrong_part_position() {
    let frames = vec![
        encode_part(1, 3, b"ab"),
        encode_part(3, 3, b"cd"),
        encode_part(2, 3, b"ef"),
    ];
    assert!(matches!(
        assemble_frames(&frames),
        Err(Error::CorruptedSecret(Corruption::WrongPart { expected: 2, found: 3 }))
    ));
}

#[test]
fn assemble_detects_wrong_total() {
    let frames = vec![encode_part(1, 2, b"ab"), encode_part(2, 5, b"cd")];
    assert!(matches!(
        assemble_frames(&frames),
        Err(Error::CorruptedSecret(Corruption::WrongTotal { expected: 2, found: 5 }))
    ));
}
