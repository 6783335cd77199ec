//! Trusted boundary to the platform credential store.
//!
//! Each wrapper opens the physical entry named by the given service and
//! sub-key — the sub-key is computed and verified in [`crate::entry`] — and
//! performs one store operation on it. The contracts state only what holds of
//! every outcome: the store is the outside world, and nothing here promises
//! that an operation succeeds. A missing entry is mapped to
//! [`Error::NotFound`]; every other store failure is mapped to
//! [`Error::StoreFailure`] with the store's own description.

use vstd::prelude::*;

use crate::Error;

verus! {

/// Relies on `keyring::Entry::new` and `keyring::Entry::set_secret`: writes
/// `data` as the value of the physical entry `(service, part_user)`.
#[verifier::external_body]
pub(crate) fn set_part(service: &str, part_user: &str, data: &[u8]) -> (r: Result<(), Error>)
    ensures
        r matches Err(e) ==> e is StoreFailure || e is NotFound,
{
    let entry = match keyring::Entry::new(service, part_user) {
        Ok(entry) => entry,
        Err(keyring::Error::NoEntry) => return Err(Error::NotFound),
        Err(e) => return Err(Error::StoreFailure(format!("{e}"))),
    };
    match entry.set_secret(data) {
        Ok(()) => Ok(()),
        Err(keyring::Error::NoEntry) => Err(Error::NotFound),
        Err(e) => Err(Error::StoreFailure(format!("{e}"))),
    }
}

/// Relies on `keyring::Entry::new` and `keyring::Entry::get_secret`: reads
/// the value stored at the physical entry `(service, part_user)`. What comes
/// back depends on the state of the store, so nothing is promised of the
/// bytes of a successful read.
#[verifier::external_body]
pub(crate) fn get_part(service: &str, part_user: &str) -> (r: Result<Vec<u8>, Error>)
    ensures
        r matches Err(e) ==> e is StoreFailure || e is NotFound,
{
    let entry = match keyring::Entry::new(service, part_user) {
        Ok(entry) => entry,
        Err(keyring::Error::NoEntry) => return Err(Error::NotFound),
        Err(e) => return Err(Error::StoreFailure(format!("{e}"))),
    };
    match entry.get_secret() {
        Ok(data) => Ok(data),
        Err(keyring::Error::NoEntry) => Err(Error::NotFound),
        Err(e) => Err(Error::StoreFailure(format!("{e}"))),
    }
}

/// Relies on `keyring::Entry::new` and `keyring::Entry::delete_credential`:
/// removes the physical entry `(service, part_user)` from the store.
#[verifier::external_body]
pub(crate) fn delete_part(service: &str, part_user: &str) -> (r: Result<(), Error>)
    ensures
        r matches Err(e) ==> e is StoreFailure || e is NotFound,
{
    let entry = match keyring::Entry::new(service, part_user) {
        Ok(entry) => entry,
        Err(keyring::Error::NoEntry) => return Err(Error::NotFound),
        Err(e) => return Err(Error::StoreFailure(format!("{e}"))),
    };
    match entry.delete_credential() {
        Ok(()) => Ok(()),
        Err(keyring::Error::NoEntry) => Err(Error::NotFound),
        Err(e) => Err(Error::StoreFailure(format!("{e}"))),
    }
}

} // verus!
