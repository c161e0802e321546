//! The durable key-value backend: an rkv environment (safe-mode backend)
//! holding one bucket of byte keys and byte values. The bucket's contents
//! are modelled as a map from byte strings to byte strings; reads and the
//! writes below are stated against that map. The model follows this handle
//! alone: it assumes no second handle to the same path writes concurrently.
//! The manager hands the same environment back for one canonical path, so a
//! second handle opened at a live path would share state the first handle's
//! model does not see — open each directory once per process and write
//! through that one handle.

use vstd::prelude::*;

use std::sync::{Arc, RwLock};

verus! {

/// A storage failure.
#[derive(Clone, Copy, Debug, PartialEq, Eq, Structural)]
pub enum StoreError {
    /// The backend could not be opened, read or written.
    Io,
    /// A stored value has the wrong shape.
    Corruption,
}

/// A handle to one on-disk environment and its single bucket.
#[verifier::external_body]
pub struct Store {
    env: Arc<RwLock<rkv::Rkv<rkv::backend::SafeModeEnvironment>>>,
}

/// What the bucket holds: each present key's bytes.
pub uninterp spec fn store_contents(s: Store) -> Map<Seq<u8>, Seq<u8>>;

/// Relies on rkv::Manager::singleton and rkv::Rkv::new with the safe-mode
/// backend: at most one environment per canonical path, opened or reused.
/// What the bucket holds on disk becomes this handle's model; nothing can be
/// promised about it.
#[verifier::external_body]
pub(crate) fn store_open(path: &str) -> (r: Result<Store, StoreError>) {
    let singleton = rkv::Manager::<rkv::backend::SafeModeEnvironment>::singleton();
    let mut manager = singleton.write().map_err(|_| StoreError::Io)?;
    let created = manager.get_or_create(
        std::path::Path::new(path),
        rkv::Rkv::new::<rkv::backend::SafeMode>,
    );
    match created {
        Ok(env) => Ok(Store { env }),
        Err(_) => Err(StoreError::Io),
    }
}

/// Relies on rkv::SingleStore::get under a fresh read transaction: the blob
/// stored under the key, if any. A value of another shape is corruption.
#[verifier::external_body]
pub(crate) fn store_get(s: &Store, key: &Vec<u8>) -> (r: Result<Option<Vec<u8>>, StoreError>)
    ensures
        r matches Ok(Some(v)) ==> store_contents(*s).contains_key(key@) && v@ == store_contents(
            *s,
        )[key@],
        r matches Ok(None) ==> !store_contents(*s).contains_key(key@),
{
    let env = s.env.read().map_err(|_| StoreError::Io)?;
    let single = env.open_single("data", rkv::StoreOptions::create()).map_err(|_| StoreError::Io)?;
    let reader = env.read().map_err(|_| StoreError::Io)?;
    match single.get(&reader, key.as_slice()) {
        Ok(Some(rkv::Value::Blob(bytes))) => Ok(Some(bytes.to_vec())),
        Ok(Some(_)) => Err(StoreError::Corruption),
        Ok(None) => Ok(None),
        Err(_) => Err(StoreError::Io),
    }
}

/// Relies on rkv::SingleStore::put and rkv::Writer::commit: one write
/// transaction storing both pairs. On success both are stored. The safe-mode
/// commit installs the new values in the shared in-memory database before
/// writing the file, so a failed commit leaves the contents either unchanged
/// or exactly as if the write had succeeded; nothing in between.
#[verifier::external_body]
pub(crate) fn store_put_pair(
    s: &mut Store,
    k1: &Vec<u8>,
    v1: &Vec<u8>,
    k2: &Vec<u8>,
    v2: &Vec<u8>,
) -> (r: Result<(), StoreError>)
    ensures
        r is Ok ==> store_contents(*final(s)) == store_contents(*old(s)).insert(
            k1@,
            v1@,
        ).insert(k2@, v2@),
        r is Err ==> store_contents(*final(s)) == store_contents(*old(s)) || store_contents(
            *final(s),
        ) == store_contents(*old(s)).insert(k1@, v1@).insert(k2@, v2@),
{
    let env = s.env.read().map_err(|_| StoreError::Io)?;
    let single = env.open_single("data", rkv::StoreOptions::create()).map_err(|_| StoreError::Io)?;
    let mut writer = env.write().map_err(|_| StoreError::Io)?;
    single.put(&mut writer, k1.as_slice(), &rkv::Value::Blob(v1)).map_err(|_| StoreError::Io)?;
    single.put(&mut writer, k2.as_slice(), &rkv::Value::Blob(v2)).map_err(|_| StoreError::Io)?;
    writer.commit().map_err(|_| StoreError::Io)
}

/// Relies on rkv::SingleStore::put and rkv::Writer::commit: one write
/// transaction storing the pair. The safe-mode commit installs the value in
/// memory before writing the file, so a failed commit leaves the contents
/// either unchanged or exactly as if the write had succeeded.
#[verifier::external_body]
pub(crate) fn store_put(s: &mut Store, key: &Vec<u8>, value: &Vec<u8>) -> (r: Result<(), StoreError>)
    ensures
        r is Ok ==> store_contents(*final(s)) == store_contents(*old(s)).insert(key@, value@),
        r is Err ==> store_contents(*final(s)) == store_contents(*old(s)) || store_contents(
            *final(s),
        ) == store_contents(*old(s)).insert(key@, value@),
{
    let env = s.env.read().map_err(|_| StoreError::Io)?;
    let single = env.open_single("data", rkv::StoreOptions::create()).map_err(|_| StoreError::Io)?;
    let mut writer = env.write().map_err(|_| StoreError::Io)?;
    single.put(&mut writer, key.as_slice(), &rkv::Value::Blob(value)).map_err(|_| StoreError::Io)?;
    writer.commit().map_err(|_| StoreError::Io)
}

} // verus!
