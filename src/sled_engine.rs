//! The `sled` embedded database behind the engine interface.
use vstd::prelude::*;
use vstd::utf8::{decode_utf8, valid_utf8};

use crate::codec::string_from_utf8;
use crate::error::KvsError;
use crate::service::KvsEngine;
use crate::thread_pool::ThreadPool;

verus! {

#[verifier::external_type_specification]
#[verifier::external_body]
pub struct ExDb(sled::Db);

#[verifier::external_type_specification]
#[verifier::external_body]
pub struct ExSledError(sled::Error);

/// Relies on `sled::Db`'s derived `Clone`: the clone is a handle to the same
/// database.
pub assume_specification[ <sled::Db as Clone>::clone ](db: &sled::Db) -> sled::Db;

/// Relies on `sled::Tree::insert` (through `Db`'s deref): stores the bytes
/// of `value` under the bytes of `key`; the earlier value it returns is not
/// needed.
#[verifier::external_body]
fn db_insert(db: &sled::Db, key: &String, value: &String) -> (r: Result<(), sled::Error>) {
    db.insert(key.as_bytes(), value.as_bytes()).map(|_| ())
}

/// Relies on `sled::Tree::get`: the bytes stored under the bytes of `key`.
#[verifier::external_body]
fn db_get(db: &sled::Db, key: &String) -> (r: Result<Option<Vec<u8>>, sled::Error>) {
    db.get(key.as_bytes()).map(|found| found.map(|v| v.to_vec()))
}

/// Relies on `sled::Tree::remove`: drops the bytes of `key`; `true` where
/// there was a value to drop.
#[verifier::external_body]
fn db_remove(db: &sled::Db, key: &String) -> (r: Result<bool, sled::Error>) {
    db.remove(key.as_bytes()).map(|old| old.is_some())
}

/// Relies on `sled::Tree::flush`: writes the dirty buffers to disk.
#[verifier::external_body]
fn db_flush(db: &sled::Db) -> (r: Result<(), sled::Error>) {
    db.flush().map(|_| ())
}

/// Relies on `sled::Error`'s `Display`: the error's text.
#[verifier::external_body]
fn db_error_text(e: &sled::Error) -> (r: String) {
    e.to_string()
}

/// An error of the database, as the store reports it.
fn db_error(e: sled::Error) -> (r: KvsError)
    ensures
        r is StringError,
{
    KvsError::StringError(db_error_text(&e))
}

/// What a read makes of the bytes found under a key: the string they
/// encode, nothing where there were none, `Serialization` where they are not
/// UTF-8.
pub fn value_from_bytes(found: Option<Vec<u8>>) -> (r: Result<Option<String>, KvsError>)
    ensures
        match found {
            None => r matches Ok(None),
            Some(b) => if valid_utf8(b@) {
                r matches Ok(Some(s)) && s@ == decode_utf8(b@)
            } else {
                r matches Err(KvsError::Serialization)
            },
        },
{
    match found {
        None => Ok(None),
        Some(b) => match string_from_utf8(b) {
            Some(s) => Ok(Some(s)),
            None => Err(KvsError::Serialization),
        },
    }
}

/// What a removal makes of the database's answer: `KeyNotFound` where there
/// was nothing stored under the key; otherwise the removal goes on to the
/// flush.
pub fn removal_outcome(found: bool) -> (r: Result<(), KvsError>)
    ensures
        r == (if found {
            Ok::<(), KvsError>(())
        } else {
            Err::<(), KvsError>(KvsError::KeyNotFound)
        }),
{
    if found {
        Ok(())
    } else {
        Err(KvsError::KeyNotFound)
    }
}

/// The `sled` database as a storage engine, with a pool for its operations.
#[derive(Clone)]
pub struct SledKvsEngine<P: ThreadPool> {
    pool: P,
    db: sled::Db,
}

impl<P: ThreadPool> SledKvsEngine<P> {
    /// The database that the engine serves.
    pub closed spec fn database(&self) -> sled::Db {
        self.db
    }

    /// The pool that the engine's operations run on.
    pub closed spec fn workers(&self) -> P {
        self.pool
    }

    /// The database as an engine, with a pool of `concurrency` workers;
    /// fails as the pool's creation fails.
    pub fn new(db: sled::Db, concurrency: u32) -> (r: Result<Self, KvsError>)
        ensures
            r matches Ok(e) ==> e.database() == db && call_ensures(
                P::new,
                (concurrency,),
                Ok::<P, KvsError>(e.workers()),
            ),
            r matches Err(x) ==> call_ensures(P::new, (concurrency,), Err::<P, KvsError>(x)),
    {
        match P::new(concurrency) {
            Ok(pool) => Ok(SledKvsEngine { pool, db }),
            Err(e) => Err(e),
        }
    }

    /// The pool that the engine's operations run on.
    pub fn pool(&self) -> (r: &P)
        ensures
            *r == self.workers(),
    {
        &self.pool
    }
}

impl<P: ThreadPool + Clone + Send + 'static> KvsEngine for SledKvsEngine<P> {
    /// Stores the value and flushes; `Ok` only once both succeed, the
    /// database's error otherwise.
    fn set(&self, key: String, value: String) -> (r: Result<(), KvsError>)
        ensures
            r is Ok || r matches Err(KvsError::StringError(_)),
    {
        match db_insert(&self.db, &key, &value) {
            Err(e) => Err(db_error(e)),
            Ok(()) => match db_flush(&self.db) {
                Err(e) => Err(db_error(e)),
                Ok(()) => Ok(()),
            },
        }
    }

    /// Reads the value: the string stored, nothing, the database's error, or
    /// `Serialization` for bytes that are not UTF-8.
    fn get(&self, key: String) -> (r: Result<Option<String>, KvsError>)
        ensures
            r is Ok || r matches Err(KvsError::StringError(_)) || r == Err::<
                Option<String>,
                KvsError,
            >(KvsError::Serialization),
    {
        match db_get(&self.db, &key) {
            Err(e) => Err(db_error(e)),
            Ok(found) => value_from_bytes(found),
        }
    }

    /// Removes the key and flushes: `KeyNotFound` where nothing was stored,
    /// `Ok` only once the removal and the flush succeed, the database's
    /// error otherwise.
    fn remove(&self, key: String) -> (r: Result<(), KvsError>)
        ensures
            r is Ok || r == Err::<(), KvsError>(KvsError::KeyNotFound) || r matches Err(
                KvsError::StringError(_),
            ),
    {
        match db_remove(&self.db, &key) {
            Err(e) => Err(db_error(e)),
            Ok(found) => match removal_outcome(found) {
                Err(e) => Err(e),
                Ok(()) => match db_flush(&self.db) {
                    Err(e) => Err(db_error(e)),
                    Ok(()) => Ok(()),
                },
            },
        }
    }
}

} // verus!
