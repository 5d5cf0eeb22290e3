//! A store kept in a sled database.

use crate::error::KvsError;
use sled::Db;
use vstd::prelude::*;
use vstd::utf8::{decode_utf8, valid_utf8};

verus! {

/// An open sled database, seen from here as an opaque value.
#[verifier::external_type_specification]
#[verifier::external_body]
pub struct ExDb(Db);

/// A failure reported by sled, seen from here as an opaque value.
#[verifier::external_type_specification]
#[verifier::external_body]
pub struct ExSledError(sled::Error);

/// Relies on sled::Db's Clone: another handle on the same database.
pub assume_specification[ <Db as Clone>::clone ](db: &Db) -> Db;

/// Relies on sled::open: opens (or creates) the database in directory `path`.
#[verifier::external_body]
fn db_open(path: &str) -> (r: Result<Db, sled::Error>) {
    sled::open(path)
}

/// Relies on sled::Tree::get: the bytes stored under the key, if any.
#[verifier::external_body]
fn db_get(db: &Db, key: &String) -> (r: Result<Option<Vec<u8>>, sled::Error>) {
    db.get(key.as_bytes()).map(|found| found.map(|v| v.to_vec()))
}

/// Relies on sled::Tree::insert: stores the value's bytes under the key.
#[verifier::external_body]
fn db_insert(db: &Db, key: String, value: String) -> (r: Result<(), sled::Error>) {
    db.insert(key.into_bytes(), value.into_bytes()).map(|_| ())
}

/// Relies on sled::Tree::remove: removes the key, handing back the bytes it
/// held, if any.
#[verifier::external_body]
fn db_remove(db: &Db, key: &String) -> (r: Result<Option<Vec<u8>>, sled::Error>) {
    db.remove(key.as_bytes()).map(|found| found.map(|v| v.to_vec()))
}

/// Relies on sled::Tree::flush: writes buffered changes to disk.
#[verifier::external_body]
fn db_flush(db: &Db) -> (r: Result<(), sled::Error>) {
    db.flush().map(|_| ())
}

/// Relies on sled::Error's Display: the message of the failure.
#[verifier::external_body]
fn sled_message(e: &sled::Error) -> (r: String) {
    e.to_string()
}

/// Relies on String::from_utf8: succeeds exactly on valid UTF-8, with the
/// characters the bytes encode; otherwise the message of the failure.
#[verifier::external_body]
fn utf8_string(bytes: Vec<u8>) -> (r: Result<String, String>)
    ensures
        r is Ok <==> valid_utf8(bytes@),
        r matches Ok(s) ==> s@ == decode_utf8(bytes@),
{
    String::from_utf8(bytes).map_err(|e| e.to_string())
}

/// The error of this library that stands for a failure of sled.
fn sled_error(e: sled::Error) -> (r: KvsError)
    ensures
        r is SledError,
{
    KvsError::SledError(sled_message(&e))
}

/// The value of a read, from the bytes stored under the key: none when
/// nothing is stored, else their text, which must be UTF-8.
pub fn stored_value(stored: Option<Vec<u8>>) -> (r: Result<Option<String>, KvsError>)
    ensures
        match stored {
            None => r == Ok::<Option<String>, KvsError>(None),
            Some(b) => if valid_utf8(b@) {
                r matches Ok(Some(s)) && s@ == decode_utf8(b@)
            } else {
                r matches Err(KvsError::FromUtf8Error(_))
            },
        },
{
    match stored {
        None => Ok(None),
        Some(b) => match utf8_string(b) {
            Ok(s) => Ok(Some(s)),
            Err(m) => Err(KvsError::FromUtf8Error(m)),
        },
    }
}

/// The outcome of a removal, from what the key held: `KeyNotFound` when it
/// held nothing.
pub fn removal_outcome(removed: Option<Vec<u8>>) -> (r: Result<(), KvsError>)
    ensures
        removed is None <==> r == Err::<(), KvsError>(KvsError::KeyNotFound),
        removed is Some <==> r is Ok,
{
    match removed {
        None => Err(KvsError::KeyNotFound),
        Some(_) => Ok(()),
    }
}

/// A store kept in a sled database; a clone is another handle on it.
#[derive(Clone)]
pub struct SledKvsEngine(Db);

impl SledKvsEngine {
    /// Opens the database in directory `path`; a failure of sled is a
    /// `SledError`.
    pub fn open(path: &str) -> (r: Result<SledKvsEngine, KvsError>)
        ensures
            r matches Err(e) ==> e is SledError,
    {
        match db_open(path) {
            Ok(db) => Ok(SledKvsEngine(db)),
            Err(e) => Err(sled_error(e)),
        }
    }

    /// The value stored under `key`, if any. Fails with `SledError` when
    /// sled does, and with `FromUtf8Error` when the stored bytes are not text.
    pub fn get(&self, key: String) -> (r: Result<Option<String>, KvsError>)
        ensures
            r matches Err(e) ==> (e is SledError || e is FromUtf8Error),
    {
        match db_get(&self.0, &key) {
            Ok(stored) => stored_value(stored),
            Err(e) => Err(sled_error(e)),
        }
    }

    /// Stores `value` under `key` and flushes it to disk before returning.
    pub fn set(&self, key: String, value: String) -> (r: Result<(), KvsError>)
        ensures
            r matches Err(e) ==> e is SledError,
    {
        match db_insert(&self.0, key, value) {
            Ok(()) => {},
            Err(e) => {
                return Err(sled_error(e));
            },
        }
        match db_flush(&self.0) {
            Ok(()) => Ok(()),
            Err(e) => Err(sled_error(e)),
        }
    }

    /// Removes `key` and flushes the change to disk before returning;
    /// `KeyNotFound` when the key held nothing.
    pub fn remove(&self, key: String) -> (r: Result<(), KvsError>)
        ensures
            r matches Err(e) ==> (e is SledError || e is KeyNotFound),
    {
        let removed = match db_remove(&self.0, &key) {
            Ok(removed) => removed,
            Err(e) => {
                return Err(sled_error(e));
            },
        };
        match removal_outcome(removed) {
            Ok(()) => {},
            Err(e) => {
                return Err(e);
            },
        }
        match db_flush(&self.0) {
            Ok(()) => Ok(()),
            Err(e) => Err(sled_error(e)),
        }
    }
}

} // verus!
