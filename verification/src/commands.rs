//! The commands that change the database, from the bytes of the data file
//! to the bytes that replace it. Reading the file, holding its lock and
//! replacing it are left to the caller; what happens in between is here.

use vstd::prelude::*;
use crate::codec::{encode, load, parsed_store, store_bytes};
use crate::entry::{views, DirEntry, EntryView, Epoch, RANK_ONE};
use crate::error::ErrorKind;
use crate::store::{added, has_path, imported, well_formed_record, without};

verus! {

/// The contents of the data file, or `None` where there is no file yet.
pub open spec fn file_view(contents: Option<&[u8]>) -> Option<Seq<u8>> {
    match contents {
        None => None,
        Some(bytes) => Some(bytes@),
    }
}

/// The store that a command starts from: empty where there is no file, and
/// what the file reads as where there is one; `None` if the file is corrupt.
pub open spec fn loaded(contents: Option<Seq<u8>>) -> Option<Seq<EntryView>> {
    match contents {
        None => Some(Seq::empty()),
        Some(bytes) => parsed_store(bytes),
    }
}

/// Records a visit to `path` at `now`: the new contents of the data file
/// are the persisted form of the store after the visit. Fails with
/// `Corrupt`, and only then, if the file cannot be read as a store.
pub fn add_visit(contents: Option<&[u8]>, path: &str, now: Epoch) -> (written: Result<
    Vec<u8>,
    ErrorKind,
>)
    ensures
        match written {
            Ok(bytes) => {
                &&& loaded(file_view(contents)) matches Some(s)
                &&& bytes@ == store_bytes(added(s, path@, RANK_ONE, now))
                &&& parsed_store(bytes@) == Some(added(s, path@, RANK_ONE, now))
            },
            Err(e) => e == ErrorKind::Corrupt && loaded(file_view(contents)) is None,
        },
{
    match load(contents) {
        Ok(store) => {
            let mut store = store;
            store.add(path, now);
            Ok(encode(&store))
        },
        Err(e) => Err(e),
    }
}

/// Removes the entry for `path`: the new contents of the data file are the
/// persisted form of the store without it. Fails with `Corrupt` if the
/// file cannot be read as a store, and with `InvalidInput` if it can but
/// holds no entry for `path`.
pub fn remove_path(contents: Option<&[u8]>, path: &str) -> (written: Result<Vec<u8>, ErrorKind>)
    ensures
        match written {
            Ok(bytes) => {
                &&& loaded(file_view(contents)) matches Some(s)
                &&& has_path(s, path@)
                &&& bytes@ == store_bytes(without(s, path@))
                &&& parsed_store(bytes@) == Some(without(s, path@))
            },
            Err(e) => match loaded(file_view(contents)) {
                None => e == ErrorKind::Corrupt,
                Some(s) => e == ErrorKind::InvalidInput && !has_path(s, path@),
            },
        },
{
    match load(contents) {
        Ok(store) => {
            let mut store = store;
            match store.remove(path) {
                Ok(()) => Ok(encode(&store)),
                Err(e) => Err(e),
            }
        },
        Err(e) => Err(e),
    }
}

/// Adds the records in turn: the new contents of the data file are the
/// persisted form of the store after all of them. Fails with `Corrupt` if
/// the file cannot be read as a store, and with `InvalidInput` if it can
/// but a record names no path.
pub fn import_records(contents: Option<&[u8]>, records: &Vec<DirEntry>) -> (written: Result<
    Vec<u8>,
    ErrorKind,
>)
    ensures
        match written {
            Ok(bytes) => {
                &&& loaded(file_view(contents)) matches Some(s)
                &&& forall|k: int|
                    0 <= k < records@.len() ==> well_formed_record(#[trigger] views(records@)[k])
                &&& bytes@ == store_bytes(imported(s, views(records@)))
                &&& parsed_store(bytes@) == Some(imported(s, views(records@)))
            },
            Err(e) => match loaded(file_view(contents)) {
                None => e == ErrorKind::Corrupt,
                Some(s) => e == ErrorKind::InvalidInput && exists|k: int|
                    0 <= k < records@.len() && !well_formed_record(#[trigger] views(records@)[k]),
            },
        },
{
    match load(contents) {
        Ok(store) => {
            let mut store = store;
            match store.import(records) {
                Ok(()) => Ok(encode(&store)),
                Err(e) => Err(e),
            }
        },
        Err(e) => Err(e),
    }
}

} // verus!
