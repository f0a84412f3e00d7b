//! The table file: a JSON object that maps each image key to its priority.
//!
//! Reading and writing the file is left to the caller. This module turns the
//! bytes of the file into a table and a table into bytes, and decides what
//! happens when the bytes cannot be read.

use std::collections::BTreeMap;
use vstd::prelude::*;
use crate::listing::{collect, sorted, Entry};
use crate::table::{entries_view, WITTable};

verus! {

/// The error type of `serde_json`. Nothing is known of its values.
#[verifier::external_type_specification]
#[verifier::external_body]
pub struct ExJsonError(serde_json::Error);

/// The entries that `serde_json` reads from `bytes` as a map from string to
/// `u8`, in the order in which the map hands them out; `None` where it
/// rejects the bytes.
pub uninterp spec fn json_entries(bytes: Seq<u8>) -> Option<Seq<Entry>>;

/// The bytes that `serde_json` writes for a map with the entries `entries`;
/// `None` where it fails.
pub uninterp spec fn json_bytes(entries: Seq<Entry>) -> Option<Seq<u8>>;

/// Calls `serde_json::from_slice` for a `BTreeMap<String, u8>` and lists the
/// map's entries. Taken on trust: the outcome depends on `bytes` alone, which
/// is all that the contract says; `json_entries` is the name of that outcome.
#[verifier::external_body]
fn decode_entries(bytes: &[u8]) -> (r: Result<Vec<(String, u8)>, serde_json::Error>)
    ensures
        match r {
            Ok(v) => json_entries(bytes@) == Some(entries_view(v@)),
            Err(_) => json_entries(bytes@) is None,
        },
{
    let map: BTreeMap<String, u8> = serde_json::from_slice(bytes)?;
    Ok(map.into_iter().collect())
}

/// Calls `serde_json::to_vec` on a `BTreeMap` with the given entries, which
/// stand in key order already. Taken on trust: the outcome depends on the
/// entries alone; `json_bytes` is the name of that outcome.
#[verifier::external_body]
fn encode_entries(entries: &Vec<(String, u8)>) -> (r: Result<Vec<u8>, serde_json::Error>)
    requires
        sorted(entries_view(entries@)),
    ensures
        match r {
            Ok(b) => json_bytes(entries_view(entries@)) == Some(b@),
            Err(_) => json_bytes(entries_view(entries@)) is None,
        },
{
    let map: BTreeMap<&str, u8> = entries.iter().map(|e| (e.0.as_str(), e.1)).collect();
    serde_json::to_vec(&map)
}

/// Renders an error of `serde_json` as text with its `to_string`. Nothing is
/// claimed of the text.
#[verifier::external_body]
fn describe(error: &serde_json::Error) -> (text: String) {
    error.to_string()
}

/// Why a table file could not be used.
#[derive(Debug)]
pub enum TableFileError {
    /// The bytes are not a JSON object from keys to priorities; the text is
    /// what the decoder said.
    Corrupt(String),
    /// The table could not be written as JSON; the text is what the encoder
    /// said.
    Unwritable(String),
}

/// The table to start from, given what decoding the table file gave. A file
/// that could not be decoded is not used in part: the table is empty then, and
/// the error is handed back so that it can be reported.
pub fn table_from_decoded(
    decoded: Result<Vec<(String, u8)>, serde_json::Error>,
) -> (r: (WITTable, Option<TableFileError>))
    ensures
        r.0.wf(),
        match decoded {
            Ok(v) => r.0@ == collect(entries_view(v@)) && r.1 is None,
            Err(_) => r.0@ == Map::<Seq<char>, u8>::empty() && r.1 matches Some(
                TableFileError::Corrupt(_),
            ),
        },
{
    match decoded {
        Ok(v) => (WITTable::new(v), None),
        Err(e) => (WITTable::default(), Some(TableFileError::Corrupt(describe(&e)))),
    }
}

/// Reads a table from the bytes of a table file. Bytes that cannot be decoded
/// give the empty table and an error to report.
pub fn load_table(bytes: &[u8]) -> (r: (WITTable, Option<TableFileError>))
    ensures
        r.0.wf(),
        match json_entries(bytes@) {
            Some(l) => r.0@ == collect(l) && r.1 is None,
            None => r.0@ == Map::<Seq<char>, u8>::empty() && r.1 matches Some(
                TableFileError::Corrupt(_),
            ),
        },
{
    table_from_decoded(decode_entries(bytes))
}

/// The bytes to write for a table, given what encoding its entries gave.
pub fn bytes_from_encoded(
    encoded: Result<Vec<u8>, serde_json::Error>,
) -> (r: Result<Vec<u8>, TableFileError>)
    ensures
        match encoded {
            Ok(b) => r == Ok::<Vec<u8>, TableFileError>(b),
            Err(_) => r matches Err(TableFileError::Unwritable(_)),
        },
{
    match encoded {
        Ok(b) => Ok(b),
        Err(e) => Err(TableFileError::Unwritable(describe(&e))),
    }
}

/// The bytes of the table file for `table`.
pub fn table_bytes(table: &WITTable) -> (r: Result<Vec<u8>, TableFileError>)
    requires
        table.wf(),
    ensures
        match json_bytes(table.listing()) {
            Some(b) => r matches Ok(v) && v@ == b,
            None => r matches Err(TableFileError::Unwritable(_)),
        },
{
    let entries = table.entries();
    bytes_from_encoded(encode_entries(&entries))
}

} // verus!
