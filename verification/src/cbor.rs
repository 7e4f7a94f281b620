//! Merge rules and tokens as CBOR, written and read by the `ciborium` crate.

use indexmap::IndexMap;
use vstd::prelude::*;

use crate::ordered::{rule_entries, TokenID};

verus! {

/// The error of a read from bytes in memory.
#[verifier::external_type_specification]
#[verifier::external_body]
pub struct ExIoError(std::io::Error);

/// What `ciborium` says of bytes that it cannot read.
#[verifier::external_type_specification]
#[verifier::external_body]
#[verifier::reject_recursive_types(T)]
pub struct ExReadError<T>(ciborium::de::Error<T>);

/// The merge rules that bytes hold, in order, if they hold any.
pub uninterp spec fn cbor_rules(bytes: Seq<u8>) -> Option<Seq<((TokenID, TokenID), TokenID)>>;

/// The bytes that merge rules are written as.
pub uninterp spec fn rules_cbor(rules: Seq<((TokenID, TokenID), TokenID)>) -> Seq<u8>;

/// The tokens that bytes hold, if they hold any.
pub uninterp spec fn cbor_ids(bytes: Seq<u8>) -> Option<Seq<TokenID>>;

/// The bytes that tokens are written as.
pub uninterp spec fn ids_cbor(ids: Seq<TokenID>) -> Seq<u8>;

/// `ciborium::from_reader`, to a map: whether the bytes start with such a map,
/// and its entries, are a function of the bytes, which is only named here.
#[verifier::external_body]
pub(crate) fn read_rules(bytes: &[u8]) -> (rules: Result<
    IndexMap<(TokenID, TokenID), TokenID>,
    ciborium::de::Error<std::io::Error>,
>)
    ensures
        match rules {
            Ok(map) => cbor_rules(bytes@) == Some(rule_entries(map)),
            Err(_) => cbor_rules(bytes@) is None,
        },
{
    ciborium::from_reader(bytes)
}

/// `ciborium::into_writer`, of a map: the bytes are a function of the entries,
/// and reading them gives the same entries in the same order. Writing to memory
/// does not fail.
#[verifier::external_body]
pub(crate) fn write_rules(rules: &IndexMap<(TokenID, TokenID), TokenID>) -> (bytes: Vec<u8>)
    ensures
        bytes@ == rules_cbor(rule_entries(*rules)),
        cbor_rules(bytes@) == Some(rule_entries(*rules)),
{
    let mut bytes: Vec<u8> = Vec::new();
    ciborium::into_writer(rules, &mut bytes).unwrap();
    bytes
}

/// `ciborium::from_reader`, to a vector: whether the bytes start with such a
/// vector, and what it holds, are a function of the bytes, which is only named
/// here.
#[verifier::external_body]
pub(crate) fn read_ids(bytes: &[u8]) -> (ids: Result<
    Vec<TokenID>,
    ciborium::de::Error<std::io::Error>,
>)
    ensures
        match ids {
            Ok(list) => cbor_ids(bytes@) == Some(list@),
            Err(_) => cbor_ids(bytes@) is None,
        },
{
    ciborium::from_reader(bytes)
}

/// `ciborium::into_writer`, of a slice: the bytes are a function of what it
/// holds, and reading them gives the same. Writing to memory does not fail.
#[verifier::external_body]
pub(crate) fn write_ids(ids: &[TokenID]) -> (bytes: Vec<u8>)
    ensures
        bytes@ == ids_cbor(ids@),
        cbor_ids(bytes@) == Some(ids@),
{
    let mut bytes: Vec<u8> = Vec::new();
    ciborium::into_writer(ids, &mut bytes).unwrap();
    bytes
}

/// The bytes in which merge rules are kept: reading them gives the rules again.
pub fn save_rules(rules: &IndexMap<(TokenID, TokenID), TokenID>) -> (bytes: Vec<u8>)
    ensures
        bytes@ == rules_cbor(rule_entries(*rules)),
        cbor_rules(bytes@) == Some(rule_entries(*rules)),
{
    write_rules(rules)
}

/// The bytes in which tokens are kept: reading them gives the tokens again.
pub fn save_ids(ids: &[TokenID]) -> (bytes: Vec<u8>)
    ensures
        bytes@ == ids_cbor(ids@),
        cbor_ids(bytes@) == Some(ids@),
{
    write_ids(ids)
}

/// The tokens that were kept in bytes, or `None` where these hold something else.
pub fn load_ids(bytes: &[u8]) -> (ids: Option<Vec<TokenID>>)
    ensures
        match ids {
            Some(list) => cbor_ids(bytes@) == Some(list@),
            None => cbor_ids(bytes@) is None,
        },
{
    match read_ids(bytes) {
        Ok(list) => Some(list),
        Err(_) => None,
    }
}

} // verus!
