//! The tables of a parser in MessagePack, as the `rmp-serde` crate writes and reads them.
//!
//! A table is encoded by `Serialize::serialize` with an `rmp_serde::Serializer` on a vector of bytes,
//! and decoded by `rmp_serde::from_read` on a slice of bytes. A hash table is written in the order in
//! which it is walked, so that the bytes are not determined by its contents; but the bytes determine
//! what is read from them. The lengths of arrays, maps and strings are written with 32 bits at most.

use fnv::{FnvHashMap, FnvHashSet};
use vstd::prelude::*;
use vstd::utf8::encode_utf8;

verus! {

/// The error of the encoder. Nothing is said of it.
#[verifier::external_type_specification]
#[verifier::external_body]
pub struct ExEncodeError(rmp_serde::encode::Error);

/// The error of the decoder. Nothing is said of it.
#[verifier::external_type_specification]
#[verifier::external_body]
pub struct ExDecodeError(rmp_serde::decode::Error);

/// What `rmp_serde::from_read` reads as a map from numbers to numbers, if it does.
pub uninterp spec fn counts_in(bytes: Seq<u8>) -> Option<Map<u32, u32>>;

/// What `rmp_serde::from_read` reads as a map from numbers to sets of numbers, if it does.
pub uninterp spec fn links_in(bytes: Seq<u8>) -> Option<Map<u32, Set<u32>>>;

/// What `rmp_serde::from_read` reads as a map from numbers to a number and a list, if it does.
pub uninterp spec fn values_in(bytes: Seq<u8>) -> Option<Map<u32, (u32, Seq<u32>)>>;

/// What `rmp_serde::from_read` reads as a set of numbers, if it does.
pub uninterp spec fn elements_in(bytes: Seq<u8>) -> Option<Set<u32>>;

/// What `rmp_serde::from_read` reads as a list of strings, if it does.
pub uninterp spec fn symbols_in(bytes: Seq<u8>) -> Option<Seq<Seq<char>>>;

/// Encodes a map with `serde::Serialize::serialize`. The encoder fails only where its writer does,
/// which a vector does not. What is written is read back.
#[verifier::external_body]
pub(crate) fn encode_counts(table: &FnvHashMap<u32, u32>) -> (encoded: Result<
    Vec<u8>,
    rmp_serde::encode::Error,
>)
    requires
        table@.dom().len() <= u32::MAX,
    ensures
        encoded is Ok,
        counts_in(encoded->Ok_0@) == Some(table@),
{
    let mut bytes: Vec<u8> = Vec::new();
    serde::Serialize::serialize(table, &mut rmp_serde::Serializer::new(&mut bytes))?;
    Ok(bytes)
}

/// Decodes a map with `rmp_serde::from_read`.
#[verifier::external_body]
pub(crate) fn decode_counts(bytes: &Vec<u8>) -> (decoded: Result<
    FnvHashMap<u32, u32>,
    rmp_serde::decode::Error,
>)
    ensures
        match decoded {
            Ok(table) => counts_in(bytes@) == Some(table@),
            Err(_) => counts_in(bytes@) is None,
        },
{
    rmp_serde::from_read(bytes.as_slice())
}

/// Encodes a map to sets with `serde::Serialize::serialize`. The encoder fails only where its writer
/// does, which a vector does not. What is written is read back.
#[verifier::external_body]
pub(crate) fn encode_links(table: &FnvHashMap<u32, FnvHashSet<u32>>) -> (encoded: Result<
    Vec<u8>,
    rmp_serde::encode::Error,
>)
    requires
        table@.dom().len() <= u32::MAX,
        forall|key: u32| #[trigger] table@.contains_key(key) ==> table@[key]@.len() <= u32::MAX,
    ensures
        encoded is Ok,
        links_in(encoded->Ok_0@) == Some(table@.map_values(|set: FnvHashSet<u32>| set@)),
{
    let mut bytes: Vec<u8> = Vec::new();
    serde::Serialize::serialize(table, &mut rmp_serde::Serializer::new(&mut bytes))?;
    Ok(bytes)
}

/// Decodes a map to sets with `rmp_serde::from_read`.
#[verifier::external_body]
pub(crate) fn decode_links(bytes: &Vec<u8>) -> (decoded: Result<
    FnvHashMap<u32, FnvHashSet<u32>>,
    rmp_serde::decode::Error,
>)
    ensures
        match decoded {
            Ok(table) => links_in(bytes@) == Some(table@.map_values(|set: FnvHashSet<u32>| set@)),
            Err(_) => links_in(bytes@) is None,
        },
{
    rmp_serde::from_read(bytes.as_slice())
}

/// Encodes a map to numbers and lists with `serde::Serialize::serialize`. The encoder fails only where
/// its writer does, which a vector does not. What is written is read back.
#[verifier::external_body]
pub(crate) fn encode_values(table: &FnvHashMap<u32, (u32, Vec<u32>)>) -> (encoded: Result<
    Vec<u8>,
    rmp_serde::encode::Error,
>)
    requires
        table@.dom().len() <= u32::MAX,
        forall|key: u32| #[trigger] table@.contains_key(key) ==> table@[key].1@.len() <= u32::MAX,
    ensures
        encoded is Ok,
        values_in(encoded->Ok_0@) == Some(
            table@.map_values(|entry: (u32, Vec<u32>)| (entry.0, entry.1@)),
        ),
{
    let mut bytes: Vec<u8> = Vec::new();
    serde::Serialize::serialize(table, &mut rmp_serde::Serializer::new(&mut bytes))?;
    Ok(bytes)
}

/// Decodes a map to numbers and lists with `rmp_serde::from_read`.
#[verifier::external_body]
pub(crate) fn decode_values(bytes: &Vec<u8>) -> (decoded: Result<
    FnvHashMap<u32, (u32, Vec<u32>)>,
    rmp_serde::decode::Error,
>)
    ensures
        match decoded {
            Ok(table) => values_in(bytes@) == Some(
                table@.map_values(|entry: (u32, Vec<u32>)| (entry.0, entry.1@)),
            ),
            Err(_) => values_in(bytes@) is None,
        },
{
    rmp_serde::from_read(bytes.as_slice())
}

/// Encodes a set with `serde::Serialize::serialize`. The encoder fails only where its writer does,
/// which a vector does not. What is written is read back.
#[verifier::external_body]
pub(crate) fn encode_elements(set: &FnvHashSet<u32>) -> (encoded: Result<
    Vec<u8>,
    rmp_serde::encode::Error,
>)
    requires
        set@.len() <= u32::MAX,
    ensures
        encoded is Ok,
        elements_in(encoded->Ok_0@) == Some(set@),
{
    let mut bytes: Vec<u8> = Vec::new();
    serde::Serialize::serialize(set, &mut rmp_serde::Serializer::new(&mut bytes))?;
    Ok(bytes)
}

/// Decodes a set with `rmp_serde::from_read`.
#[verifier::external_body]
pub(crate) fn decode_elements(bytes: &Vec<u8>) -> (decoded: Result<
    FnvHashSet<u32>,
    rmp_serde::decode::Error,
>)
    ensures
        match decoded {
            Ok(set) => elements_in(bytes@) == Some(set@),
            Err(_) => elements_in(bytes@) is None,
        },
{
    rmp_serde::from_read(bytes.as_slice())
}

/// Encodes a list of strings with `serde::Serialize::serialize`. The encoder fails only where its
/// writer does, which a vector does not. What is written is read back, where the length of every
/// string in bytes can be written.
#[verifier::external_body]
pub(crate) fn encode_symbols(symbols: &Vec<String>) -> (encoded: Result<
    Vec<u8>,
    rmp_serde::encode::Error,
>)
    requires
        symbols@.len() <= u32::MAX,
    ensures
        encoded is Ok,
        (forall|i: int|
            0 <= i < symbols@.len() ==> encode_utf8((#[trigger] symbols@[i])@).len() <= u32::MAX)
            ==> symbols_in(encoded->Ok_0@) == Some(symbols@.map_values(|symbol: String| symbol@)),
{
    let mut bytes: Vec<u8> = Vec::new();
    serde::Serialize::serialize(symbols, &mut rmp_serde::Serializer::new(&mut bytes))?;
    Ok(bytes)
}

/// Decodes a list of strings with `rmp_serde::from_read`.
#[verifier::external_body]
pub(crate) fn decode_symbols(bytes: &Vec<u8>) -> (decoded: Result<
    Vec<String>,
    rmp_serde::decode::Error,
>)
    ensures
        match decoded {
            Ok(symbols) => symbols_in(bytes@) == Some(
                symbols@.map_values(|symbol: String| symbol@),
            ),
            Err(_) => symbols_in(bytes@) is None,
        },
{
    rmp_serde::from_read(bytes.as_slice())
}

} // verus!
