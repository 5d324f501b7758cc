//! The parser and its tables.

use crate::errors::{GazetteerParserError, GazetteerParserResult};
use crate::model::Model;
use crate::symbol_table::GazetteerParserSymbolTable;
use crate::tables::{map_get, set_contains};
use fnv::{FnvHashMap, FnvHashSet};
use vstd::prelude::*;

verus! {

broadcast use vstd::std_specs::hash::group_hash_axioms;

/// A parser that finds the values of a gazetteer in a query. It matches the longest possible
/// contiguous parts of a query. Where two values are as good, it takes the one that was added first.
pub struct Parser {
    pub symbol_table: GazetteerParserSymbolTable,
    /// The number of times that each token occurs.
    pub token_to_count: FnvHashMap<u32, u32>,
    /// The resolved values that each token occurs in.
    pub token_to_resolved_values: FnvHashMap<u32, FnvHashSet<u32>>,
    /// The rank and the tokens of each resolved value.
    pub resolved_value_to_tokens: FnvHashMap<u32, (u32, Vec<u32>)>,
    pub stop_words: FnvHashSet<u32>,
    /// The resolved values that are made of stop words alone.
    pub edge_cases: FnvHashSet<u32>,
}

impl View for Parser {
    type V = Model;

    open spec fn view(&self) -> Model {
        Model {
            symbols: self.symbol_table@,
            counts: self.token_to_count@,
            token_values: self.token_to_resolved_values@.map_values(|values: FnvHashSet<u32>| values@),
            values: self.resolved_value_to_tokens@.map_values(
                |entry: (u32, Vec<u32>)| (entry.0, entry.1@),
            ),
            stop_words: self.stop_words@,
            edge_cases: self.edge_cases@,
        }
    }
}

impl Parser {
    /// The tables agree with each other.
    pub open spec fn wf(&self) -> bool {
        self.symbol_table.wf() && self@.wf()
    }

    /// The rank and the tokens of a resolved value.
    pub fn get_tokens_from_resolved_value(&self, resolved_value: &u32) -> (found:
        GazetteerParserResult<&(u32, Vec<u32>)>)
        ensures
            match found {
                Ok(entry) => {
                    &&& self@.values.contains_key(*resolved_value)
                    &&& entry.0 == self@.rank(*resolved_value)
                    &&& entry.1@ == self@.tokens(*resolved_value)
                },
                Err(error) => {
                    &&& !self@.values.contains_key(*resolved_value)
                    &&& error == GazetteerParserError::MissingResolvedValue(*resolved_value)
                },
            },
    {
        match map_get(&self.resolved_value_to_tokens, resolved_value) {
            Some(entry) => Ok(entry),
            None => Err(GazetteerParserError::MissingResolvedValue(*resolved_value)),
        }
    }

    /// The resolved values that a token occurs in.
    pub fn get_resolved_values_from_token(&self, token: &u32) -> (found: GazetteerParserResult<
        &FnvHashSet<u32>,
    >)
        ensures
            match found {
                Ok(values) => {
                    &&& self@.token_values.contains_key(*token)
                    &&& values@ == self@.token_values[*token]
                },
                Err(error) => {
                    &&& !self@.token_values.contains_key(*token)
                    &&& error == GazetteerParserError::MissingToken(*token)
                },
            },
    {
        match map_get(&self.token_to_resolved_values, token) {
            Some(values) => Ok(values),
            None => Err(GazetteerParserError::MissingToken(*token)),
        }
    }

    /// Whether a token occurs in a resolved value.
    pub fn is_token_of(&self, token: u32, value: u32) -> (yes: bool)
        ensures
            yes == self@.occurs_in(token, value),
    {
        match self.get_resolved_values_from_token(&token) {
            Ok(values) => set_contains(values, &value),
            Err(_) => false,
        }
    }
}

} // verus!
