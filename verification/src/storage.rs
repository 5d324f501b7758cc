//! Saving a parser and loading it.

use crate::encoding::{
    counts_in, decode_counts, decode_elements, decode_links, decode_symbols, decode_values,
    elements_in, encode_counts, encode_elements, encode_links, encode_symbols, encode_values, links_in,
    symbols_in, values_in,
};
use crate::errors::{GazetteerParserError, GazetteerParserResult};
use crate::model::Model;
use crate::parser::Parser;
use crate::stop_words::lemma_at_most;
use crate::symbol_table::GazetteerParserSymbolTable;
use crate::tables::{map_keys, map_len, set_len};
use vstd::prelude::*;
use vstd::utf8::encode_utf8;

verus! {

broadcast use vstd::std_specs::hash::group_hash_axioms;

/// The contents of the files that a parser is saved in.
#[derive(Debug, PartialEq, Eq)]
pub struct ParserFiles {
    pub symbol_table: Vec<u8>,
    pub token_to_resolved_values: Vec<u8>,
    pub resolved_value_to_tokens: Vec<u8>,
    pub token_to_count: Vec<u8>,
    pub stop_words: Vec<u8>,
    pub edge_cases: Vec<u8>,
}

impl ParserFiles {
    /// What the files hold, or what is wrong with them.
    pub open spec fn contents(self) -> GazetteerParserResult<Model> {
        match symbols_in(self.symbol_table@) {
            None => Err(GazetteerParserError::Undecodable),
            Some(symbols) => if symbols.len() > u32::MAX {
                Err(GazetteerParserError::TooManySymbols)
            } else {
                match (
                    links_in(self.token_to_resolved_values@),
                    values_in(self.resolved_value_to_tokens@),
                    counts_in(self.token_to_count@),
                    elements_in(self.stop_words@),
                    elements_in(self.edge_cases@),
                ) {
                    (
                        Some(token_values),
                        Some(values),
                        Some(counts),
                        Some(stop_words),
                        Some(edge_cases),
                    ) => Ok(Model { symbols, counts, token_values, values, stop_words, edge_cases }),
                    _ => Err(GazetteerParserError::Undecodable),
                }
            },
        }
    }
}

impl Model {
    /// Whether no symbol is too long to be saved: its bytes can be counted with 32 bits.
    pub open spec fn is_storable(self) -> bool {
        forall|i: int|
            0 <= i < self.symbols.len() ==> encode_utf8(#[trigger] self.symbols[i]).len() <= u32::MAX
    }

    /// Whether no table is too large to be saved: its entries can be counted with 32 bits.
    pub open spec fn tables_fit(self) -> bool {
        &&& self.symbols.len() <= u32::MAX
        &&& self.values.dom().len() <= u32::MAX
        &&& self.counts.dom().len() <= u32::MAX
        &&& self.token_values.dom().len() <= u32::MAX
        &&& forall|value: u32| #[trigger]
            self.values.contains_key(value) ==> self.tokens(value).len() <= u32::MAX
        &&& forall|token: u32| #[trigger]
            self.token_values.contains_key(token) ==> self.token_values[token].len() <= u32::MAX
        &&& self.stop_words.len() <= u32::MAX
        &&& self.edge_cases.len() <= u32::MAX
    }
}

/// Files hold a parser exactly if each of them holds one of its tables and its symbols are not too many. Too
/// many symbols are an error of their own; anything else is not decodable.
pub proof fn law_files_hold_the_tables(files: ParserFiles, model: Model)
    ensures
        files.contents() == Ok::<Model, GazetteerParserError>(model) <==> {
            &&& model.symbols.len() <= u32::MAX
            &&& symbols_in(files.symbol_table@) == Some(model.symbols)
            &&& links_in(files.token_to_resolved_values@) == Some(model.token_values)
            &&& values_in(files.resolved_value_to_tokens@) == Some(model.values)
            &&& counts_in(files.token_to_count@) == Some(model.counts)
            &&& elements_in(files.stop_words@) == Some(model.stop_words)
            &&& elements_in(files.edge_cases@) == Some(model.edge_cases)
        },
        files.contents() is Err ==> (files.contents()->Err_0 == GazetteerParserError::TooManySymbols <==> (
        symbols_in(files.symbol_table@) matches Some(symbols) && symbols.len() > u32::MAX)),
        files.contents() is Err ==> files.contents()->Err_0 == GazetteerParserError::TooManySymbols
            || files.contents()->Err_0 == GazetteerParserError::Undecodable,
{
}

/// A parser whose symbols have at most as many bytes as 32 bits can count can be saved, and loses nothing.
pub proof fn law_symbols_of_countable_bytes_are_storable(model: Model)
    ensures
        (forall|i: int|
            0 <= i < model.symbols.len() ==> encode_utf8(#[trigger] model.symbols[i]).len()
                <= 0xffff_ffff) ==> model.is_storable(),
{
}

/// Tables can be saved exactly if none has more entries, and no entry more parts, than 32 bits can count.
pub proof fn law_countable_tables_fit(model: Model)
    ensures
        model.tables_fit() <==> {
            let most: nat = 0xffff_ffff;
            &&& model.symbols.len() <= most
            &&& model.counts.dom().len() <= most
            &&& model.token_values.dom().len() <= most
            &&& forall|t: u32| #[trigger]
                model.token_values.dom().contains(t) ==> model.token_values[t].len() <= most
            &&& model.values.dom().len() <= most
            &&& forall|v: u32| #[trigger]
                model.values.dom().contains(v) ==> model.values[v].1.len() <= most
            &&& model.stop_words.len() <= most
            &&& model.edge_cases.len() <= most
        },
{
    if forall|v: u32| #[trigger] model.values.dom().contains(v) ==> model.values[v].1.len() <= 0xffff_ffff {
        assert forall|v: u32| #[trigger] model.values.contains_key(v) implies model.tokens(v).len()
            <= u32::MAX by {
            assert(model.values.dom().contains(v));
        }
    }
    if forall|t: u32| #[trigger]
        model.token_values.dom().contains(t) ==> model.token_values[t].len() <= 0xffff_ffff {
        assert forall|t: u32| #[trigger] model.token_values.contains_key(t) implies
            model.token_values[t].len() <= u32::MAX by {
            assert(model.token_values.dom().contains(t));
        }
    }
    if model.tables_fit() {
        assert forall|v: u32| #[trigger] model.values.dom().contains(v) implies model.values[v].1.len()
            <= 0xffff_ffff by {
            assert(model.values.contains_key(v));
        }
        assert forall|t: u32| #[trigger] model.token_values.dom().contains(t) implies
            model.token_values[t].len() <= 0xffff_ffff by {
            assert(model.token_values.contains_key(t));
        }
    }
}

/// Tables that agree can be saved, since they are not larger than the list of symbols.
pub proof fn law_tables_that_agree_fit(model: Model)
    requires
        model.wf(),
    ensures
        model.tables_fit(),
{
    let n = model.symbols.len();
    lemma_at_most(model.values.dom(), n);
    assert forall|token: u32| #[trigger] model.counts.dom().contains(token) implies token < n by {
        assert(model.token_values.dom().contains(token));
        assert(model.token_values.contains_key(token));
    }
    lemma_at_most(model.counts.dom(), n);
    assert forall|token: u32| #[trigger] model.token_values.contains_key(token) implies
        model.token_values[token].len() <= u32::MAX by {
        assert forall|value: u32| #[trigger] model.token_values[token].contains(value) implies
            model.values.dom().contains(value) by {
            assert(model.occurs_in(token, value));
        }
        vstd::set_lib::lemma_len_subset(model.token_values[token], model.values.dom());
    }
    vstd::set_lib::lemma_len_subset(model.stop_words, model.token_values.dom());
    assert forall|value: u32| #[trigger] model.edge_cases.contains(value) implies
        model.values.dom().contains(value) by {}
    vstd::set_lib::lemma_len_subset(model.edge_cases, model.values.dom());
}

impl Parser {
    /// Whether no table is too large to be saved.
    pub fn can_be_saved(&self) -> (yes: bool)
        ensures
            yes == self@.tables_fit(),
    {
        let most: u64 = u32::MAX as u64;
        proof {
            assert(self.resolved_value_to_tokens@.dom() =~= self@.values.dom());
            assert(self.token_to_resolved_values@.dom() =~= self@.token_values.dom());
        }
        let symbols = self.symbol_table.symbols();
        assert(symbols@.len() == self@.symbols.len());
        if symbols.len() as u64 > most || map_len(&self.resolved_value_to_tokens) as u64 > most || map_len(
            &self.token_to_count,
        ) as u64 > most || map_len(&self.token_to_resolved_values) as u64 > most || set_len(
            &self.stop_words,
        ) as u64 > most || set_len(&self.edge_cases) as u64 > most {
            return false;
        }
        let values: Vec<u32> = map_keys(&self.resolved_value_to_tokens);
        let mut i: usize = 0;
        while i < values.len()
            invariant
                most == u32::MAX,
                values@.to_set() == self@.values.dom(),
                i <= values.len(),
                forall|k: int| 0 <= k < i ==> self@.tokens(#[trigger] values@[k]).len() <= u32::MAX,
            decreases values.len() - i,
        {
            assert(values@.to_set().contains(values@[i as int]));
            assert(self@.values.contains_key(values@[i as int]));
            if let Ok(entry) = self.get_tokens_from_resolved_value(&values[i]) {
                if entry.1.len() as u64 > most {
                    return false;
                }
            }
            i = i + 1;
        }
        assert forall|value: u32| #[trigger] self@.values.contains_key(value) implies self@.tokens(
            value,
        ).len() <= u32::MAX by {
            assert(values@.to_set().contains(value));
            let k = choose|k: int| 0 <= k < values@.len() && values@[k] == value;
            assert(self@.tokens(values@[k]).len() <= u32::MAX);
        }
        let tokens: Vec<u32> = map_keys(&self.token_to_resolved_values);
        let mut j: usize = 0;
        while j < tokens.len()
            invariant
                most == u32::MAX,
                tokens@.to_set() == self@.token_values.dom(),
                j <= tokens.len(),
                forall|k: int|
                    0 <= k < j ==> self@.token_values[#[trigger] tokens@[k]].len() <= u32::MAX,
            decreases tokens.len() - j,
        {
            assert(tokens@.to_set().contains(tokens@[j as int]));
            assert(self@.token_values.contains_key(tokens@[j as int]));
            if let Ok(found) = self.get_resolved_values_from_token(&tokens[j]) {
                if set_len(found) as u64 > most {
                    return false;
                }
            }
            j = j + 1;
        }
        assert forall|token: u32| #[trigger] self@.token_values.contains_key(token) implies
            self@.token_values[token].len() <= u32::MAX by {
            assert(tokens@.to_set().contains(token));
            let k = choose|k: int| 0 <= k < tokens@.len() && tokens@[k] == token;
            assert(self@.token_values[tokens@[k]].len() <= u32::MAX);
        }
        true
    }

    /// The files in which the parser is saved. Loading them gives the parser back, unless a symbol is
    /// too long to be saved.
    pub fn to_files(&self) -> (files: ParserFiles)
        requires
            self@.tables_fit(),
        ensures
            self@.is_storable() ==> files.contents() == Ok::<Model, GazetteerParserError>(self@),
            links_in(files.token_to_resolved_values@) == Some(self@.token_values),
            values_in(files.resolved_value_to_tokens@) == Some(self@.values),
            counts_in(files.token_to_count@) == Some(self@.counts),
            elements_in(files.stop_words@) == Some(self@.stop_words),
            elements_in(files.edge_cases@) == Some(self@.edge_cases),
    {
        let symbols = self.symbol_table.symbols();
        proof {
            assert(symbols@.len() == self@.symbols.len());
            assert(self.resolved_value_to_tokens@.dom() =~= self@.values.dom());
            assert(self.token_to_resolved_values@.dom() =~= self@.token_values.dom());
            assert forall|key: u32| #[trigger] self.token_to_resolved_values@.contains_key(key) implies
                self.token_to_resolved_values@[key]@.len() <= u32::MAX by {
                assert(self@.token_values.contains_key(key));
            }
            assert forall|key: u32| #[trigger] self.resolved_value_to_tokens@.contains_key(key) implies
                self.resolved_value_to_tokens@[key].1@.len() <= u32::MAX by {
                assert(self@.values.contains_key(key));
            }
        }
        let files = ParserFiles {
            symbol_table: encode_symbols(symbols).unwrap(),
            token_to_resolved_values: encode_links(&self.token_to_resolved_values).unwrap(),
            resolved_value_to_tokens: encode_values(&self.resolved_value_to_tokens).unwrap(),
            token_to_count: encode_counts(&self.token_to_count).unwrap(),
            stop_words: encode_elements(&self.stop_words).unwrap(),
            edge_cases: encode_elements(&self.edge_cases).unwrap(),
        };
        proof {
            assert(links_in(files.token_to_resolved_values@)->0 =~= self@.token_values);
            assert(values_in(files.resolved_value_to_tokens@)->0 =~= self@.values);
            if self@.is_storable() {
                assert forall|i: int| 0 <= i < symbols@.len() implies encode_utf8(
                    (#[trigger] symbols@[i])@,
                ).len() <= u32::MAX by {
                    assert(self@.symbols[i] == symbols@[i]@);
                }
                assert(symbols_in(files.symbol_table@)->0 =~= self@.symbols);
            }
        }
        files
    }

    /// The parser that was saved in the files. Whether its tables agree is not tested.
    pub fn from_files(files: &ParserFiles) -> (parser: GazetteerParserResult<Parser>)
        ensures
            match parser {
                Ok(loaded) => {
                    &&& files.contents() == Ok::<Model, GazetteerParserError>(loaded@)
                    &&& loaded.symbol_table.wf()
                },
                Err(error) => files.contents() == Err::<Model, GazetteerParserError>(error),
            },
    {
        let symbols: Vec<String> = match decode_symbols(&files.symbol_table) {
            Ok(symbols) => symbols,
            Err(_) => {
                return Err(GazetteerParserError::Undecodable);
            },
        };
        let symbol_table = match GazetteerParserSymbolTable::from_symbols(symbols) {
            Ok(table) => table,
            Err(error) => {
                return Err(error);
            },
        };
        proof {
            symbol_table.lemma_length();
        }
        match (
            decode_links(&files.token_to_resolved_values),
            decode_values(&files.resolved_value_to_tokens),
            decode_counts(&files.token_to_count),
            decode_elements(&files.stop_words),
            decode_elements(&files.edge_cases),
        ) {
            (
                Ok(token_to_resolved_values),
                Ok(resolved_value_to_tokens),
                Ok(token_to_count),
                Ok(stop_words),
                Ok(edge_cases),
            ) => {
                let parser = Parser {
                    symbol_table,
                    token_to_count,
                    token_to_resolved_values,
                    resolved_value_to_tokens,
                    stop_words,
                    edge_cases,
                };
                proof {
                    assert(links_in(files.token_to_resolved_values@)->0 =~= parser@.token_values);
                    assert(values_in(files.resolved_value_to_tokens@)->0 =~= parser@.values);
                }
                Ok(parser)
            },
            _ => Err(GazetteerParserError::Undecodable),
        }
    }
}

} // verus!
