//! The files that a parser is saved in.

use crate::parser::Parser;
use vstd::prelude::*;

verus! {

/// The file that names the other files.
pub const METADATA_FILENAME: &'static str = "metadata.json";

pub const SYMBOLTABLE_FILENAME: &'static str = "symbol_table";

pub const TOKEN_TO_RESOLVED_VALUES: &'static str = "token_to_resolved_values";

pub const RESOLVED_VALUE_TO_TOKENS: &'static str = "resolved_value_to_tokens";

pub const TOKEN_TO_COUNT: &'static str = "token_to_count";

pub const STOP_WORDS: &'static str = "stop_words";

pub const EDGE_CASES: &'static str = "edge_cases";

/// The names of the files that hold the tables of a parser, and the version that wrote them.
#[derive(Debug, PartialEq, Eq)]
pub struct ParserConfig {
    pub symbol_table_filename: String,
    pub version: String,
    pub token_to_resolved_values: String,
    pub resolved_value_to_tokens: String,
    pub token_to_count: String,
    pub stop_words: String,
    pub edge_cases: String,
}

impl ParserConfig {
    /// The names of all files: that of the configuration itself, then those in it.
    pub open spec fn filenames(self) -> Seq<Seq<char>> {
        seq![
            METADATA_FILENAME@,
            self.symbol_table_filename@,
            self.token_to_resolved_values@,
            self.resolved_value_to_tokens@,
            self.token_to_count@,
            self.stop_words@,
            self.edge_cases@,
        ]
    }
}

impl Parser {
    /// The names of the files that the parser is saved in. No two of them are equal.
    pub fn get_parser_config(&self, version: &str) -> (config: ParserConfig)
        ensures
            config.version@ == version@,
            config.filenames() == seq![
                METADATA_FILENAME@,
                SYMBOLTABLE_FILENAME@,
                TOKEN_TO_RESOLVED_VALUES@,
                RESOLVED_VALUE_TO_TOKENS@,
                TOKEN_TO_COUNT@,
                STOP_WORDS@,
                EDGE_CASES@,
            ],
            config.filenames().no_duplicates(),
    {
        let config = ParserConfig {
            symbol_table_filename: SYMBOLTABLE_FILENAME.to_owned(),
            version: version.to_owned(),
            token_to_resolved_values: TOKEN_TO_RESOLVED_VALUES.to_owned(),
            resolved_value_to_tokens: RESOLVED_VALUE_TO_TOKENS.to_owned(),
            token_to_count: TOKEN_TO_COUNT.to_owned(),
            stop_words: STOP_WORDS.to_owned(),
            edge_cases: EDGE_CASES.to_owned(),
        };
        proof {
            let names = config.filenames();
            reveal_strlit("metadata.json");
            reveal_strlit("symbol_table");
            reveal_strlit("token_to_resolved_values");
            reveal_strlit("resolved_value_to_tokens");
            reveal_strlit("token_to_count");
            reveal_strlit("stop_words");
            reveal_strlit("edge_cases");
            assert(names[0].len() == 13);
            assert(names[1].len() == 12);
            assert(names[2].len() == 24 && names[2][0] == 't');
            assert(names[3].len() == 24 && names[3][0] == 'r');
            assert(names[4].len() == 14);
            assert(names[5].len() == 10 && names[5][0] == 's');
            assert(names[6].len() == 10 && names[6][0] == 'e');
        }
        config
    }
}

} // verus!
