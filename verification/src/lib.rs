//! A parser that finds the values of a gazetteer in a query.

pub mod choice_laws;
pub mod config;
pub mod consistency;
pub mod construction;
pub mod context_laws;
pub mod data;
pub mod encoding;
pub mod errors;
pub mod fraction_laws;
pub mod frequency_laws;
pub mod gazetteer_laws;
pub mod influence_laws;
pub mod laws;
pub mod matching_laws;
pub mod model;
pub mod order;
pub mod parsed_value;
pub mod parser;
pub mod possible_match;
pub mod room_laws;
pub mod search;
pub mod search_laws;
pub mod selection;
pub mod single;
pub mod state;
pub mod stop_words;
pub mod storage;
pub mod symbol_table;
pub mod tables;
pub mod text_laws;
pub mod utils;

pub use crate::data::{EntityValue, Gazetteer};
pub use crate::errors::{GazetteerParserError, GazetteerParserResult};
pub use crate::parsed_value::ParsedValue;
pub use crate::parser::Parser;
pub use crate::single::Single;
