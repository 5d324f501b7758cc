use gazetteer_entity_parser::config::METADATA_FILENAME;
use gazetteer_entity_parser::storage::ParserFiles;
use gazetteer_entity_parser::symbol_table::GazetteerParserSymbolTable;
use gazetteer_entity_parser::{EntityValue, Gazetteer, GazetteerParserError, Parser, Single};

fn single(value: f32) -> Single {
    Single::from_bits(value.to_bits())
}

fn stones() -> Parser {
    let mut gazetteer = Gazetteer::new();
    gazetteer.add(EntityValue {
        resolved_value: "The Flying Stones".to_string(),
        raw_value: "the flying stones".to_string(),
    });
    gazetteer.add(EntityValue {
        resolved_value: "The Rolling Stones".to_string(),
        raw_value: "the rolling stones".to_string(),
    });
    gazetteer.add(EntityValue {
        resolved_value: "The Rolling Stones".to_string(),
        raw_value: "the stones".to_string(),
    });
    let mut parser = Parser::from_gazetteer(&gazetteer).unwrap();
    parser.compute_stop_words(single(0.51)).unwrap();
    parser
}

fn same_tables(a: &Parser, b: &Parser) -> bool {
    a.resolved_value_to_tokens == b.resolved_value_to_tokens
        && a.token_to_resolved_values == b.token_to_resolved_values
        && a.symbol_table.symbols() == b.symbol_table.symbols()
        && a.token_to_count == b.token_to_count
        && a.stop_words == b.stop_words
        && a.edge_cases == b.edge_cases
}

#[test]
fn test_seralization_deserialization() {
    let mut gazetteer = Gazetteer::new();
    gazetteer.add(EntityValue {
        resolved_value: "The Flying Stones".to_string(),
        raw_value: "the flying stones".to_string(),
    });
    gazetteer.add(EntityValue {
        resolved_value: "The Rolling Stones".to_string(),
        raw_value: "the rolling stones".to_string(),
    });
    gazetteer.add(EntityValue {
        resolved_value: "The Rolling Stones".to_string(),
        raw_value: "the stones".to_string(),
    });
    let mut parser = Parser::from_gazetteer(&gazetteer).unwrap();
    parser.compute_stop_words(single(0.51)).unwrap();

    let files: ParserFiles = parser.to_files();
    let reloaded_parser = Parser::from_files(&files).unwrap();

    // compare resolved_value_to_tokens
    assert!(parser.resolved_value_to_tokens == reloaded_parser.resolved_value_to_tokens);
    // compare token_to_resolved_values
    assert!(parser.token_to_resolved_values == reloaded_parser.token_to_resolved_values);
    // Compare symbol tables
    assert!(parser.symbol_table.symbols() == reloaded_parser.symbol_table.symbols());
    // Compare token counts
    assert!(parser.token_to_count == reloaded_parser.token_to_count);
    // Compare stop words
    assert!(parser.stop_words == reloaded_parser.stop_words);
    // Compare edge cases
    assert!(parser.edge_cases == reloaded_parser.edge_cases);
}

#[test]
fn tables_are_maps_and_arrays_of_messagepack() {
    let mut gazetteer = Gazetteer::new();
    gazetteer.add(EntityValue {
        resolved_value: "A".to_string(),
        raw_value: "a a".to_string(),
    });
    let mut parser = Parser::from_gazetteer(&gazetteer).unwrap();
    parser.compute_stop_words(single(1.5)).unwrap();
    let files = parser.to_files();
    // The resolved value has the index 0, the token the index 1.
    assert_eq!(files.symbol_table, vec![0x92, 0xa2, b' ', b'A', 0xa1, b'a']);
    assert_eq!(files.token_to_resolved_values, vec![0x81, 1, 0x91, 0]);
    assert_eq!(files.resolved_value_to_tokens, vec![0x81, 0, 0x92, 0, 0x92, 1, 1]);
    assert_eq!(files.token_to_count, vec![0x81, 1, 2]);
    assert_eq!(files.stop_words, vec![0x91, 1]);
    assert_eq!(files.edge_cases, vec![0x91, 0]);
}

#[test]
fn empty_parser_comes_back() {
    let parser = Parser::new().unwrap();
    let reloaded = Parser::from_files(&parser.to_files()).unwrap();
    assert!(same_tables(&parser, &reloaded));
    assert!(reloaded.is_consistent());
    assert_eq!(reloaded.run("anything", single(0.0)).unwrap(), vec![]);
}

#[test]
fn large_tables_come_back() {
    let mut gazetteer = Gazetteer::new();
    for i in 0..70_000 {
        gazetteer.add(EntityValue {
            resolved_value: format!("Number\u{a0}{}", i),
            raw_value: format!("number n{}", i),
        });
    }
    let mut parser = Parser::from_gazetteer(&gazetteer).unwrap();
    parser.compute_stop_words(single(0.5)).unwrap();
    assert!(parser.is_consistent());
    let reloaded = Parser::from_files(&parser.to_files()).unwrap();
    assert!(same_tables(&parser, &reloaded));
    assert!(reloaded.is_consistent());
    let parsed = reloaded.run("number n69999", single(1.0)).unwrap();
    assert_eq!(parsed.len(), 1);
    assert_eq!(parsed[0].resolved_value, "Number 69999");
}

#[test]
fn reloaded_parser_parses_alike() {
    let parser = stones();
    let reloaded = Parser::from_files(&parser.to_files()).unwrap();
    assert!(reloaded.is_consistent());
    for query in ["the rolling stones", "the stones", "rolling", "je veux the flying", ""] {
        for threshold in [0.0, 0.5, 0.7, 1.0] {
            assert_eq!(
                parser.run(query, single(threshold)),
                reloaded.run(query, single(threshold))
            );
        }
    }
}

#[test]
fn broken_files_are_rejected() {
    let undecodable = |files: &ParserFiles| {
        matches!(Parser::from_files(files), Err(GazetteerParserError::Undecodable))
    };
    // Text where a table should be.
    let text = vec![0xa1, b'x'];
    let mut files = stones().to_files();
    files.symbol_table = text.clone();
    assert!(undecodable(&files));
    let mut files = stones().to_files();
    files.token_to_resolved_values = text.clone();
    assert!(undecodable(&files));
    let mut files = stones().to_files();
    files.resolved_value_to_tokens = text.clone();
    assert!(undecodable(&files));
    let mut files = stones().to_files();
    files.token_to_count = text.clone();
    assert!(undecodable(&files));
    let mut files = stones().to_files();
    files.stop_words = text.clone();
    assert!(undecodable(&files));
    let mut files = stones().to_files();
    files.edge_cases = text;
    assert!(undecodable(&files));
    // A file that ends too early, and an empty one.
    let mut files = stones().to_files();
    files.symbol_table.pop();
    assert!(undecodable(&files));
    let mut files = stones().to_files();
    files.edge_cases = vec![];
    assert!(undecodable(&files));
}

#[test]
fn disagreement_of_tables_is_noticed() {
    assert!(stones().is_consistent());
    assert!(Parser::new().unwrap().is_consistent());
    let the = stones().symbol_table.find_single_symbol("the").unwrap().unwrap();
    let rolling = stones().symbol_table.find_single_symbol("rolling").unwrap().unwrap();
    let flying_stones = 0;

    let mut parser = stones();
    parser.token_to_count.remove(&the);
    assert!(!parser.is_consistent());
    let mut parser = stones();
    parser.token_to_count.insert(1000, 1);
    assert!(!parser.is_consistent());
    let mut parser = stones();
    parser.token_to_resolved_values.remove(&the);
    assert!(!parser.is_consistent());
    let mut parser = stones();
    parser.token_to_resolved_values.get_mut(&rolling).unwrap().insert(flying_stones);
    assert!(!parser.is_consistent());
    let mut parser = stones();
    parser.resolved_value_to_tokens.remove(&flying_stones);
    assert!(!parser.is_consistent());
    let mut parser = stones();
    parser.resolved_value_to_tokens.get_mut(&flying_stones).unwrap().0 = 1;
    assert!(!parser.is_consistent());
    let mut parser = stones();
    parser.resolved_value_to_tokens.get_mut(&flying_stones).unwrap().1.clear();
    assert!(!parser.is_consistent());
    let mut parser = stones();
    parser.resolved_value_to_tokens.get_mut(&flying_stones).unwrap().1.push(rolling);
    assert!(!parser.is_consistent());
    let mut parser = stones();
    parser.stop_words.insert(flying_stones);
    assert!(!parser.is_consistent());
    let mut parser = stones();
    parser.edge_cases.insert(flying_stones);
    assert!(!parser.is_consistent());
    let mut parser = stones();
    parser.edge_cases.clear();
    assert!(!parser.is_consistent());
    let mut parser = stones();
    parser.edge_cases.insert(1000);
    assert!(!parser.is_consistent());
    let mut parser = stones();
    parser.symbol_table.add_symbol("the", true).unwrap();
    assert!(!parser.is_consistent());
    let mut parser = stones();
    parser.symbol_table.add_symbol("unknown", false).unwrap();
    assert!(!parser.is_consistent());
    let mut parser = stones();
    parser.symbol_table = GazetteerParserSymbolTable::new();
    assert!(!parser.is_consistent());
}

#[test]
fn tables_that_disagree_can_be_saved() {
    let mut parser = stones();
    parser.edge_cases.insert(1000);
    assert!(parser.can_be_saved());
    let reloaded = Parser::from_files(&parser.to_files()).unwrap();
    assert!(same_tables(&parser, &reloaded));
    assert!(!reloaded.is_consistent());
}

#[test]
fn configuration_names_the_files() {
    let config = stones().get_parser_config("1.2.3");
    assert_eq!(config.version, "1.2.3");
    assert_eq!(METADATA_FILENAME, "metadata.json");
    assert_eq!(config.symbol_table_filename, "symbol_table");
    assert_eq!(config.token_to_resolved_values, "token_to_resolved_values");
    assert_eq!(config.resolved_value_to_tokens, "resolved_value_to_tokens");
    assert_eq!(config.token_to_count, "token_to_count");
    assert_eq!(config.stop_words, "stop_words");
    assert_eq!(config.edge_cases, "edge_cases");
}
