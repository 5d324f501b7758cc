use fnv::FnvHashSet;
use gazetteer_entity_parser::utils::fst_format_resolved_value;
use gazetteer_entity_parser::{EntityValue, Gazetteer, ParsedValue, Parser, Single};

fn single(value: f32) -> Single {
    Single::from_bits(value.to_bits())
}

#[test]
fn test_stop_words_and_edge_cases() {
    let mut gazetteer = Gazetteer::new();
    gazetteer.add(EntityValue {
        resolved_value: "The Flying Stones".to_string(),
        raw_value: "the flying stones".to_string(),
    });
    gazetteer.add(EntityValue {
        resolved_value: "The Rolling Stones".to_string(),
        raw_value: "the rolling stones".to_string(),
    });
    gazetteer.add(EntityValue {
        resolved_value: "The Stones Rolling".to_string(),
        raw_value: "the stones rolling".to_string(),
    });

    gazetteer.add(EntityValue {
        resolved_value: "The Stones".to_string(),
        raw_value: "the stones".to_string(),
    });
    let mut parser = Parser::from_gazetteer(&gazetteer).unwrap();
    parser.compute_stop_words(single(0.51)).unwrap();
    let mut gt_stop_words: FnvHashSet<u32> = FnvHashSet::default();
    gt_stop_words.insert(parser.symbol_table.find_single_symbol("the").unwrap().unwrap());
    gt_stop_words.insert(parser.symbol_table.find_single_symbol("stones").unwrap().unwrap());
    assert!(parser.stop_words == gt_stop_words);
    let mut gt_edge_cases: FnvHashSet<u32> = FnvHashSet::default();
    gt_edge_cases.insert(parser.symbol_table.find_single_symbol(&fst_format_resolved_value("The Stones")).unwrap().unwrap());
    assert!(parser.edge_cases == gt_edge_cases);

    // Value starting with a stop word
    let parsed = parser
        .run("je veux écouter les the rolling", single(0.6))
        .unwrap();
    assert_eq!(
        parsed,
        vec![
            ParsedValue {
                raw_value: "the rolling".to_string(),
                resolved_value: "The Rolling Stones".to_string(),
                range: 20..31,
            },
        ]
    );

    // Value starting with a stop word and ending with one
    let parsed = parser
        .run("je veux écouter les the rolling stones", single(1.0))
        .unwrap();
    assert_eq!(
        parsed,
        vec![
            ParsedValue {
                raw_value: "the rolling stones".to_string(),
                resolved_value: "The Rolling Stones".to_string(),
                range: 20..38,
            },
        ]
    );

    // Value starting with two stop words
    let parsed = parser
        .run("je veux écouter les the stones rolling", single(1.0))
        .unwrap();
    assert_eq!(
        parsed,
        vec![
            ParsedValue {
                raw_value: "the stones rolling".to_string(),
                resolved_value: "The Stones Rolling".to_string(),
                range: 20..38,
            },
        ]
    );

    // Edge case
    let parsed = parser
        .run("je veux écouter les the stones", single(1.0))
        .unwrap();
    assert_eq!(
        parsed,
        vec![
            ParsedValue {
                raw_value: "the stones".to_string(),
                resolved_value: "The Stones".to_string(),
                range: 20..30,
            },
        ]
    );


}

#[test]
fn test_parser_base() {
    let mut gazetteer = Gazetteer::new();
    gazetteer.add(EntityValue {
        resolved_value: "The Flying Stones".to_string(),
        raw_value: "the flying stones".to_string(),
    });
    gazetteer.add(EntityValue {
        resolved_value: "The Rolling Stones".to_string(),
        raw_value: "the rolling stones".to_string(),
    });
    gazetteer.add(EntityValue {
        resolved_value: "Blink-182".to_string(),
        raw_value: "blink one eight two".to_string(),
    });
    gazetteer.add(EntityValue {
        resolved_value: "Je Suis Animal".to_string(),
        raw_value: "je suis animal".to_string(),
    });
    let parser = Parser::from_gazetteer(&gazetteer).unwrap();
    // parser.dump("test_new_parser").unwrap();
    let mut parsed = parser
        .run("je veux écouter les rolling stones", single(0.0))
        .unwrap();
    assert_eq!(
        parsed,
        vec![
            ParsedValue {
                raw_value: "je".to_string(),
                resolved_value: "Je Suis Animal".to_string(),
                range: 0..2,
            },
            ParsedValue {
                raw_value: "rolling stones".to_string(),
                resolved_value: "The Rolling Stones".to_string(),
                range: 20..34,
            },
        ]
    );

    parsed = parser
        .run("je veux ecouter les \t rolling stones", single(0.0))
        .unwrap();
    assert_eq!(
        parsed,
        vec![
            ParsedValue {
                raw_value: "je".to_string(),
                resolved_value: "Je Suis Animal".to_string(),
                range: 0..2,
            },
            ParsedValue {
                raw_value: "rolling stones".to_string(),
                resolved_value: "The Rolling Stones".to_string(),
                range: 22..36,
            },
        ]
    );

    parsed = parser
        .run("i want to listen to rolling stones and blink eight", single(0.0))
        .unwrap();
    assert_eq!(
        parsed,
        vec![
            ParsedValue {
                raw_value: "rolling stones".to_string(),
                resolved_value: "The Rolling Stones".to_string(),
                range: 20..34,
            },
            ParsedValue {
                raw_value: "blink eight".to_string(),
                resolved_value: "Blink-182".to_string(),
                range: 39..50,
            },
        ]
    );

    parsed = parser.run("joue moi quelque chose", single(0.0)).unwrap();
    assert_eq!(parsed, vec![]);
}


#[test]
fn test_parser_multiple_raw_values() {
    let mut gazetteer = Gazetteer::new();
    gazetteer.add(EntityValue {
        resolved_value: "Blink-182".to_string(),
        raw_value: "blink one eight two".to_string(),
    });
    gazetteer.add(EntityValue {
        resolved_value: "Blink-182".to_string(),
        raw_value: "blink 182".to_string(),
    });
    let parser = Parser::from_gazetteer(&gazetteer).unwrap();
    let mut parsed = parser
        .run("let's listen to blink 182", single(0.0))
        .unwrap();
    assert_eq!(
        parsed,
        vec![
            ParsedValue {
                raw_value: "blink 182".to_string(),
                resolved_value: "Blink-182".to_string(),
                range: 16..25,
            }
        ]
    );

    parsed = parser
        .run("let's listen to blink", single(0.5))
        .unwrap();
    assert_eq!(
        parsed,
        vec![
            ParsedValue {
                raw_value: "blink".to_string(),
                resolved_value: "Blink-182".to_string(),
                range: 16..21,
            }
        ]
    );

    parsed = parser
        .run("let's listen to blink one two", single(0.5))
        .unwrap();
    assert_eq!(
        parsed,
        vec![
            ParsedValue {
                raw_value: "blink one two".to_string(),
                resolved_value: "Blink-182".to_string(),
                range: 16..29,
            }
        ]
    );
}

#[test]
fn test_parser_with_ranking() {
    /* Weight is here a proxy for the ranking of an artist in a popularity
    index */

    let mut gazetteer = Gazetteer::new();
    gazetteer.add(EntityValue {
        resolved_value: "Jacques Brel".to_string(),
        raw_value: "jacques brel".to_string(),
    });
    gazetteer.add(EntityValue {
        resolved_value: "The Rolling Stones".to_string(),
        raw_value: "the rolling stones".to_string(),
    });
    gazetteer.add(EntityValue {
        resolved_value: "The Flying Stones".to_string(),
        raw_value: "the flying stones".to_string(),
    });
    gazetteer.add(EntityValue {
        resolved_value: "Daniel Brel".to_string(),
        raw_value: "daniel brel".to_string(),
    });
    gazetteer.add(EntityValue {
        resolved_value: "Jacques".to_string(),
        raw_value: "jacques".to_string(),
    });
    let parser = Parser::from_gazetteer(&gazetteer).unwrap();

    /* When there is a tie in terms of number of token matched, match the most popular choice */
    let parsed = parser.run("je veux écouter the stones", single(0.5)).unwrap();
    assert_eq!(
        parsed,
        vec![ParsedValue {
            raw_value: "the stones".to_string(),
            resolved_value: "The Rolling Stones".to_string(),
            range: 16..26,
        }]
    );
    let parsed = parser.run("je veux écouter brel", single(0.5)).unwrap();
    assert_eq!(
        parsed,
        vec![ParsedValue {
            raw_value: "brel".to_string(),
            resolved_value: "Jacques Brel".to_string(),
            range: 16..20,
        }]
    );

    // Resolve to the value with more words matching regardless of popularity
    let parsed = parser
        .run("je veux écouter the flying stones", single(0.5))
        .unwrap();
    assert_eq!(
        parsed,
        vec![ParsedValue {
            raw_value: "the flying stones".to_string(),
            resolved_value: "The Flying Stones".to_string(),
            range: 16..33,
        }]
    );
    let parsed = parser.run("je veux écouter daniel brel", single(0.5)).unwrap();
    assert_eq!(
        parsed,
        vec![ParsedValue {
            raw_value: "daniel brel".to_string(),
            resolved_value: "Daniel Brel".to_string(),
            range: 16..27,
        }]
    );
    let parsed = parser.run("je veux écouter jacques", single(0.5)).unwrap();
    assert_eq!(
        parsed,
        vec![ParsedValue {
            raw_value: "jacques".to_string(),
            resolved_value: "Jacques".to_string(),
            range: 16..23,
        }]
    );
}

#[test]
fn test_parser_with_restart() {
    let mut gazetteer = Gazetteer::new();
    gazetteer.add(EntityValue {
        resolved_value: "The Rolling Stones".to_string(),
        raw_value: "the rolling stones".to_string(),
    });
    let parser = Parser::from_gazetteer(&gazetteer).unwrap();

    let parsed = parser
        .run("the music I want to listen to is rolling on stones", single(0.5))
        .unwrap();
    assert_eq!(parsed, vec![]);
}

#[test]
fn test_parser_with_unicode_whitespace() {
    let mut gazetteer = Gazetteer::new();
    gazetteer.add(EntityValue {
        resolved_value: "Quand est-ce ?".to_string(),
        raw_value: "quand est -ce".to_string(),
    });
    let parser = Parser::from_gazetteer(&gazetteer).unwrap();
    let parsed = parser.run("non quand est survivre", single(0.5)).unwrap();
    assert_eq!(
        parsed,
        vec![ParsedValue {
            resolved_value: "Quand est-ce ?".to_string(),
            range: 4..13,
            raw_value: "quand est".to_string(),
        }]
    )
}

#[test]
fn test_parser_with_mixed_ordered_entity() {
    let mut gazetteer = Gazetteer::new();
    gazetteer.add(EntityValue {
        resolved_value: "The Rolling Stones".to_string(),
        raw_value: "the rolling stones".to_string(),
    });
    let parser = Parser::from_gazetteer(&gazetteer).unwrap();

    let parsed = parser.run("rolling the stones", single(0.5)).unwrap();
    assert_eq!(
        parsed,
        vec![ParsedValue {
            resolved_value: "The Rolling Stones".to_string(),
            range: 8..18,
            raw_value: "the stones".to_string()}]
        );
}

#[test]
fn test_parser_with_threshold() {
    let mut gazetteer = Gazetteer::new();
    gazetteer.add(EntityValue {
        resolved_value: "The Flying Stones".to_string(),
        raw_value: "the flying stones".to_string(),
    });
    gazetteer.add(EntityValue {
        resolved_value: "The Rolling Stones".to_string(),
        raw_value: "the rolling stones".to_string(),
    });
    gazetteer.add(EntityValue {
        resolved_value: "Blink-182".to_string(),
        raw_value: "blink one eight two".to_string(),
    });
    gazetteer.add(EntityValue {
        resolved_value: "Je Suis Animal".to_string(),
        raw_value: "je suis animal".to_string(),
    });
    gazetteer.add(EntityValue {
        resolved_value: "Les Enfoirés".to_string(),
        raw_value: "les enfoirés".to_string(),
    });
    let parser = Parser::from_gazetteer(&gazetteer).unwrap();
    // parser.dump("test_new_parser").unwrap();
    let parsed = parser
        .run("je veux écouter les rolling stones", single(0.5))
        .unwrap();
    assert_eq!(
        parsed,
        vec![
            ParsedValue {
                resolved_value: "Les Enfoirés".to_string(),
                range: 16..19,
                raw_value: "les".to_string(),
            },
            ParsedValue {
                raw_value: "rolling stones".to_string(),
                resolved_value: "The Rolling Stones".to_string(),
                range: 20..34,
            },
        ]
    );

    let parsed = parser
        .run("je veux écouter les rolling stones", single(0.3))
        .unwrap();
    assert_eq!(
        parsed,
        vec![
            ParsedValue {
                raw_value: "je".to_string(),
                resolved_value: "Je Suis Animal".to_string(),
                range: 0..2,
            },
            ParsedValue {
                resolved_value: "Les Enfoirés".to_string(),
                range: 16..19,
                raw_value: "les".to_string(),
            },
            ParsedValue {
                raw_value: "rolling stones".to_string(),
                resolved_value: "The Rolling Stones".to_string(),
                range: 20..34,
            },
        ]
    );

    let parsed = parser
        .run("je veux écouter les rolling stones", single(0.6))
        .unwrap();
    assert_eq!(
        parsed,
        vec![ParsedValue {
            raw_value: "rolling stones".to_string(),
            resolved_value: "The Rolling Stones".to_string(),
            range: 20..34,
        }]
    );
}

#[test]
fn test_repeated_words() {
    let mut gazetteer = Gazetteer::new();
    gazetteer.add(EntityValue {
        resolved_value: "The Rolling Stones".to_string(),
        raw_value: "the rolling stones".to_string(),
    });
    let parser = Parser::from_gazetteer(&gazetteer).unwrap();

    // let parsed = parser
    //     .run("the the the", single(0.5))
    //     .unwrap();
    // assert_eq!(parsed, vec![]);

    let parsed = parser
        .run("the the the rolling stones stones stones stones", single(1.0))
        .unwrap();
    assert_eq!(
        parsed,
        vec![ParsedValue {
            raw_value: "the rolling stones".to_string(),
            resolved_value: "The Rolling Stones".to_string(),
            range: 8..26,
        }]
    );
}
