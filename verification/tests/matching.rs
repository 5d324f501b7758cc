use fnv::FnvHashSet;
use gazetteer_entity_parser::possible_match::{into_sorted, PossibleMatch};
use gazetteer_entity_parser::symbol_table::GazetteerParserSymbolTable;
use gazetteer_entity_parser::utils::{
    fst_format_resolved_value, fst_unformat_resolved_value, whitespace_tokenizer,
};
use gazetteer_entity_parser::{
    EntityValue, Gazetteer, GazetteerParserError, ParsedValue, Parser, Single,
};
use std::cmp::Ordering;

fn single(value: f32) -> Single {
    Single::from_bits(value.to_bits())
}

fn gazetteer(values: &[(&str, &str)]) -> Gazetteer {
    let mut gazetteer = Gazetteer::new();
    for (resolved_value, raw_value) in values {
        gazetteer.add(EntityValue {
            resolved_value: resolved_value.to_string(),
            raw_value: raw_value.to_string(),
        });
    }
    gazetteer
}

fn parser(values: &[(&str, &str)]) -> Parser {
    Parser::from_gazetteer(&gazetteer(values)).unwrap()
}

fn parsed(resolved_value: &str, raw_value: &str, start: usize, end: usize) -> ParsedValue {
    ParsedValue {
        resolved_value: resolved_value.to_string(),
        raw_value: raw_value.to_string(),
        range: start..end,
    }
}

fn strings(list: &[&str]) -> FnvHashSet<String> {
    list.iter().map(|s| s.to_string()).collect()
}

#[test]
fn longest_contiguous_part_is_matched() {
    let parser = parser(&[
        ("Black and White", "black and white"),
        ("Album", "album"),
        ("The Black and White Album", "the black and white album"),
        ("1 2 3 4", "one two three four"),
        ("3 4 5 6", "three four five six"),
    ]);
    assert_eq!(
        parser.run("je veux écouter le black and white album", single(0.5)).unwrap(),
        vec![parsed("The Black and White Album", "black and white album", 19, 40)]
    );
    assert_eq!(
        parser.run("one two three four", single(0.5)).unwrap(),
        vec![parsed("1 2 3 4", "one two three four", 0, 18)]
    );
    // Both values match four words of this query: the one that was added first is taken.
    assert_eq!(
        parser.run("one two three four five six", single(0.5)).unwrap(),
        vec![parsed("1 2 3 4", "one two three four", 0, 18)]
    );
}

#[test]
fn raw_value_gives_its_resolved_value() {
    let values = [
        ("The Flying Stones", "the flying stones"),
        ("The Rolling Stones", "the rolling stones"),
        ("Blink-182", "blink one eight two"),
        ("Je Suis Animal", "je suis animal"),
        ("Again", "the rolling stones"),
        ("Twice\tTwice", "twice twice"),
    ];
    let parser = parser(&values);
    for threshold in [-1.0, 0.0, 0.3, 1.0] {
        for (resolved_value, raw_value) in values {
            let first = if resolved_value == "Again" { "The Rolling Stones" } else { resolved_value };
            assert_eq!(
                parser.run(raw_value, single(threshold)).unwrap(),
                vec![parsed(&first.replace('\t', " "), raw_value, 0, raw_value.len())]
            );
        }
    }
    assert_eq!(
        parser.run("  blink \u{2003}one eight\n two ", single(1.0)).unwrap(),
        vec![parsed("Blink-182", "blink \u{2003}one eight\n two", 2, 23)]
    );
}

#[test]
fn no_threshold_above_one_is_reached() {
    let parser = parser(&[("A", "a b")]);
    assert_eq!(parser.run("a b", single(1.0)).unwrap(), vec![parsed("A", "a b", 0, 3)]);
    assert_eq!(parser.run("a b", single(1.0000001)).unwrap(), vec![]);
    assert_eq!(parser.run("a b", single(f32::NAN)).unwrap(), vec![]);
}

#[test]
fn unknown_words_give_nothing() {
    let parser = parser(&[("A", "a b")]);
    assert_eq!(parser.run("x y z", single(0.0)).unwrap(), vec![]);
    assert_eq!(parser.run("", single(0.0)).unwrap(), vec![]);
    assert_eq!(parser.run(" \t\u{a0}", single(0.0)).unwrap(), vec![]);
}

#[test]
fn values_without_tokens_are_never_found() {
    let parser = parser(&[("Empty", " "), ("A", "a"), ("", "b")]);
    assert!(parser.is_consistent());
    assert_eq!(parser.resolved_value_to_tokens.len(), 2);
    assert_eq!(
        parser.run("a b", single(1.0)).unwrap(),
        vec![parsed("A", "a", 0, 1), parsed("", "b", 2, 3)]
    );
}

#[test]
fn shorter_value_is_preferred_for_as_many_words() {
    let parser = parser(&[("Long", "a b c"), ("Short", "a b")]);
    assert_eq!(parser.run("a b", single(0.5)).unwrap(), vec![parsed("Short", "a b", 0, 3)]);
}

#[test]
fn words_between_end_a_match() {
    let parser = parser(&[("A", "a b")]);
    assert_eq!(
        parser.run("a x b", single(0.5)).unwrap(),
        vec![parsed("A", "a", 0, 1), parsed("A", "b", 4, 5)]
    );
    assert_eq!(parser.run("a x b", single(0.6)).unwrap(), vec![]);
}

#[test]
fn tables_describe_the_gazetteer() {
    let parser = parser(&[("X", "a b a"), ("X", "b")]);
    assert_eq!(parser.symbol_table.symbols(), &vec![" X", "a", "b", " X"]);
    assert_eq!(parser.get_tokens_from_resolved_value(&0).unwrap(), &(0, vec![1, 2, 1]));
    assert_eq!(parser.get_tokens_from_resolved_value(&3).unwrap(), &(1, vec![2]));
    assert_eq!(parser.token_to_count[&1], 2);
    assert_eq!(parser.token_to_count[&2], 2);
    let values: FnvHashSet<u32> = [0, 3].into_iter().collect();
    assert_eq!(parser.get_resolved_values_from_token(&2).unwrap(), &values);
    assert_eq!(
        parser.get_tokens_from_resolved_value(&1).unwrap_err(),
        GazetteerParserError::MissingResolvedValue(1)
    );
    assert_eq!(
        parser.get_resolved_values_from_token(&3).unwrap_err(),
        GazetteerParserError::MissingToken(3)
    );
    assert_eq!(
        parser.symbol_table.find_single_symbol(" X").unwrap_err(),
        GazetteerParserError::AmbiguousSymbol
    );
}

#[test]
fn stop_words_and_edge_cases_are_named() {
    let mut parser = parser(&[
        ("The Flying Stones", "the flying stones"),
        ("The Rolling Stones", "the rolling stones"),
        ("The Stones", "the stones"),
    ]);
    assert_eq!(parser.get_stop_words().unwrap(), strings(&[]));
    assert_eq!(parser.get_edge_cases().unwrap(), strings(&[]));
    parser.compute_stop_words(single(0.9)).unwrap();
    assert_eq!(parser.get_stop_words().unwrap(), strings(&["the", "stones"]));
    assert_eq!(parser.get_edge_cases().unwrap(), strings(&["The Stones"]));
    // The same threshold again changes nothing, nor does a higher one.
    parser.compute_stop_words(single(0.9)).unwrap();
    parser.compute_stop_words(single(1.0)).unwrap();
    assert_eq!(parser.get_stop_words().unwrap(), strings(&["the", "stones"]));
    assert_eq!(parser.get_edge_cases().unwrap(), strings(&["The Stones"]));
    // A lower one adds to them.
    parser.compute_stop_words(single(0.3)).unwrap();
    assert_eq!(parser.get_stop_words().unwrap(), strings(&["the", "stones", "flying", "rolling"]));
    assert_eq!(
        parser.get_edge_cases().unwrap(),
        strings(&["The Stones", "The Flying Stones", "The Rolling Stones"])
    );
    assert!(parser.is_consistent());
}

#[test]
fn stop_words_are_more_frequent_than_the_threshold() {
    let mut parser = parser(&[("A", "a x"), ("B", "b x"), ("C", "c"), ("D", "d")]);
    parser.compute_stop_words(single(0.5)).unwrap();
    assert_eq!(parser.get_stop_words().unwrap(), strings(&[]));
    parser.compute_stop_words(single(0.49999997)).unwrap();
    assert_eq!(parser.get_stop_words().unwrap(), strings(&["x"]));
}

#[test]
fn leading_stop_words_are_taken_in() {
    let mut parser = parser(&[
        ("The Rolling Stones", "the rolling stones"),
        ("The Doors", "the doors"),
        ("The Who", "the who"),
    ]);
    parser.compute_stop_words(single(0.9)).unwrap();
    assert_eq!(parser.get_stop_words().unwrap(), strings(&["the"]));
    assert_eq!(
        parser.run("the the rolling stones", single(1.0)).unwrap(),
        vec![parsed("The Rolling Stones", "the rolling stones", 4, 22)]
    );
    assert_eq!(
        parser.run("x the rolling stones the doors", single(1.0)).unwrap(),
        vec![
            parsed("The Rolling Stones", "the rolling stones", 2, 20),
            parsed("The Doors", "the doors", 21, 30),
        ]
    );
    assert_eq!(
        parser.run("the doors", single(1.0)).unwrap(),
        vec![parsed("The Doors", "the doors", 0, 9)]
    );
    // A stop word alone begins nothing.
    assert_eq!(parser.run("the", single(0.0)).unwrap(), vec![]);
}

#[test]
fn edge_cases_must_be_complete() {
    let mut parser = parser(&[("The Stones", "the stones"), ("The", "the"), ("Stones", "stones")]);
    parser.compute_stop_words(single(0.6)).unwrap();
    assert_eq!(parser.get_stop_words().unwrap(), strings(&["the", "stones"]));
    assert_eq!(
        parser.run("the stones", single(1.0)).unwrap(),
        vec![parsed("The Stones", "the stones", 0, 10)]
    );
    assert_eq!(
        parser.run("the x stones", single(1.0)).unwrap(),
        vec![parsed("The", "the", 0, 3), parsed("Stones", "stones", 6, 12)]
    );
}

#[test]
fn long_edge_cases_are_found() {
    let mut parser = parser(&[("A", "a b c"), ("A", "a b c"), ("A", "a b c")]);
    parser.compute_stop_words(single(0.9)).unwrap();
    assert_eq!(parser.get_edge_cases().unwrap(), strings(&["A"]));
    for threshold in [0.0, 0.5, 1.0, 2.0] {
        assert_eq!(
            parser.run("x a b c", single(threshold)).unwrap(),
            vec![parsed("A", "a b c", 2, 7)]
        );
        assert_eq!(parser.run("a b", single(threshold)).unwrap(), vec![]);
        assert_eq!(parser.run("a c b", single(threshold)).unwrap(), vec![]);
    }
}

#[test]
fn edge_cases_are_complete_whatever_the_threshold() {
    let mut parser = parser(&[("The Stones", "the stones"), ("The", "the x"), ("Stones", "stones y")]);
    parser.compute_stop_words(single(0.6)).unwrap();
    assert_eq!(parser.get_edge_cases().unwrap(), strings(&["The Stones"]));
    assert_eq!(parser.run("the", single(0.0)).unwrap(), vec![]);
    assert_eq!(parser.run("stones the", single(0.0)).unwrap(), vec![]);
    let found = parser.find_possible_matches("the stones", single(0.0)).unwrap();
    assert_eq!(found.len(), 1);
    assert_eq!(found[0].n_consumed_tokens, found[0].raw_value_length);
}

#[test]
fn stop_words_start_no_match() {
    let mut parser = parser(&[("A", "a the"), ("B", "b the"), ("C", "c")]);
    parser.compute_stop_words(single(0.5)).unwrap();
    assert_eq!(parser.get_stop_words().unwrap(), strings(&["the"]));
    assert_eq!(
        parser.run("a x the", single(0.0)).unwrap(),
        vec![parsed("A", "a", 0, 1)]
    );
    assert_eq!(
        parser.run("a the the", single(0.0)).unwrap(),
        vec![parsed("A", "a the", 0, 5)]
    );
}

#[test]
fn match_goes_on_with_the_end_of_its_words() {
    let aab = parser(&[("AAB", "a a b")]);
    let found = aab.find_possible_matches("a a a b", single(1.0)).unwrap();
    assert_eq!(
        found,
        vec![PossibleMatch {
            resolved_value: 0,
            range: 2..7,
            tokens_range: 1..4,
            raw_value_length: 3,
            n_consumed_tokens: 3,
            last_token_in_input: 3,
            last_token_in_resolution: 2,
            rank: 0,
        }]
    );
    assert_eq!(aab.run("a a a b", single(1.0)).unwrap(), vec![parsed("AAB", "a a b", 2, 7)]);
    let abac = parser(&[("ABAC", "a b a c")]);
    assert_eq!(
        abac.run("a a b a c", single(1.0)).unwrap(),
        vec![parsed("ABAC", "a b a c", 2, 9)]
    );
}

#[test]
fn match_goes_on_with_words_before_a_stop_word() {
    let mut parser = parser(&[("V", "a the a b"), ("W", "the w"), ("X", "the x")]);
    parser.compute_stop_words(single(0.9)).unwrap();
    assert_eq!(parser.get_stop_words().unwrap(), strings(&["the"]));
    assert_eq!(
        parser.run("a a the b", single(0.7)).unwrap(),
        vec![parsed("V", "a the b", 2, 9)]
    );
    assert_eq!(
        parser.run("the a b", single(0.7)).unwrap(),
        vec![parsed("V", "the a b", 0, 7)]
    );
}

#[test]
fn words_out_of_order_join_no_match() {
    let parser = parser(&[("The Rolling Stones", "the rolling stones")]);
    let stones = PossibleMatch {
        resolved_value: 0,
        range: 8..18,
        tokens_range: 1..3,
        raw_value_length: 3,
        n_consumed_tokens: 2,
        last_token_in_input: 2,
        last_token_in_resolution: 2,
        rank: 0,
    };
    assert_eq!(parser.find_possible_matches("rolling the stones", single(0.5)).unwrap(), vec![stones]);
    let whole = PossibleMatch {
        resolved_value: 0,
        range: 8..26,
        tokens_range: 2..5,
        raw_value_length: 3,
        n_consumed_tokens: 3,
        last_token_in_input: 4,
        last_token_in_resolution: 2,
        rank: 0,
    };
    assert_eq!(
        parser
            .find_possible_matches("the the the rolling stones stones stones stones", single(1.0))
            .unwrap(),
        vec![whole]
    );
}

#[test]
fn matches_that_start_with_a_stop_word_have_their_places() {
    let mut parser = parser(&[
        ("The Flying Stones", "the flying stones"),
        ("The Rolling Stones", "the rolling stones"),
        ("The Stones Rolling", "the stones rolling"),
        ("The Stones", "the stones"),
    ]);
    parser.compute_stop_words(single(0.51)).unwrap();
    let found = parser.find_possible_matches("je veux écouter les the rolling", single(0.6)).unwrap();
    let sorted = into_sorted(&found);
    assert_eq!(sorted.len(), 2);
    assert_eq!((sorted[0].rank, sorted[0].last_token_in_resolution), (1, 1));
    assert_eq!((sorted[1].rank, sorted[1].last_token_in_resolution), (2, 2));
    for m in sorted {
        assert_eq!(m.range, 20..31);
        assert_eq!(m.tokens_range, 4..6);
        assert_eq!((m.raw_value_length, m.n_consumed_tokens, m.last_token_in_input), (3, 2, 5));
    }
}

#[test]
fn matches_are_the_longest_parts_of_small_queries() {
    // All queries of up to six words over three letters, against all windows.
    for raw_value in ["a b c", "a a b", "a b a c", "b a b", "a", "c c c"] {
        let parser = parser(&[("V", raw_value)]);
        let value: Vec<&str> = raw_value.split(' ').collect();
        let in_order = |words: &[&str]| {
            let mut rest = value.iter();
            words.iter().all(|w| rest.any(|t| t == w))
        };
        for length in 0..7 {
            for code in 0..3_usize.pow(length) {
                let words: Vec<&str> =
                    (0..length).map(|i| ["a", "b", "c"][code / 3_usize.pow(i) % 3]).collect();
                let n = words.len();
                let mut expected: Vec<(usize, usize)> = vec![];
                for first in 0..n {
                    for end in first + 1..n + 1 {
                        if in_order(&words[first..end])
                            && (first == 0 || !in_order(&words[first - 1..end]))
                            && (end == n || !in_order(&words[first..end + 1]))
                            && 2 * (end - first) >= value.len()
                        {
                            expected.push((first, end));
                        }
                    }
                }
                let mut found: Vec<(usize, usize)> = parser
                    .find_possible_matches(&words.join(" "), single(0.5))
                    .unwrap()
                    .iter()
                    .map(|m| (m.tokens_range.start, m.tokens_range.end))
                    .collect();
                found.sort();
                assert_eq!(found, expected, "{} in {:?}", raw_value, words);
            }
        }
    }
}

#[test]
fn unknown_words_around_a_query_move_ranges_only() {
    let parser = parser(&[("A", "a b"), ("C", "c")]);
    assert_eq!(
        parser.run("a b c", single(0.5)).unwrap(),
        vec![parsed("A", "a b", 0, 3), parsed("C", "c", 4, 5)]
    );
    assert_eq!(
        parser.run("new a b c", single(0.5)).unwrap(),
        vec![parsed("A", "a b", 4, 7), parsed("C", "c", 8, 9)]
    );
    assert_eq!(
        parser.run("a b c new", single(0.5)).unwrap(),
        vec![parsed("A", "a b", 0, 3), parsed("C", "c", 4, 5)]
    );
}

#[test]
fn values_without_a_common_token_have_no_influence() {
    let few = parser(&[("A", "a b"), ("B", "b c")]);
    let more = parser(&[("X", "x y"), ("A", "a b"), ("Y", "y"), ("B", "b c"), ("Z", "z")]);
    for query in ["a b c", "b c", "a", "c b a"] {
        assert_eq!(few.run(query, single(0.5)), more.run(query, single(0.5)));
    }
}

#[test]
fn previous_match_of_another_value_is_ended() {
    let parser = parser(&[("A", "a b"), ("B", "b c")]);
    let b = parser.symbol_table.find_single_symbol("b").unwrap().unwrap();
    let other = parser.symbol_table.find_single_symbol(&fst_format_resolved_value("B")).unwrap().unwrap();
    let mut heap = vec![];
    let mut current = possible_match(1, 2, 0, 0);
    let before = current.clone();
    parser.update_previous_match(&mut current, &other, 1, b, 2, 3, single(0.5), &mut heap);
    assert_eq!(heap, vec![before]);
    assert_eq!(
        current,
        PossibleMatch {
            resolved_value: other,
            range: 2..3,
            tokens_range: 1..2,
            raw_value_length: 2,
            n_consumed_tokens: 1,
            last_token_in_input: 1,
            last_token_in_resolution: 0,
            rank: 1,
        }
    );
}

#[test]
fn stop_word_without_a_symbol_is_an_error() {
    let mut parser = parser(&[("A", "a b")]);
    parser.stop_words.insert(77);
    assert_eq!(parser.get_stop_words(), Err(GazetteerParserError::MissingIndex(77)));
}

#[test]
fn symbols_are_found_by_index_and_name() {
    let mut table = GazetteerParserSymbolTable::new();
    assert_eq!(table.add_symbol("a", false), Ok(0));
    assert_eq!(table.add_symbol("b", false), Ok(1));
    assert_eq!(table.add_symbol("a", false), Ok(0));
    assert_eq!(table.find_single_symbol("a"), Ok(Some(0)));
    assert_eq!(table.find_single_symbol("c"), Ok(None));
    assert_eq!(table.add_symbol("a", true), Ok(2));
    assert_eq!(table.find_single_symbol("a"), Err(GazetteerParserError::AmbiguousSymbol));
    assert_eq!(table.add_symbol("a", false), Err(GazetteerParserError::AmbiguousSymbol));
    assert_eq!(table.find_index(2), Ok("a".to_string()));
    assert_eq!(table.find_index(3), Err(GazetteerParserError::MissingIndex(3)));
    assert_eq!(table.symbols(), &vec!["a", "b", "a"]);
    let copy = GazetteerParserSymbolTable::from_symbols(table.symbols().clone()).unwrap();
    assert_eq!(copy.symbols(), table.symbols());
    assert_eq!(copy.find_single_symbol("b"), Ok(Some(1)));
}

#[test]
fn tokens_come_with_their_ranges() {
    assert_eq!(
        whitespace_tokenizer("  é\u{a0}bc \u{3000}d"),
        vec![(2..3, "é".to_string()), (4..6, "bc".to_string()), (8..9, "d".to_string())]
    );
    assert_eq!(whitespace_tokenizer(""), vec![]);
    assert_eq!(whitespace_tokenizer("\n"), vec![]);
    assert_eq!(whitespace_tokenizer("abc"), vec![(0..3, "abc".to_string())]);
}

#[test]
fn resolved_values_have_symbols_of_their_own() {
    assert_eq!(fst_format_resolved_value("a\u{a0}b c"), " a b c");
    assert_eq!(fst_unformat_resolved_value(" a b c"), "a b c");
    assert_eq!(fst_unformat_resolved_value("a b"), "a b");
    assert_eq!(fst_unformat_resolved_value(&fst_format_resolved_value("")), "");
    assert_eq!(fst_unformat_resolved_value(&fst_format_resolved_value(" x")), " x");
    assert_eq!(fst_unformat_resolved_value(""), "");
}

fn possible_match(n: u32, length: u32, rank: u32, start: usize) -> PossibleMatch {
    PossibleMatch {
        resolved_value: 0,
        range: start..start + 1,
        tokens_range: start..start + n as usize,
        raw_value_length: length,
        n_consumed_tokens: n,
        last_token_in_input: start,
        last_token_in_resolution: 0,
        rank,
    }
}

#[test]
fn matches_are_ordered_by_preference() {
    let base = possible_match(2, 3, 1, 0);
    assert_eq!(base.cmp(&possible_match(3, 9, 9, 0)), Ordering::Less);
    assert_eq!(base.cmp(&possible_match(1, 1, 0, 0)), Ordering::Greater);
    assert_eq!(base.cmp(&possible_match(2, 4, 0, 0)), Ordering::Greater);
    assert_eq!(base.cmp(&possible_match(2, 2, 9, 0)), Ordering::Less);
    assert_eq!(base.cmp(&possible_match(2, 3, 2, 0)), Ordering::Greater);
    assert_eq!(base.cmp(&possible_match(2, 3, 0, 0)), Ordering::Less);
    assert_eq!(base.cmp(&possible_match(2, 3, 1, 7)), Ordering::Equal);
    assert!(base < possible_match(3, 9, 9, 0));
    assert_eq!(base.partial_cmp(&base.clone()), Some(Ordering::Equal));
    let list = vec![
        possible_match(1, 1, 0, 4),
        possible_match(2, 3, 1, 5),
        possible_match(3, 9, 9, 0),
        possible_match(2, 3, 1, 2),
    ];
    let sorted = into_sorted(&list);
    assert_eq!(
        sorted,
        vec![
            possible_match(3, 9, 9, 0),
            possible_match(2, 3, 1, 2),
            possible_match(2, 3, 1, 5),
            possible_match(1, 1, 0, 4),
        ]
    );
}

#[test]
fn parsed_values_are_ordered_by_place() {
    let a = parsed("A", "a", 0, 1);
    let b = parsed("B", "b", 2, 3);
    let c = parsed("C", "c", 3, 5);
    assert_eq!(a.partial_cmp(&b), Some(Ordering::Less));
    assert_eq!(b.partial_cmp(&a), Some(Ordering::Greater));
    assert_eq!(b.partial_cmp(&c), None);
    assert_eq!(a.partial_cmp(&a), None);
    assert_eq!(a.cmp(&c), Ordering::Less);
    assert_eq!(c.cmp(&a), Ordering::Greater);
}
