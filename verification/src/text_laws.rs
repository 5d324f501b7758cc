//! What is found in a query, in terms of the texts of the query and of the values.

use crate::choice_laws::law_choice_among_matches;
use crate::construction::fits;
use crate::data::EntityView;
use crate::gazetteer_laws::law_parser_holds_the_gazetteer;
use crate::influence_laws::lemma_word_spelled;
use crate::laws::law_matches;
use crate::model::{is_token, Candidate, Model};
use crate::order::{lemma_keeps_order, lemma_reach};
use crate::parsed_value::ParsedView;
use crate::single::{at_least, Single};
use crate::state::lemma_words_in_order;
use crate::utils::{plain_spaces, token_ranges, tokens, white_space};
use vstd::prelude::*;

verus! {

/// Whether the words `first..end` of `query` are those of `spelling` at `places`, which increase.
pub open spec fn stand_at(
    spelling: Seq<Seq<char>>,
    query: Seq<Seq<char>>,
    first: int,
    end: int,
    places: Seq<int>,
) -> bool {
    &&& places.len() == end - first
    &&& forall|k: int|
        0 <= k < places.len() ==> {
            &&& 0 <= #[trigger] places[k] < spelling.len()
            &&& spelling[places[k]] == query[first + k]
        }
    &&& forall|j: int, k: int| 0 <= j < k < places.len() ==> places[j] < places[k]
}

/// Whether the words `first..end` of `query` stand in `spelling`, in this order.
pub open spec fn stand_in(spelling: Seq<Seq<char>>, query: Seq<Seq<char>>, first: int, end: int) -> bool {
    exists|places: Seq<int>| #[trigger] stand_at(spelling, query, first, end, places)
}

/// The order of words is that of the texts.
proof fn lemma_stand_in(model: Model, input: Seq<char>, value: u32, first: int, end: int)
    requires
        model.wf(),
        model.values.contains_key(value),
        0 <= first <= end <= tokens(input).len(),
    ensures
        model.keeps_order(model.words(input), value, first, end) <==> stand_in(
            model.spelling(value),
            tokens(input),
            first,
            end,
        ),
{
    let words = model.words(input);
    let spelling = model.spelling(value);
    let query = tokens(input);
    assert(spelling.len() == model.tokens(value).len());
    if model.keeps_order(words, value, first, end) {
        let places = choose|places: Seq<int>| #[trigger] model.aligned(words, value, first, end, places);
        assert forall|k: int| 0 <= k < places.len() implies {
            &&& 0 <= #[trigger] places[k] < spelling.len()
            &&& spelling[places[k]] == query[first + k]
        } by {
            lemma_word_spelled(model, input, value, first + k, places[k]);
        }
        assert(stand_at(spelling, query, first, end, places));
    }
    if stand_in(spelling, query, first, end) {
        let places = choose|places: Seq<int>| #[trigger] stand_at(spelling, query, first, end, places);
        assert forall|k: int| 0 <= k < places.len() implies {
            &&& 0 <= #[trigger] places[k] < model.tokens(value).len()
            &&& words[first + k].symbol == Some(model.tokens(value)[places[k]])
        } by {
            lemma_word_spelled(model, input, value, first + k, places[k]);
        }
        assert(model.aligned(words, value, first, end, places));
    }
}

/// A token is a stop word exactly if it is spelled like one.
pub proof fn lemma_stop_word_spelled(model: Model, token: u32)
    requires
        model.wf(),
        model.token_values.contains_key(token),
    ensures
        model.stop_words.contains(token) <==> model.stop_words.map(
            |t: u32| model.symbols[t as int],
        ).contains(model.symbols[token as int]),
{
    let spell = |t: u32| model.symbols[t as int];
    let stops = model.stop_words.map(spell);
    let text = model.symbols[token as int];
    if model.stop_words.contains(token) {
        assert(stops.contains(spell(token)));
    }
    if stops.contains(text) {
        let other = choose|t: u32| model.stop_words.contains(t) && text == spell(t);
        assert(model.token_values.contains_key(other));
        assert(is_token(model.symbols[other as int]) && is_token(model.symbols[token as int]));
        assert(other < token || token < other || other == token);
    }
}

/// A part of a query is a match of a value exactly if its words stand among the tokens of the value in their
/// order, those of the part that is longer by the word before or behind do not, and it is enough of the value.
/// A part of a value that has other tokens than stop words is enough if it has a word that is no stop word,
/// and the number of its words over that of the tokens of the value reaches the threshold. It does not matter
/// which kind of word it begins or ends with, nor whether it is complete. A value of stop words alone has to
/// be complete.
pub proof fn law_matches_by_their_texts(
    model: Model,
    input: Seq<char>,
    threshold: Single,
    c: Candidate,
)
    requires
        model.wf(),
        model.values.contains_key(c.value),
    ensures
        ({
            let query = tokens(input);
            let spelling = model.values[c.value].1.map_values(|t: u32| model.symbols[t as int]);
            let stops = model.stop_words.map(|t: u32| model.symbols[t as int]);
            model.candidates(model.words(input), threshold).contains(c) <==> {
                &&& 0 <= c.first < c.end <= query.len()
                &&& stand_in(spelling, query, c.first, c.end)
                &&& c.first > 0 ==> !stand_in(spelling, query, c.first - 1, c.end)
                &&& c.end < query.len() ==> !stand_in(spelling, query, c.first, c.end + 1)
                &&& if exists|k: int|
                    0 <= k < spelling.len() && !stops.contains(#[trigger] spelling[k]) {
                    &&& exists|j: int| c.first <= j < c.end && !stops.contains(#[trigger] query[j])
                    &&& at_least((c.end - c.first) as nat, spelling.len(), threshold)
                } else {
                    c.end - c.first == spelling.len()
                }
            }
        }),
{
    let words = model.words(input);
    let query = tokens(input);
    let spelling = model.spelling(c.value);
    let stops = model.stop_words.map(|t: u32| model.symbols[t as int]);
    assert(spelling =~= model.values[c.value].1.map_values(|t: u32| model.symbols[t as int]));
    assert(words.len() == query.len());
    assert(spelling.len() == model.tokens(c.value).len());
    assert forall|k: int| 0 <= k < spelling.len() implies (stops.contains(#[trigger] spelling[k])
        <==> model.stop_words.contains(model.tokens(c.value)[k])) by {
        assert(model.occurs_in(model.tokens(c.value)[k], c.value));
        lemma_stop_word_spelled(model, model.tokens(c.value)[k]);
    }
    let other = exists|k: int| 0 <= k < spelling.len() && !stops.contains(#[trigger] spelling[k]);
    assert(other <==> !model.only_stop_words(c.value)) by {
        if other {
            let k = choose|k: int| 0 <= k < spelling.len() && !stops.contains(#[trigger] spelling[k]);
            assert(!model.stop_words.contains(model.tokens(c.value)[k]));
        }
        if !model.only_stop_words(c.value) {
            let k = choose|k: int|
                0 <= k < model.tokens(c.value).len() && !model.stop_words.contains(
                    #[trigger] model.tokens(c.value)[k],
                );
            assert(!stops.contains(spelling[k]));
        }
    }
    if 0 <= c.first < c.end <= query.len() {
        lemma_stand_in(model, input, c.value, c.first, c.end);
        if c.first > 0 {
            lemma_stand_in(model, input, c.value, c.first - 1, c.end);
        }
        if c.end < query.len() {
            lemma_stand_in(model, input, c.value, c.first, c.end + 1);
        }
        if model.keeps_order(words, c.value, c.first, c.end) {
            lemma_keeps_order(model, words, c.value, c.first, c.end);
            assert forall|j: int| c.first <= j < c.end implies (#[trigger] words[j]).symbol is Some && (
            stops.contains(query[j]) <==> model.stop_words.contains(words[j].symbol->0)) by {
                lemma_words_in_order(model, words, c.value, c.first, c.end, j);
                let token = words[j].symbol->0;
                let k = choose|k: int|
                    0 <= k < model.tokens(c.value).len() && model.tokens(c.value)[k] == token;
                lemma_word_spelled(model, input, c.value, j, k);
                assert(spelling[k] == query[j]);
            }
            let content = exists|j: int| c.first <= j < c.end && !stops.contains(#[trigger] query[j]);
            if content {
                let j = choose|j: int| c.first <= j < c.end && !stops.contains(#[trigger] query[j]);
                assert(words[j].symbol is Some && !model.stop_words.contains(words[j].symbol->0));
            }
            if exists|j: int|
                c.first <= j < c.end && (#[trigger] words[j]).symbol is Some
                    && !model.stop_words.contains(words[j].symbol->0) {
                let j = choose|j: int|
                    c.first <= j < c.end && (#[trigger] words[j]).symbol is Some
                        && !model.stop_words.contains(words[j].symbol->0);
                assert(!stops.contains(query[j]));
            }
            lemma_reach(model.tokens(c.value), words, c.first, c.end);
        }
    }
}

/// Every parsed value stands for one of the entity values of the gazetteer: its resolved value is that of the
/// entity value, with plain spaces, however many tokens of the raw value are missing in the query, its range
/// is that of some words of the query, and its raw value is what stands there. These words are, in their order,
/// tokens of the raw value of the entity value.
pub proof fn law_parsed_values_are_entity_values(
    data: Seq<EntityView>,
    model: Model,
    input: Seq<char>,
    threshold: Single,
    values: Seq<ParsedView>,
) -> (matched: Seq<(int, int, int)>)
    requires
        fits(data),
        model.wf(),
        model == (Model {
            stop_words: model.stop_words,
            edge_cases: model.edge_cases,
            ..Model::of_gazetteer(data)
        }),
        model.is_parsing(input, model.candidates(model.words(input), threshold), values),
    ensures
        matched.len() == values.len(),
        forall|i: int|
            0 <= i < values.len() ==> {
                let (entity, first, end) = #[trigger] matched[i];
                let text = data[entity].resolved_value;
                &&& 0 <= entity < data.len()
                &&& 0 <= first < end <= token_ranges(input).len()
                &&& stand_in(tokens(data[entity].raw_value), tokens(input), first, end)
                &&& values[i].resolved_value == Seq::new(
                    text.len(),
                    |k: int|
                        if white_space(text[k]) {
                            ' '
                        } else {
                            text[k]
                        },
                )
                &&& values[i].start == token_ranges(input)[first].0
                &&& values[i].end == token_ranges(input)[end - 1].1
                &&& values[i].raw_value == input.subrange(values[i].start, values[i].end)
            },
{
    let words = model.words(input);
    let all = model.candidates(words, threshold);
    lemma_all_in_query(model, input, threshold);
    law_parser_holds_the_gazetteer(data);
    let plain = Model::of_gazetteer(data);
    let picks = law_choice_among_matches(model, input, all, values);
    let matched = Seq::new(
        picks.len(),
        |i: int| (model.rank(picks[i].value) as int, picks[i].first, picks[i].end),
    );
    assert forall|i: int| 0 <= i < values.len() implies {
        let (entity, first, end) = #[trigger] matched[i];
        let text = data[entity].resolved_value;
        &&& 0 <= entity < data.len()
        &&& 0 <= first < end <= token_ranges(input).len()
        &&& stand_in(tokens(data[entity].raw_value), tokens(input), first, end)
        &&& values[i].resolved_value == Seq::new(
            text.len(),
            |k: int|
                if white_space(text[k]) {
                    ' '
                } else {
                    text[k]
                },
        )
        &&& values[i].start == token_ranges(input)[first].0
        &&& values[i].end == token_ranges(input)[end - 1].1
        &&& values[i].raw_value == input.subrange(values[i].start, values[i].end)
    } by {
        let c = picks[i];
        assert(all.contains(c));
        law_matches(model, words, threshold, c);
        assert(plain.values.contains_key(c.value));
        lemma_stand_in(model, input, c.value, c.first, c.end);
        assert(model.spelling(c.value) =~= plain.spelling(c.value));
        let text = data[matched[i].0].resolved_value;
        let symbol = model.symbols[c.value as int];
        assert((seq![' '] + values[i].resolved_value).drop_first() =~= values[i].resolved_value);
        assert(symbol.drop_first() =~= plain_spaces(text));
        assert(values[i].resolved_value =~= Seq::new(
            text.len(),
            |k: int|
                if white_space(text[k]) {
                    ' '
                } else {
                    text[k]
                },
        ));
    }
    matched
}

/// Whether the words `first..end` of a query are a match of a raw value, where the tokens `stops` are stop
/// words.
pub open spec fn is_match_of(
    raw_value: Seq<char>,
    stops: Set<Seq<char>>,
    input: Seq<char>,
    threshold: Single,
    first: int,
    end: int,
) -> bool {
    let query = tokens(input);
    let spelling = tokens(raw_value);
    &&& 0 <= first < end <= query.len()
    &&& stand_in(spelling, query, first, end)
    &&& first > 0 ==> !stand_in(spelling, query, first - 1, end)
    &&& end < query.len() ==> !stand_in(spelling, query, first, end + 1)
    &&& if exists|k: int| 0 <= k < spelling.len() && !stops.contains(#[trigger] spelling[k]) {
        &&& exists|j: int| first <= j < end && !stops.contains(#[trigger] query[j])
        &&& at_least((end - first) as nat, spelling.len(), threshold)
    } else {
        end - first == spelling.len()
    }
}

/// What is found in a query with the parser for a gazetteer, from the entity values to the parsed values.
/// Each parsed value is that of a match of one of the entity values. They come in the order of the query, and
/// their matches have no word in common. Every other match of an entity value has a word in common with one
/// that has more words, or as many words and a raw value of fewer tokens, or as many of both and an entity
/// value that comes earlier in the gazetteer, or that is an earlier match of the same entity value.
pub proof fn law_gazetteer_is_parsed(
    data: Seq<EntityView>,
    model: Model,
    input: Seq<char>,
    threshold: Single,
    values: Seq<ParsedView>,
) -> (matched: Seq<(int, int, int)>)
    requires
        fits(data),
        model.wf(),
        model == (Model {
            stop_words: model.stop_words,
            edge_cases: model.edge_cases,
            ..Model::of_gazetteer(data)
        }),
        model.is_parsing(input, model.candidates(model.words(input), threshold), values),
    ensures
        matched.len() == values.len(),
        ({
            let stops = model.stop_words.map(|t: u32| model.symbols[t as int]);
            &&& forall|i: int|
                0 <= i < matched.len() ==> {
                    let (entity, first, end) = #[trigger] matched[i];
                    let text = data[entity].resolved_value;
                    &&& 0 <= entity < data.len()
                    &&& is_match_of(data[entity].raw_value, stops, input, threshold, first, end)
                    &&& values[i].resolved_value == Seq::new(
                        text.len(),
                        |k: int|
                            if white_space(text[k]) {
                                ' '
                            } else {
                                text[k]
                            },
                    )
                    &&& values[i].start == token_ranges(input)[first].0
                    &&& values[i].end == token_ranges(input)[end - 1].1
                    &&& values[i].raw_value == input.subrange(values[i].start, values[i].end)
                }
            &&& forall|i: int, j: int|
                #![trigger matched[i], matched[j]]
                0 <= i < j < matched.len() ==> matched[i].2 <= matched[j].1
            &&& forall|entity: int, first: int, end: int|
                0 <= entity < data.len() && #[trigger] is_match_of(
                    data[entity].raw_value,
                    stops,
                    input,
                    threshold,
                    first,
                    end,
                ) && !matched.contains((entity, first, end)) ==> exists|i: int|
                    {
                        let (e, f, n) = #[trigger] matched[i];
                        &&& 0 <= i < matched.len()
                        &&& f < end && first < n
                        &&& n - f >= end - first
                        &&& n - f == end - first ==> {
                            let own = tokens(data[entity].raw_value).len();
                            let other = tokens(data[e].raw_value).len();
                            &&& other <= own
                            &&& other == own ==> e < entity || (e == entity && f < first)
                        }
                    }
        }),
{
    let words = model.words(input);
    let all = model.candidates(words, threshold);
    let plain = Model::of_gazetteer(data);
    let stops = model.stop_words.map(|t: u32| model.symbols[t as int]);
    lemma_all_in_query(model, input, threshold);
    law_parser_holds_the_gazetteer(data);
    let picks = law_choice_among_matches(model, input, all, values);
    let matched = Seq::new(
        picks.len(),
        |i: int| (model.rank(picks[i].value) as int, picks[i].first, picks[i].end),
    );
    assert forall|v: u32| #[trigger] model.values.contains_key(v) implies model.values[v].1.map_values(
        |t: u32| model.symbols[t as int],
    ) == tokens(data[model.rank(v) as int].raw_value) && model.values[v].1.len() == tokens(
        data[model.rank(v) as int].raw_value,
    ).len() && model.rank(v) < data.len() by {
        assert(plain.values.contains_key(v));
        assert(model.values[v].1.map_values(|t: u32| model.symbols[t as int]) =~= plain.spelling(v));
    }
    assert forall|i: int| 0 <= i < matched.len() implies {
        let (entity, first, end) = #[trigger] matched[i];
        let text = data[entity].resolved_value;
        &&& 0 <= entity < data.len()
        &&& is_match_of(data[entity].raw_value, stops, input, threshold, first, end)
        &&& values[i].resolved_value == Seq::new(
            text.len(),
            |k: int|
                if white_space(text[k]) {
                    ' '
                } else {
                    text[k]
                },
        )
        &&& values[i].start == token_ranges(input)[first].0
        &&& values[i].end == token_ranges(input)[end - 1].1
        &&& values[i].raw_value == input.subrange(values[i].start, values[i].end)
    } by {
        let c = picks[i];
        assert(all.contains(c));
        assert(plain.values.contains_key(c.value));
        law_matches_by_their_texts(model, input, threshold, c);
        let text = data[matched[i].0].resolved_value;
        let symbol = model.symbols[c.value as int];
        assert((seq![' '] + values[i].resolved_value).drop_first() =~= values[i].resolved_value);
        assert(symbol.drop_first() =~= plain_spaces(text));
        assert(values[i].resolved_value =~= Seq::new(
            text.len(),
            |k: int|
                if white_space(text[k]) {
                    ' '
                } else {
                    text[k]
                },
        ));
    }
    assert forall|entity: int, first: int, end: int|
        0 <= entity < data.len() && #[trigger] is_match_of(
            data[entity].raw_value,
            stops,
            input,
            threshold,
            first,
            end,
        ) && !matched.contains((entity, first, end)) implies exists|i: int|
        {
            let (e, f, n) = #[trigger] matched[i];
            &&& 0 <= i < matched.len()
            &&& f < end && first < n
            &&& n - f >= end - first
            &&& n - f == end - first ==> {
                let own = tokens(data[entity].raw_value).len();
                let other = tokens(data[e].raw_value).len();
                &&& other <= own
                &&& other == own ==> e < entity || (e == entity && f < first)
            }
        } by {
        let spelling = tokens(data[entity].raw_value);
        let places = choose|places: Seq<int>| #[trigger]
            stand_at(spelling, tokens(input), first, end, places);
        assert(0 <= places[0] < spelling.len());
        assert(plain.has_rank(entity));
        let v = choose|v: u32| #[trigger] plain.values.contains_key(v) && plain.rank(v) == entity;
        assert(model.values.contains_key(v));
        let c = Candidate { value: v, first, end };
        law_matches_by_their_texts(model, input, threshold, c);
        assert(all.contains(c));
        if picks.contains(c) {
            let i = choose|i: int| 0 <= i < picks.len() && picks[i] == c;
            assert(matched[i] == (entity, first, end));
        }
        let i = choose|i: int|
            {
                let p = picks[i];
                let p_tokens = model.values[p.value].1.len();
                let c_tokens = model.values[c.value].1.len();
                let p_rank = model.values[p.value].0;
                let c_rank = model.values[c.value].0;
                &&& 0 <= i < picks.len()
                &&& (#[trigger] picks[i]).first < c.end && c.first < p.end
                &&& p.end - p.first >= c.end - c.first
                &&& p.end - p.first == c.end - c.first ==> {
                    &&& p_tokens <= c_tokens
                    &&& p_tokens == c_tokens ==> {
                        ||| p_rank < c_rank
                        ||| p_rank == c_rank && p.value == c.value && p.first < c.first
                    }
                }
            };
        assert(all.contains(picks[i]));
        assert(model.values.contains_key(picks[i].value));
        assert(matched[i] == (model.rank(picks[i].value) as int, picks[i].first, picks[i].end));
    }
    matched
}

/// The matches lie in the query.
proof fn lemma_all_in_query(model: Model, input: Seq<char>, threshold: Single)
    ensures
        forall|c: Candidate| #[trigger]
            model.candidates(model.words(input), threshold).contains(c) ==> model.values.contains_key(c.value)
                && 0 <= c.first < c.end <= token_ranges(input).len(),
{
    let words = model.words(input);
    assert forall|c: Candidate| #[trigger] model.candidates(words, threshold).contains(c) implies
        model.values.contains_key(c.value) && 0 <= c.first < c.end <= token_ranges(input).len() by {
        law_matches(model, words, threshold, c);
    }
}

} // verus!
