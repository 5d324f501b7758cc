//! What entity values without a token in a query do not change.

use crate::construction::{fits, lemma_of_gazetteer};
use crate::data::EntityView;
use crate::gazetteer_laws::{law_parser_holds_the_gazetteer, occurrences};
use crate::laws::law_matches;
use crate::model::{is_token, Candidate, Model};
use crate::order::lemma_keeps_order;
use crate::parsed_value::ParsedView;
use crate::room_laws::{different_tokens, law_countable_gazetteers_fit, lemma_different_tokens};
use crate::search::{lemma_is_token, lemma_lookup};
use crate::selection::overlap;
use crate::single::Single;
use crate::state::lemma_words_in_order;
use crate::utils::tokens;
use vstd::prelude::*;

verus! {

/// A word of a query is a token of a value exactly if they are spelled alike.
pub proof fn lemma_word_spelled(model: Model, input: Seq<char>, value: u32, j: int, k: int)
    requires
        model.wf(),
        model.values.contains_key(value),
        0 <= j < tokens(input).len(),
        0 <= k < model.tokens(value).len(),
    ensures
        model.words(input)[j].symbol == Some(model.tokens(value)[k]) <==> tokens(input)[j]
            == model.spelling(value)[k],
{
    let token = model.tokens(value)[k];
    let text = tokens(input)[j];
    lemma_is_token(input, j);
    lemma_lookup(model, text);
    assert(model.spelling(value)[k] == model.symbols[token as int]);
    assert(model.occurs_in(token, value));
    assert(model.token_values.contains_key(token));
    if model.symbols[token as int] == text {
        assert(model.symbols.contains(text));
        let found = model.words(input)[j].symbol->0;
        assert(model.symbols[found as int] == text);
        assert(is_token(model.symbols[found as int]) && is_token(model.symbols[token as int]));
        assert(found < token || token < found || found == token);
    }
}

/// Values that are spelled alike are matched alike, in whichever parser without stop words.
proof fn lemma_spelled_alike(
    a: Model,
    b: Model,
    input: Seq<char>,
    u: u32,
    v: u32,
    first: int,
    end: int,
)
    requires
        a.wf(),
        b.wf(),
        a.values.contains_key(u),
        b.values.contains_key(v),
        a.spelling(u) == b.spelling(v),
        0 <= first <= end <= tokens(input).len(),
        a.keeps_order(a.words(input), u, first, end),
    ensures
        b.keeps_order(b.words(input), v, first, end),
{
    let places = choose|places: Seq<int>| #[trigger] a.aligned(a.words(input), u, first, end, places);
    assert(a.tokens(u).len() == a.spelling(u).len());
    assert(b.tokens(v).len() == b.spelling(v).len());
    assert forall|k: int| 0 <= k < places.len() implies {
        &&& 0 <= #[trigger] places[k] < b.tokens(v).len()
        &&& b.words(input)[first + k].symbol == Some(b.tokens(v)[places[k]])
    } by {
        lemma_word_spelled(a, input, u, first + k, places[k]);
        lemma_word_spelled(b, input, v, first + k, places[k]);
    }
    assert(b.aligned(b.words(input), v, first, end, places));
}

/// A match of a value in a parser without stop words is one of a value that is spelled alike in another.
proof fn lemma_matched_alike(
    a: Model,
    b: Model,
    input: Seq<char>,
    threshold: Single,
    u: u32,
    v: u32,
    first: int,
    end: int,
)
    requires
        a.wf(),
        b.wf(),
        a.stop_words == Set::<u32>::empty(),
        b.stop_words == Set::<u32>::empty(),
        a.values.contains_key(u),
        b.values.contains_key(v),
        a.spelling(u) == b.spelling(v),
        a.spans(a.words(input), u, threshold).contains((first, end)),
    ensures
        b.spans(b.words(input), v, threshold).contains((first, end)),
{
    let words = b.words(input);
    assert(a.words(input).len() == tokens(input).len());
    assert(words.len() == tokens(input).len());
    assert(a.tokens(u).len() == a.spelling(u).len());
    assert(b.tokens(v).len() == b.spelling(v).len());
    assert(!a.edge_cases.contains(u)) by {
        assert(!a.stop_words.contains(a.tokens(u)[0]));
    }
    assert(!b.edge_cases.contains(v)) by {
        assert(!b.stop_words.contains(b.tokens(v)[0]));
    }
    lemma_spelled_alike(a, b, input, u, v, first, end);
    if first > 0 && b.keeps_order(words, v, first - 1, end) {
        lemma_spelled_alike(b, a, input, v, u, first - 1, end);
    }
    if end < words.len() && b.keeps_order(words, v, first, end + 1) {
        lemma_spelled_alike(b, a, input, v, u, first, end + 1);
    }
    lemma_keeps_order(b, words, v, first, end);
    lemma_words_in_order(b, words, v, first, end, first);
    assert(words[first].symbol is Some && !b.stop_words.contains(words[first].symbol->0));
}

/// The place of an entity value after the one at `i` has been taken out.
spec fn place_without(i: int, place: int) -> int {
    if place < i {
        place
    } else {
        place - 1
    }
}

/// The place that an entity value had before the one at `i` was taken out.
spec fn place_with(i: int, place: int) -> int {
    if place < i {
        place
    } else {
        place + 1
    }
}

/// The value of a rank.
spec fn of_rank(model: Model, rank: int) -> u32 {
    choose|v: u32| #[trigger] model.values.contains_key(v) && model.rank(v) == rank
}

/// A match of the value with another rank.
spec fn with_rank(model: Model, c: Candidate, rank: int) -> Candidate {
    Candidate { value: of_rank(model, rank), ..c }
}

/// What holds of the value of a rank in the parser for a gazetteer.
proof fn lemma_of_rank(data: Seq<EntityView>, rank: int)
    requires
        fits(data),
        0 <= rank < data.len(),
        tokens(data[rank].raw_value).len() > 0,
    ensures
        ({
            let model = Model::of_gazetteer(data);
            let value = of_rank(model, rank);
            &&& model.values.contains_key(value)
            &&& model.rank(value) == rank
            &&& model.spelling(value) == tokens(data[rank].raw_value)
            &&& model.tokens(value).len() == model.spelling(value).len()
        }),
{
    law_parser_holds_the_gazetteer(data);
    assert(Model::of_gazetteer(data).has_rank(rank));
}

/// A match in one parser is, under another rank, a match in the other.
proof fn lemma_match_of_rank(
    data: Seq<EntityView>,
    other: Seq<EntityView>,
    input: Seq<char>,
    threshold: Single,
    c: Candidate,
    rank: int,
)
    requires
        fits(data),
        fits(other),
        ({
            let model = Model::of_gazetteer(data);
            model.candidates(model.words(input), threshold).contains(c)
        }),
        0 <= rank < other.len(),
        0 <= Model::of_gazetteer(data).rank(c.value) < data.len(),
        other[rank] == data[Model::of_gazetteer(data).rank(c.value) as int],
    ensures
        ({
            let a = Model::of_gazetteer(data);
            let b = Model::of_gazetteer(other);
            let d = with_rank(b, c, rank);
            &&& b.candidates(b.words(input), threshold).contains(d)
            &&& b.rank(d.value) == rank
            &&& b.tokens(d.value).len() == a.tokens(c.value).len()
            &&& a.parsed(input, c) == b.parsed(input, d)
        }),
{
    let a = Model::of_gazetteer(data);
    let b = Model::of_gazetteer(other);
    let d = with_rank(b, c, rank);
    lemma_of_gazetteer(data);
    lemma_of_gazetteer(other);
    law_parser_holds_the_gazetteer(data);
    law_parser_holds_the_gazetteer(other);
    assert(a.values.contains_key(c.value));
    assert(a.tokens(c.value).len() == a.spelling(c.value).len());
    lemma_of_rank(other, rank);
    lemma_matched_alike(a, b, input, threshold, c.value, d.value, c.first, c.end);
    law_matches(a, a.words(input), threshold, c);
}

/// Parsers with the same matches under other ranks of the same order give the same parsed values.
proof fn lemma_parsed_alike(
    data: Seq<EntityView>,
    other: Seq<EntityView>,
    to: spec_fn(int) -> int,
    back: spec_fn(int) -> int,
    input: Seq<char>,
    threshold: Single,
    values: Seq<ParsedView>,
)
    requires
        fits(data),
        fits(other),
        ({
            let a = Model::of_gazetteer(data);
            let b = Model::of_gazetteer(other);
            &&& a.is_parsing(input, a.candidates(a.words(input), threshold), values)
            &&& forall|c: Candidate| #[trigger]
                a.candidates(a.words(input), threshold).contains(c) ==> {
                    let rank = a.rank(c.value) as int;
                    &&& 0 <= to(rank) < other.len()
                    &&& other[to(rank)] == data[rank]
                    &&& back(to(rank)) == rank
                }
            &&& forall|d: Candidate| #[trigger]
                b.candidates(b.words(input), threshold).contains(d) ==> {
                    let rank = b.rank(d.value) as int;
                    &&& 0 <= back(rank) < data.len()
                    &&& data[back(rank)] == other[rank]
                    &&& to(back(rank)) == rank
                }
            &&& forall|c: Candidate, d: Candidate|
                #![trigger a.candidates(a.words(input), threshold).contains(c), a.candidates(a.words(input), threshold).contains(d)]
                a.candidates(a.words(input), threshold).contains(c) && a.candidates(
                    a.words(input),
                    threshold,
                ).contains(d) ==> (a.rank(c.value) < a.rank(d.value) <==> to(a.rank(c.value) as int) < to(
                    a.rank(d.value) as int,
                ))
        }),
    ensures
        ({
            let b = Model::of_gazetteer(other);
            b.is_parsing(input, b.candidates(b.words(input), threshold), values)
        }),
{
    let a = Model::of_gazetteer(data);
    let b = Model::of_gazetteer(other);
    let all = a.candidates(a.words(input), threshold);
    let more = b.candidates(b.words(input), threshold);
    lemma_of_gazetteer(data);
    lemma_of_gazetteer(other);
    law_parser_holds_the_gazetteer(data);
    law_parser_holds_the_gazetteer(other);
    let image = |c: Candidate| with_rank(b, c, to(a.rank(c.value) as int));
    let source = |d: Candidate| with_rank(a, d, back(b.rank(d.value) as int));
    assert forall|c: Candidate| #[trigger] all.contains(c) implies more.contains(image(c)) && source(
        image(c),
    ) == c && a.parsed(input, c) == b.parsed(input, image(c)) && b.rank(image(c).value) == to(
        a.rank(c.value) as int,
    ) && b.tokens(image(c).value).len() == a.tokens(c.value).len() by {
        let rank = a.rank(c.value) as int;
        assert(a.values.contains_key(c.value));
        lemma_match_of_rank(data, other, input, threshold, c, to(rank));
        assert(more.contains(image(c)));
        assert(a.tokens(c.value).len() == a.spelling(c.value).len());
        lemma_of_rank(data, rank);
        let again = of_rank(a, rank);
        assert(a.rank(again) == a.rank(c.value));
        assert(again == c.value);
    }
    assert forall|d: Candidate| #[trigger] more.contains(d) implies all.contains(source(d)) && image(
        source(d),
    ) == d by {
        let rank = b.rank(d.value) as int;
        assert(b.values.contains_key(d.value));
        lemma_match_of_rank(other, data, input, threshold, d, back(rank));
        assert(b.tokens(d.value).len() == b.spelling(d.value).len());
        lemma_of_rank(other, rank);
        let again = of_rank(b, rank);
        assert(b.rank(again) == b.rank(d.value));
        assert(again == d.value);
    }
    assert forall|c: Candidate, d: Candidate|
        #![trigger all.contains(c), all.contains(d)]
        all.contains(c) && all.contains(d) implies a.beats(c, d) == b.beats(image(c), image(d)) by {
        assert(a.rank(c.value) < a.rank(d.value) <==> to(a.rank(c.value) as int) < to(
            a.rank(d.value) as int,
        ));
        assert(a.rank(d.value) < a.rank(c.value) <==> to(a.rank(d.value) as int) < to(
            a.rank(c.value) as int,
        ));
    }
    let picks = choose|picks: Seq<Candidate>| #[trigger] a.reads(input, all, picks, values);
    lemma_selected_alike(a, b, all, more, picks, image, source);
    let others = picks.map_values(image);
    assert forall|i: int| 0 <= i < others.len() implies #[trigger] values[i] == b.parsed(
        input,
        others[i],
    ) by {
        assert(picks.to_set().contains(picks[i]));
        assert(all.contains(picks[i]));
        assert(values[i] == a.parsed(input, picks[i]));
    }
    assert(b.reads(input, more, others, values));
}

/// The chosen matches correspond if all matches and the preference among them do.
proof fn lemma_selected_alike(
    a: Model,
    b: Model,
    all: Set<Candidate>,
    more: Set<Candidate>,
    picks: Seq<Candidate>,
    image: spec_fn(Candidate) -> Candidate,
    source: spec_fn(Candidate) -> Candidate,
)
    requires
        a.is_selection(all, picks.to_set()),
        forall|c: Candidate| #[trigger]
            all.contains(c) ==> more.contains(image(c)) && source(image(c)) == c,
        forall|d: Candidate| #[trigger]
            more.contains(d) ==> all.contains(source(d)) && image(source(d)) == d,
        forall|c: Candidate| (#[trigger] image(c)).first == c.first && image(c).end == c.end,
        forall|c: Candidate, d: Candidate|
            #![trigger all.contains(c), all.contains(d)]
            all.contains(c) && all.contains(d) ==> a.beats(c, d) == b.beats(image(c), image(d)),
    ensures
        b.is_selection(more, picks.map_values(image).to_set()),
{
    let others = picks.map_values(image);
    let chosen = picks.to_set();
    let taken = others.to_set();
    assert forall|c: Candidate| #[trigger] chosen.contains(c) implies all.contains(c) && taken.contains(
        image(c),
    ) by {
        let i = choose|i: int| 0 <= i < picks.len() && picks[i] == c;
        assert(others[i] == image(c));
    }
    assert forall|d: Candidate| #[trigger] taken.contains(d) implies more.contains(d) && chosen.contains(
        source(d),
    ) by {
        let i = choose|i: int| 0 <= i < others.len() && others[i] == d;
        assert(chosen.contains(picks[i]));
        assert(all.contains(picks[i]));
        assert(d == image(picks[i]));
    }
    assert forall|d: Candidate| #[trigger] taken.contains(d) <==> more.contains(d) && forall|e: Candidate|
        #[trigger] taken.contains(e) && b.beats(e, d) ==> !overlap(e, d) by {
        if taken.contains(d) {
            assert forall|e: Candidate| #[trigger] taken.contains(e) && b.beats(e, d) implies !overlap(
                e,
                d,
            ) by {
                assert(chosen.contains(source(e)) && chosen.contains(source(d)));
                assert(all.contains(source(e)) && all.contains(source(d)));
                assert(image(source(e)) == e && image(source(d)) == d);
                assert(a.beats(source(e), source(d)));
                assert(!overlap(source(e), source(d)));
            }
        }
        if more.contains(d) && !taken.contains(d) {
            let own = source(d);
            assert(all.contains(own) && image(own) == d);
            assert(!chosen.contains(own));
            let e = choose|e: Candidate| #[trigger]
                chosen.contains(e) && a.beats(e, own) && overlap(e, own);
            assert(all.contains(e));
            assert(taken.contains(image(e)));
            assert(b.beats(image(e), d) && overlap(image(e), d));
        }
    }
}

/// What is left of a gazetteer without one entity value has no more tokens.
proof fn lemma_rest_has_no_more(data: Seq<EntityView>, i: int)
    requires
        0 <= i < data.len(),
    ensures
        different_tokens(data.remove(i)).subset_of(different_tokens(data)),
        different_tokens(data).finite(),
        forall|text: Seq<char>| #[trigger]
            occurrences(data.remove(i), text) <= occurrences(data, text),
    decreases data.len(),
{
    let rest = data.remove(i);
    if i == data.len() - 1 {
        assert(rest =~= data.drop_last());
        lemma_different_tokens(data);
        assert forall|text: Seq<char>| #[trigger] occurrences(rest, text) <= occurrences(data, text) by {}
    } else {
        assert(rest.drop_last() =~= data.drop_last().remove(i));
        assert(rest.last() == data.last());
        lemma_rest_has_no_more(data.drop_last(), i);
        assert forall|text: Seq<char>| #[trigger] occurrences(rest, text) <= occurrences(data, text) by {
            assert(occurrences(data.drop_last().remove(i), text) <= occurrences(data.drop_last(), text));
        }
    }
}

/// A parser has room for what is left of a gazetteer without one entity value.
pub proof fn law_rest_of_gazetteer_fits(data: Seq<EntityView>, i: int)
    requires
        fits(data),
        0 <= i < data.len(),
    ensures
        fits(data.remove(i)),
{
    let rest = data.remove(i);
    law_countable_gazetteers_fit(data);
    law_countable_gazetteers_fit(rest);
    lemma_rest_has_no_more(data, i);
    vstd::set_lib::lemma_len_subset(different_tokens(rest), different_tokens(data));
    assert forall|text: Seq<char>| #[trigger] occurrences(rest, text) <= u32::MAX by {
        assert(occurrences(data, text) <= u32::MAX);
    }
    assert forall|j: int| 0 <= j < rest.len() implies tokens((#[trigger] rest[j]).raw_value).len()
        <= u32::MAX by {
        assert(rest[j] == data[place_with(i, j)]);
    }
}

/// An entity value whose raw value shares no token with a query has no influence on the parsed values: they
/// are those of the gazetteer without it. This is the parser as it is made. Stop words that are computed from
/// the frequencies of tokens may differ without the entity value.
pub proof fn law_entity_value_without_common_token_has_no_influence(
    data: Seq<EntityView>,
    i: int,
    input: Seq<char>,
    threshold: Single,
    values: Seq<ParsedView>,
)
    requires
        fits(data),
        0 <= i < data.len(),
        forall|j: int|
            0 <= j < tokens(input).len() ==> !tokens(data[i].raw_value).contains(
                #[trigger] tokens(input)[j],
            ),
    ensures
        ({
            let a = Model::of_gazetteer(data);
            let b = Model::of_gazetteer(data.remove(i));
            a.is_parsing(input, a.candidates(a.words(input), threshold), values) <==> b.is_parsing(
                input,
                b.candidates(b.words(input), threshold),
                values,
            )
        }),
{
    let rest = data.remove(i);
    law_rest_of_gazetteer_fits(data, i);
    let a = Model::of_gazetteer(data);
    let b = Model::of_gazetteer(rest);
    let all = a.candidates(a.words(input), threshold);
    let more = b.candidates(b.words(input), threshold);
    let to = |place: int| place_without(i, place);
    let back = |place: int| place_with(i, place);
    lemma_of_gazetteer(data);
    lemma_of_gazetteer(rest);
    law_parser_holds_the_gazetteer(data);
    law_parser_holds_the_gazetteer(rest);
    assert forall|c: Candidate| #[trigger] all.contains(c) implies {
        let rank = a.rank(c.value) as int;
        &&& 0 <= to(rank) < rest.len()
        &&& rest[to(rank)] == data[rank]
        &&& back(to(rank)) == rank
        &&& rank != i
    } by {
        let words = a.words(input);
        assert(a.values.contains_key(c.value));
        law_matches(a, words, threshold, c);
        if a.rank(c.value) == i {
            let token = words[c.first].symbol->0;
            assert(a.tokens(c.value).contains(token));
            let k = choose|k: int| 0 <= k < a.tokens(c.value).len() && a.tokens(c.value)[k] == token;
            lemma_word_spelled(a, input, c.value, c.first, k);
            assert(a.spelling(c.value)[k] == tokens(input)[c.first]);
            assert(tokens(data[i].raw_value).contains(tokens(input)[c.first]));
        }
    }
    assert forall|d: Candidate| #[trigger] more.contains(d) implies {
        let rank = b.rank(d.value) as int;
        &&& 0 <= back(rank) < data.len()
        &&& data[back(rank)] == rest[rank]
        &&& to(back(rank)) == rank
    } by {
        assert(b.values.contains_key(d.value));
    }
    if a.is_parsing(input, all, values) {
        lemma_parsed_alike(data, rest, to, back, input, threshold, values);
    }
    if b.is_parsing(input, more, values) {
        lemma_parsed_alike(rest, data, back, to, input, threshold, values);
    }
}

} // verus!
