//! What the parser for a gazetteer knows and finds.

use crate::construction::{
    adding, fits, lemma_all_tokens, lemma_of_gazetteer, lemma_with_resolved_value, lemma_with_symbol,
    lemma_with_tokens,
};
use crate::data::EntityView;
use crate::matching_laws::law_whole_value_is_parsed;
use crate::model::{complete, is_token, Model};
use crate::parsed_value::ParsedView;
use crate::search::{lemma_is_token, lemma_lookup};
use crate::single::{not_above, Single};
use crate::symbol_table::with_symbol;
use crate::utils::{
    format_resolved, law_resolved_value_comes_back, plain_spaces, token_ranges, tokens,
};
use vstd::prelude::*;

verus! {

/// The number of times that `token` stands in `list`.
pub open spec fn count_in(list: Seq<Seq<char>>, token: Seq<char>) -> nat
    decreases list.len(),
{
    if list.len() == 0 {
        0
    } else {
        count_in(list.drop_last(), token) + if list.last() == token {
            1nat
        } else {
            0
        }
    }
}

/// The number of times that `token` occurs in the raw values of a gazetteer.
pub open spec fn occurrences(data: Seq<EntityView>, token: Seq<char>) -> nat
    decreases data.len(),
{
    if data.len() == 0 {
        0
    } else {
        occurrences(data.drop_last(), token) + count_in(tokens(data.last().raw_value), token)
    }
}

impl Model {
    /// The tokens of a resolved value, spelled out.
    pub open spec fn spelling(self, value: u32) -> Seq<Seq<char>> {
        self.tokens(value).map_values(|token: u32| self.symbols[token as int])
    }

    /// Whether `text` is one of the counted tokens.
    pub open spec fn has_counted(self, text: Seq<char>) -> bool {
        exists|token: u32| #[trigger]
            self.counts.contains_key(token) && self.symbols[token as int] == text
    }

    /// Whether some resolved value has the rank `rank`.
    pub open spec fn has_rank(self, rank: int) -> bool {
        exists|value: u32| #[trigger] self.values.contains_key(value) && self.rank(value) == rank
    }

    /// How often a token has been counted.
    pub open spec fn count(self, token: u32) -> nat {
        if self.counts.contains_key(token) {
            self.counts[token] as nat
        } else {
            0
        }
    }
}

/// What changes when the tokens `list` of `value` are added, where `value` has the tokens `had`.
pub open spec fn extended(
    model: Model,
    after: Model,
    value: u32,
    rank: u32,
    had: Seq<Seq<char>>,
    list: Seq<Seq<char>>,
) -> bool {
    &&& model.symbols.len() <= after.symbols.len()
    &&& forall|i: int| 0 <= i < model.symbols.len() ==> #[trigger] after.symbols[i] == model.symbols[i]
    &&& forall|v: u32|
        v != value ==> (#[trigger] after.values.contains_key(v) <==> model.values.contains_key(v))
            && after.values[v] == model.values[v]
    &&& after.values.contains_key(value) <==> had.len() + list.len() > 0
    &&& after.values.contains_key(value) ==> after.rank(value) == rank && after.spelling(value) == had
        + list
    &&& forall|t: u32| #[trigger]
        after.counts.contains_key(t) ==> after.counts[t] == model.count(t) + count_in(
            list,
            after.symbols[t as int],
        )
    &&& forall|t: u32| #[trigger] model.counts.contains_key(t) ==> after.counts.contains_key(t)
    &&& forall|k: int|
        0 <= k < list.len() ==> after.has_counted(#[trigger] list[k])
}

/// Adding the tokens of a value changes what [`extended`] says.
pub proof fn lemma_extended(
    model: Model,
    value: u32,
    rank: u32,
    had: Seq<Seq<char>>,
    list: Seq<Seq<char>>,
)
    requires
        adding(model, value, rank),
        model.has_room_for(value, rank, list),
        forall|i: int| 0 <= i < list.len() ==> is_token(#[trigger] list[i]),
        model.values.contains_key(value) <==> had.len() > 0,
        model.values.contains_key(value) ==> model.spelling(value) == had,
    ensures
        extended(model, model.with_tokens(value, rank, list), value, rank, had, list),
    decreases list.len(),
{
    if list.len() == 0 {
        assert(had + list =~= had);
    } else {
        let most = list.drop_last();
        let token = list.last();
        let middle = model.with_tokens(value, rank, most);
        let after = model.with_tokens(value, rank, list);
        lemma_extended(model, value, rank, had, most);
        lemma_with_tokens(model, value, rank, most);
        lemma_with_tokens(model, value, rank, list);
        lemma_with_symbol(middle, token);
        let (symbols, index) = with_symbol(middle.symbols, token, false)->Ok_0;
        assert(after.symbols[index as int] == token);
        assert forall|i: int| 0 <= i < middle.symbols.len() implies #[trigger] after.symbols[i]
            == middle.symbols[i] by {}
        assert forall|i: int| 0 <= i < model.symbols.len() implies #[trigger] after.symbols[i]
            == model.symbols[i] by {
            assert(middle.symbols[i] == model.symbols[i]);
        }
        assert(after.spelling(value) =~= had + list) by {
            assert(had + list =~= (had + most).push(token));
            if middle.values.contains_key(value) {
                assert forall|k: int| 0 <= k < middle.tokens(value).len() implies #[trigger] after.spelling(
                    value,
                )[k] == middle.spelling(value)[k] by {
                    assert(middle.occurs_in(middle.tokens(value)[k], value));
                    assert(middle.token_values.contains_key(middle.tokens(value)[k]));
                }
            } else {
                assert(had + most =~= Seq::<Seq<char>>::empty());
            }
        }
        assert forall|t: u32| #[trigger] after.counts.contains_key(t) implies after.counts[t]
            == model.count(t) + count_in(list, after.symbols[t as int]) by {
            if t == index {
                if middle.counts.contains_key(t) {
                    assert(middle.symbols[t as int] == token);
                } else {
                    assert(!model.counts.contains_key(t));
                    lemma_not_counted(middle, most, token);
                }
            } else {
                assert(middle.counts.contains_key(t));
                assert(middle.token_values.contains_key(t));
                assert(after.symbols[t as int] == middle.symbols[t as int]);
                if after.symbols[t as int] == token {
                    assert(is_token(after.symbols[t as int]));
                    assert(t < index || index < t);
                    assert(is_token(after.symbols[index as int]));
                    assert(after.symbols[t as int] != after.symbols[index as int]);
                }
            }
        }
        assert forall|k: int| 0 <= k < list.len() implies after.has_counted(#[trigger] list[k]) by {
            if k < list.len() - 1 {
                assert(most[k] == list[k]);
                assert(middle.has_counted(most[k]));
                let t = choose|t: u32| #[trigger]
                    middle.counts.contains_key(t) && middle.symbols[t as int] == most[k];
                assert(middle.token_values.contains_key(t));
                assert(after.counts.contains_key(t) && after.symbols[t as int] == list[k]);
            } else {
                assert(after.counts.contains_key(index) && after.symbols[index as int] == list[k]);
            }
        }
    }
}

/// A token that is not among the symbols does not stand in a list of counted ones.
proof fn lemma_not_counted(model: Model, list: Seq<Seq<char>>, token: Seq<char>)
    requires
        model.wf(),
        !model.symbols.contains(token),
        forall|k: int|
            0 <= k < list.len() ==> model.has_counted(#[trigger] list[k]),
    ensures
        count_in(list, token) == 0,
    decreases list.len(),
{
    if list.len() > 0 {
        let most = list.drop_last();
        assert forall|k: int| 0 <= k < most.len() implies model.has_counted(#[trigger] most[k]) by {
            assert(list[k] == most[k]);
        }
        lemma_not_counted(model, most, token);
        let last = list[list.len() - 1];
        assert(model.has_counted(last));
        let t = choose|t: u32| #[trigger]
            model.counts.contains_key(t) && model.symbols[t as int] == last;
        assert(model.token_values.contains_key(t));
        assert(model.symbols[t as int] == last);
    }
}

/// The resolved values of `model` are the entity values of `data` that have tokens: the rank of each is
/// the place of its entity value, its symbol stands for the resolved value, and its tokens are those of
/// the raw value in their order. The counts are those of the tokens in all raw values.
pub open spec fn describes(model: Model, data: Seq<EntityView>) -> bool {
    &&& forall|v: u32| #[trigger]
        model.values.contains_key(v) ==> {
            let entity_value = data[model.rank(v) as int];
            &&& model.rank(v) < data.len()
            &&& model.symbols[v as int] == format_resolved(entity_value.resolved_value)
            &&& model.spelling(v) == tokens(entity_value.raw_value)
        }
    &&& forall|i: int|
        0 <= i < data.len() && tokens((#[trigger] data[i]).raw_value).len() > 0 ==> model.has_rank(i)
    &&& forall|t: u32| #[trigger]
        model.counts.contains_key(t) ==> model.counts[t] == occurrences(data, model.symbols[t as int])
    &&& forall|text: Seq<char>| #[trigger] occurrences(data, text) > 0 ==> model.has_counted(text)
}

/// The parser for a gazetteer holds the entity values of the gazetteer that have tokens, and nothing
/// else.
pub proof fn law_parser_holds_the_gazetteer(data: Seq<EntityView>)
    requires
        fits(data),
    ensures
        describes(Model::of_gazetteer(data), data),
    decreases data.len(),
{
    lemma_of_gazetteer(data);
    if data.len() > 0 {
        let less = data.drop_last();
        let last = data.last();
        let list = tokens(last.raw_value);
        let rank = (data.len() - 1) as u32;
        let before = Model::of_gazetteer(less);
        let value = before.symbols.len() as u32;
        let start = before.with_resolved_value(last.resolved_value);
        let after = Model::of_gazetteer(data);
        law_parser_holds_the_gazetteer(less);
        lemma_of_gazetteer(less);
        lemma_all_tokens(last.raw_value);
        lemma_with_resolved_value(before, last.resolved_value, rank);
        lemma_extended(start, value, rank, Seq::empty(), list);
        assert(Seq::<Seq<char>>::empty() + list =~= list);
        assert(start.symbols[value as int] == format_resolved(last.resolved_value));
        assert(after.symbols[value as int] == start.symbols[value as int]);
        assert forall|v: u32| #[trigger] after.values.contains_key(v) implies {
            let entity_value = data[after.rank(v) as int];
            &&& after.rank(v) < data.len()
            &&& after.symbols[v as int] == format_resolved(entity_value.resolved_value)
            &&& after.spelling(v) == tokens(entity_value.raw_value)
        } by {
            if v != value {
                assert(before.values.contains_key(v));
                assert(after.symbols[v as int] == start.symbols[v as int]);
                assert(after.spelling(v) =~= before.spelling(v)) by {
                    assert forall|k: int| 0 <= k < before.tokens(v).len() implies #[trigger] after.spelling(
                        v,
                    )[k] == before.spelling(v)[k] by {
                        let t = before.tokens(v)[k];
                        assert(before.occurs_in(t, v));
                        assert(before.token_values.contains_key(t));
                        assert(after.symbols[t as int] == start.symbols[t as int]);
                    }
                }
                assert(data[after.rank(v) as int] == less[before.rank(v) as int]);
            }
        }
        assert forall|i: int|
            0 <= i < data.len() && tokens((#[trigger] data[i]).raw_value).len() > 0 implies after.has_rank(
            i,
        ) by {
            if i < less.len() {
                assert(less[i] == data[i]);
                assert(before.has_rank(i));
                let v = choose|v: u32| #[trigger] before.values.contains_key(v) && before.rank(v) == i;
                assert(v != value);
                assert(after.values.contains_key(v) && after.rank(v) == i);
            } else {
                assert(after.values.contains_key(value) && after.rank(value) == i);
            }
        }
        assert forall|t: u32| #[trigger] after.counts.contains_key(t) implies after.counts[t]
            == occurrences(data, after.symbols[t as int]) by {
            let text = after.symbols[t as int];
            if before.counts.contains_key(t) {
                assert(before.token_values.contains_key(t));
                assert(after.symbols[t as int] == start.symbols[t as int]);
            } else if occurrences(less, text) > 0 {
                assert(before.has_counted(text));
                let s = choose|s: u32| #[trigger]
                    before.counts.contains_key(s) && before.symbols[s as int] == text;
                assert(before.token_values.contains_key(s));
                assert(after.symbols[s as int] == start.symbols[s as int]);
                assert(after.token_values.contains_key(t));
                assert(is_token(after.symbols[s as int]));
                assert(is_token(after.symbols[t as int]));
                assert(s < t || t < s);
                assert(false);
            }
        }
        assert forall|text: Seq<char>| #[trigger] occurrences(data, text) > 0 implies after.has_counted(
            text,
        ) by {
            if occurrences(less, text) > 0 {
                assert(before.has_counted(text));
                let s = choose|s: u32| #[trigger]
                    before.counts.contains_key(s) && before.symbols[s as int] == text;
                assert(before.token_values.contains_key(s));
                assert(start.counts.contains_key(s));
                assert(after.symbols[s as int] == start.symbols[s as int]);
                assert(after.counts.contains_key(s) && after.symbols[s as int] == text);
            } else {
                lemma_counted_is_in(list, text);
                let k = choose|k: int| 0 <= k < list.len() && list[k] == text;
                assert(after.has_counted(list[k]));
            }
        }
    }
}

/// What is counted in a list stands in it.
pub proof fn lemma_counted_is_in(list: Seq<Seq<char>>, token: Seq<char>)
    requires
        count_in(list, token) > 0,
    ensures
        list.contains(token),
    decreases list.len(),
{
    if list.last() == token {
        assert(list[list.len() - 1] == token);
    } else {
        let most = list.drop_last();
        lemma_counted_is_in(most, token);
        let k = choose|k: int| 0 <= k < most.len() && most[k] == token;
        assert(list[k] == token);
    }
}

/// Two values that are spelled alike have the same tokens.
proof fn lemma_same_spelling(model: Model, a: u32, b: u32)
    requires
        model.wf(),
        model.values.contains_key(a),
        model.values.contains_key(b),
        model.spelling(a) == model.spelling(b),
    ensures
        model.tokens(a) == model.tokens(b),
{
    assert(model.tokens(a).len() == model.spelling(a).len());
    assert(model.tokens(b).len() == model.spelling(b).len());
    assert forall|k: int| 0 <= k < model.tokens(a).len() implies #[trigger] model.tokens(a)[k]
        == model.tokens(b)[k] by {
        let x = model.tokens(a)[k];
        let y = model.tokens(b)[k];
        assert(model.spelling(a)[k] == model.symbols[x as int]);
        assert(model.spelling(b)[k] == model.symbols[y as int]);
        assert(model.occurs_in(x, a));
        assert(model.occurs_in(y, b));
        assert(model.token_values.contains_key(x));
        assert(model.token_values.contains_key(y));
        assert(is_token(model.symbols[x as int]));
        assert(is_token(model.symbols[y as int]));
        assert(x < y || y < x || x == y);
    }
    assert(model.tokens(a) =~= model.tokens(b));
}

/// The words of a query that is spelled like a value are the tokens of the value.
proof fn lemma_words_of_value(model: Model, input: Seq<char>, value: u32)
    requires
        model.wf(),
        model.values.contains_key(value),
        model.spelling(value) == tokens(input),
    ensures
        model.words(input).len() == model.tokens(value).len(),
        model.stands_at(model.words(input), value, 0),
{
    let words = model.words(input);
    assert(words.len() == tokens(input).len());
    assert(model.tokens(value).len() == model.spelling(value).len());
    assert forall|k: int| 0 <= k < model.tokens(value).len() implies (#[trigger] words[0 + k]).symbol
        == Some(model.tokens(value)[k]) by {
        let token = model.tokens(value)[k];
        let text = tokens(input)[k];
        lemma_is_token(input, k);
        lemma_lookup(model, text);
        assert(model.spelling(value)[k] == model.symbols[token as int]);
        assert(model.occurs_in(token, value));
        assert(model.token_values.contains_key(token));
        assert(model.symbols[token as int] == text);
        assert(model.symbols.contains(text));
        let found = words[k].symbol->0;
        assert(model.symbols[found as int] == text);
        assert(is_token(model.symbols[found as int]));
        assert(found < token || token < found || found == token);
    }
}

/// A query with the tokens of a raw value of a gazetteer gives one parsed value, from the first token
/// to the last, whichever tokens are stop words. It is the resolved value, with plain spaces, of the entity
/// value that comes first in the gazetteer among those whose raw values have these tokens. The threshold
/// may be any number up to 1.
pub proof fn law_entity_value_is_parsed(
    data: Seq<EntityView>,
    model: Model,
    i: int,
    input: Seq<char>,
    threshold: Single,
    values: Seq<ParsedView>,
) -> (first: int)
    requires
        fits(data),
        model.wf(),
        model == (Model {
            stop_words: model.stop_words,
            edge_cases: model.edge_cases,
            ..Model::of_gazetteer(data)
        }),
        0 <= i < data.len(),
        tokens(data[i].raw_value).len() > 0,
        tokens(input) == tokens(data[i].raw_value),
        not_above(threshold, complete()),
        model.is_parsing(input, model.candidates(model.words(input), threshold), values),
    ensures
        0 <= first <= i,
        tokens(data[first].raw_value) == tokens(input),
        forall|j: int| 0 <= j < first ==> tokens((#[trigger] data[j]).raw_value) != tokens(input),
        ({
            let start = token_ranges(input).first().0;
            let end = token_ranges(input).last().1;
            values == seq![
                (ParsedView {
                    resolved_value: plain_spaces(data[first].resolved_value),
                    start,
                    end,
                    raw_value: input.subrange(start, end),
                }),
            ]
        }),
{
    let plain = Model::of_gazetteer(data);
    law_parser_holds_the_gazetteer(data);
    assert forall|v: u32| #[trigger] model.values.contains_key(v) implies model.spelling(v)
        == plain.spelling(v) by {
        assert(model.spelling(v) =~= plain.spelling(v));
    }
    assert(plain.has_rank(i));
    let value = choose|v: u32| #[trigger] plain.values.contains_key(v) && plain.rank(v) == i;
    assert(model.values.contains_key(value));
    lemma_words_of_value(model, input, value);
    let found = law_whole_value_is_parsed(model, input, value, threshold, values);
    let first = model.rank(found) as int;
    assert(model.spelling(found) == model.spelling(value));
    assert(model.rank(found) <= model.rank(value));
    law_resolved_value_comes_back(data[first].resolved_value);
    assert forall|j: int| 0 <= j < first implies tokens((#[trigger] data[j]).raw_value) != tokens(
        input,
    ) by {
        if tokens(data[j].raw_value) == tokens(input) {
            assert(plain.has_rank(j));
            let other = choose|v: u32| #[trigger] plain.values.contains_key(v) && plain.rank(v) == j;
            assert(model.values.contains_key(other));
            lemma_same_spelling(model, other, value);
            assert(model.rank(found) <= model.rank(other));
        }
    }
    first
}

/// Two entity values keep separate entries, even if their resolved values are equal: each has its own
/// symbol, rank and tokens.
pub proof fn law_entity_values_stay_apart(data: Seq<EntityView>, i: int, j: int) -> (values: (u32, u32))
    requires
        fits(data),
        0 <= i < data.len(),
        0 <= j < data.len(),
        i != j,
        tokens(data[i].raw_value).len() > 0,
        tokens(data[j].raw_value).len() > 0,
    ensures
        ({
            let model = Model::of_gazetteer(data);
            &&& values.0 != values.1
            &&& model.values.contains_key(values.0) && model.values.contains_key(values.1)
            &&& model.rank(values.0) == i && model.rank(values.1) == j
            &&& model.symbols[values.0 as int] == format_resolved(data[i].resolved_value)
            &&& model.symbols[values.1 as int] == format_resolved(data[j].resolved_value)
            &&& model.spelling(values.0) == tokens(data[i].raw_value)
            &&& model.spelling(values.1) == tokens(data[j].raw_value)
        }),
{
    let model = Model::of_gazetteer(data);
    law_parser_holds_the_gazetteer(data);
    assert(model.has_rank(i) && model.has_rank(j));
    let a = choose|v: u32| #[trigger] model.values.contains_key(v) && model.rank(v) == i;
    let b = choose|v: u32| #[trigger] model.values.contains_key(v) && model.rank(v) == j;
    (a, b)
}

} // verus!
