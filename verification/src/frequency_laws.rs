//! Which tokens of a gazetteer become stop words.

use crate::construction::{fits, lemma_all_tokens, lemma_of_gazetteer, lemma_with_resolved_value};
use crate::data::EntityView;
use crate::gazetteer_laws::{count_in, law_parser_holds_the_gazetteer, lemma_extended, occurrences};
use crate::model::Model;
use crate::room_laws::lemma_positive;
use crate::single::{above, Single};
use crate::stop_words::lemma_with_stop_words;
use crate::text_laws::lemma_stop_word_spelled;
use crate::utils::{law_resolved_value_comes_back, tokens, unformat_resolved, white_space};
use vstd::prelude::*;

verus! {

broadcast use vstd::seq_lib::group_to_multiset_ensures;

/// Counting in a list is counting in its multiset.
proof fn lemma_count_in(list: Seq<Seq<char>>, text: Seq<char>)
    ensures
        count_in(list, text) == list.to_multiset().count(text),
    decreases list.len(),
{
    if list.len() > 0 {
        lemma_count_in(list.drop_last(), text);
        assert(list =~= list.drop_last().push(list.last()));
    }
}

/// The occurrences of a token in a gazetteer are those in the list of the tokens of all its raw values.
pub proof fn law_occurrences_are_counted(data: Seq<EntityView>, text: Seq<char>)
    ensures
        occurrences(data, text) == data.map_values(
            |entity: EntityView| tokens(entity.raw_value),
        ).flatten().to_multiset().count(text),
    decreases data.len(),
{
    let lists = |entity: EntityView| tokens(entity.raw_value);
    if data.len() == 0 {
        assert(data.map_values(lists).flatten() =~= Seq::<Seq<char>>::empty());
    } else {
        let less = data.drop_last();
        law_occurrences_are_counted(less, text);
        let a = less.map_values(lists);
        let b = tokens(data.last().raw_value);
        assert(data.map_values(lists) =~= a.push(b));
        a.lemma_flatten_push(b);
        vstd::seq_lib::lemma_multiset_commutative(a.flatten(), b);
        lemma_count_in(b, text);
    }
}

/// A parser holds as many resolved values as the gazetteer has entity values with tokens.
pub proof fn law_entity_values_with_tokens_are_held(data: Seq<EntityView>)
    requires
        fits(data),
    ensures
        Model::of_gazetteer(data).values.dom().len() == data.filter(
            |entity: EntityView| tokens(entity.raw_value).len() > 0,
        ).len(),
    decreases data.len(),
{
    reveal(Seq::filter);
    let some = |entity: EntityView| tokens(entity.raw_value).len() > 0;
    if data.len() > 0 {
        let less = data.drop_last();
        let last = data.last();
        let list = tokens(last.raw_value);
        let rank = (data.len() - 1) as u32;
        let before = Model::of_gazetteer(less);
        let value = before.symbols.len() as u32;
        let start = before.with_resolved_value(last.resolved_value);
        let after = Model::of_gazetteer(data);
        law_entity_values_with_tokens_are_held(less);
        law_parser_holds_the_gazetteer(less);
        lemma_of_gazetteer(less);
        lemma_all_tokens(last.raw_value);
        lemma_with_resolved_value(before, last.resolved_value, rank);
        lemma_extended(start, value, rank, Seq::empty(), list);
        assert forall|v: u32| after.values.dom().contains(v) <==> before.values.dom().contains(v) || (v
            == value && list.len() > 0) by {
            if v != value {
                assert(after.values.contains_key(v) <==> start.values.contains_key(v));
            }
        }
        if list.len() > 0 {
            assert(after.values.dom() =~= before.values.dom().insert(value));
        } else {
            assert(after.values.dom() =~= before.values.dom());
        }
        assert(data.filter(some).len() == less.filter(some).len() + if some(last) {
            1nat
        } else {
            0
        });
    } else {
        assert(data.filter(some) =~= data);
    }
}

/// Computing stop words adds the tokens for which the number of times that they have been counted, over the
/// number of resolved values, is greater than the threshold.
pub proof fn law_frequent_tokens_become_stop_words(model: Model, threshold_freq: Single, token: u32)
    ensures
        model.with_stop_words(threshold_freq).stop_words.contains(token) <==> {
            ||| model.stop_words.contains(token)
            ||| model.counts.contains_key(token) && above(
                model.counts[token] as nat,
                model.values.dom().len(),
                threshold_freq,
            )
        },
{
}

/// After stop words have been computed for the parser of a gazetteer, a token is a stop word exactly if it was
/// one before, or if it occurs in the raw values and the number of its occurrences there, over the number of
/// entity values that have tokens, is greater than the threshold. A resolved value is an edge case exactly if
/// all tokens of its raw value are stop words then.
pub proof fn law_stop_words_are_the_frequent_tokens(
    data: Seq<EntityView>,
    model: Model,
    threshold_freq: Single,
    text: Seq<char>,
)
    requires
        fits(data),
        model.wf(),
        model == (Model {
            stop_words: model.stop_words,
            edge_cases: model.edge_cases,
            ..Model::of_gazetteer(data)
        }),
    ensures
        ({
            let after = model.with_stop_words(threshold_freq);
            let times = data.map_values(
                |entity: EntityView| tokens(entity.raw_value),
            ).flatten().to_multiset().count(text);
            let entities = data.filter(|entity: EntityView| tokens(entity.raw_value).len() > 0).len();
            let stops = model.stop_words.map(|t: u32| model.symbols[t as int]);
            let more = after.stop_words.map(|t: u32| after.symbols[t as int]);
            &&& more.contains(text) <==> stops.contains(text) || (times > 0 && above(
                times,
                entities,
                threshold_freq,
            ))
            &&& forall|v: u32| #[trigger]
                after.edge_cases.contains(v) <==> {
                    let raw = tokens(data[after.values[v].0 as int].raw_value);
                    &&& after.values.contains_key(v)
                    &&& forall|k: int| 0 <= k < raw.len() ==> more.contains(#[trigger] raw[k])
                }
            &&& after == (Model {
                stop_words: after.stop_words,
                edge_cases: after.edge_cases,
                ..Model::of_gazetteer(data)
            })
        }),
{
    let plain = Model::of_gazetteer(data);
    let after = model.with_stop_words(threshold_freq);
    let times = data.map_values(
        |entity: EntityView| tokens(entity.raw_value),
    ).flatten().to_multiset().count(text);
    let entities = data.filter(|entity: EntityView| tokens(entity.raw_value).len() > 0).len();
    let spell = |t: u32| model.symbols[t as int];
    let again = |t: u32| after.symbols[t as int];
    let stops = model.stop_words.map(spell);
    let more = after.stop_words.map(again);
    law_parser_holds_the_gazetteer(data);
    law_occurrences_are_counted(data, text);
    law_entity_values_with_tokens_are_held(data);
    lemma_with_stop_words(model, threshold_freq);
    if more.contains(text) {
        let t = choose|t: u32| after.stop_words.contains(t) && text == again(t);
        if model.stop_words.contains(t) {
            assert(stops.contains(spell(t)));
        } else {
            assert(plain.counts.contains_key(t));
            assert(plain.counts[t] == occurrences(data, text));
            lemma_positive(data);
        }
    }
    if stops.contains(text) {
        let t = choose|t: u32| model.stop_words.contains(t) && text == spell(t);
        assert(after.stop_words.contains(t));
        assert(more.contains(again(t)));
    }
    if times > 0 && above(times, entities, threshold_freq) {
        assert(plain.has_counted(text));
        let t = choose|t: u32| #[trigger]
            plain.counts.contains_key(t) && plain.symbols[t as int] == text;
        assert(plain.counts[t] == times);
        assert(after.stop_words.contains(t));
        assert(more.contains(again(t)));
    }
    assert forall|v: u32| #[trigger] after.edge_cases.contains(v) <==> {
        let raw = tokens(data[after.values[v].0 as int].raw_value);
        &&& after.values.contains_key(v)
        &&& forall|k: int| 0 <= k < raw.len() ==> more.contains(#[trigger] raw[k])
    } by {
        if after.values.contains_key(v) {
            let raw = tokens(data[after.values[v].0 as int].raw_value);
            assert(plain.values.contains_key(v));
            assert(plain.spelling(v) == raw);
            assert(raw.len() == after.tokens(v).len());
            assert forall|k: int| 0 <= k < raw.len() implies (more.contains(#[trigger] raw[k])
                <==> after.stop_words.contains(after.tokens(v)[k])) by {
                assert(raw[k] == after.symbols[after.tokens(v)[k] as int]);
                assert(after.occurs_in(after.tokens(v)[k], v));
                lemma_stop_word_spelled(after, after.tokens(v)[k]);
            }
            if after.only_stop_words(v) {
                assert forall|k: int| 0 <= k < raw.len() implies more.contains(#[trigger] raw[k]) by {
                    assert(after.stop_words.contains(after.tokens(v)[k]));
                }
            }
            if forall|k: int| 0 <= k < raw.len() ==> more.contains(#[trigger] raw[k]) {
                assert forall|k: int| 0 <= k < after.tokens(v).len() implies after.stop_words.contains(
                    #[trigger] after.tokens(v)[k],
                ) by {
                    assert(more.contains(raw[k]));
                }
            }
        }
    }
}

/// The edge cases of the parser for a gazetteer are the resolved values, with plain spaces, of the entity values
/// that have tokens, all of which are stop words.
pub proof fn law_edge_cases_are_entity_values(data: Seq<EntityView>, model: Model, text: Seq<char>)
    requires
        fits(data),
        model.wf(),
        model == (Model {
            stop_words: model.stop_words,
            edge_cases: model.edge_cases,
            ..Model::of_gazetteer(data)
        }),
    ensures
        ({
            let stops = model.stop_words.map(|t: u32| model.symbols[t as int]);
            model.edge_cases.map(|value: u32| unformat_resolved(model.symbols[value as int])).contains(
                text,
            ) <==> exists|i: int|
                {
                    let raw = tokens(data[i].raw_value);
                    let resolved = (#[trigger] data[i]).resolved_value;
                    &&& 0 <= i < data.len()
                    &&& 0 < raw.len()
                    &&& forall|k: int| 0 <= k < raw.len() ==> stops.contains(#[trigger] raw[k])
                    &&& text == Seq::new(
                        resolved.len(),
                        |k: int|
                            if white_space(resolved[k]) {
                                ' '
                            } else {
                                resolved[k]
                            },
                    )
                }
        }),
{
    let plain = Model::of_gazetteer(data);
    let stops = model.stop_words.map(|t: u32| model.symbols[t as int]);
    let name = |value: u32| unformat_resolved(model.symbols[value as int]);
    law_parser_holds_the_gazetteer(data);
    assert forall|v: u32| #[trigger] model.values.contains_key(v) implies {
        let i = model.rank(v) as int;
        let raw = tokens(data[i].raw_value);
        let resolved = data[i].resolved_value;
        &&& 0 <= i < data.len()
        &&& 0 < raw.len()
        &&& model.edge_cases.contains(v) <==> forall|k: int|
            0 <= k < raw.len() ==> stops.contains(#[trigger] raw[k])
        &&& name(v) == Seq::new(
            resolved.len(),
            |k: int|
                if white_space(resolved[k]) {
                    ' '
                } else {
                    resolved[k]
                },
        )
    } by {
        let i = model.rank(v) as int;
        let raw = tokens(data[i].raw_value);
        let resolved = data[i].resolved_value;
        assert(plain.values.contains_key(v));
        assert(plain.spelling(v) == raw);
        assert(raw.len() == model.tokens(v).len());
        law_resolved_value_comes_back(resolved);
        assert(name(v) =~= Seq::new(
            resolved.len(),
            |k: int|
                if white_space(resolved[k]) {
                    ' '
                } else {
                    resolved[k]
                },
        ));
        assert forall|k: int| 0 <= k < raw.len() implies (stops.contains(#[trigger] raw[k])
            <==> model.stop_words.contains(model.tokens(v)[k])) by {
            assert(raw[k] == model.symbols[model.tokens(v)[k] as int]);
            assert(model.occurs_in(model.tokens(v)[k], v));
            lemma_stop_word_spelled(model, model.tokens(v)[k]);
        }
        if model.only_stop_words(v) {
            assert forall|k: int| 0 <= k < raw.len() implies stops.contains(#[trigger] raw[k]) by {
                assert(model.stop_words.contains(model.tokens(v)[k]));
            }
        }
        if forall|k: int| 0 <= k < raw.len() ==> stops.contains(#[trigger] raw[k]) {
            assert forall|k: int| 0 <= k < model.tokens(v).len() implies model.stop_words.contains(
                #[trigger] model.tokens(v)[k],
            ) by {
                assert(stops.contains(raw[k]));
            }
        }
    }
    if model.edge_cases.map(name).contains(text) {
        let v = choose|v: u32| model.edge_cases.contains(v) && text == name(v);
        assert(model.values.contains_key(v));
        let i = model.rank(v) as int;
        assert(data[i].resolved_value == data[i].resolved_value);
    }
    if exists|i: int|
        {
            let raw = tokens(data[i].raw_value);
            let resolved = (#[trigger] data[i]).resolved_value;
            &&& 0 <= i < data.len()
            &&& 0 < raw.len()
            &&& forall|k: int| 0 <= k < raw.len() ==> stops.contains(#[trigger] raw[k])
            &&& text == Seq::new(
                resolved.len(),
                |k: int|
                    if white_space(resolved[k]) {
                        ' '
                    } else {
                        resolved[k]
                    },
            )
        } {
        let i = choose|i: int|
            {
                let raw = tokens(data[i].raw_value);
                let resolved = (#[trigger] data[i]).resolved_value;
                &&& 0 <= i < data.len()
                &&& 0 < raw.len()
                &&& forall|k: int| 0 <= k < raw.len() ==> stops.contains(#[trigger] raw[k])
                &&& text == Seq::new(
                    resolved.len(),
                    |k: int|
                        if white_space(resolved[k]) {
                            ' '
                        } else {
                            resolved[k]
                        },
                )
            };
        assert(plain.has_rank(i));
        let v = choose|v: u32| #[trigger] plain.values.contains_key(v) && plain.rank(v) == i;
        assert(model.values.contains_key(v));
        assert(model.edge_cases.contains(v));
        assert(model.edge_cases.map(name).contains(name(v)));
    }
}

} // verus!
