//! For which gazetteers a parser has room.

use crate::construction::{
    adding, fits, lemma_all_tokens, lemma_of_gazetteer, lemma_with_resolved_value, lemma_with_symbol,
    lemma_with_token, lemma_with_tokens,
};
use crate::data::EntityView;
use crate::frequency_laws::law_occurrences_are_counted;
use crate::gazetteer_laws::{
    count_in, law_parser_holds_the_gazetteer, lemma_counted_is_in, occurrences,
};
use crate::model::{is_token, Model};
use crate::symbol_table::with_symbol;
use crate::utils::tokens;
use vstd::prelude::*;

verus! {

/// The different tokens in the raw values of a gazetteer.
pub open spec fn different_tokens(data: Seq<EntityView>) -> Set<Seq<char>>
    decreases data.len(),
{
    if data.len() == 0 {
        Set::empty()
    } else {
        different_tokens(data.drop_last()).union(tokens(data.last().raw_value).to_set())
    }
}

/// Whether the entity values and the different tokens of a gazetteer together, the occurrences of each
/// token, and the tokens of each raw value can be counted with 32 bits.
pub open spec fn is_countable(data: Seq<EntityView>) -> bool {
    &&& data.len() + different_tokens(data).len() <= u32::MAX
    &&& forall|token: Seq<char>| #[trigger] occurrences(data, token) <= u32::MAX
    &&& forall|i: int| 0 <= i < data.len() ==> tokens((#[trigger] data[i]).raw_value).len() <= u32::MAX
}

impl Model {
    /// The tokens that have been counted.
    spec fn texts(self) -> Set<Seq<char>> {
        Set::new(|text: Seq<char>| self.times(text) > 0)
    }

    /// How often a token has been counted.
    spec fn times(self, text: Seq<char>) -> nat {
        if exists|token: u32| #[trigger]
            self.counts.contains_key(token) && self.symbols[token as int] == text {
            let token = choose|token: u32| #[trigger]
                self.counts.contains_key(token) && self.symbols[token as int] == text;
            self.counts[token] as nat
        } else {
            0
        }
    }

    /// All counts are positive.
    pub open spec fn counts_positive(self) -> bool {
        forall|token: u32| #[trigger] self.counts.contains_key(token) ==> self.counts[token] > 0
    }
}

/// A token is counted under its one index.
proof fn lemma_times(model: Model, token: u32)
    requires
        model.wf(),
        model.counts.contains_key(token),
    ensures
        model.times(model.symbols[token as int]) == model.counts[token],
{
    let text = model.symbols[token as int];
    let other = choose|other: u32| #[trigger]
        model.counts.contains_key(other) && model.symbols[other as int] == text;
    assert(model.token_values.dom().contains(token) && model.token_values.dom().contains(other));
    assert(model.token_values.contains_key(token) && model.token_values.contains_key(other));
    assert(is_token(model.symbols[token as int]) && is_token(model.symbols[other as int]));
    assert(token < other || other < token || token == other);
}

/// The counts after one more token.
proof fn lemma_times_after(model: Model, value: u32, rank: u32, token: Seq<char>)
    requires
        adding(model, value, rank),
        model.counts_positive(),
        is_token(token),
        model.has_room(value, token),
    ensures
        ({
            let after = model.with_token(value, rank, token);
            &&& after.counts_positive()
            &&& forall|text: Seq<char>| #[trigger]
                after.times(text) == model.times(text) + if text == token {
                    1nat
                } else {
                    0
                }
            &&& after.texts() == model.texts().insert(token)
            &&& after.symbols.len() == model.symbols.len() + if model.texts().contains(token) {
                0int
            } else {
                1
            }
        }),
{
    let after = model.with_token(value, rank, token);
    lemma_with_symbol(model, token);
    lemma_with_token(model, value, rank, token);
    let (symbols, index) = with_symbol(model.symbols, token, false)->Ok_0;
    assert(after.symbols[index as int] == token);
    assert(after.counts.contains_key(index));
    lemma_times(after, index);
    if model.symbols.contains(token) {
        assert(model.token_values.dom().contains(index));
        assert(model.counts.dom().contains(index));
        assert(model.counts.contains_key(index));
        lemma_times(model, index);
    } else {
        assert(!model.token_values.dom().contains(index));
        assert(!model.counts.dom().contains(index));
        assert(!model.counts.contains_key(index));
        assert(model.times(token) == 0) by {
            if exists|t: u32| #[trigger]
                model.counts.contains_key(t) && model.symbols[t as int] == token {
                let t = choose|t: u32| #[trigger]
                    model.counts.contains_key(t) && model.symbols[t as int] == token;
                assert(model.token_values.dom().contains(t));
                assert(model.token_values.contains_key(t));
                assert(model.symbols[t as int] == token);
            }
        }
    }
    assert forall|text: Seq<char>| text != token implies #[trigger] after.times(text) == model.times(
        text,
    ) by {
        if exists|t: u32| #[trigger] model.counts.contains_key(t) && model.symbols[t as int] == text {
            let t = choose|t: u32| #[trigger]
                model.counts.contains_key(t) && model.symbols[t as int] == text;
            assert(model.token_values.dom().contains(t));
            assert(model.token_values.contains_key(t));
            assert(t != index);
            assert(after.symbols[t as int] == text);
            assert(after.counts.contains_key(t));
            lemma_times(model, t);
            lemma_times(after, t);
        } else if exists|t: u32| #[trigger]
            after.counts.contains_key(t) && after.symbols[t as int] == text {
            let t = choose|t: u32| #[trigger]
                after.counts.contains_key(t) && after.symbols[t as int] == text;
            assert(t != index);
            assert(model.counts.contains_key(t));
            assert(model.token_values.dom().contains(t));
            assert(model.token_values.contains_key(t));
            assert(model.symbols[t as int] == text);
        }
    }
    assert forall|t: u32| #[trigger] after.counts.contains_key(t) implies after.counts[t] > 0 by {
        if t != index {
            assert(model.counts.contains_key(t));
        }
    }
    assert forall|text: Seq<char>| after.texts().contains(text) <==> model.texts().insert(token).contains(
        text,
    ) by {
        assert(after.times(text) == model.times(text) + if text == token {
            1nat
        } else {
            0
        });
    }
    assert(after.texts() =~= model.texts().insert(token));
}

/// There is room for tokens exactly if the counts allow it.
proof fn lemma_room_for(model: Model, value: u32, rank: u32, list: Seq<Seq<char>>, others: int)
    requires
        adding(model, value, rank),
        model.counts_positive(),
        !model.values.contains_key(value),
        forall|i: int| 0 <= i < list.len() ==> is_token(#[trigger] list[i]),
        model.texts().finite(),
        model.symbols.len() == others + model.texts().len(),
        others + model.texts().union(list.to_set()).len() <= u32::MAX,
        forall|text: Seq<char>| #[trigger] model.times(text) + count_in(list, text) <= u32::MAX,
        list.len() <= u32::MAX,
    ensures
        model.has_room_for(value, rank, list),
        ({
            let after = model.with_tokens(value, rank, list);
            &&& after.counts_positive()
            &&& after.texts() == model.texts().union(list.to_set())
            &&& after.texts().finite()
            &&& after.symbols.len() == others + after.texts().len()
            &&& forall|text: Seq<char>| #[trigger]
                after.times(text) == model.times(text) + count_in(list, text)
            &&& if list.len() == 0 {
                !after.values.contains_key(value)
            } else {
                after.values.contains_key(value) && after.tokens(value).len() == list.len()
            }
        }),
    decreases list.len(),
{
    if list.len() == 0 {
        assert(model.texts().union(list.to_set()) =~= model.texts());
    } else {
        let most = list.drop_last();
        let token = list.last();
        let middle = model.with_tokens(value, rank, most);
        assert(list[list.len() - 1] == token);
        assert(list.to_set() =~= most.to_set().insert(token)) by {
            assert forall|text: Seq<char>| list.to_set().contains(text) <==> most.to_set().insert(
                token,
            ).contains(text) by {
                if list.contains(text) && text != token {
                    let k = choose|k: int| 0 <= k < list.len() && list[k] == text;
                    assert(most[k] == text);
                }
                if most.contains(text) {
                    let k = choose|k: int| 0 <= k < most.len() && most[k] == text;
                    assert(list[k] == text);
                }
            }
        }
        let fewer = model.texts().union(most.to_set());
        let all = model.texts().union(list.to_set());
        assert(all =~= fewer.insert(token));
        assert(fewer.finite());
        assert forall|text: Seq<char>| #[trigger] model.times(text) + count_in(most, text) <= u32::MAX by {
            assert(model.times(text) + count_in(list, text) <= u32::MAX);
        }
        lemma_room_for(model, value, rank, most, others);
        lemma_with_tokens(model, value, rank, most);
        lemma_with_symbol(middle, token);
        let times = middle.times(token);
        assert(times == model.times(token) + count_in(most, token));
        assert(model.times(token) + count_in(list, token) <= u32::MAX);
        assert(middle.has_room(value, token)) by {
            if middle.symbols.contains(token) {
                let (symbols, index) = with_symbol(middle.symbols, token, false)->Ok_0;
                assert(middle.token_values.dom().contains(index));
                assert(middle.counts.dom().contains(index));
                assert(middle.counts.contains_key(index));
                lemma_times(middle, index);
            } else {
                assert(!middle.texts().contains(token)) by {
                    if middle.times(token) > 0 {
                        let t = choose|t: u32| #[trigger]
                            middle.counts.contains_key(t) && middle.symbols[t as int] == token;
                        assert(middle.token_values.dom().contains(t));
                        assert(middle.token_values.contains_key(t));
                        assert(middle.symbols[t as int] == token);
                    }
                }
                assert(all.len() == fewer.len() + 1);
                let (symbols, index) = with_symbol(middle.symbols, token, false)->Ok_0;
                assert(!middle.token_values.dom().contains(index));
                assert(!middle.counts.dom().contains(index));
            }
        }
        lemma_times_after(middle, value, rank, token);
    }
}

/// A gazetteer has finitely many different tokens.
pub proof fn lemma_different_tokens(data: Seq<EntityView>)
    ensures
        different_tokens(data).finite(),
    decreases data.len(),
{
    if data.len() > 0 {
        lemma_different_tokens(data.drop_last());
    }
}

/// What a countable gazetteer makes a parser hold.
proof fn lemma_countable_fits(data: Seq<EntityView>)
    requires
        is_countable(data),
    ensures
        fits(data),
        ({
            let model = Model::of_gazetteer(data);
            &&& model.counts_positive()
            &&& model.texts() == different_tokens(data)
            &&& model.symbols.len() == data.len() + different_tokens(data).len()
            &&& forall|text: Seq<char>| #[trigger] model.times(text) == occurrences(data, text)
        }),
    decreases data.len(),
{
    let model = Model::of_gazetteer(data);
    lemma_different_tokens(data);
    if data.len() == 0 {
        assert(model.texts() =~= different_tokens(data));
    } else {
        let less = data.drop_last();
        let last = data.last();
        let list = tokens(last.raw_value);
        let rank = (data.len() - 1) as u32;
        let before = Model::of_gazetteer(less);
        let value = before.symbols.len() as u32;
        let start = before.with_resolved_value(last.resolved_value);
        lemma_different_tokens(less);
        vstd::set_lib::lemma_len_subset(different_tokens(less), different_tokens(data));
        assert(is_countable(less)) by {
            assert forall|text: Seq<char>| #[trigger] occurrences(less, text) <= u32::MAX by {
                assert(occurrences(data, text) <= u32::MAX);
            }
            assert forall|i: int| 0 <= i < less.len() implies tokens(
                (#[trigger] less[i]).raw_value,
            ).len() <= u32::MAX by {
                assert(data[i] == less[i]);
            }
        }
        lemma_countable_fits(less);
        lemma_of_gazetteer(less);
        lemma_all_tokens(last.raw_value);
        lemma_with_resolved_value(before, last.resolved_value, rank);
        assert forall|text: Seq<char>| #[trigger] start.times(text) == before.times(text) by {
            lemma_same_times(before, start, text);
        }
        assert(start.texts() =~= before.texts());
        assert(data[data.len() - 1] == last);
        assert forall|text: Seq<char>| #[trigger] start.times(text) + count_in(list, text) <= u32::MAX by {
            assert(occurrences(data, text) <= u32::MAX);
        }
        lemma_room_for(start, value, rank, list, data.len() as int);
    }
}

/// A new resolved value does not change the counts.
proof fn lemma_same_times(before: Model, after: Model, text: Seq<char>)
    requires
        before.wf(),
        after.wf(),
        after.counts == before.counts,
        before.symbols.is_prefix_of(after.symbols),
    ensures
        after.times(text) == before.times(text),
{
    assert forall|token: u32| #[trigger] before.counts.contains_key(token) implies
        after.symbols[token as int] == before.symbols[token as int] by {
        assert(before.token_values.dom().contains(token));
        assert(before.token_values.contains_key(token));
        assert(before.symbols[token as int] == after.symbols.take(before.symbols.len() as int)[token as int]);
    }
    if exists|t: u32| #[trigger] before.counts.contains_key(t) && before.symbols[t as int] == text {
        let t = choose|t: u32| #[trigger]
            before.counts.contains_key(t) && before.symbols[t as int] == text;
        assert(after.counts.contains_key(t) && after.symbols[t as int] == text);
        lemma_times(before, t);
        lemma_times(after, t);
    } else if exists|t: u32| #[trigger] after.counts.contains_key(t) && after.symbols[t as int] == text {
        let t = choose|t: u32| #[trigger]
            after.counts.contains_key(t) && after.symbols[t as int] == text;
        assert(before.counts.contains_key(t) && before.symbols[t as int] == text);
    }
}

/// A parser has room for a gazetteer exactly if its entity values and different tokens together, the
/// occurrences of each token, and the tokens of each raw value can be counted with 32 bits.
pub proof fn law_countable_gazetteers_fit(data: Seq<EntityView>)
    ensures
        fits(data) <==> is_countable(data),
{
    if is_countable(data) {
        lemma_countable_fits(data);
    }
    if fits(data) {
        lemma_fits_countable(data);
    }
}

/// A parser has room for a gazetteer exactly if the number of its entity values and that of the different tokens
/// in them are together at most 2^32 - 1, and if no raw value has more tokens and no token occurs more often
/// than that.
pub proof fn law_room_for_a_gazetteer(data: Seq<EntityView>)
    ensures
        fits(data) <==> {
            let lists = data.map_values(|entity: EntityView| tokens(entity.raw_value));
            &&& data.len() + lists.flatten().to_set().len() <= 0xffff_ffff
            &&& forall|i: int| 0 <= i < data.len() ==> tokens((#[trigger] data[i]).raw_value).len()
                <= 0xffff_ffff
            &&& forall|text: Seq<char>| #[trigger]
                lists.flatten().to_multiset().count(text) <= 0xffff_ffff
        },
{
    let lists = data.map_values(|entity: EntityView| tokens(entity.raw_value));
    law_countable_gazetteers_fit(data);
    lemma_all_different(data);
    assert forall|text: Seq<char>| occurrences(data, text) == #[trigger] lists.flatten().to_multiset().count(
        text,
    ) by {
        law_occurrences_are_counted(data, text);
    }
    if fits(data) {
        assert forall|text: Seq<char>| #[trigger]
            lists.flatten().to_multiset().count(text) <= 0xffff_ffff by {
            assert(occurrences(data, text) <= u32::MAX);
        }
    }
    if forall|text: Seq<char>| #[trigger] lists.flatten().to_multiset().count(text) <= 0xffff_ffff {
        assert forall|text: Seq<char>| #[trigger] occurrences(data, text) <= u32::MAX by {
            assert(lists.flatten().to_multiset().count(text) <= 0xffff_ffff);
        }
    }
}

/// The different tokens are those in the list of the tokens of all raw values.
proof fn lemma_all_different(data: Seq<EntityView>)
    ensures
        different_tokens(data) == data.map_values(
            |entity: EntityView| tokens(entity.raw_value),
        ).flatten().to_set(),
    decreases data.len(),
{
    let list_of = |entity: EntityView| tokens(entity.raw_value);
    if data.len() == 0 {
        assert(data.map_values(list_of).flatten() =~= Seq::<Seq<char>>::empty());
        assert(different_tokens(data) =~= data.map_values(list_of).flatten().to_set());
    } else {
        let less = data.drop_last();
        lemma_all_different(less);
        let a = less.map_values(list_of);
        let b = tokens(data.last().raw_value);
        assert(data.map_values(list_of) =~= a.push(b));
        a.lemma_flatten_push(b);
        let all = a.flatten() + b;
        assert forall|text: Seq<char>| all.to_set().contains(text) <==> a.flatten().to_set().union(
            b.to_set(),
        ).contains(text) by {
            if a.flatten().contains(text) {
                let i = choose|i: int| 0 <= i < a.flatten().len() && a.flatten()[i] == text;
                assert(all[i] == text);
            }
            if b.contains(text) {
                let i = choose|i: int| 0 <= i < b.len() && b[i] == text;
                assert(all[a.flatten().len() + i] == text);
            }
            if all.contains(text) {
                let i = choose|i: int| 0 <= i < all.len() && all[i] == text;
                if i < a.flatten().len() {
                    assert(a.flatten()[i] == text);
                } else {
                    assert(b[i - a.flatten().len()] == text);
                }
            }
        }
        assert(different_tokens(data) =~= all.to_set());
    }
}

/// What a parser has room for is countable.
proof fn lemma_fits_countable(data: Seq<EntityView>)
    requires
        fits(data),
    ensures
        is_countable(data),
    decreases data.len(),
{
    lemma_different_tokens(data);
    let model = Model::of_gazetteer(data);
    lemma_of_gazetteer(data);
    law_parser_holds_the_gazetteer(data);
    assert forall|text: Seq<char>| #[trigger] occurrences(data, text) <= u32::MAX by {
        if occurrences(data, text) > 0 {
            assert(model.has_counted(text));
            let t = choose|t: u32| #[trigger]
                model.counts.contains_key(t) && model.symbols[t as int] == text;
            assert(model.counts[t] == occurrences(data, model.symbols[t as int]));
        }
    }
    assert forall|i: int| 0 <= i < data.len() implies tokens((#[trigger] data[i]).raw_value).len()
        <= u32::MAX by {
        if tokens(data[i].raw_value).len() > 0 {
            assert(model.has_rank(i));
            let v = choose|v: u32| #[trigger] model.values.contains_key(v) && model.rank(v) == i;
            assert(model.spelling(v).len() == model.tokens(v).len());
        }
    }
    lemma_number_of_symbols(data);
}

proof fn lemma_number_of_symbols(data: Seq<EntityView>)
    requires
        fits(data),
    ensures
        data.len() + different_tokens(data).len() <= Model::of_gazetteer(data).symbols.len(),
    decreases data.len(),
{
    let model = Model::of_gazetteer(data);
    lemma_of_gazetteer(data);
    lemma_different_tokens(data);
    if data.len() > 0 {
        let less = data.drop_last();
        let last = data.last();
        let list = tokens(last.raw_value);
        let rank = (data.len() - 1) as u32;
        let before = Model::of_gazetteer(less);
        let start = before.with_resolved_value(last.resolved_value);
        lemma_number_of_symbols(less);
        lemma_of_gazetteer(less);
        lemma_different_tokens(less);
        lemma_all_tokens(last.raw_value);
        lemma_with_resolved_value(before, last.resolved_value, rank);
        law_parser_holds_the_gazetteer(less);
        assert forall|text: Seq<char>| is_token(text) implies (#[trigger] different_tokens(less).contains(
            text,
        ) <==> start.symbols.contains(text)) by {
            if different_tokens(less).contains(text) {
                lemma_different_occur(less, text);
                assert(before.has_counted(text));
                let t = choose|t: u32| #[trigger]
                    before.counts.contains_key(t) && before.symbols[t as int] == text;
                assert(before.token_values.dom().contains(t));
                assert(before.token_values.contains_key(t));
                assert(start.symbols[t as int] == text);
            }
            if start.symbols.contains(text) {
                let k = choose|k: int| 0 <= k < start.symbols.len() && start.symbols[k] == text;
                assert(is_token(start.symbols[k]));
                assert(start.token_values.contains_key(k as u32));
                assert(start.counts.dom().contains(k as u32));
                let t = k as u32;
                assert(before.counts.contains_key(t));
                lemma_counts_are_positive(less, t);
                assert(before.token_values.dom().contains(t));
                assert(before.token_values.contains_key(t));
                assert(before.symbols[t as int] == text);
                lemma_occurring_is_different(less, text);
            }
        }
        lemma_symbols_grow(
            start,
            before.symbols.len() as u32,
            rank,
            list,
            different_tokens(less),
            data.len() as int,
        );
    }
}

/// Every new token takes a symbol.
proof fn lemma_symbols_grow(
    model: Model,
    value: u32,
    rank: u32,
    list: Seq<Seq<char>>,
    known: Set<Seq<char>>,
    others: int,
)
    requires
        adding(model, value, rank),
        model.has_room_for(value, rank, list),
        forall|i: int| 0 <= i < list.len() ==> is_token(#[trigger] list[i]),
        known.finite(),
        others + known.len() <= model.symbols.len(),
        forall|text: Seq<char>|
            is_token(text) ==> (#[trigger] known.contains(text) <==> model.symbols.contains(text)),
    ensures
        others + known.union(list.to_set()).len() <= model.with_tokens(value, rank, list).symbols.len(),
        forall|text: Seq<char>|
            is_token(text) ==> (#[trigger] known.union(list.to_set()).contains(text)
                <==> model.with_tokens(value, rank, list).symbols.contains(text)),
    decreases list.len(),
{
    if list.len() == 0 {
        assert(known.union(list.to_set()) =~= known);
    } else {
        let most = list.drop_last();
        let token = list.last();
        let middle = model.with_tokens(value, rank, most);
        let after = model.with_tokens(value, rank, list);
        lemma_symbols_grow(model, value, rank, most, known, others);
        lemma_with_tokens(model, value, rank, most);
        lemma_with_symbol(middle, token);
        assert(list[list.len() - 1] == token);
        let fewer = known.union(most.to_set());
        let all = known.union(list.to_set());
        assert(all =~= fewer.insert(token)) by {
            assert forall|text: Seq<char>| all.contains(text) <==> fewer.insert(token).contains(text) by {
                if list.contains(text) && text != token {
                    let k = choose|k: int| 0 <= k < list.len() && list[k] == text;
                    assert(most[k] == text);
                }
                if most.contains(text) {
                    let k = choose|k: int| 0 <= k < most.len() && most[k] == text;
                    assert(list[k] == text);
                }
            }
        }
        assert(fewer.finite());
        let (symbols, index) = with_symbol(middle.symbols, token, false)->Ok_0;
        assert(after.symbols[index as int] == token);
        assert(is_token(token));
        assert forall|text: Seq<char>| is_token(text) implies (#[trigger] all.contains(text)
            <==> after.symbols.contains(text)) by {
            assert(fewer.contains(text) <==> middle.symbols.contains(text));
            if middle.symbols.contains(text) {
                let k = choose|k: int| 0 <= k < middle.symbols.len() && middle.symbols[k] == text;
                assert(after.symbols[k] == text);
            }
            if after.symbols.contains(text) && text != token {
                let k = choose|k: int| 0 <= k < after.symbols.len() && after.symbols[k] == text;
                assert(middle.symbols[k] == text);
            }
        }
        if fewer.contains(token) {
            assert(all =~= fewer);
        }
    }
}

/// The tokens of a gazetteer occur in it.
proof fn lemma_different_occur(data: Seq<EntityView>, text: Seq<char>)
    requires
        different_tokens(data).contains(text),
    ensures
        occurrences(data, text) > 0,
    decreases data.len(),
{
    if different_tokens(data.drop_last()).contains(text) {
        lemma_different_occur(data.drop_last(), text);
    } else {
        lemma_count_positive(tokens(data.last().raw_value), text);
    }
}

proof fn lemma_count_positive(list: Seq<Seq<char>>, text: Seq<char>)
    requires
        list.contains(text),
    ensures
        count_in(list, text) > 0,
    decreases list.len(),
{
    if list.last() != text {
        let k = choose|k: int| 0 <= k < list.len() && list[k] == text;
        assert(list.drop_last()[k] == text);
        lemma_count_positive(list.drop_last(), text);
    }
}

/// What occurs in a gazetteer is one of its tokens.
proof fn lemma_occurring_is_different(data: Seq<EntityView>, text: Seq<char>)
    requires
        occurrences(data, text) > 0,
    ensures
        different_tokens(data).contains(text),
    decreases data.len(),
{
    if occurrences(data.drop_last(), text) > 0 {
        lemma_occurring_is_different(data.drop_last(), text);
    } else {
        lemma_counted_is_in(tokens(data.last().raw_value), text);
    }
}

/// A parser counts no token that does not occur.
proof fn lemma_counts_are_positive(data: Seq<EntityView>, token: u32)
    requires
        fits(data),
        Model::of_gazetteer(data).counts.contains_key(token),
    ensures
        occurrences(data, Model::of_gazetteer(data).symbols[token as int]) > 0,
{
    let model = Model::of_gazetteer(data);
    lemma_of_gazetteer(data);
    law_parser_holds_the_gazetteer(data);
    assert(model.counts[token] == occurrences(data, model.symbols[token as int]));
    lemma_positive(data);
}

/// The counts of the parser for a gazetteer are positive.
pub proof fn lemma_positive(data: Seq<EntityView>)
    requires
        fits(data),
    ensures
        Model::of_gazetteer(data).counts_positive(),
    decreases data.len(),
{
    if data.len() > 0 {
        let before = Model::of_gazetteer(data.drop_last());
        let start = before.with_resolved_value(data.last().resolved_value);
        let rank = (data.len() - 1) as u32;
        let list = tokens(data.last().raw_value);
        lemma_positive(data.drop_last());
        lemma_of_gazetteer(data.drop_last());
        lemma_all_tokens(data.last().raw_value);
        lemma_with_resolved_value(before, data.last().resolved_value, rank);
        lemma_positive_tokens(start, before.symbols.len() as u32, rank, list);
    }
}

proof fn lemma_positive_tokens(model: Model, value: u32, rank: u32, list: Seq<Seq<char>>)
    requires
        model.counts_positive(),
        model.has_room_for(value, rank, list),
    ensures
        model.with_tokens(value, rank, list).counts_positive(),
    decreases list.len(),
{
    if list.len() > 0 {
        let middle = model.with_tokens(value, rank, list.drop_last());
        let after = model.with_tokens(value, rank, list);
        lemma_positive_tokens(model, value, rank, list.drop_last());
        assert forall|t: u32| #[trigger] after.counts.contains_key(t) implies after.counts[t] > 0 by {
            assert(middle.counts.contains_key(t) ==> middle.counts[t] > 0);
        }
    }
}

} // verus!
