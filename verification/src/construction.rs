//! Building a parser from a gazetteer.

use crate::data::{EntityValue, EntityView, Gazetteer};
use crate::errors::{GazetteerParserError, GazetteerParserResult};
use crate::model::{is_token, Model};
use crate::parser::Parser;
use crate::room_laws::{is_countable, law_countable_gazetteers_fit};
use crate::search::lemma_is_token;
use crate::symbol_table::{lemma_single_index, with_symbol, GazetteerParserSymbolTable};
use crate::tables::{map_get, map_insert, map_remove, set_insert};
use crate::utils::{
    format_resolved, fst_format_resolved_value, tokens, white_space, whitespace_tokenizer,
    RESOLVED_SYMBOL,
};
use fnv::{FnvHashMap, FnvHashSet};
use vstd::prelude::*;

verus! {

broadcast use vstd::std_specs::hash::group_hash_axioms;

impl Model {
    /// A parser that knows nothing.
    pub open spec fn empty() -> Model {
        Model {
            symbols: Seq::empty(),
            counts: Map::empty(),
            token_values: Map::empty(),
            values: Map::empty(),
            stop_words: Set::empty(),
            edge_cases: Set::empty(),
        }
    }

    /// The model after one more token of `value`, which has the given rank.
    pub open spec fn with_token(self, value: u32, rank: u32, token: Seq<char>) -> Model {
        let (symbols, index) = with_symbol(self.symbols, token, false)->Ok_0;
        let count = if self.counts.contains_key(index) {
            (self.counts[index] + 1) as u32
        } else {
            1
        };
        let others = if self.token_values.contains_key(index) {
            self.token_values[index]
        } else {
            Set::empty()
        };
        let entry = if self.values.contains_key(value) {
            (self.rank(value), self.tokens(value).push(index))
        } else {
            (rank, seq![index])
        };
        Model {
            symbols,
            counts: self.counts.insert(index, count),
            token_values: self.token_values.insert(index, others.insert(value)),
            values: self.values.insert(value, entry),
            stop_words: self.stop_words,
            edge_cases: self.edge_cases,
        }
    }

    /// The model after some more tokens of `value`, which has the given rank.
    pub open spec fn with_tokens(self, value: u32, rank: u32, list: Seq<Seq<char>>) -> Model
        decreases list.len(),
    {
        if list.len() == 0 {
            self
        } else {
            self.with_tokens(value, rank, list.drop_last()).with_token(value, rank, list.last())
        }
    }

    /// Whether there is room for one more token of `value`: its index, its count and the number of tokens
    /// of the value fit in 32 bits.
    pub open spec fn has_room(self, value: u32, token: Seq<char>) -> bool {
        match with_symbol(self.symbols, token, false) {
            Ok((_, index)) => {
                &&& self.counts.contains_key(index) ==> self.counts[index] < u32::MAX
                &&& self.values.contains_key(value) ==> self.tokens(value).len() < u32::MAX
            },
            Err(_) => false,
        }
    }

    /// Whether there is room for some more tokens of `value`, which has the given rank.
    pub open spec fn has_room_for(self, value: u32, rank: u32, list: Seq<Seq<char>>) -> bool
        decreases list.len(),
    {
        list.len() == 0 || {
            &&& self.has_room_for(value, rank, list.drop_last())
            &&& self.with_tokens(value, rank, list.drop_last()).has_room(value, list.last())
        }
    }

    /// Whether there is room for one more entity value.
    pub open spec fn has_room_for_value(self, entity_value: EntityView, rank: u32) -> bool {
        &&& self.symbols.len() < u32::MAX
        &&& self.with_resolved_value(entity_value.resolved_value).has_room_for(
            self.symbols.len() as u32,
            rank,
            tokens(entity_value.raw_value),
        )
    }

    /// The model with a resolved value as its newest symbol.
    pub open spec fn with_resolved_value(self, resolved_value: Seq<char>) -> Model {
        Model { symbols: self.symbols.push(format_resolved(resolved_value)), ..self }
    }

    /// The model after one more entity value. Its resolved value gets a symbol of its own, even if
    /// there is an equal one.
    pub open spec fn with_value(self, entity_value: EntityView, rank: u32) -> Model {
        self.with_resolved_value(entity_value.resolved_value).with_tokens(
            self.symbols.len() as u32,
            rank,
            tokens(entity_value.raw_value),
        )
    }

    /// The model of the parser for a list of entity values, ranked by their places.
    pub open spec fn of_gazetteer(data: Seq<EntityView>) -> Model
        decreases data.len(),
    {
        if data.len() == 0 {
            Model::empty()
        } else {
            Model::of_gazetteer(data.drop_last()).with_value(data.last(), (data.len() - 1) as u32)
        }
    }
}

/// Whether a parser has room for a list of entity values: the resolved values and the different tokens have
/// indices of 32 bits, and the counts and the numbers of tokens of a value fit in 32 bits.
pub open spec fn fits(data: Seq<EntityView>) -> bool
    decreases data.len(),
{
    data.len() == 0 || {
        &&& fits(data.drop_last())
        &&& Model::of_gazetteer(data.drop_last()).has_room_for_value(
            data.last(),
            (data.len() - 1) as u32,
        )
    }
}

/// What holds while the tokens of `value` are added: the model has no stop words, `value` is the symbol
/// of a resolved value, and no other value has its rank.
pub open spec fn adding(model: Model, value: u32, rank: u32) -> bool {
    &&& model.wf()
    &&& model.stop_words == Set::<u32>::empty()
    &&& value < model.symbols.len()
    &&& model.symbols[value as int].len() > 0
    &&& model.symbols[value as int][0] == RESOLVED_SYMBOL
    &&& forall|v: u32| #[trigger]
        model.values.contains_key(v) ==> (model.rank(v) == rank <==> v == value)
}

/// Where a token stands after it has been added.
pub proof fn lemma_with_symbol(model: Model, token: Seq<char>)
    requires
        model.wf(),
        is_token(token),
    ensures
        with_symbol(model.symbols, token, false) is Ok <==> model.symbols.contains(token)
            || model.symbols.len() < u32::MAX,
        with_symbol(model.symbols, token, false) is Ok ==> ({
            let (symbols, index) = with_symbol(model.symbols, token, false)->Ok_0;
            if model.symbols.contains(token) {
                &&& symbols == model.symbols
                &&& index < model.symbols.len()
                &&& model.symbols[index as int] == token
                &&& model.token_values.contains_key(index)
            } else {
                &&& symbols == model.symbols.push(token)
                &&& index == model.symbols.len()
                &&& !model.token_values.contains_key(index)
            }
        }),
{
    if model.symbols.contains(token) {
        let i = choose|i: int| 0 <= i < model.symbols.len() && model.symbols[i] == token;
        assert(is_token(model.symbols[i]));
        assert forall|j: int| 0 <= j < model.symbols.len() && j != i implies #[trigger] model.symbols[j]
            != model.symbols[i] by {
            if j < i && model.symbols[j] == model.symbols[i] {
                assert(is_token(model.symbols[j]));
            }
        }
        lemma_single_index(model.symbols, i);
    } else {
        let index = model.symbols.len() as u32;
        if model.token_values.contains_key(index) {
            assert(index < model.symbols.len());
        }
    }
}

/// Adding a token keeps the tables in agreement.
pub proof fn lemma_with_token(model: Model, value: u32, rank: u32, token: Seq<char>)
    requires
        adding(model, value, rank),
        model.has_room(value, token),
        is_token(token),
    ensures
        adding(model.with_token(value, rank, token), value, rank),
        model.symbols.len() <= model.with_token(value, rank, token).symbols.len(),
        model.with_token(value, rank, token).values.contains_key(value),
{
    lemma_with_symbol(model, token);
    let after = model.with_token(value, rank, token);
    let (symbols, index) = with_symbol(model.symbols, token, false)->Ok_0;
    assert(after.symbols[index as int] == token);
    assert forall|i: int| 0 <= i < model.symbols.len() implies after.symbols[i] == model.symbols[i] by {}
    assert(after.tokens(value).last() == index);
    assert(after.values_wf()) by {
        assert(after.values.dom() =~= model.values.dom().insert(value));
        assert forall|a: u32, b: u32|
            #![trigger after.rank(a), after.rank(b)]
            after.values.contains_key(a) && after.values.contains_key(b) && a != b implies after.rank(a)
            != after.rank(b) by {
            if a != value {
                assert(model.values.contains_key(a) && after.rank(a) == model.rank(a));
            }
            if b != value {
                assert(model.values.contains_key(b) && after.rank(b) == model.rank(b));
            }
        }
    }
    assert(after.links_wf()) by {
        assert forall|v: u32, k: int|
            after.values.contains_key(v) && 0 <= k < after.tokens(v).len() implies after.occurs_in(
            #[trigger] after.tokens(v)[k],
            v,
        ) by {
            if v != value || k < after.tokens(v).len() - 1 {
                assert(model.tokens(v)[k] == after.tokens(v)[k]);
                assert(model.occurs_in(model.tokens(v)[k], v));
            }
        }
        assert forall|t: u32, v: u32| #[trigger] after.occurs_in(t, v) implies after.values.contains_key(
            v,
        ) && after.tokens(v).contains(t) by {
            if t == index && v == value {
                assert(after.tokens(v)[after.tokens(v).len() - 1] == t);
            } else {
                assert(model.occurs_in(t, v));
                assert(model.tokens(v).contains(t));
                let k = choose|k: int| 0 <= k < model.tokens(v).len() && model.tokens(v)[k] == t;
                assert(after.tokens(v)[k] == t);
            }
        }
    }
    assert(after.tokens_wf()) by {
        assert(after.counts.dom() =~= model.counts.dom().insert(index));
        assert(after.counts.dom() =~= after.token_values.dom());
        assert forall|i: int|
            0 <= i < after.symbols.len() && is_token(
                #[trigger] after.symbols[i],
            ) implies after.token_values.contains_key(i as u32) by {
            if i < model.symbols.len() {
                assert(is_token(model.symbols[i]));
            }
        }
        assert forall|i: int, j: int|
            #![trigger after.symbols[i], after.symbols[j]]
            0 <= i < j < after.symbols.len() && is_token(after.symbols[i]) implies after.symbols[i]
            != after.symbols[j] by {
            if j < model.symbols.len() {
                assert(model.symbols[i] != model.symbols[j]);
            }
        }
        assert forall|t: u32| #[trigger] after.token_values.contains_key(t) implies t
            < after.symbols.len() && is_token(after.symbols[t as int]) by {
            if t != index {
                assert(model.token_values.contains_key(t));
            }
        }
    }
    assert(after.stop_words_wf()) by {
        assert forall|v: u32| #[trigger] after.edge_cases.contains(v) <==> after.values.contains_key(v)
            && after.only_stop_words(v) by {
            if model.values.contains_key(v) {
                assert(!model.stop_words.contains(model.tokens(v)[0]));
                assert(!model.only_stop_words(v));
            }
            if after.values.contains_key(v) {
                assert(!after.stop_words.contains(after.tokens(v)[0]));
                assert(!after.only_stop_words(v));
            }
            assert(model.edge_cases.contains(v) <==> model.values.contains_key(v)
                && model.only_stop_words(v));
        }
    }
}

/// A new resolved value keeps the tables in agreement.
pub proof fn lemma_with_resolved_value(model: Model, resolved_value: Seq<char>, rank: u32)
    requires
        model.wf(),
        model.stop_words == Set::<u32>::empty(),
        model.symbols.len() < u32::MAX,
        forall|v: u32| #[trigger] model.values.contains_key(v) ==> model.rank(v) != rank,
    ensures
        adding(model.with_resolved_value(resolved_value), model.symbols.len() as u32, rank),
        !model.values.contains_key(model.symbols.len() as u32),
{
    let after = model.with_resolved_value(resolved_value);
    let value = model.symbols.len() as u32;
    assert(after.symbols[value as int][0] == RESOLVED_SYMBOL);
    assert(white_space(after.symbols[value as int][0]));
    assert forall|i: int| 0 <= i < model.symbols.len() implies after.symbols[i] == model.symbols[i] by {}
    if model.values.contains_key(value) {
        assert(value < model.symbols.len());
    }
    assert(after.values_wf()) by {
        assert forall|a: u32, b: u32|
            #![trigger after.rank(a), after.rank(b)]
            after.values.contains_key(a) && after.values.contains_key(b) && a != b implies after.rank(a)
            != after.rank(b) by {
            assert(model.rank(a) != model.rank(b));
        }
    }
    assert(after.links_wf()) by {
        assert forall|v: u32, k: int|
            after.values.contains_key(v) && 0 <= k < after.tokens(v).len() implies after.occurs_in(
            #[trigger] after.tokens(v)[k],
            v,
        ) by {
            assert(model.occurs_in(model.tokens(v)[k], v));
        }
        assert forall|t: u32, v: u32| #[trigger] after.occurs_in(t, v) implies after.values.contains_key(
            v,
        ) && after.tokens(v).contains(t) by {
            assert(model.occurs_in(t, v));
        }
    }
    assert(after.tokens_wf()) by {
        assert forall|i: int|
            0 <= i < after.symbols.len() && is_token(
                #[trigger] after.symbols[i],
            ) implies after.token_values.contains_key(i as u32) by {
            assert(i != value);
            assert(is_token(model.symbols[i]));
        }
        assert forall|i: int, j: int|
            #![trigger after.symbols[i], after.symbols[j]]
            0 <= i < j < after.symbols.len() && is_token(after.symbols[i]) implies after.symbols[i]
            != after.symbols[j] by {
            if j < value {
                assert(model.symbols[i] != model.symbols[j]);
            } else {
                assert(!is_token(after.symbols[j]));
            }
        }
        assert forall|t: u32| #[trigger] after.token_values.contains_key(t) implies t
            < after.symbols.len() && is_token(after.symbols[t as int]) by {
            assert(model.token_values.contains_key(t));
        }
    }
    assert(after.stop_words_wf()) by {
        assert forall|v: u32| #[trigger] after.edge_cases.contains(v) <==> after.values.contains_key(v)
            && after.only_stop_words(v) by {
            assert(model.edge_cases.contains(v) <==> model.values.contains_key(v)
                && model.only_stop_words(v));
            assert(after.tokens(v) == model.tokens(v));
            if after.only_stop_words(v) {
                assert forall|k: int| 0 <= k < model.tokens(v).len() implies model.stop_words.contains(
                    #[trigger] model.tokens(v)[k],
                ) by {
                    assert(after.stop_words.contains(after.tokens(v)[k]));
                }
            }
        }
    }
}

/// Adding tokens keeps the tables in agreement.
pub proof fn lemma_with_tokens(model: Model, value: u32, rank: u32, list: Seq<Seq<char>>)
    requires
        adding(model, value, rank),
        model.has_room_for(value, rank, list),
        forall|i: int| 0 <= i < list.len() ==> is_token(#[trigger] list[i]),
    ensures
        adding(model.with_tokens(value, rank, list), value, rank),
        model.symbols.len() <= model.with_tokens(value, rank, list).symbols.len(),
    decreases list.len(),
{
    if list.len() > 0 {
        lemma_with_tokens(model, value, rank, list.drop_last());
        lemma_with_token(
            model.with_tokens(value, rank, list.drop_last()),
            value,
            rank,
            list.last(),
        );
    }
}

/// The tokens of a text are tokens.
pub proof fn lemma_all_tokens(text: Seq<char>)
    ensures
        forall|i: int| 0 <= i < tokens(text).len() ==> is_token(#[trigger] tokens(text)[i]),
{
    assert forall|i: int| 0 <= i < tokens(text).len() implies is_token(#[trigger] tokens(text)[i]) by {
        lemma_is_token(text, i);
    }
}

/// What holds of the model of a gazetteer: its tables agree, and its ranks are places in the
/// gazetteer.
pub proof fn lemma_of_gazetteer(data: Seq<EntityView>)
    requires
        fits(data),
    ensures
        data.len() <= Model::of_gazetteer(data).symbols.len() <= u32::MAX,
        Model::of_gazetteer(data).wf(),
        Model::of_gazetteer(data).stop_words == Set::<u32>::empty(),
        forall|v: u32| #[trigger]
            Model::of_gazetteer(data).values.contains_key(v) ==> Model::of_gazetteer(data).rank(v)
                < data.len(),
    decreases data.len(),
{
    let model = Model::of_gazetteer(data);
    if data.len() == 0 {
        assert(model.counts.dom() =~= model.token_values.dom());
    } else {
        let before = Model::of_gazetteer(data.drop_last());
        let value = before.symbols.len() as u32;
        let rank = (data.len() - 1) as u32;
        let list = tokens(data.last().raw_value);
        lemma_of_gazetteer(data.drop_last());
        lemma_all_tokens(data.last().raw_value);
        lemma_with_resolved_value(before, data.last().resolved_value, rank);
        lemma_with_tokens(
            before.with_resolved_value(data.last().resolved_value),
            value,
            rank,
            list,
        );
        lemma_ranks_kept(before.with_resolved_value(data.last().resolved_value), value, rank, list);
    }
}

/// Adding tokens of `value` changes no other value.
proof fn lemma_ranks_kept(model: Model, value: u32, rank: u32, list: Seq<Seq<char>>)
    ensures
        ({
            let after = model.with_tokens(value, rank, list);
            &&& after.stop_words == model.stop_words
            &&& after.edge_cases == model.edge_cases
            &&& forall|v: u32|
                v != value ==> (#[trigger] after.values.contains_key(v) <==> model.values.contains_key(v))
                    && after.values[v] == model.values[v]
        }),
    decreases list.len(),
{
    if list.len() > 0 {
        lemma_ranks_kept(model, value, rank, list.drop_last());
    }
}

impl Parser {
    /// The parser that knows nothing.
    pub fn new() -> (parser: GazetteerParserResult<Parser>)
        ensures
            parser matches Ok(made) && made.wf() && made@ == Model::empty(),
    {
        let parser = Parser {
            symbol_table: GazetteerParserSymbolTable::new(),
            token_to_resolved_values: FnvHashMap::default(),
            resolved_value_to_tokens: FnvHashMap::default(),
            token_to_count: FnvHashMap::default(),
            stop_words: FnvHashSet::default(),
            edge_cases: FnvHashSet::default(),
        };
        proof {
            assert(parser@.token_values =~= Map::empty());
            assert(parser@.values =~= Map::empty());
            lemma_of_gazetteer(Seq::empty());
        }
        Ok(parser)
    }

    /// Adds one more token of the resolved value `res_value_idx`. It is an error if there is no room for it.
    fn add_token(&mut self, res_value_idx: u32, rank: u32, token: &str) -> (added: GazetteerParserResult<()>)
        requires
            old(self).symbol_table.wf(),
            adding(old(self)@, res_value_idx, rank),
            is_token(token@),
        ensures
            final(self).symbol_table.wf(),
            if old(self)@.has_room(res_value_idx, token@) {
                added is Ok && final(self)@ == old(self)@.with_token(res_value_idx, rank, token@)
            } else {
                added == Err::<(), GazetteerParserError>(GazetteerParserError::TooManySymbols)
            },
    {
        let ghost before = self@;
        let ghost after = before.with_token(res_value_idx, rank, token@);
        proof {
            lemma_with_symbol(before, token@);
        }
        let token_idx: u32 = match self.symbol_table.add_symbol(token, false) {
            Ok(index) => index,
            Err(_) => {
                return Err(GazetteerParserError::TooManySymbols);
            },
        };
        let count: u32 = match map_get(&self.token_to_count, &token_idx) {
            Some(known) => {
                if *known == u32::MAX {
                    return Err(GazetteerParserError::TooManySymbols);
                }
                *known + 1
            },
            None => 1,
        };
        let mut entry: (u32, Vec<u32>) = match map_remove(
            &mut self.resolved_value_to_tokens,
            &res_value_idx,
        ) {
            Some(known) => {
                if known.1.len() >= u32::MAX as usize {
                    return Err(GazetteerParserError::TooManySymbols);
                }
                known
            },
            None => (rank, Vec::new()),
        };
        let mut res_values: FnvHashSet<u32> = match map_remove(
            &mut self.token_to_resolved_values,
            &token_idx,
        ) {
            Some(known) => known,
            None => FnvHashSet::default(),
        };
        set_insert(&mut res_values, res_value_idx);
        map_insert(&mut self.token_to_resolved_values, token_idx, res_values);
        map_insert(&mut self.token_to_count, token_idx, count);
        entry.1.push(token_idx);
        map_insert(&mut self.resolved_value_to_tokens, res_value_idx, entry);
        proof {
            assert(self@.symbols =~= after.symbols);
            assert(self@.counts =~= after.counts);
            assert(self@.token_values =~= after.token_values);
            assert(entry.1@ =~= after.tokens(res_value_idx));
            assert(self@.values =~= after.values);
        }
        Ok(())
    }

    /// Adds a single entity value. Its resolved value gets a symbol of its own, even if there is an
    /// equal one, so that several raw values can resolve to it. It is an error if there is no room for it.
    fn add_value(&mut self, entity_value: &EntityValue, rank: u32) -> (added: GazetteerParserResult<()>)
        requires
            old(self).wf(),
            old(self)@.stop_words == Set::<u32>::empty(),
            forall|v: u32| #[trigger]
                old(self)@.values.contains_key(v) ==> old(self)@.rank(v) != rank,
        ensures
            if old(self)@.has_room_for_value(entity_value@, rank) {
                &&& added is Ok
                &&& final(self).wf()
                &&& final(self)@ == old(self)@.with_value(entity_value@, rank)
            } else {
                added == Err::<(), GazetteerParserError>(GazetteerParserError::TooManySymbols)
            },
    {
        let ghost before = self@;
        let ghost list = tokens(entity_value@.raw_value);
        let ghost start = before.with_resolved_value(entity_value@.resolved_value);
        proof {
            self.symbol_table.lemma_length();
            lemma_all_tokens(entity_value@.raw_value);
        }
        let symbol: String = fst_format_resolved_value(entity_value.resolved_value.as_str());
        let res_value_idx: u32 = match self.symbol_table.add_symbol(symbol.as_str(), true) {
            Ok(index) => index,
            Err(error) => {
                return Err(error);
            },
        };
        let found = whitespace_tokenizer(entity_value.raw_value.as_str());
        let mut i: usize = 0;
        proof {
            lemma_with_resolved_value(before, entity_value@.resolved_value, rank);
            assert(self@ == start);
            assert(list.take(0) =~= Seq::<Seq<char>>::empty());
        }
        while i < found.len()
            invariant
                i <= found.len(),
                found.len() == list.len(),
                forall|k: int| 0 <= k < found.len() ==> (#[trigger] found@[k]).1@ == list[k],
                forall|k: int| 0 <= k < list.len() ==> is_token(#[trigger] list[k]),
                adding(start, res_value_idx, rank),
                self.symbol_table.wf(),
                start.has_room_for(res_value_idx, rank, list.take(i as int)),
                self@ == start.with_tokens(res_value_idx, rank, list.take(i as int)),
                before.symbols.len() < u32::MAX,
                res_value_idx == before.symbols.len(),
                start == before.with_resolved_value(entity_value@.resolved_value),
                list == tokens(entity_value@.raw_value),
                before == old(self)@,
            decreases found.len() - i,
        {
            proof {
                lemma_with_tokens(start, res_value_idx, rank, list.take(i as int));
                assert(list.take(i + 1).drop_last() =~= list.take(i as int));
                lemma_room_for_fewer(start, res_value_idx, rank, list, i + 1);
            }
            if let Err(error) = self.add_token(res_value_idx, rank, found[i].1.as_str()) {
                return Err(error);
            }
            i = i + 1;
        }
        proof {
            assert(list.take(list.len() as int) =~= list);
            lemma_with_tokens(start, res_value_idx, rank, list);
        }
        Ok(())
    }

    /// The parser for the values of a gazetteer, ranked by their order in it. It is an error if the values and
    /// the different tokens together, or the occurrences of one token, or the tokens of one value cannot be
    /// counted with 32 bits: a parser has no room for them.
    pub fn from_gazetteer(gazetteer: &Gazetteer) -> (parser: GazetteerParserResult<Parser>)
        ensures
            match parser {
                Ok(made) => {
                    &&& is_countable(gazetteer@)
                    &&& fits(gazetteer@)
                    &&& made.wf()
                    &&& made@ == Model::of_gazetteer(gazetteer@)
                },
                Err(error) => {
                    &&& !is_countable(gazetteer@)
                    &&& error == GazetteerParserError::TooManySymbols
                },
            },
    {
        let ghost data = gazetteer@;
        proof {
            law_countable_gazetteers_fit(data);
        }
        let mut parser = match Parser::new() {
            Ok(parser) => parser,
            Err(error) => {
                assert(false);
                return Err(error);
            },
        };
        let mut i: usize = 0;
        assert(data.take(0) =~= Seq::<EntityView>::empty());
        while i < gazetteer.data.len()
            invariant
                data == gazetteer@,
                fits(data) <==> is_countable(data),
                i <= gazetteer.data.len() == data.len(),
                fits(data.take(i as int)),
                parser.wf(),
                parser@ == Model::of_gazetteer(data.take(i as int)),
            decreases gazetteer.data.len() - i,
        {
            let entity_value = &gazetteer.data[i];
            let ghost before = data.take(i as int);
            let ghost next = data.take(i + 1);
            proof {
                assert(entity_value@ == data[i as int]);
                assert(next.drop_last() =~= before);
                assert(next.last() == data[i as int]);
                lemma_fewer_fit(data, i + 1);
                lemma_of_gazetteer(before);
            }
            if let Err(error) = parser.add_value(entity_value, i as u32) {
                return Err(error);
            }
            i = i + 1;
        }
        assert(data.take(data.len() as int) =~= data);
        Ok(parser)
    }
}

/// Where there is room for some tokens, there is room for the first of them.
proof fn lemma_room_for_fewer(model: Model, value: u32, rank: u32, list: Seq<Seq<char>>, n: int)
    requires
        0 <= n <= list.len(),
    ensures
        model.has_room_for(value, rank, list) ==> model.has_room_for(value, rank, list.take(n)),
    decreases list.len(),
{
    if n < list.len() {
        assert(list.drop_last().take(n) =~= list.take(n));
        lemma_room_for_fewer(model, value, rank, list.drop_last(), n);
    } else {
        assert(list.take(n) =~= list);
    }
}

/// Where there is room for some entity values, there is room for the first of them.
pub proof fn lemma_fewer_fit(data: Seq<EntityView>, n: int)
    requires
        0 <= n <= data.len(),
    ensures
        fits(data) ==> fits(data.take(n)),
    decreases data.len(),
{
    if n < data.len() {
        assert(data.drop_last().take(n) =~= data.take(n));
        lemma_fewer_fit(data.drop_last(), n);
    } else {
        assert(data.take(n) =~= data);
    }
}

} // verus!
