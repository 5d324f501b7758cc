//! The test that the tables of a parser agree, for tables that come from elsewhere.

use crate::model::{is_token, Model};
use crate::parser::Parser;
use crate::symbol_table::{lemma_indices_of, lemma_single_index, single_index};
use crate::tables::{map_get, map_keys, set_contains, set_elements, set_insert};
use crate::utils::{is_white_space, RESOLVED_SYMBOL};
use fnv::FnvHashSet;
use vstd::prelude::*;

verus! {

broadcast use {vstd::std_specs::hash::group_hash_axioms, vstd::string::group_string_axioms};

/// What the tables say of a resolved value is in agreement.
spec fn value_agrees(model: Model, value: u32) -> bool {
    &&& value < model.symbols.len()
    &&& model.symbols[value as int].len() > 0
    &&& model.symbols[value as int][0] == RESOLVED_SYMBOL
    &&& 0 < model.tokens(value).len() <= u32::MAX
    &&& forall|k: int|
        0 <= k < model.tokens(value).len() ==> model.occurs_in(#[trigger] model.tokens(value)[k], value)
    &&& model.edge_cases.contains(value) <==> model.only_stop_words(value)
}

/// What the tables say of a token is in agreement.
spec fn token_agrees(model: Model, token: u32) -> bool {
    &&& model.counts.contains_key(token)
    &&& token < model.symbols.len()
    &&& is_token(model.symbols[token as int])
    &&& forall|value: u32| #[trigger]
        model.token_values[token].contains(value) ==> model.values.contains_key(value) && model.tokens(
            value,
        ).contains(token)
}

/// What the tables say of a symbol is in agreement: if it is a token, it is known as one and has one
/// index.
spec fn symbol_agrees(model: Model, index: int) -> bool {
    is_token(model.symbols[index]) ==> {
        &&& model.token_values.contains_key(index as u32)
        &&& single_index(model.symbols, model.symbols[index]) is Ok
    }
}

/// All of the tables are in agreement.
spec fn all_agree(model: Model) -> bool {
    &&& forall|value: u32| #[trigger] model.values.contains_key(value) ==> value_agrees(model, value)
    &&& forall|a: u32, b: u32|
        #![trigger model.rank(a), model.rank(b)]
        model.values.contains_key(a) && model.values.contains_key(b) && a != b ==> model.rank(a)
            != model.rank(b)
    &&& forall|token: u32| #[trigger] model.token_values.contains_key(token) ==> token_agrees(model, token)
    &&& forall|token: u32| #[trigger]
        model.counts.contains_key(token) ==> model.token_values.contains_key(token)
    &&& forall|i: int| 0 <= i < model.symbols.len() ==> #[trigger] symbol_agrees(model, i)
    &&& forall|token: u32| #[trigger]
        model.stop_words.contains(token) ==> model.token_values.contains_key(token)
    &&& forall|value: u32| #[trigger]
        model.edge_cases.contains(value) ==> model.values.contains_key(value)
}

proof fn lemma_all_agree(model: Model)
    requires
        model.values.dom().finite(),
        model.counts.dom().finite(),
        model.symbols.len() <= u32::MAX,
    ensures
        all_agree(model) == model.wf(),
{
    if all_agree(model) {
        assert(model.links_wf()) by {
            assert forall|value: u32, k: int|
                model.values.contains_key(value) && 0 <= k < model.tokens(value).len() implies model.occurs_in(
                #[trigger] model.tokens(value)[k],
                value,
            ) by {
                assert(value_agrees(model, value));
            }
            assert forall|token: u32, value: u32| #[trigger] model.occurs_in(token, value) implies
                model.values.contains_key(value) && model.tokens(value).contains(token) by {
                assert(token_agrees(model, token));
                assert(model.token_values[token].contains(value));
            }
        }
        assert(model.tokens_wf()) by {
            assert forall|token: u32| model.counts.dom().contains(token)
                <==> model.token_values.dom().contains(token) by {
                assert(model.counts.contains_key(token) ==> model.token_values.contains_key(token));
                assert(model.token_values.contains_key(token) ==> token_agrees(model, token));
            }
            assert(model.counts.dom() =~= model.token_values.dom());
            assert forall|i: int| 0 <= i < model.symbols.len() && is_token(
                #[trigger] model.symbols[i],
            ) implies model.token_values.contains_key(i as u32) by {
                assert(symbol_agrees(model, i));
            }
            assert forall|i: int, j: int|
                #![trigger model.symbols[i], model.symbols[j]]
                0 <= i < j < model.symbols.len() && is_token(model.symbols[i]) implies model.symbols[i]
                != model.symbols[j] by {
                assert(symbol_agrees(model, i));
                if model.symbols[i] == model.symbols[j] {
                    lemma_indices_of(model.symbols, model.symbols[i]);
                    assert(single_index(model.symbols, model.symbols[i]) is Ok);
                }
            }
        }
    }
    if model.wf() {
        assert forall|value: u32| #[trigger] model.values.contains_key(value) implies value_agrees(
            model,
            value,
        ) by {}
        assert forall|token: u32| #[trigger] model.token_values.contains_key(token) implies token_agrees(
            model,
            token,
        ) by {
            assert(model.token_values.dom().contains(token));
            assert(model.counts.dom().contains(token));
            assert forall|value: u32| #[trigger] model.token_values[token].contains(value) implies
                model.values.contains_key(value) && model.tokens(value).contains(token) by {
                assert(model.occurs_in(token, value));
            }
        }
        assert forall|token: u32| #[trigger] model.counts.contains_key(token) implies
            model.token_values.contains_key(token) by {
            assert(model.counts.dom().contains(token));
            assert(model.token_values.dom().contains(token));
        }
        assert forall|i: int| 0 <= i < model.symbols.len() implies #[trigger] symbol_agrees(model, i) by {
            if is_token(model.symbols[i]) {
                assert forall|j: int| 0 <= j < model.symbols.len() && j != i implies
                    #[trigger] model.symbols[j] != model.symbols[i] by {
                    if j < i && model.symbols[j] == model.symbols[i] {
                        assert(is_token(model.symbols[j]));
                    }
                }
                lemma_single_index(model.symbols, i);
            }
        }
        assert forall|token: u32| #[trigger] model.stop_words.contains(token) implies
            model.token_values.contains_key(token) by {
            assert(model.token_values.dom().contains(token));
        }
    }
}

/// Computes [`is_token`].
fn is_single_token(string: &str) -> (yes: bool)
    ensures
        yes == is_token(string@),
{
    let length: usize = string.unicode_len();
    let mut i: usize = 0;
    while i < length
        invariant
            length == string@.len(),
            i <= length,
            forall|k: int| 0 <= k < i ==> !crate::utils::white_space(#[trigger] string@[k]),
        decreases length - i,
    {
        if is_white_space(string.get_char(i)) {
            return false;
        }
        i = i + 1;
    }
    length > 0
}

/// Whether `tokens` holds `token`.
fn holds(tokens: &Vec<u32>, token: u32) -> (yes: bool)
    ensures
        yes == tokens@.contains(token),
{
    let mut i: usize = 0;
    while i < tokens.len()
        invariant
            i <= tokens.len(),
            forall|k: int| 0 <= k < i ==> #[trigger] tokens@[k] != token,
        decreases tokens.len() - i,
    {
        if tokens[i] == token {
            return true;
        }
        i = i + 1;
    }
    false
}

impl Parser {
    /// Whether the symbol at an index stands for a resolved value.
    fn is_resolved_symbol(&self, index: u32) -> (yes: bool)
        ensures
            yes == (index < self@.symbols.len() && self@.symbols[index as int].len() > 0
                && self@.symbols[index as int][0] == RESOLVED_SYMBOL),
    {
        match self.symbol_table.find_index(index) {
            Ok(symbol) => symbol.as_str().unicode_len() > 0 && symbol.as_str().get_char(0)
                == RESOLVED_SYMBOL,
            Err(_) => false,
        }
    }

    /// Whether the symbol at an index is a token.
    fn is_token_symbol(&self, index: u32) -> (yes: bool)
        ensures
            yes == (index < self@.symbols.len() && is_token(self@.symbols[index as int])),
    {
        match self.symbol_table.find_index(index) {
            Ok(symbol) => is_single_token(symbol.as_str()),
            Err(_) => false,
        }
    }

    fn check_value(&self, value: u32) -> (yes: bool)
        requires
            self@.values.contains_key(value),
        ensures
            yes == value_agrees(self@, value),
    {
        let entry = match self.get_tokens_from_resolved_value(&value) {
            Ok(entry) => entry,
            Err(_) => {
                return false;
            },
        };
        let tokens = &entry.1;
        if !self.is_resolved_symbol(value) || tokens.len() == 0 || tokens.len() as u64 > u32::MAX as u64 {
            return false;
        }
        let mut only_stop_words: bool = true;
        let mut k: usize = 0;
        while k < tokens.len()
            invariant
                tokens@ == self@.tokens(value),
                k <= tokens.len(),
                forall|l: int|
                    0 <= l < k ==> self@.occurs_in(#[trigger] self@.tokens(value)[l], value),
                only_stop_words <==> forall|l: int|
                    0 <= l < k ==> self@.stop_words.contains(#[trigger] self@.tokens(value)[l]),
            decreases tokens.len() - k,
        {
            let token: u32 = tokens[k];
            assert(token == self@.tokens(value)[k as int]);
            if !self.is_token_of(token, value) {
                return false;
            }
            if !set_contains(&self.stop_words, &token) {
                only_stop_words = false;
            }
            k = k + 1;
        }
        assert(only_stop_words == self@.only_stop_words(value));
        set_contains(&self.edge_cases, &value) == only_stop_words
    }

    fn check_values(&self) -> (yes: bool)
        ensures
            self@.values.dom().finite(),
            yes <==> {
                &&& forall|value: u32| #[trigger]
                    self@.values.contains_key(value) ==> value_agrees(self@, value)
                &&& forall|a: u32, b: u32|
                    #![trigger self@.rank(a), self@.rank(b)]
                    self@.values.contains_key(a) && self@.values.contains_key(b) && a != b
                        ==> self@.rank(a) != self@.rank(b)
            },
    {
        let values: Vec<u32> = map_keys(&self.resolved_value_to_tokens);
        let mut ranks: FnvHashSet<u32> = FnvHashSet::default();
        let mut i: usize = 0;
        proof {
            assert(values@.to_set() =~= self@.values.dom());
            assert forall|value: u32| #[trigger] self@.values.contains_key(value) <==> values@.contains(
                value,
            ) by {
                assert(values@.to_set().contains(value) <==> self@.values.dom().contains(value));
            }
        }
        while i < values.len()
            invariant
                values@.no_duplicates(),
                self@.values.dom().finite(),
                forall|value: u32| #[trigger]
                    self@.values.contains_key(value) <==> values@.contains(value),
                i <= values.len(),
                forall|k: int| 0 <= k < i ==> value_agrees(self@, #[trigger] values@[k]),
                forall|rank: u32| #[trigger]
                    ranks@.contains(rank) <==> exists|k: int|
                        0 <= k < i && self@.rank(#[trigger] values@[k]) == rank,
                forall|j: int, k: int|
                    #![trigger values@[j], values@[k]]
                    0 <= j < k < i ==> self@.rank(values@[j]) != self@.rank(values@[k]),
            decreases values.len() - i,
        {
            let value: u32 = values[i];
            assert(values@.contains(values@[i as int]));
            assert(self@.values.contains_key(value));
            if !self.check_value(value) {
                return false;
            }
            if let Ok(entry) = self.get_tokens_from_resolved_value(&value) {
                let rank: u32 = entry.0;
                if set_contains(&ranks, &rank) {
                    proof {
                        let k = choose|k: int| 0 <= k < i && self@.rank(#[trigger] values@[k]) == rank;
                        assert(values@.contains(values@[k]));
                        assert(self@.values.contains_key(values@[k]));
                        assert(values@[k] != value);
                        assert(self@.rank(values@[k]) == self@.rank(value));
                    }
                    return false;
                }
                let ghost before = ranks@;
                set_insert(&mut ranks, rank);
                proof {
                    assert forall|r: u32| #[trigger] ranks@.contains(r) <==> exists|k: int|
                        0 <= k < i + 1 && self@.rank(#[trigger] values@[k]) == r by {
                        if before.contains(r) {
                            let k = choose|k: int| 0 <= k < i && self@.rank(#[trigger] values@[k]) == r;
                            assert(self@.rank(values@[k]) == r);
                        }
                        if r == rank {
                            assert(self@.rank(values@[i as int]) == r);
                        }
                    }
                    assert forall|j: int, k: int|
                        #![trigger values@[j], values@[k]]
                        0 <= j < k < i + 1 implies self@.rank(values@[j]) != self@.rank(values@[k]) by {
                        if k == i && self@.rank(values@[j]) == rank {
                            assert(before.contains(rank));
                        }
                    }
                }
            }
            i = i + 1;
        }
        proof {
            assert forall|value: u32| #[trigger] self@.values.contains_key(value) implies value_agrees(
                self@,
                value,
            ) by {
                let k = choose|k: int| 0 <= k < values@.len() && values@[k] == value;
                assert(value_agrees(self@, values@[k]));
            }
            assert forall|a: u32, b: u32|
                #![trigger self@.rank(a), self@.rank(b)]
                self@.values.contains_key(a) && self@.values.contains_key(b) && a != b implies self@.rank(a)
                != self@.rank(b) by {
                let j = choose|j: int| 0 <= j < values@.len() && values@[j] == a;
                let k = choose|k: int| 0 <= k < values@.len() && values@[k] == b;
                assert(j < k || k < j);
            }
        }
        true
    }

    fn check_token(&self, token: u32) -> (yes: bool)
        requires
            self@.token_values.contains_key(token),
        ensures
            yes == token_agrees(self@, token),
    {
        if map_get(&self.token_to_count, &token).is_none() || !self.is_token_symbol(token) {
            return false;
        }
        let values: Vec<u32> = match self.get_resolved_values_from_token(&token) {
            Ok(found) => set_elements(found),
            Err(_) => {
                return false;
            },
        };
        let mut i: usize = 0;
        while i < values.len()
            invariant
                values@.to_set() == self@.token_values[token],
                i <= values.len(),
                forall|k: int|
                    0 <= k < i ==> self@.values.contains_key(#[trigger] values@[k]) && self@.tokens(
                        values@[k],
                    ).contains(token),
            decreases values.len() - i,
        {
            let value: u32 = values[i];
            assert(values@.to_set().contains(value));
            match self.get_tokens_from_resolved_value(&value) {
                Ok(entry) => {
                    if !holds(&entry.1, token) {
                        return false;
                    }
                },
                Err(_) => {
                    return false;
                },
            }
            i = i + 1;
        }
        assert forall|value: u32| #[trigger] self@.token_values[token].contains(value) implies
            self@.values.contains_key(value) && self@.tokens(value).contains(token) by {
            assert(values@.to_set().contains(value));
            let k = choose|k: int| 0 <= k < values@.len() && values@[k] == value;
            assert(self@.values.contains_key(values@[k]));
        }
        true
    }

    fn check_tokens(&self) -> (yes: bool)
        ensures
            self@.counts.dom().finite(),
            yes <==> {
                &&& forall|token: u32| #[trigger]
                    self@.token_values.contains_key(token) ==> token_agrees(self@, token)
                &&& forall|token: u32| #[trigger]
                    self@.counts.contains_key(token) ==> self@.token_values.contains_key(token)
            },
    {
        let tokens: Vec<u32> = map_keys(&self.token_to_resolved_values);
        let counted: Vec<u32> = map_keys(&self.token_to_count);
        assert(tokens@.to_set() =~= self@.token_values.dom());
        assert(counted@.to_set() =~= self@.counts.dom());
        let mut i: usize = 0;
        while i < tokens.len()
            invariant
                tokens@.to_set() == self@.token_values.dom(),
                i <= tokens.len(),
                self@.counts.dom().finite(),
                forall|k: int| 0 <= k < i ==> token_agrees(self@, #[trigger] tokens@[k]),
            decreases tokens.len() - i,
        {
            assert(tokens@.to_set().contains(tokens@[i as int]));
            assert(self@.token_values.contains_key(tokens@[i as int]));
            if !self.check_token(tokens[i]) {
                return false;
            }
            i = i + 1;
        }
        assert forall|token: u32| #[trigger] self@.token_values.contains_key(token) implies token_agrees(
            self@,
            token,
        ) by {
            assert(tokens@.to_set().contains(token));
            let k = choose|k: int| 0 <= k < tokens@.len() && tokens@[k] == token;
            assert(token_agrees(self@, tokens@[k]));
        }
        let mut j: usize = 0;
        while j < counted.len()
            invariant
                counted@.to_set() == self@.counts.dom(),
                self@.counts.dom().finite(),
                j <= counted.len(),
                forall|k: int| 0 <= k < j ==> self@.token_values.contains_key(#[trigger] counted@[k]),
            decreases counted.len() - j,
        {
            assert(counted@.to_set().contains(counted@[j as int]));
            assert(self@.counts.contains_key(counted@[j as int]));
            if self.get_resolved_values_from_token(&counted[j]).is_err() {
                return false;
            }
            j = j + 1;
        }
        assert forall|token: u32| #[trigger] self@.counts.contains_key(token) implies
            self@.token_values.contains_key(token) by {
            assert(counted@.to_set().contains(token));
            let k = choose|k: int| 0 <= k < counted@.len() && counted@[k] == token;
            assert(self@.token_values.contains_key(counted@[k]));
        }
        true
    }

    fn check_symbols(&self) -> (yes: bool)
        requires
            self.symbol_table.wf(),
        ensures
            self@.symbols.len() <= u32::MAX,
            yes <==> forall|i: int| 0 <= i < self@.symbols.len() ==> #[trigger] symbol_agrees(self@, i),
    {
        let symbols = self.symbol_table.symbols();
        proof {
            self.symbol_table.lemma_length();
        }
        let mut i: usize = 0;
        while i < symbols.len()
            invariant
                self.symbol_table.wf(),
                symbols@.map_values(|symbol: String| symbol@) == self@.symbols,
                symbols.len() == self@.symbols.len() <= u32::MAX,
                i <= symbols.len(),
                forall|k: int| 0 <= k < i ==> #[trigger] symbol_agrees(self@, k),
            decreases symbols.len() - i,
        {
            let symbol = symbols[i].as_str();
            assert(symbol@ == self@.symbols[i as int]);
            if is_single_token(symbol) && (self.get_resolved_values_from_token(&(i as u32)).is_err()
                || self.symbol_table.find_single_symbol(symbol).is_err()) {
                assert(!symbol_agrees(self@, i as int));
                return false;
            }
            assert(symbol_agrees(self@, i as int));
            i = i + 1;
        }
        true
    }

    fn check_sets(&self) -> (yes: bool)
        ensures
            yes <==> {
                &&& forall|token: u32| #[trigger]
                    self@.stop_words.contains(token) ==> self@.token_values.contains_key(token)
                &&& forall|value: u32| #[trigger]
                    self@.edge_cases.contains(value) ==> self@.values.contains_key(value)
            },
    {
        let stop_words: Vec<u32> = set_elements(&self.stop_words);
        let edge_cases: Vec<u32> = set_elements(&self.edge_cases);
        let mut i: usize = 0;
        while i < stop_words.len()
            invariant
                stop_words@.to_set() == self@.stop_words,
                i <= stop_words.len(),
                forall|k: int| 0 <= k < i ==> self@.token_values.contains_key(#[trigger] stop_words@[k]),
            decreases stop_words.len() - i,
        {
            assert(stop_words@.to_set().contains(stop_words@[i as int]));
            if self.get_resolved_values_from_token(&stop_words[i]).is_err() {
                return false;
            }
            i = i + 1;
        }
        assert forall|token: u32| #[trigger] self@.stop_words.contains(token) implies
            self@.token_values.contains_key(token) by {
            assert(stop_words@.to_set().contains(token));
            let k = choose|k: int| 0 <= k < stop_words@.len() && stop_words@[k] == token;
            assert(self@.token_values.contains_key(stop_words@[k]));
        }
        let mut j: usize = 0;
        while j < edge_cases.len()
            invariant
                edge_cases@.to_set() == self@.edge_cases,
                j <= edge_cases.len(),
                forall|k: int| 0 <= k < j ==> self@.values.contains_key(#[trigger] edge_cases@[k]),
            decreases edge_cases.len() - j,
        {
            assert(edge_cases@.to_set().contains(edge_cases@[j as int]));
            if self.get_tokens_from_resolved_value(&edge_cases[j]).is_err() {
                return false;
            }
            j = j + 1;
        }
        assert forall|value: u32| #[trigger] self@.edge_cases.contains(value) implies
            self@.values.contains_key(value) by {
            assert(edge_cases@.to_set().contains(value));
            let k = choose|k: int| 0 <= k < edge_cases@.len() && edge_cases@[k] == value;
            assert(self@.values.contains_key(edge_cases@[k]));
        }
        true
    }

    /// Whether the tables agree with each other, as those of a parser for a gazetteer do.
    pub fn is_consistent(&self) -> (yes: bool)
        requires
            self.symbol_table.wf(),
        ensures
            yes == self.wf(),
    {
        let values: bool = self.check_values();
        let tokens: bool = self.check_tokens();
        let symbols: bool = self.check_symbols();
        let sets: bool = self.check_sets();
        proof {
            lemma_all_agree(self@);
        }
        values && tokens && symbols && sets
    }
}

} // verus!
