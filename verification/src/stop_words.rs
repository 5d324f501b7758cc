//! Stop words and edge cases.

use crate::errors::{GazetteerParserError, GazetteerParserResult};
use crate::model::Model;
use crate::parser::Parser;
use crate::single::{above, law_lower_threshold_is_exceeded, not_above, quotient_above, Single};
use crate::tables::{
    map_get, map_keys, map_len, set_contains, set_elements, set_insert, string_set, strings_in,
};
use crate::utils::{fst_unformat_resolved_value, unformat_resolved};
use fnv::FnvHashSet;
use vstd::prelude::*;

verus! {

broadcast use {vstd::std_specs::hash::group_hash_axioms, vstd::string::group_string_axioms};

impl Model {
    /// Whether the number of times that a token occurs, over the number of resolved values, is greater
    /// than `threshold_freq`.
    pub open spec fn is_frequent(self, token: u32, threshold_freq: Single) -> bool {
        &&& self.counts.contains_key(token)
        &&& above(self.counts[token] as nat, self.values.dom().len(), threshold_freq)
    }

    /// Whether all of `indices` are indices of symbols.
    pub open spec fn have_symbols(self, indices: Set<u32>) -> bool {
        forall|index: u32| #[trigger] indices.contains(index) ==> index < self.symbols.len()
    }

    /// The model with the frequent tokens among its stop words, and with the values that are made of
    /// stop words alone as its edge cases.
    pub open spec fn with_stop_words(self, threshold_freq: Single) -> Model {
        let stop_words = self.stop_words.union(
            Set::new(|token: u32| self.is_frequent(token, threshold_freq)),
        );
        let marked = Model { stop_words, ..self };
        Model {
            edge_cases: Set::new(
                |value: u32| self.values.contains_key(value) && marked.only_stop_words(value),
            ),
            ..marked
        }
    }
}

/// A set of numbers below `n` has at most `n` elements.
pub proof fn lemma_at_most(set: Set<u32>, n: nat)
    requires
        set.finite(),
        n <= u32::MAX,
        forall|x: u32| #[trigger] set.contains(x) ==> x < n,
    ensures
        set.len() <= n,
    decreases n,
{
    if n == 0 {
        assert(set =~= Set::<u32>::empty());
    } else {
        let last = (n - 1) as u32;
        lemma_at_most(set.remove(last), (n - 1) as nat);
    }
}

impl Parser {
    /// Makes the tokens stop words whose frequency among the resolved values is greater than
    /// `threshold_freq`, and the values that are made of stop words alone edge cases.
    pub fn compute_stop_words(&mut self, threshold_freq: Single) -> (done: GazetteerParserResult<()>)
        requires
            old(self).wf(),
        ensures
            done is Ok,
            final(self).wf(),
            final(self)@ == old(self)@.with_stop_words(threshold_freq),
    {
        let ghost before = self@;
        let ghost after = before.with_stop_words(threshold_freq);
        proof {
            lemma_at_most(before.values.dom(), before.symbols.len());
            assert(self.resolved_value_to_tokens@.dom() =~= before.values.dom());
        }
        let n_resolved_values: usize = map_len(&self.resolved_value_to_tokens);
        let tokens: Vec<u32> = map_keys(&self.token_to_count);
        let mut i: usize = 0;
        while i < tokens.len()
            invariant
                before == old(self)@,
                after == before.with_stop_words(threshold_freq),
                self.symbol_table == old(self).symbol_table,
                self.token_to_count == old(self).token_to_count,
                self.token_to_resolved_values == old(self).token_to_resolved_values,
                self.resolved_value_to_tokens == old(self).resolved_value_to_tokens,
                self.edge_cases == old(self).edge_cases,
                n_resolved_values == before.values.dom().len() <= u32::MAX,
                tokens@.to_set() == before.counts.dom(),
                i <= tokens.len(),
                forall|t: u32| #[trigger]
                    self.stop_words@.contains(t) <==> before.stop_words.contains(t) || (
                    tokens@.take(i as int).contains(t) && before.is_frequent(t, threshold_freq)),
            decreases tokens.len() - i,
        {
            let token: u32 = tokens[i];
            proof {
                assert(tokens@.to_set().contains(token));
                lemma_take_contains(tokens@, i as int);
            }
            if let Some(count) = map_get(&self.token_to_count, &token) {
                if quotient_above(*count as u64, n_resolved_values as u64, threshold_freq) {
                    set_insert(&mut self.stop_words, token);
                }
            }
            i = i + 1;
        }
        proof {
            assert(tokens@.take(tokens.len() as int) =~= tokens@);
            assert forall|t: u32| self.stop_words@.contains(t) <==> after.stop_words.contains(t) by {
                if before.counts.contains_key(t) {
                    assert(tokens@.to_set().contains(t));
                }
            }
            assert(self.stop_words@ =~= after.stop_words);
        }
        let values: Vec<u32> = map_keys(&self.resolved_value_to_tokens);
        let mut j: usize = 0;
        while j < values.len()
            invariant
                before == old(self)@,
                before.wf(),
                after == before.with_stop_words(threshold_freq),
                self.symbol_table == old(self).symbol_table,
                self.token_to_count == old(self).token_to_count,
                self.token_to_resolved_values == old(self).token_to_resolved_values,
                self.resolved_value_to_tokens == old(self).resolved_value_to_tokens,
                self.stop_words@ == after.stop_words,
                values@.to_set() == self.resolved_value_to_tokens@.dom(),
                j <= values.len(),
                forall|v: u32| #[trigger]
                    self.edge_cases@.contains(v) <==> before.edge_cases.contains(v) || (values@.take(
                        j as int,
                    ).contains(v) && after.edge_cases.contains(v)),
            decreases values.len() - j,
        {
            let res_val: u32 = values[j];
            proof {
                assert(values@.to_set().contains(res_val));
                lemma_take_contains(values@, j as int);
            }
            if let Some(entry) = map_get(&self.resolved_value_to_tokens, &res_val) {
                let only_stop_words: bool = self.all_stop_words(&entry.1);
                proof {
                    let marked = Model { stop_words: after.stop_words, ..before };
                    assert(entry.1@ == marked.tokens(res_val));
                    assert(before.values.contains_key(res_val));
                    if only_stop_words {
                        assert forall|k: int|
                            0 <= k < marked.tokens(res_val).len() implies marked.stop_words.contains(
                            #[trigger] marked.tokens(res_val)[k],
                        ) by {
                            assert(self.stop_words@.contains(entry.1@[k]));
                        }
                    } else {
                        let k = choose|k: int|
                            0 <= k < entry.1@.len() && !self.stop_words@.contains(#[trigger] entry.1@[k]);
                        assert(!marked.stop_words.contains(marked.tokens(res_val)[k]));
                    }
                    assert(only_stop_words == after.edge_cases.contains(res_val));
                }
                if only_stop_words {
                    set_insert(&mut self.edge_cases, res_val);
                }
            }
            j = j + 1;
        }
        proof {
            assert(values@.take(values.len() as int) =~= values@);
            assert forall|v: u32| self.edge_cases@.contains(v) <==> after.edge_cases.contains(v) by {
                if before.edge_cases.contains(v) {
                    assert(before.only_stop_words(v));
                    assert forall|k: int| 0 <= k < after.tokens(v).len() implies after.stop_words.contains(
                        #[trigger] after.tokens(v)[k],
                    ) by {
                        assert(before.stop_words.contains(before.tokens(v)[k]));
                    }
                }
                if after.edge_cases.contains(v) {
                    assert(self.resolved_value_to_tokens@.contains_key(v));
                    assert(values@.to_set().contains(v));
                }
            }
            assert(self.edge_cases@ =~= after.edge_cases);
            lemma_with_stop_words(before, threshold_freq);
        }
        Ok(())
    }

    /// Whether all of `tokens` are stop words.
    fn all_stop_words(&self, tokens: &Vec<u32>) -> (yes: bool)
        ensures
            yes == forall|k: int|
                0 <= k < tokens.len() ==> self.stop_words@.contains(#[trigger] tokens@[k]),
    {
        let mut k: usize = 0;
        while k < tokens.len()
            invariant
                k <= tokens.len(),
                forall|l: int| 0 <= l < k ==> self.stop_words@.contains(#[trigger] tokens@[l]),
            decreases tokens.len() - k,
        {
            if !set_contains(&self.stop_words, &tokens[k]) {
                return false;
            }
            k = k + 1;
        }
        true
    }

    /// The stop words. It is an error if one of them has no symbol.
    pub fn get_stop_words(&self) -> (words: GazetteerParserResult<FnvHashSet<String>>)
        ensures
            match words {
                Ok(found) => {
                    &&& self@.have_symbols(self@.stop_words)
                    &&& strings_in(found) == self@.stop_words.map(
                        |token: u32| self@.symbols[token as int],
                    )
                },
                Err(error) => {
                    &&& error matches GazetteerParserError::MissingIndex(index)
                    &&& self@.stop_words.contains(index)
                    &&& index >= self@.symbols.len()
                },
            },
    {
        let ghost symbol = |token: u32| self@.symbols[token as int];
        let tokens: Vec<u32> = set_elements(&self.stop_words);
        let mut words: Vec<String> = Vec::new();
        let mut i: usize = 0;
        while i < tokens.len()
            invariant
                symbol == (|token: u32| self@.symbols[token as int]),
                tokens@.to_set() == self@.stop_words,
                i <= tokens.len(),
                words.len() == i,
                forall|k: int| 0 <= k < i ==> (#[trigger] tokens@[k]) < self@.symbols.len(),
                forall|k: int| 0 <= k < i ==> (#[trigger] words@[k])@ == symbol(tokens@[k]),
            decreases tokens.len() - i,
        {
            assert(tokens@.to_set().contains(tokens@[i as int]));
            match self.symbol_table.find_index(tokens[i]) {
                Ok(word) => words.push(word),
                Err(error) => {
                    return Err(error);
                },
            }
            i = i + 1;
        }
        proof {
            lemma_images(tokens@, words@, symbol);
            assert forall|index: u32| #[trigger] self@.stop_words.contains(index) implies index
                < self@.symbols.len() by {
                assert(tokens@.to_set().contains(index));
                let k = choose|k: int| 0 <= k < tokens@.len() && tokens@[k] == index;
                assert(tokens@[k] < self@.symbols.len());
            }
        }
        Ok(string_set(words))
    }

    /// The edge cases: the resolved values that are made of stop words alone.
    pub fn get_edge_cases(&self) -> (values: GazetteerParserResult<FnvHashSet<String>>)
        requires
            self@.have_symbols(self@.edge_cases),
        ensures
            values matches Ok(found) && strings_in(found) == self@.edge_cases.map(
                |value: u32| unformat_resolved(self@.symbols[value as int]),
            ),
    {
        let ghost name = |value: u32| unformat_resolved(self@.symbols[value as int]);
        let indices: Vec<u32> = set_elements(&self.edge_cases);
        let mut values: Vec<String> = Vec::new();
        let mut i: usize = 0;
        while i < indices.len()
            invariant
                self@.have_symbols(self@.edge_cases),
                name == (|value: u32| unformat_resolved(self@.symbols[value as int])),
                indices@.to_set() == self@.edge_cases,
                i <= indices.len(),
                values.len() == i,
                forall|k: int| 0 <= k < i ==> (#[trigger] values@[k])@ == name(indices@[k]),
            decreases indices.len() - i,
        {
            assert(indices@.to_set().contains(indices@[i as int]));
            match self.symbol_table.find_index(indices[i]) {
                Ok(symbol) => values.push(fst_unformat_resolved_value(symbol.as_str())),
                Err(error) => {
                    assert(false);
                    return Err(error);
                },
            }
            i = i + 1;
        }
        proof {
            lemma_images(indices@, values@, name);
        }
        Ok(string_set(values))
    }
}

proof fn lemma_take_contains(list: Seq<u32>, n: int)
    requires
        0 <= n < list.len(),
    ensures
        forall|x: u32| #[trigger]
            list.take(n + 1).contains(x) <==> list.take(n).contains(x) || x == list[n],
{
    assert forall|x: u32| #[trigger] list.take(n + 1).contains(x) <==> list.take(n).contains(x) || x
        == list[n] by {
        if list.take(n).contains(x) {
            let k = choose|k: int| 0 <= k < n && list.take(n)[k] == x;
            assert(list.take(n + 1)[k] == x);
        }
        if x == list[n] {
            assert(list.take(n + 1)[n] == x);
        }
        if list.take(n + 1).contains(x) && x != list[n] {
            let k = choose|k: int| 0 <= k < n + 1 && #[trigger] list.take(n + 1)[k] == x;
            assert(list.take(n)[k] == x);
        }
    }
}

/// The images of a set, when its elements and their images are listed side by side.
proof fn lemma_images(elements: Seq<u32>, images: Seq<String>, image: spec_fn(u32) -> Seq<char>)
    requires
        elements.len() == images.len(),
        forall|k: int| 0 <= k < images.len() ==> (#[trigger] images[k])@ == image(elements[k]),
    ensures
        images.map_values(|s: String| s@).to_set() == elements.to_set().map(image),
{
    let texts = images.map_values(|s: String| s@);
    assert forall|text: Seq<char>| texts.to_set().contains(text) <==> elements.to_set().map(
        image,
    ).contains(text) by {
        if texts.contains(text) {
            let k = choose|k: int| 0 <= k < texts.len() && texts[k] == text;
            assert(images[k]@ == image(elements[k]));
            assert(elements.to_set().contains(elements[k]));
        }
        if elements.to_set().map(image).contains(text) {
            let e = choose|e: u32| elements.to_set().contains(e) && image(e) == text;
            let k = choose|k: int| 0 <= k < elements.len() && elements[k] == e;
            assert(images[k]@ == image(elements[k]));
            assert(texts[k] == text);
        }
    }
    assert(texts.to_set() =~= elements.to_set().map(image));
}

/// New stop words keep the tables in agreement.
pub proof fn lemma_with_stop_words(model: Model, threshold_freq: Single)
    requires
        model.wf(),
    ensures
        model.with_stop_words(threshold_freq).wf(),
{
    let after = model.with_stop_words(threshold_freq);
    assert(after.values_wf()) by {
        assert forall|a: u32, b: u32|
            #![trigger after.rank(a), after.rank(b)]
            after.values.contains_key(a) && after.values.contains_key(b) && a != b implies after.rank(a)
            != after.rank(b) by {
            assert(model.rank(a) != model.rank(b));
        }
    }
    assert(after.links_wf()) by {
        assert forall|v: u32, k: int|
            after.values.contains_key(v) && 0 <= k < after.tokens(v).len() implies after.occurs_in(
            #[trigger] after.tokens(v)[k],
            v,
        ) by {
            assert(model.occurs_in(model.tokens(v)[k], v));
        }
        assert forall|t: u32, v: u32| #[trigger] after.occurs_in(t, v) implies after.values.contains_key(
            v,
        ) && after.tokens(v).contains(t) by {
            assert(model.occurs_in(t, v));
        }
    }
    assert forall|value: u32| #[trigger] after.edge_cases.contains(value) <==> after.values.contains_key(
        value,
    ) && after.only_stop_words(value) by {
        let marked = Model { stop_words: after.stop_words, ..model };
        assert(marked.tokens(value) == after.tokens(value));
        if marked.only_stop_words(value) {
            assert forall|k: int| 0 <= k < after.tokens(value).len() implies after.stop_words.contains(
                #[trigger] after.tokens(value)[k],
            ) by {
                assert(marked.stop_words.contains(marked.tokens(value)[k]));
            }
        }
        if after.only_stop_words(value) {
            assert forall|k: int| 0 <= k < marked.tokens(value).len() implies marked.stop_words.contains(
                #[trigger] marked.tokens(value)[k],
            ) by {
                assert(after.stop_words.contains(after.tokens(value)[k]));
            }
        }
    }
}

/// Computing stop words keeps those that there were, and the edge cases. It changes nothing else.
pub proof fn law_stop_words_are_kept(model: Model, threshold_freq: Single)
    requires
        model.wf(),
    ensures
        ({
            let after = model.with_stop_words(threshold_freq);
            &&& model.stop_words.subset_of(after.stop_words)
            &&& model.edge_cases.subset_of(after.edge_cases)
            &&& after == (Model {
                stop_words: after.stop_words,
                edge_cases: after.edge_cases,
                ..model
            })
        }),
{
    let after = model.with_stop_words(threshold_freq);
    let marked = Model { stop_words: after.stop_words, ..model };
    assert forall|value: u32| #[trigger] model.edge_cases.contains(value) implies after.edge_cases.contains(
        value,
    ) by {
        assert forall|k: int| 0 <= k < marked.tokens(value).len() implies marked.stop_words.contains(
            #[trigger] marked.tokens(value)[k],
        ) by {
            assert(model.stop_words.contains(model.tokens(value)[k]));
        }
    }
}

/// Computing stop words again with the same threshold changes nothing.
pub proof fn law_computing_again_changes_nothing(model: Model, threshold_freq: Single)
    ensures
        model.with_stop_words(threshold_freq).with_stop_words(threshold_freq)
            == model.with_stop_words(threshold_freq),
{
    let once = model.with_stop_words(threshold_freq);
    let twice = once.with_stop_words(threshold_freq);
    assert forall|token: u32| once.is_frequent(token, threshold_freq) == model.is_frequent(
        token,
        threshold_freq,
    ) by {}
    assert(twice.stop_words =~= once.stop_words);
    assert forall|value: u32| twice.edge_cases.contains(value) == once.edge_cases.contains(value) by {
        let a = Model { stop_words: twice.stop_words, ..once };
        let b = Model { stop_words: once.stop_words, ..model };
        if a.only_stop_words(value) {
            lemma_only_stop_words(a, b, value);
        }
        if b.only_stop_words(value) {
            lemma_only_stop_words(b, a, value);
        }
    }
    assert(twice.edge_cases =~= once.edge_cases);
}

/// Whether a value is made of stop words depends on its tokens and the stop words alone.
proof fn lemma_only_stop_words(a: Model, b: Model, value: u32)
    requires
        a.tokens(value) == b.tokens(value),
        a.stop_words.subset_of(b.stop_words),
        a.only_stop_words(value),
    ensures
        b.only_stop_words(value),
{
    assert forall|k: int| 0 <= k < b.tokens(value).len() implies b.stop_words.contains(
        #[trigger] b.tokens(value)[k],
    ) by {
        assert(a.stop_words.contains(a.tokens(value)[k]));
    }
}

/// A lower threshold makes at least as many tokens stop words.
pub proof fn law_lower_threshold_gives_more_stop_words(model: Model, s: Single, t: Single)
    requires
        not_above(s, t),
    ensures
        model.with_stop_words(t).stop_words.subset_of(model.with_stop_words(s).stop_words),
{
    assert forall|token: u32| #[trigger] model.with_stop_words(t).stop_words.contains(token) implies
        model.with_stop_words(s).stop_words.contains(token) by {
        if model.is_frequent(token, t) {
            law_lower_threshold_is_exceeded(
                model.counts[token] as nat,
                model.values.dom().len(),
                s,
                t,
            );
        }
    }
}

} // verus!
