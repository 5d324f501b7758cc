//! Words of a query in the order of a value.

use crate::model::{position_from, reach, Model, Word};
use vstd::prelude::*;

verus! {

/// [`position_from`] gives a place of the token, and the first one.
pub proof fn lemma_position_from(tokens: Seq<u32>, token: u32, from: int)
    requires
        0 <= from,
    ensures
        match position_from(tokens, token, from) {
            Some(place) => {
                &&& from <= place < tokens.len()
                &&& tokens[place] == token
                &&& forall|k: int| from <= k < place ==> #[trigger] tokens[k] != token
            },
            None => forall|k: int| from <= k < tokens.len() ==> #[trigger] tokens[k] != token,
        },
    decreases tokens.len() - from,
{
    if from < tokens.len() && tokens[from] != token {
        lemma_position_from(tokens, token, from + 1);
    }
}

/// [`reach`] gives the place of the last word, not before as many others.
pub proof fn lemma_reach(tokens: Seq<u32>, words: Seq<Word>, first: int, end: int)
    requires
        first <= end,
    ensures
        reach(tokens, words, first, end) matches Some(place) ==> {
            &&& end - first - 1 <= place
            &&& first < end ==> {
                &&& 0 <= place < tokens.len()
                &&& words[end - 1].symbol == Some(tokens[place])
                &&& reach(tokens, words, first, end - 1) is Some
            }
        },
    decreases end - first,
{
    if first < end {
        lemma_reach(tokens, words, first, end - 1);
        if let (Some(place), Some(token)) = (
            reach(tokens, words, first, end - 1),
            words[end - 1].symbol,
        ) {
            lemma_position_from(tokens, token, place + 1);
        }
    }
}

/// Without its first word, a part of a query reaches no further.
pub proof fn lemma_reach_without_first(tokens: Seq<u32>, words: Seq<Word>, first: int, end: int)
    requires
        first < end,
        reach(tokens, words, first, end) is Some,
    ensures
        reach(tokens, words, first + 1, end) is Some,
        reach(tokens, words, first + 1, end)->0 <= reach(tokens, words, first, end)->0,
    decreases end - first,
{
    lemma_reach(tokens, words, first, end);
    if first + 1 < end {
        lemma_reach_without_first(tokens, words, first, end - 1);
        lemma_reach(tokens, words, first, end - 1);
        lemma_reach(tokens, words, first + 1, end - 1);
        let token = words[end - 1].symbol->0;
        lemma_position_from(tokens, token, reach(tokens, words, first, end - 1)->0 + 1);
        lemma_position_from(tokens, token, reach(tokens, words, first + 1, end - 1)->0 + 1);
    }
}

/// Parts of a part that stands in order stand in order.
pub proof fn lemma_reach_within(
    tokens: Seq<u32>,
    words: Seq<Word>,
    first: int,
    end: int,
    inner: int,
    inner_end: int,
)
    requires
        first <= inner <= inner_end <= end,
        reach(tokens, words, first, end) is Some,
    ensures
        reach(tokens, words, inner, inner_end) is Some,
    decreases end - first,
{
    if inner_end < end {
        lemma_reach(tokens, words, first, end);
        lemma_reach_within(tokens, words, first, end - 1, inner, inner_end);
    } else if first < inner {
        lemma_reach_without_first(tokens, words, first, end);
        lemma_reach_within(tokens, words, first + 1, end, inner, inner_end);
    }
}

/// [`reach`] finds places wherever there are some, and none further than need be.
pub proof fn lemma_reach_of_aligned(
    model: Model,
    words: Seq<Word>,
    value: u32,
    first: int,
    end: int,
    places: Seq<int>,
)
    requires
        first <= end,
        model.aligned(words, value, first, end, places),
    ensures
        reach(model.tokens(value), words, first, end) is Some,
        first < end ==> reach(model.tokens(value), words, first, end)->0 <= places.last(),
    decreases end - first,
{
    let tokens = model.tokens(value);
    if first < end {
        let less = places.drop_last();
        assert(model.aligned(words, value, first, end - 1, less));
        lemma_reach_of_aligned(model, words, value, first, end - 1, less);
        lemma_reach(tokens, words, first, end - 1);
        let k = places.len() - 1;
        assert(words[first + k].symbol == Some(tokens[places[k]]));
        let before = reach(tokens, words, first, end - 1)->0;
        if first < end - 1 {
            assert(less.last() == places[k - 1]);
            assert(places[k - 1] < places[k]);
        }
        lemma_position_from(tokens, tokens[places[k]], before + 1);
    }
}

/// The places at which words that stand in order reach the place that they do.
pub proof fn lemma_aligned_by_reach(model: Model, words: Seq<Word>, value: u32, first: int, end: int) -> (
    places: Seq<int>)
    requires
        first <= end,
        reach(model.tokens(value), words, first, end) is Some,
    ensures
        model.aligned(words, value, first, end, places),
        first < end ==> places.last() == reach(model.tokens(value), words, first, end)->0,
    decreases end - first,
{
    let tokens = model.tokens(value);
    if first < end {
        lemma_reach(tokens, words, first, end);
        let less = lemma_aligned_by_reach(model, words, value, first, end - 1);
        let place = reach(tokens, words, first, end)->0;
        let token = words[end - 1].symbol->0;
        lemma_reach(tokens, words, first, end - 1);
        lemma_position_from(tokens, token, reach(tokens, words, first, end - 1)->0 + 1);
        let places = less.push(place);
        assert forall|j: int, k: int| 0 <= j < k < places.len() implies places[j] < places[k] by {
            if k == places.len() - 1 && j < k - 1 {
                assert(less[j] < less[k - 1]);
            }
        }
        places
    } else {
        Seq::empty()
    }
}

/// Words stand in the order of a value exactly if they reach a place in it.
pub proof fn lemma_keeps_order(model: Model, words: Seq<Word>, value: u32, first: int, end: int)
    requires
        first <= end,
    ensures
        model.keeps_order(words, value, first, end) == reach(
            model.tokens(value),
            words,
            first,
            end,
        ) is Some,
{
    if model.keeps_order(words, value, first, end) {
        let places = choose|places: Seq<int>| #[trigger]
            model.aligned(words, value, first, end, places);
        lemma_reach_of_aligned(model, words, value, first, end, places);
    }
    if reach(model.tokens(value), words, first, end) is Some {
        let places = lemma_aligned_by_reach(model, words, value, first, end);
        assert(model.aligned(words, value, first, end, places));
    }
}

/// The first word from `from` on with which the words up to `end` stand in order.
pub open spec fn first_in_order(tokens: Seq<u32>, words: Seq<Word>, from: int, end: int) -> int
    decreases end - from,
{
    if from >= end || reach(tokens, words, from, end) is Some {
        from
    } else {
        first_in_order(tokens, words, from + 1, end)
    }
}

pub proof fn lemma_first_in_order(tokens: Seq<u32>, words: Seq<Word>, from: int, end: int)
    requires
        from <= end,
    ensures
        from <= first_in_order(tokens, words, from, end) <= end,
        reach(tokens, words, first_in_order(tokens, words, from, end), end) is Some,
        forall|g: int|
            from <= g < first_in_order(tokens, words, from, end) ==> #[trigger] reach(
                tokens,
                words,
                g,
                end,
            ) is None,
    decreases end - from,
{
    if from < end && reach(tokens, words, from, end) is None {
        lemma_first_in_order(tokens, words, from + 1, end);
    }
}

/// [`first_in_order`] is the one word with which the words stand in order, but not with the word before.
pub proof fn lemma_is_first(tokens: Seq<u32>, words: Seq<Word>, from: int, end: int, first: int)
    requires
        from <= first < end,
        reach(tokens, words, first, end) is Some,
        first == from || reach(tokens, words, first - 1, end) is None,
    ensures
        first_in_order(tokens, words, from, end) == first,
{
    lemma_first_in_order(tokens, words, from, end);
    let found = first_in_order(tokens, words, from, end);
    if found < first {
        lemma_reach_within(tokens, words, found, end, first - 1, end);
    }
}

} // verus!
