//! What the matches that the search gives look like, and how it makes them grow.

use crate::model::{position_from, Candidate, Model, Word};
use crate::order::{lemma_aligned_by_reach, lemma_position_from, lemma_reach_of_aligned};
use crate::possible_match::PossibleMatch;
use crate::search::{
    all_different, growth, is_found, leading_in, position_before, recorded,
};
use core::ops::Range;
use vstd::prelude::*;

verus! {

/// A match that has been found consumes as many tokens as it has words. Its range goes from the beginning of
/// its first word to the end of its last one. Its rank and its length are those of its value. Each of its words
/// is the token of its value at one of some places that increase, the last of them being the recorded one, and
/// whichever such places are taken, the last is none before that.
pub proof fn law_fields_of_a_found_match(
    model: Model,
    words: Seq<Word>,
    m: PossibleMatch,
    others: Seq<int>,
) -> (places: Seq<int>)
    requires
        is_found(model, words, m),
    ensures
        ({
            let (rank, tokens) = model.values[m.resolved_value];
            let first = m.tokens_range.start as int;
            let n = m.tokens_range.end - first;
            &&& model.values.contains_key(m.resolved_value)
            &&& 0 < n && m.tokens_range.end <= words.len()
            &&& m.n_consumed_tokens == n
            &&& m.rank == rank
            &&& m.raw_value_length == tokens.len()
            &&& m.range.start == words[first].start
            &&& m.range.end == words[first + n - 1].end
            &&& m.last_token_in_input == first + n - 1
            &&& places.len() == n
            &&& places[n - 1] == m.last_token_in_resolution
            &&& forall|k: int|
                0 <= k < n ==> 0 <= #[trigger] places[k] < tokens.len() && words[first + k].symbol == Some(
                    tokens[places[k]],
                )
            &&& forall|j: int, k: int| 0 <= j < k < n ==> places[j] < places[k]
            &&& others.len() == n && (forall|k: int|
                0 <= k < n ==> 0 <= #[trigger] others[k] < tokens.len() && words[first + k].symbol == Some(
                    tokens[others[k]],
                )) && (forall|j: int, k: int| 0 <= j < k < n ==> others[j] < others[k])
                ==> m.last_token_in_resolution <= others[n - 1]
        }),
{
    let first = m.tokens_range.start as int;
    let end = m.tokens_range.end as int;
    let n = end - first;
    let tokens = model.tokens(m.resolved_value);
    if others.len() == n && (forall|k: int|
        0 <= k < n ==> 0 <= #[trigger] others[k] < tokens.len() && words[first + k].symbol == Some(
            tokens[others[k]],
        )) && (forall|j: int, k: int| 0 <= j < k < n ==> others[j] < others[k]) {
        assert(model.aligned(words, m.resolved_value, first, end, others));
        lemma_reach_of_aligned(model, words, m.resolved_value, first, end, others);
    }
    lemma_aligned_by_reach(model, words, m.resolved_value, first, end)
}

/// The recorded matches are those of the list, by their values and words, and the list holds each of them once
/// if no two of its matches have the same value and the same words.
pub proof fn law_recorded_matches(matches: Seq<PossibleMatch>)
    ensures
        forall|c: Candidate| #[trigger]
            recorded(matches).contains(c) <==> exists|k: int|
                0 <= k < matches.len() && (#[trigger] matches[k]).resolved_value == c.value
                    && matches[k].tokens_range.start == c.first && matches[k].tokens_range.end == c.end,
        all_different(matches) <==> forall|i: int, j: int|
            #![trigger matches[i], matches[j]]
            0 <= i < j < matches.len() ==> matches[i].resolved_value != matches[j].resolved_value
                || matches[i].tokens_range.start != matches[j].tokens_range.start
                || matches[i].tokens_range.end != matches[j].tokens_range.end,
{
    assert forall|c: Candidate| #[trigger] recorded(matches).contains(c) <==> exists|k: int|
        0 <= k < matches.len() && (#[trigger] matches[k]).resolved_value == c.value
            && matches[k].tokens_range.start == c.first && matches[k].tokens_range.end == c.end by {
        if recorded(matches).contains(c) {
            let k = choose|k: int| 0 <= k < matches.len() && (#[trigger] matches[k]).candidate() == c;
            assert(matches[k].resolved_value == c.value);
        }
        if exists|k: int|
            0 <= k < matches.len() && (#[trigger] matches[k]).resolved_value == c.value
                && matches[k].tokens_range.start == c.first && matches[k].tokens_range.end == c.end {
            let k = choose|k: int|
                0 <= k < matches.len() && (#[trigger] matches[k]).resolved_value == c.value
                    && matches[k].tokens_range.start == c.first && matches[k].tokens_range.end == c.end;
            assert(matches[k].candidate() == c);
        }
    }
    if all_different(matches) {
        assert forall|i: int, j: int|
            #![trigger matches[i], matches[j]]
            0 <= i < j < matches.len() implies matches[i].resolved_value != matches[j].resolved_value
            || matches[i].tokens_range.start != matches[j].tokens_range.start
            || matches[i].tokens_range.end != matches[j].tokens_range.end by {
            assert(matches[i].candidate() != matches[j].candidate());
        }
    }
}

/// A match grows by a token exactly if the token is one of its own value, directly follows it in the query,
/// and stands in the value behind the last matched one. It is matched at the first such place.
pub proof fn law_growth_is_by_the_next_token(
    tokens: Seq<u32>,
    m: PossibleMatch,
    res_val: u32,
    token_idx: usize,
    value: u32,
)
    ensures
        match growth(tokens, m, res_val, token_idx, value) {
            Some(place) => {
                &&& m.resolved_value == res_val
                &&& token_idx == m.last_token_in_input + 1
                &&& m.last_token_in_resolution < place < tokens.len()
                &&& tokens[place] == value
                &&& forall|k: int| m.last_token_in_resolution < k < place ==> #[trigger] tokens[k] != value
            },
            None => {
                ||| m.resolved_value != res_val
                ||| token_idx != m.last_token_in_input + 1
                ||| forall|k: int|
                    m.last_token_in_resolution < k < tokens.len() ==> #[trigger] tokens[k] != value
            },
        },
{
    lemma_position_from(tokens, value, m.last_token_in_resolution + 1);
}

/// The first place of a token, and the last one before a limit.
pub proof fn law_places_of_a_token(tokens: Seq<u32>, token: u32, from: int, limit: int)
    requires
        0 <= from,
        limit <= tokens.len(),
    ensures
        match position_from(tokens, token, from) {
            Some(place) => {
                &&& from <= place < tokens.len()
                &&& tokens[place] == token
                &&& forall|k: int| from <= k < place ==> #[trigger] tokens[k] != token
            },
            None => forall|k: int| from <= k < tokens.len() ==> #[trigger] tokens[k] != token,
        },
        match position_before(tokens, token, limit) {
            Some(place) => {
                &&& 0 <= place < limit
                &&& tokens[place] == token
                &&& forall|k: int| place < k < limit ==> #[trigger] tokens[k] != token
            },
            None => forall|k: int| 0 <= k < limit ==> #[trigger] tokens[k] != token,
        },
    decreases limit,
{
    lemma_position_from(tokens, token, from);
    if limit > 0 && tokens[limit - 1] != token {
        law_places_of_a_token(tokens, token, from, limit - 1);
    }
}

/// Whether the words directly before the one at `index`, as many as there are places, are held in `skipped` and
/// are the tokens at `places`, which increase and lie before `place`.
pub open spec fn leads(
    skipped: Map<usize, (Range<usize>, u32)>,
    tokens: Seq<u32>,
    place: int,
    index: int,
    places: Seq<int>,
) -> bool {
    &&& places.len() <= index
    &&& forall|k: int|
        0 <= k < places.len() ==> {
            &&& 0 <= #[trigger] places[k] < place
            &&& skipped.contains_key((index - places.len() + k) as usize)
            &&& tokens[places[k]] == skipped[(index - places.len() + k) as usize].1
        }
    &&& forall|j: int, k: int| 0 <= j < k < places.len() ==> places[j] < places[k]
}

/// The stop words before a token that a new match takes in are as many as possible: they stand directly before
/// the token, one after the other, and have increasing places in the value before that of the token. No longer
/// run of stop words before the token has such places.
pub proof fn law_leading_stop_words(
    skipped: Map<usize, (Range<usize>, u32)>,
    tokens: Seq<u32>,
    place: int,
    index: int,
    others: Seq<int>,
) -> (places: Seq<int>)
    requires
        0 <= place <= tokens.len(),
        0 <= index <= usize::MAX,
    ensures
        leading_in(skipped, tokens, place, index) == places.len(),
        leads(skipped, tokens, place, index, places),
        leads(skipped, tokens, place, index, others) ==> others.len() <= places.len(),
    decreases index,
{
    let m = others.len() as int;
    if leads(skipped, tokens, place, index, others) && m > 0 {
        assert(0 <= others[m - 1] < place);
        assert((index - others.len() + (m - 1)) as usize == (index - 1) as usize);
        assert(skipped.contains_key((index - 1) as usize));
        assert(tokens[others[m - 1]] == skipped[(index - 1) as usize].1);
    }
    if index <= 0 || !skipped.contains_key((index - 1) as usize) {
        Seq::empty()
    } else {
        let token = skipped[(index - 1) as usize].1;
        law_places_of_a_token(tokens, token, 0, place);
        match position_before(tokens, token, place) {
            Some(before) => {
                let less = if m > 0 {
                    others.drop_last()
                } else {
                    others
                };
                let rest = law_leading_stop_words(skipped, tokens, before, index - 1, less);
                let places = rest.push(before);
                assert forall|k: int| 0 <= k < places.len() implies {
                    &&& 0 <= #[trigger] places[k] < place
                    &&& skipped.contains_key((index - places.len() + k) as usize)
                    &&& tokens[places[k]] == skipped[(index - places.len() + k) as usize].1
                } by {
                    if k < places.len() - 1 {
                        assert(places[k] == rest[k]);
                        assert(index - places.len() + k == index - 1 - rest.len() + k);
                    }
                }
                if leads(skipped, tokens, place, index, others) && m > 0 {
                    assert(others[m - 1] <= before);
                    assert(leads(skipped, tokens, before, index - 1, less)) by {
                        assert forall|k: int| 0 <= k < less.len() implies {
                            &&& 0 <= #[trigger] less[k] < before
                            &&& skipped.contains_key((index - 1 - less.len() + k) as usize)
                            &&& tokens[less[k]] == skipped[(index - 1 - less.len() + k) as usize].1
                        } by {
                            assert(less[k] == others[k]);
                            assert(others[k] < others[m - 1]);
                            assert(index - 1 - less.len() + k == index - others.len() + k);
                        }
                    }
                }
                places
            },
            None => Seq::empty(),
        }
    }
}

} // verus!
