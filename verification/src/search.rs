//! The search for matches in a query.

use crate::errors::{GazetteerParserError, GazetteerParserResult};
use crate::model::{complete, is_token, position_from, reach, Candidate, Model, Word};
use crate::order::{first_in_order, lemma_position_from, lemma_reach, lemma_reach_within};
use crate::parser::Parser;
use crate::possible_match::PossibleMatch;
use crate::single::{law_everything_reaches_one, Single, ONE_BITS};
use crate::state::{
    lemma_current, lemma_current_is_match, lemma_done_after_word, lemma_done_at_end,
    lemma_first_after_word, lemma_other_word, lemma_stop_word_passed_over, lemma_word_reaches, Track,
};
use crate::symbol_table::{lemma_no_index, lemma_single_index, single_index};
use crate::tables::{map_get, map_insert, map_keys, map_remove, set_contains, set_elements};
use crate::utils::{
    check_threshold, law_tokens_are_longest_runs, passes, token_ranges, tokens, white_space,
    whitespace_tokenizer,
};
use core::ops::Range;
use fnv::{FnvHashMap, FnvHashSet};
use vstd::prelude::*;

verus! {

broadcast use vstd::std_specs::hash::group_hash_axioms;

/// A threshold that every quotient reaches.
pub const NOTHING_BITS: u32 = 0;

/// A threshold that no quotient reaches.
pub const NOT_A_NUMBER_BITS: u32 = 0x7fc0_0000;

/// The first place of `token` among `tokens` that is not before `from`.
fn find_position(tokens: &Vec<u32>, token: u32, from: usize) -> (place: Option<usize>)
    ensures
        match place {
            Some(found) => position_from(tokens@, token, from as int) == Some(found as int),
            None => position_from(tokens@, token, from as int) is None,
        },
{
    let mut k: usize = from;
    while k < tokens.len()
        invariant
            from <= k,
            position_from(tokens@, token, from as int) == position_from(tokens@, token, k as int),
        decreases tokens.len() - k,
    {
        if tokens[k] == token {
            return Some(k);
        }
        k = k + 1;
    }
    None
}

/// The last place of `token` among `tokens` before `limit`.
pub open spec fn position_before(tokens: Seq<u32>, token: u32, limit: int) -> Option<int>
    decreases limit,
{
    if limit <= 0 {
        None
    } else if tokens[limit - 1] == token {
        Some(limit - 1)
    } else {
        position_before(tokens, token, limit - 1)
    }
}

proof fn lemma_position_before(tokens: Seq<u32>, token: u32, limit: int)
    ensures
        position_before(tokens, token, limit) matches Some(place) ==> 0 <= place < limit,
    decreases limit,
{
    if limit > 0 {
        lemma_position_before(tokens, token, limit - 1);
    }
}

/// Computes [`position_before`].
fn find_position_before(tokens: &Vec<u32>, token: u32, limit: usize) -> (place: Option<usize>)
    requires
        limit <= tokens.len(),
    ensures
        match place {
            Some(found) => position_before(tokens@, token, limit as int) == Some(found as int),
            None => position_before(tokens@, token, limit as int) is None,
        },
{
    let mut k: usize = limit;
    while k > 0
        invariant
            k <= limit <= tokens.len(),
            position_before(tokens@, token, limit as int) == position_before(tokens@, token, k as int),
        decreases k,
    {
        k = k - 1;
        if tokens[k] == token {
            return Some(k);
        }
    }
    None
}

/// The number of words directly before `index` that are held in `skipped` and have places in the value
/// before `place`, each before that of the word behind it.
pub open spec fn leading_in(
    skipped: Map<usize, (Range<usize>, u32)>,
    tokens: Seq<u32>,
    place: int,
    index: int,
) -> nat
    decreases index,
{
    if index <= 0 || !skipped.contains_key((index - 1) as usize) {
        0
    } else {
        match position_before(tokens, skipped[(index - 1) as usize].1, place) {
            Some(before) => 1 + leading_in(skipped, tokens, before, index - 1),
            None => 0,
        }
    }
}

proof fn lemma_leading_in(
    skipped: Map<usize, (Range<usize>, u32)>,
    tokens: Seq<u32>,
    place: int,
    index: int,
)
    requires
        0 <= place,
        0 <= index,
    ensures
        leading_in(skipped, tokens, place, index) <= place,
        leading_in(skipped, tokens, place, index) <= index,
    decreases index,
{
    if index > 0 && skipped.contains_key((index - 1) as usize) {
        let token = skipped[(index - 1) as usize].1;
        lemma_position_before(tokens, token, place);
        if let Some(before) = position_before(tokens, token, place) {
            lemma_leading_in(skipped, tokens, before, index - 1);
        }
    }
}

/// The matches among `matches`.
pub open spec fn recorded(matches: Seq<PossibleMatch>) -> Set<Candidate> {
    Set::new(
        |c: Candidate|
            exists|k: int| 0 <= k < matches.len() && (#[trigger] matches[k]).candidate() == c,
    )
}

/// `m` is a match of one of the values, and it lies in the query.
pub open spec fn is_match(model: Model, words: Seq<Word>, m: PossibleMatch) -> bool {
    m.fits(model) && m.lies_in(words)
}

/// `m` is a match, and the place of its last token is that of its last word, where each word is matched
/// with the first token of the value that comes after the one before.
pub open spec fn is_found(model: Model, words: Seq<Word>, m: PossibleMatch) -> bool {
    let tokens = model.tokens(m.resolved_value);
    &&& is_match(model, words, m)
    &&& reach(tokens, words, m.tokens_range.start as int, m.tokens_range.end as int) == Some(
        m.last_token_in_resolution as int,
    )
    &&& words[m.last_token_in_input as int].symbol == Some(tokens[m.last_token_in_resolution as int])
}

/// No two of `matches` are matches of the same value with the same words.
pub open spec fn all_different(matches: Seq<PossibleMatch>) -> bool {
    forall|i: int, j: int|
        #![trigger matches[i], matches[j]]
        0 <= i < j < matches.len() ==> matches[i].candidate() != matches[j].candidate()
}

/// The place at which a match grows by the token `value`, the one at `token_idx` of the query.
pub open spec fn growth(
    tokens: Seq<u32>,
    m: PossibleMatch,
    res_val: u32,
    token_idx: usize,
    value: u32,
) -> Option<int> {
    if m.resolved_value == res_val && token_idx == m.last_token_in_input + 1 {
        position_from(tokens, value, m.last_token_in_resolution + 1)
    } else {
        None
    }
}

/// A token of a query: its range in characters, and its index where the parser knows it.
pub struct QueryWord {
    pub range: Range<usize>,
    pub symbol: Option<u32>,
}

/// `query` holds `words`.
pub open spec fn holds_words(query: Seq<QueryWord>, words: Seq<Word>) -> bool {
    &&& query.len() == words.len()
    &&& forall|i: int|
        0 <= i < query.len() ==> words[i] == (Word {
            start: (#[trigger] query[i]).range.start as int,
            end: query[i].range.end as int,
            symbol: query[i].symbol,
        })
}

/// Computes [`reach`] for words of a query.
fn find_reach(otokens: &Vec<u32>, query: &Vec<QueryWord>, first: usize, end: usize, Ghost(words): Ghost<
    Seq<Word>,
>) -> (place: Option<usize>)
    requires
        first < end <= query.len(),
        holds_words(query@, words),
    ensures
        match place {
            Some(found) => reach(otokens@, words, first as int, end as int) == Some(found as int),
            None => reach(otokens@, words, first as int, end as int) is None,
        },
{
    let mut next: usize = 0;
    let mut j: usize = first;
    while j < end
        invariant
            first <= j <= end <= query.len(),
            holds_words(query@, words),
            next <= otokens.len(),
            j > first ==> next > 0,
            reach(otokens@, words, first as int, j as int) == Some(next - 1),
        decreases end - j,
    {
        proof {
            assert(words[j as int].symbol == query@[j as int].symbol);
            if reach(otokens@, words, first as int, end as int) is Some {
                lemma_reach_within(otokens@, words, first as int, end as int, first as int, j + 1);
            }
        }
        match query[j].symbol {
            Some(token) => {
                proof {
                    lemma_position_from(otokens@, token, next as int);
                }
                match find_position(otokens, token, next) {
                    Some(place) => {
                        next = place + 1;
                    },
                    None => {
                        return None;
                    },
                }
            },
            None => {
                return None;
            },
        }
        j = j + 1;
    }
    Some(next - 1)
}

/// Computes [`first_in_order`] for words of a query, the last of which is a token of the value, and the
/// place that they reach.
fn find_first(otokens: &Vec<u32>, query: &Vec<QueryWord>, from: usize, end: usize, Ghost(words): Ghost<
    Seq<Word>,
>) -> (found: (usize, usize))
    requires
        from < end <= query.len(),
        holds_words(query@, words),
        reach(otokens@, words, end - 1, end as int) is Some,
    ensures
        found.0 == first_in_order(otokens@, words, from as int, end as int),
        from <= found.0 < end,
        reach(otokens@, words, found.0 as int, end as int) == Some(found.1 as int),
{
    let mut first: usize = from;
    loop
        invariant
            from <= first < end <= query.len(),
            holds_words(query@, words),
            reach(otokens@, words, end - 1, end as int) is Some,
            first_in_order(otokens@, words, from as int, end as int) == first_in_order(
                otokens@,
                words,
                first as int,
                end as int,
            ),
        decreases end - first,
    {
        match find_reach(otokens, query, first, end, Ghost(words)) {
            Some(place) => {
                return (first, place);
            },
            None => {
                first = first + 1;
            },
        }
    }
}

/// `pending` and `matches` hold what is known of all values.
spec fn holds_states(
    model: Model,
    words: Seq<Word>,
    pending: Map<u32, PossibleMatch>,
    matches: Seq<PossibleMatch>,
    state: spec_fn(u32) -> Track,
) -> bool {
    &&& pending.dom().finite()
    &&& forall|value: u32| #[trigger] pending.contains_key(value) ==> model.values.contains_key(value)
    &&& forall|value: u32| #[trigger]
        model.values.contains_key(value) ==> match state(value).current {
            None => !pending.contains_key(value),
            Some(part) => pending.contains_key(value) && is_part(
                model,
                words,
                pending[value],
                value,
                part,
            ),
        }
    &&& forall|k: int| 0 <= k < matches.len() ==> is_found(model, words, #[trigger] matches[k])
    &&& all_different(matches)
    &&& forall|c: Candidate| #[trigger]
        recorded(matches).contains(c) <==> model.values.contains_key(c.value) && state(
            c.value,
        ).done.contains((c.first, c.end))
}

/// `m` is the match of `value` with a part of the query.
spec fn is_part(model: Model, words: Seq<Word>, m: PossibleMatch, value: u32, part: (int, int)) -> bool {
    &&& m.resolved_value == value
    &&& is_found(model, words, m)
    &&& m.tokens_range.start == part.0
    &&& m.tokens_range.end == part.1
}

spec fn replaced(state: spec_fn(u32) -> Track, value: u32, track: Track) -> spec_fn(u32) -> Track {
    |other: u32|
        if other == value {
            track
        } else {
            state(other)
        }
}

/// What is known after the first `n` words.
spec fn states_after(model: Model, words: Seq<Word>, n: int, threshold: Single) -> spec_fn(
    u32,
) -> Track {
    |value: u32| model.track(words, value, n, threshold)
}

/// `after` for the first `n` of `values`, `before` for the others.
spec fn visited(
    values: Seq<u32>,
    n: int,
    before: spec_fn(u32) -> Track,
    after: spec_fn(u32) -> Track,
) -> spec_fn(u32) -> Track {
    |value: u32|
        if values.take(n).contains(value) {
            after(value)
        } else {
            before(value)
        }
}

proof fn lemma_recorded_push(matches: Seq<PossibleMatch>, m: PossibleMatch)
    ensures
        recorded(matches.push(m)) == recorded(matches).insert(m.candidate()),
{
    let after = matches.push(m);
    assert forall|c: Candidate| recorded(after).contains(c) <==> recorded(matches).insert(
        m.candidate(),
    ).contains(c) by {
        if recorded(matches).contains(c) {
            let k = choose|k: int| 0 <= k < matches.len() && (#[trigger] matches[k]).candidate() == c;
            assert(after[k].candidate() == c);
        }
        if c == m.candidate() {
            assert(after[matches.len() as int].candidate() == c);
        }
        if recorded(after).contains(c) && c != m.candidate() {
            let k = choose|k: int| 0 <= k < after.len() && (#[trigger] after[k]).candidate() == c;
            assert(matches[k].candidate() == c);
        }
    }
    assert(recorded(after) =~= recorded(matches).insert(m.candidate()));
}

/// Moving on to the next of `values`.
proof fn lemma_visited(
    values: Seq<u32>,
    n: int,
    before: spec_fn(u32) -> Track,
    after: spec_fn(u32) -> Track,
)
    requires
        0 <= n < values.len(),
        values.no_duplicates(),
    ensures
        visited(values, n, before, after)(values[n]) == before(values[n]),
        forall|value: u32| #[trigger]
            visited(values, n + 1, before, after)(value) == if value == values[n] {
                after(value)
            } else {
                visited(values, n, before, after)(value)
            },
{
    assert(values.take(n + 1) =~= values.take(n).push(values[n]));
    assert(!values.take(n).contains(values[n])) by {
        if values.take(n).contains(values[n]) {
            let k = choose|k: int| 0 <= k < n && values.take(n)[k] == values[n];
            assert(values[k] == values[n]);
        }
    }
    assert forall|value: u32| #[trigger] visited(values, n + 1, before, after)(value) == if value
        == values[n] {
        after(value)
    } else {
        visited(values, n, before, after)(value)
    } by {
        assert(values.take(n + 1).contains(value) <==> values.take(n).contains(value) || value
            == values[n]) by {
            if values.take(n).contains(value) {
                let k = choose|k: int| 0 <= k < n && values.take(n)[k] == value;
                assert(values.take(n + 1)[k] == value);
            }
            if value == values[n] {
                assert(values.take(n + 1)[n] == value);
            }
        }
    }
}

/// Equal states are held alike.
proof fn lemma_same_states(
    model: Model,
    words: Seq<Word>,
    pending: Map<u32, PossibleMatch>,
    matches: Seq<PossibleMatch>,
    state: spec_fn(u32) -> Track,
    other: spec_fn(u32) -> Track,
)
    requires
        holds_states(model, words, pending, matches, state),
        forall|value: u32| #[trigger]
            model.values.contains_key(value) ==> state(value) == other(value),
    ensures
        holds_states(model, words, pending, matches, other),
{
    assert forall|c: Candidate| #[trigger]
        recorded(matches).contains(c) <==> model.values.contains_key(c.value) && other(
        c.value,
    ).done.contains((c.first, c.end)) by {
        assert(recorded(matches).contains(c) <==> model.values.contains_key(c.value) && state(
            c.value,
        ).done.contains((c.first, c.end)));
    }
}

/// The state of one value changes.
proof fn lemma_one_state(
    model: Model,
    words: Seq<Word>,
    pending: Map<u32, PossibleMatch>,
    matches: Seq<PossibleMatch>,
    state: spec_fn(u32) -> Track,
    value: u32,
    track: Track,
    new_pending: Map<u32, PossibleMatch>,
    new_matches: Seq<PossibleMatch>,
)
    requires
        holds_states(model, words, pending, matches, state),
        model.values.contains_key(value),
        new_pending.remove(value) == pending.remove(value),
        match track.current {
            None => !new_pending.contains_key(value),
            Some(part) => new_pending.contains_key(value) && is_part(
                model,
                words,
                new_pending[value],
                value,
                part,
            ),
        },
        ({
            ||| new_matches == matches && track.done == state(value).done
            ||| {
                let m = pending[value];
                let span = (m.tokens_range.start as int, m.tokens_range.end as int);
                &&& pending.contains_key(value)
                &&& new_matches == matches.push(m)
                &&& track.done == state(value).done.insert(span)
                &&& !state(value).done.contains(span)
            }
        }),
    ensures
        holds_states(model, words, new_pending, new_matches, replaced(state, value, track)),
{
    let new_state = replaced(state, value, track);
    assert(new_pending.dom().finite()) by {
        assert(new_pending.dom().subset_of(pending.dom().insert(value))) by {
            assert forall|v: u32| new_pending.dom().contains(v) implies pending.dom().insert(
                value,
            ).contains(v) by {
                if v != value {
                    assert(new_pending.remove(value).contains_key(v));
                }
            }
        }
        vstd::set_lib::lemma_set_subset_finite(pending.dom().insert(value), new_pending.dom());
    }
    assert forall|v: u32| v != value implies (#[trigger] new_pending.contains_key(v)
        == pending.contains_key(v)) && (pending.contains_key(v) ==> new_pending[v] == pending[v]) by {
        assert(new_pending.remove(value).contains_key(v) == new_pending.contains_key(v));
        assert(pending.remove(value).contains_key(v) == pending.contains_key(v));
        if pending.contains_key(v) {
            assert(new_pending.remove(value)[v] == new_pending[v]);
            assert(pending.remove(value)[v] == pending[v]);
        }
    }
    if new_matches != matches {
        let m = pending[value];
        lemma_recorded_push(matches, m);
        assert(m.resolved_value == value && is_found(model, words, m));
        assert(!recorded(matches).contains(m.candidate()));
        assert forall|k: int| 0 <= k < new_matches.len() implies is_found(
            model,
            words,
            #[trigger] new_matches[k],
        ) by {
            if k < matches.len() {
                assert(is_found(model, words, matches[k]));
            }
        }
        assert(all_different(new_matches)) by {
            assert forall|i: int, j: int|
                #![trigger new_matches[i], new_matches[j]]
                0 <= i < j < new_matches.len() implies new_matches[i].candidate()
                != new_matches[j].candidate() by {
                if j == matches.len() {
                    assert(recorded(matches).contains(matches[i].candidate()));
                } else {
                    assert(matches[i].candidate() != matches[j].candidate());
                }
            }
        }
    }
    assert forall|c: Candidate| #[trigger]
        recorded(new_matches).contains(c) <==> model.values.contains_key(c.value) && new_state(
        c.value,
    ).done.contains((c.first, c.end)) by {
        assert(recorded(matches).contains(c) <==> model.values.contains_key(c.value) && state(
            c.value,
        ).done.contains((c.first, c.end)));
    }
}

/// A parser knows a token under one index at most, and then it knows the values that it occurs in.
pub proof fn lemma_lookup(model: Model, token: Seq<char>)
    requires
        model.wf(),
        is_token(token),
    ensures
        match single_index(model.symbols, token) {
            Ok(Some(index)) => {
                &&& model.token_values.contains_key(index)
                &&& model.symbols[index as int] == token
            },
            Ok(None) => !model.symbols.contains(token),
            Err(_) => false,
        },
{
    lemma_no_index(model.symbols, token);
    if model.symbols.contains(token) {
        let i = choose|i: int| 0 <= i < model.symbols.len() && model.symbols[i] == token;
        assert forall|j: int| 0 <= j < model.symbols.len() && j != i implies #[trigger] model.symbols[j]
            != model.symbols[i] by {
            if j < i {
                if model.symbols[j] == model.symbols[i] {
                    assert(is_token(model.symbols[j]));
                }
            } else {
                assert(is_token(model.symbols[i]));
            }
        }
        lemma_single_index(model.symbols, i);
        assert(is_token(model.symbols[i]));
    }
}

/// The tokens of a text are tokens.
pub proof fn lemma_is_token(text: Seq<char>, i: int)
    requires
        0 <= i < token_ranges(text).len(),
    ensures
        is_token(text.subrange(token_ranges(text)[i].0, token_ranges(text)[i].1)),
        tokens(text)[i] == text.subrange(token_ranges(text)[i].0, token_ranges(text)[i].1),
{
    law_tokens_are_longest_runs(text);
    let range = token_ranges(text)[i];
    let token = text.subrange(range.0, range.1);
    assert forall|k: int| 0 <= k < token.len() implies !white_space(#[trigger] token[k]) by {
        assert(range.0 <= range.0 + k < range.1);
        assert(!white_space(text[range.0 + k]));
    }
}

/// The tokens of a value occur in it, and no others.
pub proof fn lemma_occurs_in(model: Model, value: u32, token: u32)
    requires
        model.wf(),
        model.values.contains_key(value),
    ensures
        model.occurs_in(token, value) == model.tokens(value).contains(token),
{
    if model.tokens(value).contains(token) {
        let k = choose|k: int| 0 <= k < model.tokens(value).len() && model.tokens(value)[k] == token;
        assert(model.occurs_in(model.tokens(value)[k], value));
    }
}

/// Appends those of `more` to `list` that are in `wanted` and not in `excluded`, which holds what is there.
fn append_some(
    list: &mut Vec<u32>,
    more: &Vec<u32>,
    wanted: &FnvHashSet<u32>,
    excluded: &FnvHashSet<u32>,
)
    requires
        old(list)@.no_duplicates(),
        more@.no_duplicates(),
        forall|v: u32| #[trigger] old(list)@.contains(v) ==> excluded@.contains(v),
    ensures
        final(list)@.no_duplicates(),
        forall|v: u32| #[trigger]
            final(list)@.contains(v) <==> old(list)@.contains(v) || (more@.contains(v)
                && wanted@.contains(v) && !excluded@.contains(v)),
{
    let mut i: usize = 0;
    assert(more@.take(0) =~= Seq::<u32>::empty());
    while i < more.len()
        invariant
            more@.no_duplicates(),
            i <= more.len(),
            list@.no_duplicates(),
            forall|v: u32| #[trigger] old(list)@.contains(v) ==> excluded@.contains(v),
            forall|v: u32| #[trigger]
                list@.contains(v) <==> old(list)@.contains(v) || (more@.take(i as int).contains(v)
                    && wanted@.contains(v) && !excluded@.contains(v)),
        decreases more.len() - i,
    {
        let value: u32 = more[i];
        let ghost before = list@;
        proof {
            assert(more@.take(i + 1) =~= more@.take(i as int).push(value));
            assert forall|v: u32| #[trigger] more@.take(i + 1).contains(v) <==> more@.take(
                i as int,
            ).contains(v) || v == value by {
                if more@.take(i as int).contains(v) {
                    let k = choose|k: int| 0 <= k < i && more@.take(i as int)[k] == v;
                    assert(more@.take(i + 1)[k] == v);
                }
                if v == value {
                    assert(more@.take(i + 1)[i as int] == v);
                }
            }
            if more@.take(i as int).contains(value) {
                let k = choose|k: int| 0 <= k < i && more@.take(i as int)[k] == value;
                assert(more@[k] == more@[i as int]);
            }
        }
        if set_contains(wanted, &value) && !set_contains(excluded, &value) {
            list.push(value);
            proof {
                assert(!before.contains(value));
                assert(list@.no_duplicates()) by {
                    assert forall|j: int, k: int| 0 <= j < k < list.len() implies list@[j] != list@[k] by {
                        if k == before.len() {
                            assert(before.contains(before[j]));
                        }
                    }
                }
                assert forall|v: u32| #[trigger] list@.contains(v) <==> before.contains(v) || v == value by {
                    if before.contains(v) {
                        let k = choose|k: int| 0 <= k < before.len() && before[k] == v;
                        assert(list@[k] == v);
                    }
                    if v == value {
                        assert(list@[before.len() as int] == v);
                    }
                }
            }
        }
        i = i + 1;
    }
    assert(more@.take(more.len() as int) =~= more@);
}

impl Parser {
    /// Grows a match by the token at `token_idx` of the query, or ends it and begins a new one there.
    /// A match that ends goes to `matches_heap` if enough of its value has been matched.
    pub fn update_previous_match(
        &self,
        possible_match: &mut PossibleMatch,
        res_val: &u32,
        token_idx: usize,
        value: u32,
        range_start: usize,
        range_end: usize,
        threshold: Single,
        matches_heap: &mut Vec<PossibleMatch>,
    )
        requires
            self@.values.contains_key(*res_val),
            self@.tokens(*res_val).contains(value),
            self@.tokens(*res_val).len() <= u32::MAX,
            token_idx < usize::MAX,
            match growth(self@.tokens(*res_val), *old(possible_match), *res_val, token_idx, value) {
                Some(_) => {
                    &&& old(possible_match).n_consumed_tokens < u32::MAX
                    &&& old(possible_match).tokens_range.end < usize::MAX
                },
                None => old(possible_match).n_consumed_tokens <= old(possible_match).raw_value_length,
            },
        ensures
            match growth(self@.tokens(*res_val), *old(possible_match), *res_val, token_idx, value) {
                Some(place) => {
                    &&& *final(possible_match) == (PossibleMatch {
                        range: old(possible_match).range.start..range_end,
                        tokens_range: old(possible_match).tokens_range.start..(old(
                            possible_match,
                        ).tokens_range.end + 1) as usize,
                        n_consumed_tokens: (old(possible_match).n_consumed_tokens + 1) as u32,
                        last_token_in_input: token_idx,
                        last_token_in_resolution: place as usize,
                        ..*old(possible_match)
                    })
                    &&& final(matches_heap)@ == old(matches_heap)@
                },
                None => {
                    &&& *final(possible_match) == (PossibleMatch {
                        resolved_value: *res_val,
                        range: range_start..range_end,
                        tokens_range: token_idx..(token_idx + 1) as usize,
                        raw_value_length: self@.tokens(*res_val).len() as u32,
                        n_consumed_tokens: 1,
                        last_token_in_input: token_idx,
                        last_token_in_resolution: position_from(
                            self@.tokens(*res_val),
                            value,
                            0,
                        )->0 as usize,
                        rank: self@.rank(*res_val),
                    })
                    &&& final(matches_heap)@ == if passes(
                        old(possible_match).n_consumed_tokens as nat,
                        (old(possible_match).raw_value_length - old(
                            possible_match,
                        ).n_consumed_tokens) as nat,
                        threshold,
                    ) {
                        old(matches_heap)@.push(*old(possible_match))
                    } else {
                        old(matches_heap)@
                    }
                },
            },
    {
        let entry = match self.get_tokens_from_resolved_value(res_val) {
            Ok(entry) => entry,
            Err(_) => {
                assert(false);
                return;
            },
        };
        let otokens: &Vec<u32> = &entry.1;
        if possible_match.resolved_value == *res_val && token_idx > 0 && token_idx - 1
            == possible_match.last_token_in_input && possible_match.last_token_in_resolution
            < otokens.len() {
            let from: usize = possible_match.last_token_in_resolution + 1;
            proof {
                lemma_position_from(otokens@, value, from as int);
            }
            if let Some(otoken_idx) = find_position(otokens, value, from) {
                possible_match.range = possible_match.range.start..range_end;
                possible_match.n_consumed_tokens = possible_match.n_consumed_tokens + 1;
                possible_match.last_token_in_input = token_idx;
                possible_match.last_token_in_resolution = otoken_idx;
                possible_match.tokens_range = possible_match.tokens_range.start..(
                possible_match.tokens_range.end + 1);
                return;
            }
        }
        assert(growth(otokens@, *old(possible_match), *res_val, token_idx, value) is None);
        if check_threshold(
            possible_match.n_consumed_tokens,
            possible_match.raw_value_length - possible_match.n_consumed_tokens,
            threshold,
        ) {
            matches_heap.push(possible_match.clone());
        }
        proof {
            lemma_position_from(otokens@, value, 0);
        }
        let last_token_in_resolution: usize = match find_position(otokens, value, 0) {
            Some(place) => place,
            None => {
                assert(false);
                return;
            },
        };
        *possible_match = PossibleMatch {
            resolved_value: *res_val,
            range: range_start..range_end,
            tokens_range: token_idx..(token_idx + 1),
            raw_value_length: otokens.len() as u32,
            last_token_in_input: token_idx,
            last_token_in_resolution,
            n_consumed_tokens: 1,
            rank: entry.0,
        };
    }

    /// The match that begins with the token at `token_idx` of the query. Stop words before it are taken in
    /// as long as the value has each of them before the one behind it. There is no match if too many
    /// tokens of the value have been passed over already.
    pub fn insert_new_possible_match(
        &self,
        res_val: &u32,
        value: u32,
        range_start: usize,
        range_end: usize,
        token_idx: usize,
        threshold: Single,
        skipped_tokens: &FnvHashMap<usize, (Range<usize>, u32)>,
    ) -> (found: GazetteerParserResult<Option<PossibleMatch>>)
        requires
            self@.values.contains_key(*res_val),
            self@.tokens(*res_val).contains(value),
            self@.tokens(*res_val).len() <= u32::MAX,
            token_idx < usize::MAX,
        ensures
            ({
                let tokens = self@.tokens(*res_val);
                let position = position_from(tokens, value, 0)->0;
                let before = leading_in(skipped_tokens@, tokens, position, token_idx as int);
                let skips = position - before;
                if passes((tokens.len() - skips) as nat, skips as nat, threshold) {
                    &&& found matches Ok(Some(new_match))
                    &&& new_match == (PossibleMatch {
                        resolved_value: *res_val,
                        range: (if before == 0 {
                            range_start
                        } else {
                            skipped_tokens@[(token_idx - before) as usize].0.start
                        })..range_end,
                        tokens_range: (token_idx - before) as usize..(token_idx + 1) as usize,
                        raw_value_length: tokens.len() as u32,
                        n_consumed_tokens: (before + 1) as u32,
                        last_token_in_input: token_idx,
                        last_token_in_resolution: position as usize,
                        rank: self@.rank(*res_val),
                    })
                } else {
                    found == Ok::<Option<PossibleMatch>, GazetteerParserError>(None)
                }
            }),
    {
        let entry = match self.get_tokens_from_resolved_value(res_val) {
            Ok(entry) => entry,
            Err(error) => {
                assert(false);
                return Err(error);
            },
        };
        let otokens: &Vec<u32> = &entry.1;
        proof {
            lemma_position_from(otokens@, value, 0);
        }
        let last_token_in_resolution: usize = match find_position(otokens, value, 0) {
            Some(place) => place,
            None => {
                assert(false);
                return Ok(None);
            },
        };
        let ghost skipped = skipped_tokens@;
        let ghost position = last_token_in_resolution as int;

        // Look back for stop words with which the value may begin.
        let mut first: usize = token_idx;
        let mut start: usize = range_start;
        let mut place: usize = last_token_in_resolution;
        let mut looking: bool = true;
        while looking && first > 0
            invariant
                skipped == skipped_tokens@,
                position == last_token_in_resolution,
                first <= token_idx,
                place <= otokens.len(),
                leading_in(skipped, otokens@, position, token_idx as int) == token_idx - first + (
                if looking {
                    leading_in(skipped, otokens@, place as int, first as int)
                } else {
                    0
                }),
                start == if first == token_idx {
                    range_start
                } else {
                    skipped[first].0.start
                },
            decreases first, (if looking { 1int } else { 0 }),
        {
            looking = false;
            if let Some(token) = map_get(skipped_tokens, &(first - 1)) {
                if let Some(before) = find_position_before(otokens, token.1, place) {
                    proof {
                        lemma_position_before(otokens@, token.1, place as int);
                    }
                    looking = true;
                    place = before;
                    first = first - 1;
                    start = token.0.start;
                }
            }
        }
        proof {
            lemma_leading_in(skipped, otokens@, position, token_idx as int);
        }
        let before: usize = token_idx - first;
        let n_skips: u32 = (last_token_in_resolution - before) as u32;
        let raw_value_length: u32 = otokens.len() as u32;
        if check_threshold(raw_value_length - n_skips, n_skips, threshold) {
            Ok(
                Some(
                    PossibleMatch {
                        resolved_value: *res_val,
                        range: start..range_end,
                        tokens_range: first..(token_idx + 1),
                        last_token_in_input: token_idx,
                        last_token_in_resolution,
                        n_consumed_tokens: before as u32 + 1,
                        raw_value_length,
                        rank: entry.0,
                    },
                ),
            )
        } else {
            Ok(None)
        }
    }

    /// The threshold that a match has to reach to be kept: for an edge case one that it reaches if it is
    /// complete, and otherwise none.
    fn threshold_for(&self, possible_match: &PossibleMatch, threshold: Single) -> (needed: Single)
        requires
            possible_match.fits(self@),
        ensures
            passes(
                possible_match.n_consumed_tokens as nat,
                (possible_match.raw_value_length - possible_match.n_consumed_tokens) as nat,
                needed,
            ) == self@.suffices(
                possible_match.resolved_value,
                possible_match.tokens_range.start as int,
                possible_match.tokens_range.end as int,
                threshold,
            ),
    {
        if !set_contains(&self.edge_cases, &possible_match.resolved_value) {
            threshold
        } else if possible_match.n_consumed_tokens == possible_match.raw_value_length {
            proof {
                law_everything_reaches_one(possible_match.n_consumed_tokens as nat, complete());
            }
            Single::from_bits(ONE_BITS)
        } else {
            Single::from_bits(NOT_A_NUMBER_BITS)
        }
    }

    /// Extends a match back to the first word from `from` on with which its words stand in order.
    fn extend_back(
        &self,
        possible_match: &mut PossibleMatch,
        from: usize,
        query: &Vec<QueryWord>,
        Ghost(words): Ghost<Seq<Word>>,
    )
        requires
            self.wf(),
            holds_words(query@, words),
            from < old(possible_match).tokens_range.end <= words.len(),
            self@.values.contains_key(old(possible_match).resolved_value),
            old(possible_match).rank == self@.rank(old(possible_match).resolved_value),
            old(possible_match).raw_value_length == self@.tokens(
                old(possible_match).resolved_value,
            ).len(),
            old(possible_match).last_token_in_input == old(possible_match).tokens_range.end - 1,
            old(possible_match).range.end == words[old(possible_match).tokens_range.end - 1].end,
            self@.is_word_of(
                words,
                old(possible_match).resolved_value,
                old(possible_match).tokens_range.end - 1,
            ),
        ensures
            final(possible_match).resolved_value == old(possible_match).resolved_value,
            final(possible_match).tokens_range.end == old(possible_match).tokens_range.end,
            final(possible_match).tokens_range.start == first_in_order(
                self@.tokens(old(possible_match).resolved_value),
                words,
                from as int,
                old(possible_match).tokens_range.end as int,
            ),
            is_found(self@, words, *final(possible_match)),
    {
        let res_val: u32 = possible_match.resolved_value;
        let end: usize = possible_match.tokens_range.end;
        if let Ok(entry) = self.get_tokens_from_resolved_value(&res_val) {
            proof {
                lemma_word_reaches(self@, words, res_val, end - 1);
            }
            let (first, place): (usize, usize) = find_first(&entry.1, query, from, end, Ghost(words));
            proof {
                lemma_reach(entry.1@, words, first as int, end as int);
                assert(words[first as int].start == query@[first as int].range.start);
            }
            possible_match.range = query[first].range.start..possible_match.range.end;
            possible_match.tokens_range = first..end;
            possible_match.n_consumed_tokens = (end - first) as u32;
            possible_match.last_token_in_resolution = place;
        } else {
            assert(false);
        }
    }

    /// Whether some words can stand for a value.
    fn may_stand_for(
        &self,
        value: u32,
        first: usize,
        end: usize,
        query: &Vec<QueryWord>,
        Ghost(words): Ghost<Seq<Word>>,
    ) -> (yes: bool)
        requires
            holds_words(query@, words),
            end <= words.len(),
        ensures
            yes == self@.has_content(words, value, first as int, end as int),
    {
        if set_contains(&self.edge_cases, &value) {
            return true;
        }
        let mut j: usize = first;
        while j < end
            invariant
                first <= j,
                end <= words.len(),
                holds_words(query@, words),
                forall|i: int|
                    first <= i < j && (#[trigger] words[i]).symbol is Some ==> self@.stop_words.contains(
                        words[i].symbol->0,
                    ),
            decreases end - j,
        {
            assert(words[j as int].symbol == query@[j as int].symbol);
            if let Some(token) = query[j].symbol {
                if !set_contains(&self.stop_words, &token) {
                    return true;
                }
            }
            j = j + 1;
        }
        false
    }

    /// The beginning of the stop words of a value directly before `token_idx`.
    fn stop_words_before(
        &self,
        value: u32,
        token_idx: usize,
        query: &Vec<QueryWord>,
        Ghost(words): Ghost<Seq<Word>>,
    ) -> (from: usize)
        requires
            self.wf(),
            self@.values.contains_key(value),
            holds_words(query@, words),
            token_idx <= words.len(),
        ensures
            from <= token_idx,
            from == 0 || !self@.is_word_of(words, value, from - 1) || !(words[from - 1].symbol is Some
                && self@.stop_words.contains(words[from - 1].symbol->0)),
    {
        let mut from: usize = token_idx;
        while from > 0
            invariant
                self.wf(),
                self@.values.contains_key(value),
                holds_words(query@, words),
                from <= token_idx <= words.len(),
            ensures
                from <= token_idx,
                from == 0 || !self@.is_word_of(words, value, from - 1) || !(words[from - 1].symbol is Some
                    && self@.stop_words.contains(words[from - 1].symbol->0)),
            decreases from,
        {
            assert(words[from - 1].symbol == query@[from - 1].symbol);
            let taken_in: bool = match query[from - 1].symbol {
                Some(token) => set_contains(&self.stop_words, &token) && self.is_token_of(token, value),
                None => false,
            };
            proof {
                if self@.is_word_of(words, value, from - 1) {
                    lemma_occurs_in(self@, value, words[from - 1].symbol->0);
                }
            }
            if !taken_in {
                break;
            }
            from = from - 1;
        }
        from
    }

    /// Reads the word at `token_idx`, a token of `res_val`, for this value. A stop word is read only for an
    /// edge case or for a part of the query that may grow.
    fn read_for_value(
        &self,
        res_val: u32,
        query: &Vec<QueryWord>,
        token_idx: usize,
        value: u32,
        threshold: Single,
        skipped_tokens: &FnvHashMap<usize, (Range<usize>, u32)>,
        possible_matches: &mut FnvHashMap<u32, PossibleMatch>,
        matches_heap: &mut Vec<PossibleMatch>,
        Ghost(words): Ghost<Seq<Word>>,
        Ghost(state): Ghost<spec_fn(u32) -> Track>,
    )
        requires
            self.wf(),
            holds_words(query@, words),
            token_idx < words.len(),
            words[token_idx as int].symbol == Some(value),
            self@.values.contains_key(res_val),
            self@.occurs_in(value, res_val),
            !self@.stop_words.contains(value) || self@.edge_cases.contains(res_val) || old(
                possible_matches,
            )@.contains_key(res_val),
            state(res_val) == self@.track(words, res_val, token_idx as int, threshold),
            holds_states(self@, words, old(possible_matches)@, old(matches_heap)@, state),
        ensures
            holds_states(
                self@,
                words,
                final(possible_matches)@,
                final(matches_heap)@,
                replaced(state, res_val, self@.track(words, res_val, token_idx + 1, threshold)),
            ),
            forall|v: u32|
                v != res_val ==> (#[trigger] final(possible_matches)@.contains_key(v) <==> old(
                    possible_matches,
                )@.contains_key(v)),
    {
        let ghost model = self@;
        let ghost tokens = model.tokens(res_val);
        let ghost pending = possible_matches@;
        let ghost matches = matches_heap@;
        let ghost index = token_idx as int;
        let ghost after = model.track(words, res_val, index + 1, threshold);
        proof {
            assert(tokens.contains(value));
            assert(model.is_word_of(words, res_val, index));
            lemma_current(model, words, res_val, index);
            lemma_current_is_match(model, words, res_val, index, threshold);
            lemma_done_after_word(model, words, res_val, index, threshold);
            lemma_word_reaches(model, words, res_val, index);
            lemma_position_from(tokens, value, 0);
            assert(words[index].start == query@[index].range.start);
            assert(words[index].end == query@[index].range.end);
        }
        assert(token_idx < query.len());
        let range_start: usize = query[token_idx].range.start;
        let range_end: usize = query[token_idx].range.end;
        let mut new_match: PossibleMatch;
        match map_remove(possible_matches, &res_val) {
            Some(previous_match) => {
                new_match = previous_match;
                let ghost before = new_match;
                let from: usize = if new_match.tokens_range.end == token_idx {
                    new_match.tokens_range.start
                } else {
                    token_idx
                };
                let needed = self.threshold_for(&new_match, threshold);
                proof {
                    assert(is_part(
                        model,
                        words,
                        before,
                        res_val,
                        (before.tokens_range.start as int, before.tokens_range.end as int),
                    ));
                    assert(growth(tokens, before, res_val, token_idx, value) == if before.tokens_range.end
                        == token_idx {
                        reach(tokens, words, before.tokens_range.start as int, index + 1)
                    } else {
                        None
                    });
                    lemma_first_after_word(model, words, res_val, index, from as int);
                }
                self.update_previous_match(
                    &mut new_match,
                    &res_val,
                    token_idx,
                    value,
                    range_start,
                    range_end,
                    needed,
                    matches_heap,
                );
                self.extend_back(&mut new_match, from, query, Ghost(words));
            },
            None => {
                // Where a token occurs twice in the value, one that was passed over can still be matched
                // behind this one. So a match is given up for want of tokens only when it ends.
                let from: usize = self.stop_words_before(res_val, token_idx, query, Ghost(words));
                proof {
                    lemma_first_after_word(model, words, res_val, index, from as int);
                }
                match self.insert_new_possible_match(
                    &res_val,
                    value,
                    range_start,
                    range_end,
                    token_idx,
                    Single::from_bits(NOTHING_BITS),
                    skipped_tokens,
                ) {
                    Ok(Some(found)) => {
                        new_match = found;
                    },
                    _ => {
                        assert(false);
                        return;
                    },
                }
                self.extend_back(&mut new_match, from, query, Ghost(words));
            },
        }
        let kept: bool = self.may_stand_for(
            res_val,
            new_match.tokens_range.start,
            new_match.tokens_range.end,
            query,
            Ghost(words),
        );
        assert(kept == (after.current is Some));
        if kept {
            map_insert(possible_matches, res_val, new_match);
        }
        proof {
            assert(possible_matches@.remove(res_val) =~= pending.remove(res_val));
            lemma_one_state(
                model,
                words,
                pending,
                matches,
                state,
                res_val,
                after,
                possible_matches@,
                matches_heap@,
            );
        }
    }

    /// The values for which the token `value` is read: those that it occurs in, and if it is a stop word
    /// only the edge cases among them and those with a part of the query that may grow.
    fn values_to_read_for(&self, value: u32, possible_matches: &FnvHashMap<u32, PossibleMatch>) -> (
        res_vals: Vec<u32>)
        requires
            self.wf(),
            self@.token_values.contains_key(value),
        ensures
            res_vals@.no_duplicates(),
            forall|v: u32| #[trigger]
                res_vals@.contains(v) <==> self@.occurs_in(value, v) && (!self@.stop_words.contains(value)
                    || self@.edge_cases.contains(v) || possible_matches@.contains_key(v)),
    {
        let found = match self.get_resolved_values_from_token(&value) {
            Ok(found) => found,
            Err(_) => {
                assert(false);
                return Vec::new();
            },
        };
        let mut res_vals: Vec<u32> = Vec::new();
        if !set_contains(&self.stop_words, &value) {
            let all: Vec<u32> = set_elements(found);
            assert forall|v: u32| #[trigger] all@.contains(v) <==> self@.occurs_in(value, v) by {
                assert(all@.to_set().contains(v) <==> all@.contains(v));
            }
            return all;
        }
        let edge_cases: Vec<u32> = set_elements(&self.edge_cases);
        let current: Vec<u32> = map_keys(possible_matches);
        append_some(&mut res_vals, &edge_cases, found, &FnvHashSet::default());
        append_some(&mut res_vals, &current, found, &self.edge_cases);
        assert forall|v: u32| #[trigger] res_vals@.contains(v) <==> self@.occurs_in(value, v) && (
        self@.edge_cases.contains(v) || possible_matches@.contains_key(v)) by {
            assert(edge_cases@.to_set().contains(v) <==> edge_cases@.contains(v));
            assert(current@.to_set().contains(v) <==> current@.contains(v));
        }
        res_vals
    }

    /// Reads the word at `token_idx`, the token `value`.
    fn read_word(
        &self,
        query: &Vec<QueryWord>,
        token_idx: usize,
        value: u32,
        threshold: Single,
        skipped_tokens: &FnvHashMap<usize, (Range<usize>, u32)>,
        possible_matches: &mut FnvHashMap<u32, PossibleMatch>,
        matches_heap: &mut Vec<PossibleMatch>,
        Ghost(words): Ghost<Seq<Word>>,
    )
        requires
            self.wf(),
            holds_words(query@, words),
            token_idx < words.len(),
            words[token_idx as int].symbol == Some(value),
            self@.token_values.contains_key(value),
            holds_states(
                self@,
                words,
                old(possible_matches)@,
                old(matches_heap)@,
                states_after(self@, words, token_idx as int, threshold),
            ),
        ensures
            holds_states(
                self@,
                words,
                final(possible_matches)@,
                final(matches_heap)@,
                states_after(self@, words, token_idx + 1, threshold),
            ),
    {
        let ghost model = self@;
        let ghost pending = possible_matches@;
        let ghost before = states_after(model, words, token_idx as int, threshold);
        let ghost after = states_after(model, words, token_idx + 1, threshold);
        let res_vals: Vec<u32> = self.values_to_read_for(value, possible_matches);
        let mut j: usize = 0;
        proof {
            assert(res_vals@.take(0) =~= Seq::<u32>::empty());
            lemma_same_states(
                model,
                words,
                possible_matches@,
                matches_heap@,
                before,
                visited(res_vals@, 0, before, after),
            );
        }
        while j < res_vals.len()
            invariant
                self.wf(),
                model == self@,
                holds_words(query@, words),
                token_idx < words.len(),
                words[token_idx as int].symbol == Some(value),
                before == states_after(model, words, token_idx as int, threshold),
                after == states_after(model, words, token_idx + 1, threshold),
                res_vals@.no_duplicates(),
                forall|v: u32| #[trigger]
                    res_vals@.contains(v) <==> model.occurs_in(value, v) && (!model.stop_words.contains(
                        value,
                    ) || model.edge_cases.contains(v) || pending.contains_key(v)),
                j <= res_vals.len(),
                forall|k: int|
                    j <= k < res_vals.len() ==> (possible_matches@.contains_key(#[trigger] res_vals@[k])
                        <==> pending.contains_key(res_vals@[k])),
                holds_states(
                    model,
                    words,
                    possible_matches@,
                    matches_heap@,
                    visited(res_vals@, j as int, before, after),
                ),
            decreases res_vals.len() - j,
        {
            let res_val: u32 = res_vals[j];
            let ghost state = visited(res_vals@, j as int, before, after);
            proof {
                assert(res_vals@.contains(res_val));
                assert(model.values.contains_key(res_val));
                lemma_visited(res_vals@, j as int, before, after);
            }
            self.read_for_value(
                res_val,
                query,
                token_idx,
                value,
                threshold,
                skipped_tokens,
                possible_matches,
                matches_heap,
                Ghost(words),
                Ghost(state),
            );
            proof {
                assert forall|k: int| j + 1 <= k < res_vals.len() implies (
                possible_matches@.contains_key(#[trigger] res_vals@[k]) <==> pending.contains_key(
                    res_vals@[k],
                )) by {
                    assert(res_vals@[k] != res_vals@[j as int]);
                }
                lemma_same_states(
                    model,
                    words,
                    possible_matches@,
                    matches_heap@,
                    replaced(state, res_val, after(res_val)),
                    visited(res_vals@, j + 1, before, after),
                );
            }
            j = j + 1;
        }
        proof {
            assert(res_vals@.take(res_vals.len() as int) =~= res_vals@);
            assert forall|v: u32| #[trigger] model.values.contains_key(v) implies visited(
                res_vals@,
                res_vals.len() as int,
                before,
                after,
            )(v) == after(v) by {
                if !res_vals@.contains(v) {
                    lemma_occurs_in(model, v, value);
                    if model.occurs_in(value, v) {
                        assert(before(v).current is None);
                        lemma_stop_word_passed_over(model, words, v, token_idx as int, threshold);
                    } else {
                        lemma_other_word(model, words, v, token_idx as int, threshold);
                    }
                }
            }
            lemma_same_states(
                model,
                words,
                possible_matches@,
                matches_heap@,
                visited(res_vals@, res_vals.len() as int, before, after),
                after,
            );
        }
    }

    /// The words of a query.
    fn read_query(&self, input: &str) -> (query: GazetteerParserResult<Vec<QueryWord>>)
        requires
            self.wf(),
        ensures
            query matches Ok(list) && holds_words(list@, self@.words(input@)),
    {
        let ghost words = self@.words(input@);
        let found: Vec<(Range<usize>, String)> = whitespace_tokenizer(input);
        let mut query: Vec<QueryWord> = Vec::new();
        let mut i: usize = 0;
        while i < found.len()
            invariant
                self.wf(),
                words == self@.words(input@),
                found.len() == words.len(),
                forall|k: int|
                    0 <= k < found.len() ==> {
                        &&& (#[trigger] found@[k]).0.start == token_ranges(input@)[k].0
                        &&& found@[k].0.end == token_ranges(input@)[k].1
                        &&& found@[k].1@ == tokens(input@)[k]
                    },
                i <= found.len(),
                query.len() == i,
                forall|k: int|
                    0 <= k < i ==> words[k] == (Word {
                        start: (#[trigger] query@[k]).range.start as int,
                        end: query@[k].range.end as int,
                        symbol: query@[k].symbol,
                    }),
            decreases found.len() - i,
        {
            let token = &found[i];
            proof {
                lemma_is_token(input@, i as int);
                lemma_lookup(self@, token.1@);
            }
            match self.symbol_table.find_single_symbol(token.1.as_str()) {
                Ok(symbol) => {
                    query.push(QueryWord { range: token.0.start..token.0.end, symbol });
                },
                Err(error) => {
                    assert(false);
                    return Err(error);
                },
            }
            i = i + 1;
        }
        Ok(query)
    }

    /// Adds the matches that are left at the end of a query, where they suffice.
    fn add_remaining_matches(
        &self,
        threshold: Single,
        possible_matches: &mut FnvHashMap<u32, PossibleMatch>,
        matches_heap: &mut Vec<PossibleMatch>,
        Ghost(words): Ghost<Seq<Word>>,
    )
        requires
            self.wf(),
            holds_states(
                self@,
                words,
                old(possible_matches)@,
                old(matches_heap)@,
                states_after(self@, words, words.len() as int, threshold),
            ),
        ensures
            recorded(final(matches_heap)@) == self@.candidates(words, threshold),
            all_different(final(matches_heap)@),
            forall|k: int|
                0 <= k < final(matches_heap)@.len() ==> is_found(
                    self@,
                    words,
                    #[trigger] final(matches_heap)@[k],
                ),
    {
        let ghost model = self@;
        let ghost n = words.len() as int;
        let ghost pending = possible_matches@;
        let ghost before = states_after(model, words, n, threshold);
        let ghost after = |value: u32|
            Track { current: None, done: model.spans(words, value, threshold) };
        let left: Vec<u32> = map_keys(possible_matches);
        let mut j: usize = 0;
        proof {
            assert(left@.take(0) =~= Seq::<u32>::empty());
            lemma_same_states(
                model,
                words,
                possible_matches@,
                matches_heap@,
                before,
                visited(left@, 0, before, after),
            );
        }
        while j < left.len()
            invariant
                self.wf(),
                model == self@,
                n == words.len(),
                before == states_after(model, words, n, threshold),
                after == (|value: u32|
                    Track { current: None, done: model.spans(words, value, threshold) }),
                left@.no_duplicates(),
                left@.to_set() == pending.dom(),
                forall|v: u32| #[trigger] pending.contains_key(v) ==> model.values.contains_key(v),
                j <= left.len(),
                forall|k: int|
                    j <= k < left.len() ==> possible_matches@.contains_key(#[trigger] left@[k]),
                holds_states(
                    model,
                    words,
                    possible_matches@,
                    matches_heap@,
                    visited(left@, j as int, before, after),
                ),
            decreases left.len() - j,
        {
            let res_val: u32 = left[j];
            let ghost state = visited(left@, j as int, before, after);
            let ghost current = possible_matches@;
            let ghost matches = matches_heap@;
            proof {
                assert(left@.to_set().contains(res_val));
                assert(pending.contains_key(res_val));
                lemma_visited(left@, j as int, before, after);
                lemma_done_at_end(model, words, res_val, threshold);
                lemma_current_is_match(model, words, res_val, n, threshold);
                assert(current.contains_key(left@[j as int]));
            }
            if let Some(possible_match) = map_remove(possible_matches, &res_val) {
                let needed = self.threshold_for(&possible_match, threshold);
                if check_threshold(
                    possible_match.n_consumed_tokens,
                    possible_match.raw_value_length - possible_match.n_consumed_tokens,
                    needed,
                ) {
                    matches_heap.push(possible_match);
                }
            }
            proof {
                assert(possible_matches@.remove(res_val) =~= current.remove(res_val));
                lemma_one_state(
                    model,
                    words,
                    current,
                    matches,
                    state,
                    res_val,
                    after(res_val),
                    possible_matches@,
                    matches_heap@,
                );
                lemma_same_states(
                    model,
                    words,
                    possible_matches@,
                    matches_heap@,
                    replaced(state, res_val, after(res_val)),
                    visited(left@, j + 1, before, after),
                );
                assert forall|k: int| j + 1 <= k < left.len() implies possible_matches@.contains_key(
                    #[trigger] left@[k],
                ) by {
                    assert(left@[k] != left@[j as int]);
                }
            }
            j = j + 1;
        }
        proof {
            let state = visited(left@, left.len() as int, before, after);
            assert(left@.take(left.len() as int) =~= left@);
            assert forall|v: u32| #[trigger] model.values.contains_key(v) implies state(v) == after(v) by {
                if !left@.contains(v) {
                    assert(!left@.to_set().contains(v));
                    assert(!pending.contains_key(v));
                    assert(before(v).current is None);
                    lemma_done_at_end(model, words, v, threshold);
                }
            }
            assert forall|c: Candidate| recorded(matches_heap@).contains(c) <==> model.candidates(
                words,
                threshold,
            ).contains(c) by {
                assert(recorded(matches_heap@).contains(c) <==> model.values.contains_key(c.value)
                    && state(c.value).done.contains((c.first, c.end)));
            }
            assert(recorded(matches_heap@) =~= model.candidates(words, threshold));
        }
    }

    /// Finds all matches of values in a query, each of them once and in no particular order: the longest
    /// parts of the query that are made of tokens of a value in their order.
    pub fn find_possible_matches(&self, input: &str, threshold: Single) -> (found: GazetteerParserResult<
        Vec<PossibleMatch>,
    >)
        requires
            self.wf(),
        ensures
            ({
                let words = self@.words(input@);
                &&& found is Ok
                &&& recorded(found->Ok_0@) == self@.candidates(words, threshold)
                &&& all_different(found->Ok_0@)
                &&& forall|k: int|
                    0 <= k < found->Ok_0@.len() ==> is_found(self@, words, #[trigger] found->Ok_0@[k])
            }),
    {
        let ghost model = self@;
        let ghost words = model.words(input@);
        let mut possible_matches: FnvHashMap<u32, PossibleMatch> = FnvHashMap::default();
        let mut matches_heap: Vec<PossibleMatch> = Vec::new();
        let mut skipped_tokens: FnvHashMap<usize, (Range<usize>, u32)> = FnvHashMap::default();
        let query: Vec<QueryWord> = match self.read_query(input) {
            Ok(query) => query,
            Err(error) => {
                assert(false);
                return Err(error);
            },
        };
        let mut token_idx: usize = 0;
        proof {
            assert(recorded(matches_heap@) =~= Set::<Candidate>::empty());
            assert forall|v: u32| model.done(words, v, 0, threshold) =~= Set::<(int, int)>::empty() by {
                assert forall|span: (int, int)| !model.done(words, v, 0, threshold).contains(span) by {}
            }
            assert(holds_states(
                model,
                words,
                possible_matches@,
                matches_heap@,
                states_after(model, words, 0, threshold),
            ));
        }
        while token_idx < query.len()
            invariant
                self.wf(),
                model == self@,
                words == model.words(input@),
                holds_words(query@, words),
                token_idx <= query.len(),
                holds_states(
                    model,
                    words,
                    possible_matches@,
                    matches_heap@,
                    states_after(model, words, token_idx as int, threshold),
                ),
            decreases query.len() - token_idx,
        {
            assert(words[token_idx as int].symbol == query@[token_idx as int].symbol);
            match query[token_idx].symbol {
                None => {
                    proof {
                        let before = states_after(model, words, token_idx as int, threshold);
                        let after = states_after(model, words, token_idx + 1, threshold);
                        assert forall|v: u32| #[trigger] model.values.contains_key(v) implies before(v)
                            == after(v) by {
                            lemma_other_word(model, words, v, token_idx as int, threshold);
                        }
                        lemma_same_states(
                            model,
                            words,
                            possible_matches@,
                            matches_heap@,
                            before,
                            after,
                        );
                    }
                },
                Some(value) => {
                    proof {
                        lemma_is_token(input@, token_idx as int);
                        lemma_lookup(
                            model,
                            input@.subrange(
                                token_ranges(input@)[token_idx as int].0,
                                token_ranges(input@)[token_idx as int].1,
                            ),
                        );
                    }
                    self.read_word(
                        &query,
                        token_idx,
                        value,
                        threshold,
                        &skipped_tokens,
                        &mut possible_matches,
                        &mut matches_heap,
                        Ghost(words),
                    );
                    if set_contains(&self.stop_words, &value) {
                        let range = &query[token_idx].range;
                        map_insert(&mut skipped_tokens, token_idx, (range.start..range.end, value));
                    }
                },
            }
            token_idx = token_idx + 1;
        }
        self.add_remaining_matches(threshold, &mut possible_matches, &mut matches_heap, Ghost(words));
        Ok(matches_heap)
    }
}

} // verus!
