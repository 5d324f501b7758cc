//! Which parts of a query are found.

use crate::laws::{law_matches, law_passed_over_for_a_better_one};
use crate::model::{complete, enough, Candidate, Model, Word};
use crate::order::{lemma_keeps_order, lemma_reach};
use crate::parsed_value::ParsedView;
use crate::selection::overlap;
use crate::single::{law_everything_reaches_one, not_above, Single};
use crate::state::lemma_words_in_order;
use vstd::prelude::*;

verus! {

impl Model {
    /// Whether the tokens of `value` stand in the query from the word at `at` on, one after the other.
    pub open spec fn stands_at(self, words: Seq<Word>, value: u32, at: int) -> bool {
        &&& 0 <= at
        &&& at + self.tokens(value).len() <= words.len()
        &&& forall|k: int|
            0 <= k < self.tokens(value).len() ==> (#[trigger] words[at + k]).symbol == Some(
                self.tokens(value)[k],
            )
    }
}

/// Without stop words, the matches of a value are the parts of the query that are made of tokens of the
/// value in their order, cannot be extended on either side, and are at least the fraction `threshold` of
/// the tokens of the value.
pub proof fn law_matches_are_the_longest_parts(
    model: Model,
    words: Seq<Word>,
    value: u32,
    first: int,
    end: int,
    threshold: Single,
)
    requires
        model.wf(),
        model.values.contains_key(value),
        model.stop_words == Set::<u32>::empty(),
        0 <= first < end <= words.len(),
    ensures
        model.spans(words, value, threshold).contains((first, end)) <==> (model.keeps_order(
            words,
            value,
            first,
            end,
        ) && enough(model.tokens(value), first, end, threshold) && (first == 0 || !model.keeps_order(
            words,
            value,
            first - 1,
            end,
        )) && (end == words.len() || !model.keeps_order(words, value, first, end + 1))),
{
    assert(!model.edge_cases.contains(value)) by {
        assert(!model.stop_words.contains(model.tokens(value)[0]));
    }
    if model.keeps_order(words, value, first, end) {
        lemma_keeps_order(model, words, value, first, end);
        lemma_words_in_order(model, words, value, first, end, first);
        assert(words[first].symbol is Some && !model.stop_words.contains(words[first].symbol->0));
    }
}

/// With stop words, the same holds of a value that is no edge case, except that a part made of stop words
/// alone is no match. Of an edge case the matches are the parts that are all of it.
pub proof fn law_matches_are_the_longest_parts_with_stop_words(
    model: Model,
    words: Seq<Word>,
    value: u32,
    first: int,
    end: int,
    threshold: Single,
)
    requires
        model.wf(),
        model.values.contains_key(value),
        0 <= first < end <= words.len(),
    ensures
        !model.edge_cases.contains(value) ==> (model.spans(words, value, threshold).contains(
            (first, end),
        ) <==> model.is_longest(words, value, first, end) && model.has_content(
            words,
            value,
            first,
            end,
        ) && enough(model.tokens(value), first, end, threshold)),
        model.edge_cases.contains(value) ==> (model.spans(words, value, threshold).contains(
            (first, end),
        ) <==> model.stands_at(words, value, first) && end == first + model.tokens(value).len()),
{
    let tokens = model.tokens(value);
    if model.edge_cases.contains(value) {
        if model.spans(words, value, threshold).contains((first, end)) {
            lemma_all_tokens_in_order(model, words, value, first, end);
        }
        if model.stands_at(words, value, first) && end == first + tokens.len() {
            lemma_standing_is_longest(model, words, value, first);
        }
    }
}

/// Words that are as many as the tokens of a value and stand in their order are these tokens.
proof fn lemma_all_tokens_in_order(model: Model, words: Seq<Word>, value: u32, first: int, end: int)
    requires
        0 <= first <= end <= words.len(),
        model.keeps_order(words, value, first, end),
        end - first == model.tokens(value).len(),
    ensures
        model.stands_at(words, value, first),
{
    let n = end - first;
    let places = choose|places: Seq<int>| #[trigger] model.aligned(words, value, first, end, places);
    assert forall|k: int| 0 <= k < n implies (#[trigger] words[first + k]).symbol == Some(
        model.tokens(value)[k],
    ) by {
        lemma_place_at_least(places, n, k);
        lemma_place_at_most(places, n, k);
        assert(places[k] == k);
    }
}

proof fn lemma_place_at_least(places: Seq<int>, n: int, k: int)
    requires
        places.len() == n,
        0 <= k < n,
        forall|i: int| 0 <= i < n ==> 0 <= #[trigger] places[i] < n,
        forall|i: int, j: int| 0 <= i < j < n ==> places[i] < places[j],
    ensures
        places[k] >= k,
    decreases k,
{
    if k > 0 {
        lemma_place_at_least(places, n, k - 1);
        assert(places[k - 1] < places[k]);
    }
}

proof fn lemma_place_at_most(places: Seq<int>, n: int, k: int)
    requires
        places.len() == n,
        0 <= k < n,
        forall|i: int| 0 <= i < n ==> 0 <= #[trigger] places[i] < n,
        forall|i: int, j: int| 0 <= i < j < n ==> places[i] < places[j],
    ensures
        places[k] <= k,
    decreases n - k,
{
    if k < n - 1 {
        lemma_place_at_most(places, n, k + 1);
        assert(places[k] < places[k + 1]);
    }
}

/// The tokens of a value, one after the other, cannot be extended.
proof fn lemma_standing_is_longest(model: Model, words: Seq<Word>, value: u32, at: int)
    requires
        model.stands_at(words, value, at),
    ensures
        model.is_longest(words, value, at, at + model.tokens(value).len()),
{
    let n = model.tokens(value).len() as int;
    let places = Seq::new(n as nat, |k: int| k);
    assert(model.aligned(words, value, at, at + n, places));
    if at > 0 && model.keeps_order(words, value, at - 1, at + n) {
        lemma_keeps_order(model, words, value, at - 1, at + n);
        lemma_reach(model.tokens(value), words, at - 1, at + n);
    }
    if at + n < words.len() && model.keeps_order(words, value, at, at + n + 1) {
        lemma_keeps_order(model, words, value, at, at + n + 1);
        lemma_reach(model.tokens(value), words, at, at + n + 1);
    }
}

/// Where the tokens of a value stand one after the other, there is a match of the value with exactly these
/// words.
pub proof fn law_contiguous_value_is_matched(
    model: Model,
    words: Seq<Word>,
    value: u32,
    at: int,
    threshold: Single,
)
    requires
        model.wf(),
        not_above(threshold, complete()),
        model.values.contains_key(value),
        model.stands_at(words, value, at),
    ensures
        model.candidates(words, threshold).contains(
            (Candidate { value, first: at, end: at + model.tokens(value).len() }),
        ),
{
    let tokens = model.tokens(value);
    let n = tokens.len() as int;
    lemma_standing_is_longest(model, words, value, at);
    law_everything_reaches_one(tokens.len(), threshold);
    if !model.edge_cases.contains(value) {
        assert(!model.only_stop_words(value));
        let k = choose|k: int| 0 <= k < n && !model.stop_words.contains(#[trigger] tokens[k]);
        assert(words[at + k].symbol == Some(tokens[k]));
        assert(model.has_content(words, value, at, at + n));
    }
}

/// A match that is longer than every other match with a common word is among the parsed values.
pub proof fn law_longest_part_is_parsed(
    model: Model,
    input: Seq<char>,
    threshold: Single,
    values: Seq<ParsedView>,
    c: Candidate,
)
    requires
        model.is_parsing(input, model.candidates(model.words(input), threshold), values),
        model.candidates(model.words(input), threshold).contains(c),
        forall|d: Candidate| #[trigger]
            model.candidates(model.words(input), threshold).contains(d) && d != c && overlap(d, c)
                ==> d.end - d.first < c.end - c.first,
    ensures
        values.contains(model.parsed(input, c)),
{
    let all = model.candidates(model.words(input), threshold);
    let picks = choose|picks: Seq<Candidate>| #[trigger] model.reads(input, all, picks, values);
    if !picks.to_set().contains(c) {
        law_passed_over_for_a_better_one(model, all, picks.to_set(), c);
        let d = choose|d: Candidate| #[trigger]
            picks.to_set().contains(d) && model.beats(d, c) && overlap(d, c);
        assert(all.contains(d));
    }
    let i = choose|i: int| 0 <= i < picks.len() && picks[i] == c;
    assert(values[i] == model.parsed(input, picks[i]));
}

/// Where there is a match, one of the longest matches in the query is among the parsed values.
pub proof fn law_a_longest_part_is_parsed(
    model: Model,
    input: Seq<char>,
    threshold: Single,
    values: Seq<ParsedView>,
    some: Candidate,
) -> (longest: Candidate)
    requires
        model.is_parsing(input, model.candidates(model.words(input), threshold), values),
        model.candidates(model.words(input), threshold).contains(some),
    ensures
        model.candidates(model.words(input), threshold).contains(longest),
        forall|d: Candidate| #[trigger]
            model.candidates(model.words(input), threshold).contains(d) ==> d.end - d.first <= longest.end
                - longest.first,
        values.contains(model.parsed(input, longest)),
{
    let all = model.candidates(model.words(input), threshold);
    let picks = choose|picks: Seq<Candidate>| #[trigger] model.reads(input, all, picks, values);
    let chosen = picks.to_set();
    if !chosen.contains(some) {
        law_passed_over_for_a_better_one(model, all, chosen, some);
    }
    assert(picks.len() > 0);
    let i = lemma_longest_pick(picks);
    let longest = picks[i];
    assert(chosen.contains(longest));
    assert(all.contains(longest));
    assert forall|d: Candidate| #[trigger] all.contains(d) implies d.end - d.first <= longest.end
        - longest.first by {
        if chosen.contains(d) {
            let j = choose|j: int| 0 <= j < picks.len() && picks[j] == d;
            assert(picks[j] == d);
        } else {
            law_passed_over_for_a_better_one(model, all, chosen, d);
            let e = choose|e: Candidate| #[trigger]
                chosen.contains(e) && model.beats(e, d) && overlap(e, d);
            let j = choose|j: int| 0 <= j < picks.len() && picks[j] == e;
            assert(picks[j] == e);
        }
    }
    assert(values[i] == model.parsed(input, picks[i]));
    longest
}

proof fn lemma_longest_pick(picks: Seq<Candidate>) -> (i: int)
    requires
        picks.len() > 0,
    ensures
        0 <= i < picks.len(),
        forall|j: int|
            0 <= j < picks.len() ==> (#[trigger] picks[j]).end - picks[j].first <= picks[i].end
                - picks[i].first,
    decreases picks.len(),
{
    let last = picks.len() - 1;
    if picks.len() == 1 {
        0
    } else {
        let i = lemma_longest_pick(picks.drop_last());
        assert forall|j: int| 0 <= j < last implies (#[trigger] picks[j]).end - picks[j].first
            <= picks[i].end - picks[i].first by {
            assert(picks.drop_last()[j] == picks[j]);
        }
        if picks[last].end - picks[last].first > picks[i].end - picks[i].first {
            last
        } else {
            i
        }
    }
}

/// A query that consists of the tokens of a value gives one parsed value, from the first word to the last.
/// It stands for the value that was added first among those with the same tokens.
pub proof fn law_whole_value_is_parsed(
    model: Model,
    input: Seq<char>,
    value: u32,
    threshold: Single,
    values: Seq<ParsedView>,
) -> (found: u32)
    requires
        model.wf(),
        not_above(threshold, complete()),
        model.values.contains_key(value),
        model.stands_at(model.words(input), value, 0),
        model.words(input).len() == model.tokens(value).len(),
        model.is_parsing(input, model.candidates(model.words(input), threshold), values),
    ensures
        model.values.contains_key(found),
        model.tokens(found) == model.tokens(value),
        forall|other: u32| #[trigger]
            model.values.contains_key(other) && model.tokens(other) == model.tokens(value)
                ==> model.rank(found) <= model.rank(other),
        values == seq![
            model.parsed(
                input,
                (Candidate { value: found, first: 0, end: model.words(input).len() as int }),
            ),
        ],
{
    let words = model.words(input);
    let n = words.len() as int;
    let tokens = model.tokens(value);
    let all = model.candidates(words, threshold);
    let own = Candidate { value, first: 0, end: n };
    law_contiguous_value_is_matched(model, words, value, 0, threshold);
    let picks = choose|picks: Seq<Candidate>| #[trigger] model.reads(input, all, picks, values);
    let chosen = picks.to_set();
    let best = if chosen.contains(own) {
        own
    } else {
        law_passed_over_for_a_better_one(model, all, chosen, own);
        choose|d: Candidate| #[trigger] chosen.contains(d) && model.beats(d, own) && overlap(d, own)
    };
    assert(all.contains(best));
    law_matches(model, words, threshold, best);
    let i = choose|i: int| 0 <= i < picks.len() && picks[i] == best;
    assert forall|j: int| 0 <= j < picks.len() implies #[trigger] picks[j] == best && j == i by {
        assert(chosen.contains(picks[j]));
        assert(all.contains(picks[j]));
        law_matches(model, words, threshold, picks[j]);
        if j < i {
            assert(picks[j].end <= picks[i].first);
        }
        if i < j {
            assert(picks[i].end <= picks[j].first);
        }
    }
    assert(picks.len() == 1) by {
        if picks.len() > 1 {
            assert(picks[0] == best && picks[1] == best);
        }
    }
    assert(values =~= seq![model.parsed(input, best)]);
    let found = best.value;
    lemma_all_tokens_in_order(model, words, found, 0, n);
    assert(model.tokens(found) =~= tokens) by {
        assert forall|k: int| 0 <= k < n implies #[trigger] model.tokens(found)[k] == tokens[k] by {
            assert(words[0 + k].symbol == Some(tokens[k]));
        }
    }
    assert forall|other: u32| #[trigger]
        model.values.contains_key(other) && model.tokens(other) == tokens implies model.rank(found)
        <= model.rank(other) by {
        assert(model.stands_at(words, other, 0)) by {
            assert forall|k: int| 0 <= k < tokens.len() implies (#[trigger] words[0 + k]).symbol == Some(
                model.tokens(other)[k],
            ) by {}
        }
        law_contiguous_value_is_matched(model, words, other, 0, threshold);
        let d = Candidate { value: other, first: 0, end: n };
        assert(all.contains(d));
        if !chosen.contains(d) {
            law_passed_over_for_a_better_one(model, all, chosen, d);
            let e = choose|e: Candidate| #[trigger]
                chosen.contains(e) && model.beats(e, d) && overlap(e, d);
            assert(picks.contains(e));
        } else {
            assert(picks.contains(d));
        }
    }
    found
}

/// A value without a token in the query has no match there, so that nothing changes when it is taken out of
/// the tables.
pub proof fn law_value_without_common_token_has_no_influence(
    model: Model,
    input: Seq<char>,
    value: u32,
    threshold: Single,
    values: Seq<ParsedView>,
)
    requires
        forall|j: int|
            0 <= j < model.words(input).len() ==> !#[trigger] model.is_word_of(
                model.words(input),
                value,
                j,
            ),
    ensures
        ({
            let without = Model { values: model.values.remove(value), ..model };
            &&& without.candidates(without.words(input), threshold) == model.candidates(
                model.words(input),
                threshold,
            )
            &&& forall|c: Candidate| #[trigger]
                model.candidates(model.words(input), threshold).contains(c) ==> c.value != value
            &&& without.is_parsing(
                input,
                without.candidates(without.words(input), threshold),
                values,
            ) <==> model.is_parsing(input, model.candidates(model.words(input), threshold), values)
        }),
{
    let without = Model { values: model.values.remove(value), ..model };
    let words = model.words(input);
    assert(without.words(input) =~= words);
    let all = model.candidates(words, threshold);
    assert forall|c: Candidate| #[trigger] all.contains(c) implies c.value != value by {
        law_matches(model, words, threshold, c);
        lemma_keeps_order(model, words, c.value, c.first, c.end);
        lemma_words_in_order(model, words, c.value, c.first, c.end, c.first);
        assert(model.is_word_of(words, c.value, c.first));
    }
    assert forall|c: Candidate| c.value != value implies (without.candidates(words, threshold).contains(c)
        <==> all.contains(c)) by {
        lemma_same_spans(model, without, words, c.value, threshold);
    }
    assert forall|c: Candidate| without.candidates(words, threshold).contains(c) <==> all.contains(c) by {
        if c.value == value {
            assert(!without.values.contains_key(value));
        }
    }
    assert(without.candidates(words, threshold) =~= all);
    if model.is_parsing(input, all, values) {
        lemma_same_parsing(model, without, input, all, values);
    }
    if without.is_parsing(input, all, values) {
        lemma_same_parsing(without, model, input, all, values);
    }
}

/// The matches of a value depend on its tokens and on what the parser knows of stop words.
proof fn lemma_same_spans(a: Model, b: Model, words: Seq<Word>, value: u32, threshold: Single)
    requires
        a.tokens(value) == b.tokens(value),
        a.stop_words == b.stop_words,
        a.edge_cases.contains(value) == b.edge_cases.contains(value),
    ensures
        a.spans(words, value, threshold) == b.spans(words, value, threshold),
{
    assert forall|first: int, end: int| first <= end implies #[trigger] a.keeps_order(
        words,
        value,
        first,
        end,
    ) == b.keeps_order(words, value, first, end) by {
        lemma_keeps_order(a, words, value, first, end);
        lemma_keeps_order(b, words, value, first, end);
    }
    assert(a.spans(words, value, threshold) =~= b.spans(words, value, threshold));
}

/// Which values are parsed depends on the ranks and the numbers of tokens of the matched values alone.
proof fn lemma_same_parsing(
    a: Model,
    b: Model,
    input: Seq<char>,
    all: Set<Candidate>,
    values: Seq<ParsedView>,
)
    requires
        a.symbols == b.symbols,
        forall|c: Candidate| #[trigger] all.contains(c) ==> a.values[c.value] == b.values[c.value],
        a.is_parsing(input, all, values),
    ensures
        b.is_parsing(input, all, values),
{
    let picks = choose|picks: Seq<Candidate>| #[trigger] a.reads(input, all, picks, values);
    let chosen = picks.to_set();
    assert(a.words(input) =~= b.words(input));
    assert forall|c: Candidate| #[trigger] chosen.contains(c) implies all.contains(c) by {}
    assert(b.is_selection(all, chosen)) by {
        assert forall|c: Candidate| #[trigger] chosen.contains(c) <==> all.contains(c) && forall|
            d: Candidate,
        | #[trigger] chosen.contains(d) && b.beats(d, c) ==> !overlap(d, c) by {
            if all.contains(c) {
                assert forall|d: Candidate| #[trigger] chosen.contains(d) implies a.beats(d, c) == b.beats(
                    d,
                    c,
                ) by {
                    assert(all.contains(d));
                }
            }
        }
    }
    assert forall|i: int| 0 <= i < picks.len() implies #[trigger] values[i] == b.parsed(input, picks[i]) by {
        assert(values[i] == a.parsed(input, picks[i]));
    }
    assert(b.reads(input, all, picks, values));
}

} // verus!
