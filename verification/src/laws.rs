//! What holds of every parser and every query.

use crate::model::{complete, enough, Candidate, Model, Word};
use crate::order::{lemma_keeps_order, lemma_reach};
use crate::parsed_value::ParsedView;
use crate::selection::overlap;
use crate::single::{law_everything_reaches_one, not_above, Single};
use crate::state::lemma_words_in_order;
use crate::utils::{law_tokens_are_longest_runs, token_ranges};
use vstd::prelude::*;

verus! {

impl Model {
    /// Whether the words `first..end` are all known and occur in `value`.
    pub open spec fn spelled_with(self, words: Seq<Word>, value: u32, first: int, end: int) -> bool {
        forall|j: int|
            first <= j < end ==> (#[trigger] words[j]).symbol is Some && self.tokens(value).contains(
                words[j].symbol->0,
            )
    }
}

/// A match lies in the query, its words are tokens of its value in their order, and it is a longest such
/// part of the query. An edge case is matched completely, whatever the threshold is. A match of any other
/// value has a word that is no stop word, and its words are at least the fraction `threshold` of the tokens
/// of the value. For a threshold of at most 1 this fraction is reached by every match.
pub proof fn law_matches(model: Model, words: Seq<Word>, threshold: Single, c: Candidate)
    requires
        model.candidates(words, threshold).contains(c),
    ensures
        model.values.contains_key(c.value),
        0 <= c.first < c.end <= words.len(),
        c.end - c.first <= model.tokens(c.value).len(),
        model.is_longest(words, c.value, c.first, c.end),
        model.spelled_with(words, c.value, c.first, c.end),
        model.edge_cases.contains(c.value) ==> c.end - c.first == model.tokens(c.value).len(),
        !model.edge_cases.contains(c.value) ==> {
            &&& enough(model.tokens(c.value), c.first, c.end, threshold)
            &&& exists|j: int|
                c.first <= j < c.end && (#[trigger] words[j]).symbol is Some
                    && !model.stop_words.contains(words[j].symbol->0)
        },
        not_above(threshold, complete()) ==> enough(
            model.tokens(c.value),
            c.first,
            c.end,
            threshold,
        ),
{
    assert(model.spans(words, c.value, threshold).contains((c.first, c.end)));
    lemma_keeps_order(model, words, c.value, c.first, c.end);
    lemma_reach(model.tokens(c.value), words, c.first, c.end);
    assert forall|j: int| c.first <= j < c.end implies (#[trigger] words[j]).symbol is Some
        && model.tokens(c.value).contains(words[j].symbol->0) by {
        lemma_words_in_order(model, words, c.value, c.first, c.end, j);
        assert(model.is_word_of(words, c.value, j));
    }
    if not_above(threshold, complete()) && model.edge_cases.contains(c.value) {
        law_everything_reaches_one((c.end - c.first) as nat, threshold);
    }
}

/// The preference among matches of known values is a strict order in which any two different matches
/// are comparable.
pub proof fn law_preference_is_strict_order(model: Model, a: Candidate, b: Candidate, c: Candidate)
    requires
        model.wf(),
        model.values.contains_key(a.value),
        model.values.contains_key(b.value),
    ensures
        !model.beats(a, a),
        model.beats(a, b) && model.beats(b, c) ==> model.beats(a, c),
        a != b ==> model.beats(a, b) || model.beats(b, a),
{
    if model.rank(a.value) == model.rank(b.value) {
        assert(a.value == b.value);
    }
}

/// Two selections agree on every match.
proof fn lemma_selections_agree(
    model: Model,
    n: nat,
    all: Set<Candidate>,
    x: Set<Candidate>,
    y: Set<Candidate>,
    c: Candidate,
)
    requires
        model.is_selection(all, x),
        model.is_selection(all, y),
        forall|d: Candidate| #[trigger] all.contains(d) ==> 0 <= d.first < d.end <= n,
        all.contains(c),
    ensures
        x.contains(c) == y.contains(c),
    decreases
            n - (c.end - c.first),
            model.tokens(c.value).len(),
            model.rank(c.value),
            c.first,
{
    assert forall|d: Candidate| #[trigger] all.contains(d) && model.beats(d, c) implies x.contains(d)
        == y.contains(d) by {
        lemma_selections_agree(model, n, all, x, y, d);
    }
    assert(x.contains(c) <==> all.contains(c) && forall|d: Candidate| #[trigger]
        x.contains(d) && model.beats(d, c) ==> !overlap(d, c));
    assert(y.contains(c) <==> all.contains(c) && forall|d: Candidate| #[trigger]
        y.contains(d) && model.beats(d, c) ==> !overlap(d, c));
    assert forall|d: Candidate| #[trigger] x.contains(d) implies all.contains(d) by {}
    assert forall|d: Candidate| #[trigger] y.contains(d) implies all.contains(d) by {}
    if x.contains(c) && !y.contains(c) {
        let d = choose|d: Candidate| #[trigger]
            y.contains(d) && model.beats(d, c) && overlap(d, c);
        assert(all.contains(d));
        assert(x.contains(d));
    }
    if y.contains(c) && !x.contains(c) {
        let d = choose|d: Candidate| #[trigger]
            x.contains(d) && model.beats(d, c) && overlap(d, c);
        assert(all.contains(d));
        assert(y.contains(d));
    }
}

/// There is one selection at most among the matches in a query.
pub proof fn law_selection_is_unique(
    model: Model,
    words: Seq<Word>,
    threshold: Single,
    x: Set<Candidate>,
    y: Set<Candidate>,
)
    requires
        model.wf(),
        model.is_selection(model.candidates(words, threshold), x),
        model.is_selection(model.candidates(words, threshold), y),
    ensures
        x == y,
{
    let all = model.candidates(words, threshold);
    assert forall|d: Candidate| #[trigger] all.contains(d) implies 0 <= d.first < d.end
        <= words.len() by {
        law_matches(model, words, threshold, d);
    }
    assert forall|c: Candidate| x.contains(c) <==> y.contains(c) by {
        if x.contains(c) || y.contains(c) {
            assert(all.contains(c));
            lemma_selections_agree(model, words.len(), all, x, y, c);
        }
    }
    assert(x =~= y);
}

/// Two lists of the same matches in the order of a query are equal.
proof fn lemma_one_order(x: Seq<Candidate>, y: Seq<Candidate>)
    requires
        x.to_set() == y.to_set(),
        forall|i: int| 0 <= i < x.len() ==> (#[trigger] x[i]).first < x[i].end,
        forall|i: int, j: int|
            #![trigger x[i], x[j]]
            0 <= i < j < x.len() ==> x[i].end <= x[j].first,
        forall|i: int, j: int|
            #![trigger y[i], y[j]]
            0 <= i < j < y.len() ==> y[i].end <= y[j].first,
    ensures
        x == y,
    decreases x.len(),
{
    assert forall|i: int| 0 <= i < y.len() implies (#[trigger] y[i]).first < y[i].end by {
        assert(y.to_set().contains(y[i]));
        assert(x.to_set().contains(y[i]));
        let k = choose|k: int| 0 <= k < x.len() && x[k] == y[i];
        assert(x[k].first < x[k].end);
    }
    if x.len() == 0 {
        if y.len() > 0 {
            assert(y.to_set().contains(y[0]));
            assert(x.to_set().contains(y[0]));
        }
        assert(x =~= y);
    } else {
        assert(x.to_set().contains(x.last()));
        assert(y.to_set().contains(x.last()));
        let k = choose|k: int| 0 <= k < y.len() && y[k] == x.last();
        assert(y.to_set().contains(y.last()));
        assert(x.to_set().contains(y.last()));
        let m = choose|m: int| 0 <= m < x.len() && x[m] == y.last();
        if k < y.len() - 1 {
            assert(y[k].end <= y[y.len() - 1].first);
            if m < x.len() - 1 {
                assert(x[m].end <= x[x.len() - 1].first);
            }
            assert(false);
        }
        let a = x.drop_last();
        let b = y.drop_last();
        assert forall|c: Candidate| a.to_set().contains(c) <==> b.to_set().contains(c) by {
            if a.contains(c) {
                let i = choose|i: int| 0 <= i < a.len() && a[i] == c;
                assert(x[i] == c && x[i].end <= x[x.len() - 1].first);
                assert(x.to_set().contains(c));
                assert(y.to_set().contains(c));
                let j = choose|j: int| 0 <= j < y.len() && y[j] == c;
                assert(j != y.len() - 1);
                assert(b[j] == c);
            }
            if b.contains(c) {
                let i = choose|i: int| 0 <= i < b.len() && b[i] == c;
                assert(y[i] == c && y[i].end <= y[y.len() - 1].first);
                assert(y.to_set().contains(c));
                assert(x.to_set().contains(c));
                let j = choose|j: int| 0 <= j < x.len() && x[j] == c;
                assert(j != x.len() - 1);
                assert(a[j] == c);
            }
        }
        assert(a.to_set() =~= b.to_set());
        lemma_one_order(a, b);
        assert(x =~= a.push(x.last()));
        assert(y =~= b.push(y.last()));
    }
}

/// A parser, a query and a threshold determine the parsed values.
pub proof fn law_parsing_is_unique(
    model: Model,
    input: Seq<char>,
    threshold: Single,
    x: Seq<ParsedView>,
    y: Seq<ParsedView>,
)
    requires
        model.wf(),
        model.is_parsing(input, model.candidates(model.words(input), threshold), x),
        model.is_parsing(input, model.candidates(model.words(input), threshold), y),
    ensures
        x == y,
{
    let words = model.words(input);
    let all = model.candidates(words, threshold);
    let p = choose|p: Seq<Candidate>| #[trigger] model.reads(input, all, p, x);
    let q = choose|q: Seq<Candidate>| #[trigger] model.reads(input, all, q, y);
    law_selection_is_unique(model, words, threshold, p.to_set(), q.to_set());
    assert forall|i: int| 0 <= i < p.len() implies (#[trigger] p[i]).first < p[i].end by {
        assert(p.to_set().contains(p[i]));
        law_matches(model, words, threshold, p[i]);
    }
    lemma_one_order(p, q);
    assert(x =~= y);
}

/// The parsed values come in the order of the query, with something between any two of them. Each is a
/// part of the query that is not empty, and its raw value is that part.
pub proof fn law_parsed_values_are_apart(
    model: Model,
    input: Seq<char>,
    threshold: Single,
    values: Seq<ParsedView>,
)
    requires
        model.wf(),
        model.is_parsing(input, model.candidates(model.words(input), threshold), values),
    ensures
        forall|i: int|
            0 <= i < values.len() ==> {
                &&& 0 <= (#[trigger] values[i]).start < values[i].end <= input.len()
                &&& values[i].raw_value == input.subrange(values[i].start, values[i].end)
            },
        forall|i: int, j: int|
            #![trigger values[i], values[j]]
            0 <= i < j < values.len() ==> values[i].end < values[j].start,
{
    let words = model.words(input);
    let all = model.candidates(words, threshold);
    let p = choose|p: Seq<Candidate>| #[trigger] model.reads(input, all, p, values);
    law_tokens_are_longest_runs(input);
    let ranges = token_ranges(input);
    assert forall|i: int| 0 <= i < p.len() implies {
        &&& 0 <= (#[trigger] p[i]).first < p[i].end <= words.len()
        &&& values[i].start == ranges[p[i].first].0
        &&& values[i].end == ranges[p[i].end - 1].1
        &&& values[i].start < values[i].end
    } by {
        assert(p.to_set().contains(p[i]));
        law_matches(model, words, threshold, p[i]);
        assert(values[i] == model.parsed(input, p[i]));
        let a = p[i].first;
        let b = p[i].end - 1;
        assert(words[a].start == ranges[a].0 && words[b].end == ranges[b].1);
        assert(a < b ==> ranges[a].1 < ranges[b].0);
    }
    assert forall|i: int, j: int|
        #![trigger values[i], values[j]]
        0 <= i < j < values.len() implies values[i].end < values[j].start by {
        let a = p[i].end - 1;
        let b = p[j].first;
        assert(p[i].end <= p[j].first);
        assert(ranges[a].1 < ranges[b].0);
    }
}

/// A match that is not chosen has a word in common with a chosen one that is preferred to it.
pub proof fn law_passed_over_for_a_better_one(
    model: Model,
    all: Set<Candidate>,
    chosen: Set<Candidate>,
    c: Candidate,
)
    requires
        model.is_selection(all, chosen),
        all.contains(c),
        !chosen.contains(c),
    ensures
        exists|d: Candidate| #[trigger]
            chosen.contains(d) && model.beats(d, c) && overlap(d, c),
{
}

/// A match to which no match with a common word is preferred is chosen.
pub proof fn law_best_match_is_chosen(
    model: Model,
    all: Set<Candidate>,
    chosen: Set<Candidate>,
    c: Candidate,
)
    requires
        model.is_selection(all, chosen),
        all.contains(c),
        forall|d: Candidate| #[trigger] all.contains(d) && overlap(d, c) ==> !model.beats(d, c),
    ensures
        chosen.contains(c),
{
    assert forall|d: Candidate| #[trigger] chosen.contains(d) && model.beats(d, c) implies !overlap(
        d,
        c,
    ) by {
        assert(all.contains(d));
    }
}

/// Of two values of the same length that match the same words, the one that was added later is not
/// chosen.
pub proof fn law_first_added_value_wins(
    model: Model,
    all: Set<Candidate>,
    chosen: Set<Candidate>,
    a: Candidate,
    b: Candidate,
)
    requires
        model.is_selection(all, chosen),
        all.contains(a),
        a.first == b.first,
        a.end == b.end,
        a.first < a.end,
        model.tokens(a.value).len() == model.tokens(b.value).len(),
        model.rank(a.value) < model.rank(b.value),
    ensures
        !chosen.contains(b),
{
    assert(model.beats(a, b) && overlap(a, b));
    if chosen.contains(b) {
        assert(!chosen.contains(a));
        law_passed_over_for_a_better_one(model, all, chosen, a);
        let d = choose|d: Candidate| #[trigger]
            chosen.contains(d) && model.beats(d, a) && overlap(d, a);
        assert(model.beats(d, b) && overlap(d, b));
    }
}

/// A query without a known word has no parsed value.
pub proof fn law_unknown_words_give_nothing(
    model: Model,
    input: Seq<char>,
    threshold: Single,
    values: Seq<ParsedView>,
)
    requires
        forall|i: int|
            0 <= i < model.words(input).len() ==> (#[trigger] model.words(input)[i]).symbol is None,
        model.is_parsing(input, model.candidates(model.words(input), threshold), values),
    ensures
        values.len() == 0,
{
    let words = model.words(input);
    let all = model.candidates(words, threshold);
    let p = choose|p: Seq<Candidate>| #[trigger] model.reads(input, all, p, values);
    if p.len() > 0 {
        assert(p.to_set().contains(p[0]));
        assert(all.contains(p[0]));
        law_matches(model, words, threshold, p[0]);
        assert(words[p[0].first].symbol is Some);
    }
}

} // verus!
