//! Unknown words around a query.

use crate::laws::law_matches;
use crate::model::{is_token, reach, Candidate, Model, Word};
use crate::order::lemma_keeps_order;
use crate::parsed_value::ParsedView;
use crate::selection::overlap;
use crate::single::Single;
use crate::state::lemma_words_in_order;
use crate::symbol_table::lemma_no_index;
use crate::utils::{
    law_tokens_are_longest_runs, law_tokens_of_joined_texts, lemma_one_token, token_ranges, white_space,
};
use vstd::prelude::*;

verus! {

impl Model {
    /// Whether `word` is a single word that the parser does not know.
    pub open spec fn is_unknown(self, word: Seq<char>) -> bool {
        is_token(word) && !self.symbols.contains(word)
    }
}

/// A parsed value, further behind by `distance`.
pub open spec fn value_moved(value: ParsedView, distance: int) -> ParsedView {
    ParsedView { start: value.start + distance, end: value.end + distance, ..value }
}

/// A match, further behind by `distance` words.
spec fn match_moved(c: Candidate, distance: int) -> Candidate {
    Candidate { value: c.value, first: c.first + distance, end: c.end + distance }
}

/// How far words reach depends on their symbols alone.
proof fn lemma_reach_moved(
    tokens: Seq<u32>,
    a: Seq<Word>,
    b: Seq<Word>,
    first: int,
    end: int,
    distance: int,
)
    requires
        forall|j: int| first <= j < end ==> (#[trigger] a[j]).symbol == b[j + distance].symbol,
    ensures
        reach(tokens, a, first, end) == reach(tokens, b, first + distance, end + distance),
    decreases end - first,
{
    if first < end {
        lemma_reach_moved(tokens, a, b, first, end - 1, distance);
        assert(a[end - 1].symbol == b[end - 1 + distance].symbol);
    }
}

/// `after` are `before` with unknown words around them, `distance` of them before.
spec fn surrounded(before: Seq<Word>, after: Seq<Word>, distance: int) -> bool {
    &&& 0 <= distance
    &&& before.len() + distance <= after.len()
    &&& forall|j: int| 0 <= j < before.len() ==> (#[trigger] before[j]).symbol == after[j + distance].symbol
    &&& forall|j: int|
        0 <= j < distance || before.len() + distance <= j < after.len() ==> (#[trigger] after[j]).symbol is None
}

/// Unknown words around a query do not change its matches.
proof fn lemma_surrounded(
    model: Model,
    before: Seq<Word>,
    after: Seq<Word>,
    distance: int,
    threshold: Single,
)
    requires
        surrounded(before, after, distance),
    ensures
        forall|c: Candidate| #[trigger]
            model.candidates(before, threshold).contains(c) ==> model.candidates(
                after,
                threshold,
            ).contains(match_moved(c, distance)),
        forall|c: Candidate| #[trigger]
            model.candidates(after, threshold).contains(c) ==> model.candidates(
                before,
                threshold,
            ).contains(match_moved(c, -distance)),
{
    assert forall|value: u32, first: int, end: int|
        0 <= first <= end <= before.len() implies #[trigger] model.keeps_order(before, value, first, end)
        == model.keeps_order(after, value, first + distance, end + distance) by {
        lemma_keeps_order(model, before, value, first, end);
        lemma_keeps_order(model, after, value, first + distance, end + distance);
        lemma_reach_moved(model.tokens(value), before, after, first, end, distance);
    }
    assert forall|value: u32, first: int, end: int|
        0 <= first < end <= after.len() && #[trigger] model.keeps_order(after, value, first, end) implies
        distance <= first && end <= before.len() + distance by {
        lemma_keeps_order(model, after, value, first, end);
        lemma_words_in_order(model, after, value, first, end, first);
        lemma_words_in_order(model, after, value, first, end, end - 1);
        assert(after[first].symbol is Some);
        assert(after[end - 1].symbol is Some);
    }
    assert forall|value: u32, first: int, end: int|
        0 <= first < end <= before.len() implies #[trigger] model.has_content(before, value, first, end)
        == model.has_content(after, value, first + distance, end + distance) by {
        if model.has_content(before, value, first, end) && !model.edge_cases.contains(value) {
            let j = choose|j: int|
                first <= j < end && (#[trigger] before[j]).symbol is Some && !model.stop_words.contains(
                    before[j].symbol->0,
                );
            assert(after[j + distance].symbol is Some);
        }
        if model.has_content(after, value, first + distance, end + distance)
            && !model.edge_cases.contains(value) {
            let j = choose|j: int|
                first + distance <= j < end + distance && (#[trigger] after[j]).symbol is Some
                    && !model.stop_words.contains(after[j].symbol->0);
            assert(before[j - distance].symbol is Some);
        }
    }
    assert forall|c: Candidate| #[trigger] model.candidates(before, threshold).contains(c) implies
        model.candidates(after, threshold).contains(match_moved(c, distance)) by {
        lemma_moved_span(model, before, after, distance, c.value, c.first, c.end, threshold);
    }
    assert forall|c: Candidate| #[trigger] model.candidates(after, threshold).contains(c) implies
        model.candidates(before, threshold).contains(match_moved(c, -distance)) by {
        assert(model.keeps_order(after, c.value, c.first, c.end));
        lemma_moved_span(
            model,
            before,
            after,
            distance,
            c.value,
            c.first - distance,
            c.end - distance,
            threshold,
        );
    }
}

proof fn lemma_moved_span(
    model: Model,
    before: Seq<Word>,
    after: Seq<Word>,
    distance: int,
    value: u32,
    first: int,
    end: int,
    threshold: Single,
)
    requires
        surrounded(before, after, distance),
        0 <= first < end <= before.len(),
        forall|value: u32, first: int, end: int|
            0 <= first <= end <= before.len() ==> #[trigger] model.keeps_order(before, value, first, end)
                == model.keeps_order(after, value, first + distance, end + distance),
        forall|value: u32, first: int, end: int|
            0 <= first < end <= after.len() && #[trigger] model.keeps_order(after, value, first, end)
                ==> distance <= first && end <= before.len() + distance,
        forall|value: u32, first: int, end: int|
            0 <= first < end <= before.len() ==> #[trigger] model.has_content(before, value, first, end)
                == model.has_content(after, value, first + distance, end + distance),
    ensures
        model.spans(before, value, threshold).contains((first, end)) == model.spans(
            after,
            value,
            threshold,
        ).contains((first + distance, end + distance)),
{
    let f = first + distance;
    let e = end + distance;
    assert(model.keeps_order(before, value, first, end) == model.keeps_order(after, value, f, e));
    assert(model.has_content(before, value, first, end) == model.has_content(after, value, f, e));
    if first > 0 {
        assert(model.keeps_order(before, value, first - 1, end) == model.keeps_order(
            after,
            value,
            first - 1 + distance,
            e,
        ));
    } else if f > 0 {
        assert(!model.keeps_order(after, value, f - 1, e));
    }
    if end < before.len() {
        assert(model.keeps_order(before, value, first, end + 1) == model.keeps_order(
            after,
            value,
            f,
            end + 1 + distance,
        ));
    } else if e < after.len() {
        assert(!model.keeps_order(after, value, f, e + 1));
    }
}

/// The chosen matches move with all matches.
proof fn lemma_moved_selection(
    model: Model,
    all: Set<Candidate>,
    more: Set<Candidate>,
    picks: Seq<Candidate>,
    distance: int,
)
    requires
        model.is_selection(all, picks.to_set()),
        forall|c: Candidate| #[trigger] more.contains(c) <==> all.contains(match_moved(c, -distance)),
    ensures
        model.is_selection(
            more,
            picks.map_values(|c: Candidate| match_moved(c, distance)).to_set(),
        ),
{
    let moved = picks.map_values(|c: Candidate| match_moved(c, distance));
    let chosen = picks.to_set();
    let taken = moved.to_set();
    assert forall|c: Candidate| #[trigger] taken.contains(c) <==> chosen.contains(
        match_moved(c, -distance),
    ) by {
        if taken.contains(c) {
            let i = choose|i: int| 0 <= i < moved.len() && moved[i] == c;
            assert(picks[i] == match_moved(c, -distance));
        }
        if chosen.contains(match_moved(c, -distance)) {
            let i = choose|i: int| 0 <= i < picks.len() && picks[i] == match_moved(c, -distance);
            assert(moved[i] == c);
        }
    }
    assert forall|c: Candidate| #[trigger] taken.contains(c) <==> more.contains(c) && forall|d: Candidate|
        #[trigger] taken.contains(d) && model.beats(d, c) ==> !overlap(d, c) by {
        let own = match_moved(c, -distance);
        if chosen.contains(own) {
            assert forall|d: Candidate| #[trigger] taken.contains(d) && model.beats(d, c) implies !overlap(
                d,
                c,
            ) by {
                assert(chosen.contains(match_moved(d, -distance)));
                assert(model.beats(match_moved(d, -distance), own));
            }
        }
        if more.contains(c) && !chosen.contains(own) {
            let d = choose|d: Candidate| #[trigger]
                chosen.contains(d) && model.beats(d, own) && overlap(d, own);
            let e = match_moved(d, distance);
            assert(match_moved(e, -distance) == d);
            assert(taken.contains(e));
            assert(model.beats(e, c) && overlap(e, c));
        }
    }
}

/// A parsed value moves with its words.
proof fn lemma_moved_value(
    model: Model,
    input: Seq<char>,
    longer: Seq<char>,
    words_before: int,
    distance: int,
    c: Candidate,
)
    requires
        0 <= c.first < c.end <= model.words(input).len(),
        forall|j: int|
            0 <= j < model.words(input).len() ==> {
                &&& model.words(longer)[j + words_before].start == (#[trigger] model.words(input)[j]).start
                    + distance
                &&& model.words(longer)[j + words_before].end == model.words(input)[j].end + distance
            },
        0 <= distance,
        distance + input.len() <= longer.len(),
        longer.subrange(distance, distance + input.len()) == input,
    ensures
        model.parsed(longer, match_moved(c, words_before)) == value_moved(
            model.parsed(input, c),
            distance,
        ),
{
    let before = model.words(input);
    let after = model.words(longer);
    let ranges = token_ranges(input);
    let start = before[c.first].start;
    let end = before[c.end - 1].end;
    law_tokens_are_longest_runs(input);
    assert(start == ranges[c.first].0 && end == ranges[c.end - 1].1);
    assert(c.first < c.end - 1 ==> ranges[c.first].1 < ranges[c.end - 1].0);
    assert(after[c.first + words_before].start == start + distance);
    assert(after[c.end - 1 + words_before].end == end + distance);
    assert(longer.subrange(start + distance, end + distance) =~= longer.subrange(
        distance,
        distance + input.len(),
    ).subrange(start, end));
}

/// The parsed values move with their words.
proof fn lemma_moved_parsing(
    model: Model,
    input: Seq<char>,
    longer: Seq<char>,
    words_before: int,
    distance: int,
    threshold: Single,
    values: Seq<ParsedView>,
)
    requires
        model.is_parsing(input, model.candidates(model.words(input), threshold), values),
        surrounded(model.words(input), model.words(longer), words_before),
        forall|j: int|
            0 <= j < model.words(input).len() ==> {
                &&& model.words(longer)[j + words_before].start == (#[trigger] model.words(input)[j]).start
                    + distance
                &&& model.words(longer)[j + words_before].end == model.words(input)[j].end + distance
            },
        0 <= distance,
        distance + input.len() <= longer.len(),
        longer.subrange(distance, distance + input.len()) == input,
    ensures
        model.is_parsing(
            longer,
            model.candidates(model.words(longer), threshold),
            values.map_values(|value: ParsedView| value_moved(value, distance)),
        ),
{
    let before = model.words(input);
    let after = model.words(longer);
    let all = model.candidates(before, threshold);
    let more = model.candidates(after, threshold);
    let picks = choose|picks: Seq<Candidate>| #[trigger] model.reads(input, all, picks, values);
    let moved = picks.map_values(|c: Candidate| match_moved(c, words_before));
    assert forall|c: Candidate| #[trigger] more.contains(c) <==> all.contains(
        match_moved(c, -words_before),
    ) by {
        lemma_surrounded(model, before, after, words_before, threshold);
        assert(match_moved(match_moved(c, -words_before), words_before) == c);
    }
    lemma_moved_selection(model, all, more, picks, words_before);
    let moved_values = values.map_values(|value: ParsedView| value_moved(value, distance));
    assert forall|i: int| 0 <= i < moved.len() implies #[trigger] moved_values[i] == model.parsed(
        longer,
        moved[i],
    ) by {
        assert(picks.to_set().contains(picks[i]));
        assert(all.contains(picks[i]));
        law_matches(model, before, threshold, picks[i]);
        assert(values[i] == model.parsed(input, picks[i]));
        lemma_moved_value(model, input, longer, words_before, distance, picks[i]);
    }
    assert(model.reads(longer, more, moved, moved_values));
}

/// An unknown word before a query changes nothing but the ranges of the parsed values.
pub proof fn law_unknown_word_before_moves_ranges(
    model: Model,
    word: Seq<char>,
    space: char,
    input: Seq<char>,
    threshold: Single,
    values: Seq<ParsedView>,
)
    requires
        model.wf(),
        model.is_unknown(word),
        white_space(space),
        model.is_parsing(input, model.candidates(model.words(input), threshold), values),
    ensures
        ({
            let longer = word.push(space) + input;
            model.is_parsing(
                longer,
                model.candidates(model.words(longer), threshold),
                values.map_values(|value: ParsedView| value_moved(value, (word.len() + 1) as int)),
            )
        }),
{
    let longer = word.push(space) + input;
    let distance = (word.len() + 1) as int;
    law_tokens_of_joined_texts(word, space, input);
    law_tokens_are_longest_runs(input);
    lemma_one_token(word, word.len());
    lemma_no_index(model.symbols, word);
    let before = model.words(input);
    let after = model.words(longer);
    assert(after.len() == before.len() + 1);
    assert(after[0].symbol is None) by {
        assert(token_ranges(longer)[0] == (0int, word.len() as int));
        assert(longer.subrange(0, word.len() as int) =~= word);
    }
    assert forall|j: int| 0 <= j < before.len() implies {
        &&& after[j + 1].start == (#[trigger] before[j]).start + distance
        &&& after[j + 1].end == before[j].end + distance
        &&& after[j + 1].symbol == before[j].symbol
    } by {
        let range = token_ranges(input)[j];
        assert(token_ranges(longer)[j + 1] == (range.0 + distance, range.1 + distance));
        assert(longer.subrange(range.0 + distance, range.1 + distance) =~= input.subrange(
            range.0,
            range.1,
        ));
    }
    assert(longer.subrange(distance, distance + input.len()) =~= input);
    lemma_moved_parsing(model, input, longer, 1, distance, threshold, values);
}

/// An unknown word behind a query changes nothing.
pub proof fn law_unknown_word_behind_changes_nothing(
    model: Model,
    input: Seq<char>,
    space: char,
    word: Seq<char>,
    threshold: Single,
    values: Seq<ParsedView>,
)
    requires
        model.wf(),
        model.is_unknown(word),
        white_space(space),
        model.is_parsing(input, model.candidates(model.words(input), threshold), values),
    ensures
        ({
            let longer = input.push(space) + word;
            model.is_parsing(longer, model.candidates(model.words(longer), threshold), values)
        }),
{
    let longer = input.push(space) + word;
    law_tokens_of_joined_texts(input, space, word);
    law_tokens_are_longest_runs(input);
    lemma_one_token(word, word.len());
    lemma_no_index(model.symbols, word);
    let before = model.words(input);
    let after = model.words(longer);
    let n = before.len() as int;
    assert(after.len() == n + 1);
    assert(after[n].symbol is None) by {
        let start = (input.len() + 1) as int;
        assert(token_ranges(longer)[n] == (start, start + word.len()));
        assert(longer.subrange(start, start + word.len()) =~= word);
    }
    assert forall|j: int| 0 <= j < n implies after[j + 0] == #[trigger] before[j] by {
        let range = token_ranges(input)[j];
        assert(token_ranges(longer)[j] == range);
        assert(longer.subrange(range.0, range.1) =~= input.subrange(range.0, range.1));
    }
    assert(longer.subrange(0, input.len() as int) =~= input);
    lemma_moved_parsing(model, input, longer, 0, 0, threshold, values);
    assert(values.map_values(|value: ParsedView| value_moved(value, 0)) =~= values);
}

} // verus!
