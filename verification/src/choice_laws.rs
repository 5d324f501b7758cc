//! Which of the matches in a query become parsed values.

use crate::laws::law_passed_over_for_a_better_one;
use crate::model::{Candidate, Model};
use crate::parsed_value::ParsedView;
use crate::possible_match::{preference, PossibleMatch};
use crate::selection::overlap;
use crate::utils::{token_ranges, RESOLVED_SYMBOL};
use core::cmp::Ordering;
use vstd::prelude::*;

verus! {

/// The parsed values are those of some of the matches, in the order of the query. No two of these have a word
/// in common. Every other match has a word in common with one of them that has more words, or as many words
/// and a value of fewer tokens, or as many of both and a value that was added earlier, or that is another
/// match of the same value which begins earlier.
pub proof fn law_choice_among_matches(
    model: Model,
    input: Seq<char>,
    all: Set<Candidate>,
    values: Seq<ParsedView>,
) -> (picks: Seq<Candidate>)
    requires
        model.wf(),
        model.is_parsing(input, all, values),
        forall|c: Candidate| #[trigger]
            all.contains(c) ==> model.values.contains_key(c.value) && 0 <= c.first < c.end
                <= token_ranges(input).len(),
    ensures
        picks.len() == values.len(),
        forall|i: int|
            0 <= i < picks.len() ==> {
                &&& all.contains(#[trigger] picks[i])
                &&& model.symbols[picks[i].value as int] == seq![' '] + values[i].resolved_value
                &&& values[i].start == token_ranges(input)[picks[i].first].0
                &&& values[i].end == token_ranges(input)[picks[i].end - 1].1
                &&& values[i].raw_value == input.subrange(values[i].start, values[i].end)
            },
        forall|i: int, j: int|
            #![trigger picks[i], picks[j]]
            0 <= i < j < picks.len() ==> picks[i].end <= picks[j].first,
        forall|c: Candidate| #[trigger]
            all.contains(c) && !picks.contains(c) ==> exists|i: int|
                {
                    let p = picks[i];
                    let p_tokens = model.values[p.value].1.len();
                    let c_tokens = model.values[c.value].1.len();
                    let p_rank = model.values[p.value].0;
                    let c_rank = model.values[c.value].0;
                    &&& 0 <= i < picks.len()
                    &&& (#[trigger] picks[i]).first < c.end && c.first < p.end
                    &&& p.end - p.first >= c.end - c.first
                    &&& p.end - p.first == c.end - c.first ==> {
                        &&& p_tokens <= c_tokens
                        &&& p_tokens == c_tokens ==> {
                            ||| p_rank < c_rank
                            ||| p_rank == c_rank && p.value == c.value && p.first < c.first
                        }
                    }
                },
{
    let picks = choose|picks: Seq<Candidate>| #[trigger] model.reads(input, all, picks, values);
    let chosen = picks.to_set();
    let words = model.words(input);
    assert forall|i: int| 0 <= i < picks.len() implies {
        &&& all.contains(#[trigger] picks[i])
        &&& model.symbols[picks[i].value as int] == seq![' '] + values[i].resolved_value
        &&& values[i].start == token_ranges(input)[picks[i].first].0
        &&& values[i].end == token_ranges(input)[picks[i].end - 1].1
        &&& values[i].raw_value == input.subrange(values[i].start, values[i].end)
    } by {
        assert(chosen.contains(picks[i]));
        assert(all.contains(picks[i]));
        assert(values[i] == model.parsed(input, picks[i]));
        let symbol = model.symbols[picks[i].value as int];
        assert(symbol[0] == RESOLVED_SYMBOL);
        assert(symbol =~= seq![' '] + symbol.drop_first());
        assert(words[picks[i].first].start == token_ranges(input)[picks[i].first].0);
        assert(words[picks[i].end - 1].end == token_ranges(input)[picks[i].end - 1].1);
    }
    assert forall|c: Candidate| #[trigger] all.contains(c) && !picks.contains(c) implies exists|i: int|
        {
            let p = picks[i];
            let p_tokens = model.values[p.value].1.len();
            let c_tokens = model.values[c.value].1.len();
            let p_rank = model.values[p.value].0;
            let c_rank = model.values[c.value].0;
            &&& 0 <= i < picks.len()
            &&& (#[trigger] picks[i]).first < c.end && c.first < p.end
            &&& p.end - p.first >= c.end - c.first
            &&& p.end - p.first == c.end - c.first ==> {
                &&& p_tokens <= c_tokens
                &&& p_tokens == c_tokens ==> {
                    ||| p_rank < c_rank
                    ||| p_rank == c_rank && p.value == c.value && p.first < c.first
                }
            }
        } by {
        assert(!chosen.contains(c));
        law_passed_over_for_a_better_one(model, all, chosen, c);
        let d = choose|d: Candidate| #[trigger]
            chosen.contains(d) && model.beats(d, c) && overlap(d, c);
        let i = choose|i: int| 0 <= i < picks.len() && picks[i] == d;
        assert(all.contains(picks[i]));
        assert(model.rank(d.value) == model.rank(c.value) ==> d.value == c.value);
        assert(picks[i].first < c.end);
    }
    picks
}

/// Of two matches that have a word in common and as many words, of values with as many tokens, the one of the
/// value that was added first is preferred, whichever of them begins earlier in the query: the other becomes a
/// parsed value only where the first had to give way to a third one, which has no word in common with the
/// other.
pub proof fn law_value_added_first_is_preferred(
    model: Model,
    input: Seq<char>,
    all: Set<Candidate>,
    values: Seq<ParsedView>,
    a: Candidate,
    b: Candidate,
) -> (picks: Seq<Candidate>)
    requires
        model.wf(),
        model.is_parsing(input, all, values),
        forall|c: Candidate| #[trigger]
            all.contains(c) ==> model.values.contains_key(c.value) && 0 <= c.first < c.end
                <= token_ranges(input).len(),
        all.contains(a),
        all.contains(b),
        a.first < b.end && b.first < a.end,
        a.end - a.first == b.end - b.first,
        model.values[a.value].1.len() == model.values[b.value].1.len(),
        model.values[a.value].0 < model.values[b.value].0,
    ensures
        picks.len() == values.len(),
        forall|i: int|
            0 <= i < picks.len() ==> all.contains(#[trigger] picks[i]) && values[i].start == token_ranges(
                input,
            )[picks[i].first].0 && values[i].end == token_ranges(input)[picks[i].end - 1].1
                && model.symbols[picks[i].value as int] == seq![' '] + values[i].resolved_value,
        picks.contains(b) ==> exists|i: int|
            {
                &&& 0 <= i < picks.len()
                &&& (#[trigger] picks[i]).first < a.end && a.first < picks[i].end
                &&& picks[i].end <= b.first || b.end <= picks[i].first
            },
        (forall|c: Candidate| #[trigger]
            all.contains(c) && c.first < a.end && a.first < c.end ==> c == a || c == b)
            ==> picks.contains(a) && !picks.contains(b),
{
    let picks = law_choice_among_matches(model, input, all, values);
    if picks.contains(a) {
        let i = choose|i: int| 0 <= i < picks.len() && picks[i] == a;
        if picks.contains(b) {
            let j = choose|j: int| 0 <= j < picks.len() && picks[j] == b;
            assert(i < j || j < i || i == j);
            assert(false);
        }
    } else {
        let i = choose|i: int|
            {
                let p = picks[i];
                let p_tokens = model.values[p.value].1.len();
                let a_tokens = model.values[a.value].1.len();
                let p_rank = model.values[p.value].0;
                let a_rank = model.values[a.value].0;
                &&& 0 <= i < picks.len()
                &&& (#[trigger] picks[i]).first < a.end && a.first < p.end
                &&& p.end - p.first >= a.end - a.first
                &&& p.end - p.first == a.end - a.first ==> {
                    &&& p_tokens <= a_tokens
                    &&& p_tokens == a_tokens ==> {
                        ||| p_rank < a_rank
                        ||| p_rank == a_rank && p.value == a.value && p.first < a.first
                    }
                }
            };
        assert(all.contains(picks[i]));
        assert(picks[i] != b);
        if picks.contains(b) {
            let j = choose|j: int| 0 <= j < picks.len() && picks[j] == b;
            assert(i < j || j < i || i == j);
        }
        assert(picks.contains(picks[i]));
    }
    picks
}

/// A match becomes a parsed value if every other one with a common word has fewer words, or as many words and
/// a value of more tokens, or as many of both and a value that was added later.
pub proof fn law_best_of_the_overlapping_is_parsed(
    model: Model,
    input: Seq<char>,
    all: Set<Candidate>,
    values: Seq<ParsedView>,
    c: Candidate,
) -> (i: int)
    requires
        model.wf(),
        model.is_parsing(input, all, values),
        forall|d: Candidate| #[trigger]
            all.contains(d) ==> model.values.contains_key(d.value) && 0 <= d.first < d.end
                <= token_ranges(input).len(),
        all.contains(c),
        forall|d: Candidate| #[trigger]
            all.contains(d) && d != c && d.first < c.end && c.first < d.end ==> {
                let c_tokens = model.values[c.value].1.len();
                let d_tokens = model.values[d.value].1.len();
                ||| d.end - d.first < c.end - c.first
                ||| d.end - d.first == c.end - c.first && d_tokens > c_tokens
                ||| d.end - d.first == c.end - c.first && d_tokens == c_tokens
                    && model.values[d.value].0 > model.values[c.value].0
            },
    ensures
        0 <= i < values.len(),
        values[i].start == token_ranges(input)[c.first].0,
        values[i].end == token_ranges(input)[c.end - 1].1,
        values[i].raw_value == input.subrange(values[i].start, values[i].end),
        model.symbols[c.value as int] == seq![' '] + values[i].resolved_value,
{
    let picks = law_choice_among_matches(model, input, all, values);
    if !picks.contains(c) {
        let i = choose|i: int|
            {
                let p = picks[i];
                let p_tokens = model.values[p.value].1.len();
                let c_tokens = model.values[c.value].1.len();
                let p_rank = model.values[p.value].0;
                let c_rank = model.values[c.value].0;
                &&& 0 <= i < picks.len()
                &&& (#[trigger] picks[i]).first < c.end && c.first < p.end
                &&& p.end - p.first >= c.end - c.first
                &&& p.end - p.first == c.end - c.first ==> {
                    &&& p_tokens <= c_tokens
                    &&& p_tokens == c_tokens ==> {
                        ||| p_rank < c_rank
                        ||| p_rank == c_rank && p.value == c.value && p.first < c.first
                    }
                }
            };
        assert(all.contains(picks[i]));
        assert(picks.contains(picks[i]));
        assert(false);
    }
    choose|i: int| 0 <= i < picks.len() && picks[i] == c
}

/// Matches compare by the number of tokens that they have consumed, more being greater, then by the length of
/// their values, shorter being greater, then by the ranks of their values, lower being greater, and by nothing
/// else.
pub proof fn law_how_matches_compare(a: PossibleMatch, b: PossibleMatch)
    ensures
        a.n_consumed_tokens > b.n_consumed_tokens ==> preference(a, b) == Ordering::Greater
            && preference(b, a) == Ordering::Less,
        a.n_consumed_tokens == b.n_consumed_tokens && a.raw_value_length < b.raw_value_length
            ==> preference(a, b) == Ordering::Greater && preference(b, a) == Ordering::Less,
        a.n_consumed_tokens == b.n_consumed_tokens && a.raw_value_length == b.raw_value_length && a.rank
            < b.rank ==> preference(a, b) == Ordering::Greater && preference(b, a) == Ordering::Less,
        a.n_consumed_tokens == b.n_consumed_tokens && a.raw_value_length == b.raw_value_length && a.rank
            == b.rank ==> preference(a, b) == Ordering::Equal,
{
}

} // verus!
