//! The state of a search while a query is read.

use crate::model::{reach, Model, Word};
use crate::order::{
    first_in_order, lemma_first_in_order, lemma_is_first, lemma_keeps_order, lemma_reach_within,
};
use crate::single::Single;
use vstd::prelude::*;

verus! {

/// What is known of one value: the part of the query that may still grow, and the matches that have been
/// found.
pub struct Track {
    pub current: Option<(int, int)>,
    pub done: Set<(int, int)>,
}

impl Model {
    /// The longest part that ends with the last token of `value` among the first `n` words, if it can
    /// stand for the value.
    pub open spec fn current(self, words: Seq<Word>, value: u32, n: int) -> Option<(int, int)>
        decreases n,
    {
        if n <= 0 {
            None
        } else if self.is_word_of(words, value, n - 1) {
            let first = first_in_order(self.tokens(value), words, 0, n);
            if self.has_content(words, value, first, n) {
                Some((first, n))
            } else {
                None
            }
        } else {
            self.current(words, value, n - 1)
        }
    }

    /// The matches of `value` behind which there is another token of it among the first `n` words.
    pub open spec fn done(self, words: Seq<Word>, value: u32, n: int, threshold: Single) -> Set<
        (int, int),
    > {
        self.spans(words, value, threshold).filter(
            |span: (int, int)|
                exists|j: int| span.1 <= j < n && #[trigger] self.is_word_of(words, value, j),
        )
    }

    pub open spec fn track(self, words: Seq<Word>, value: u32, n: int, threshold: Single) -> Track {
        Track {
            current: self.current(words, value, n),
            done: self.done(words, value, n, threshold),
        }
    }
}

/// What a part that may still grow is.
pub proof fn lemma_current(model: Model, words: Seq<Word>, value: u32, n: int)
    requires
        0 <= n <= words.len(),
    ensures
        model.current(words, value, n) matches Some((first, end)) ==> {
            &&& 0 <= first < end <= n
            &&& first == first_in_order(model.tokens(value), words, 0, end)
            &&& reach(model.tokens(value), words, first, end) is Some
            &&& model.is_word_of(words, value, end - 1)
            &&& model.has_content(words, value, first, end)
            &&& forall|j: int| end <= j < n ==> !#[trigger] model.is_word_of(words, value, j)
        },
    decreases n,
{
    if n > 0 {
        if model.is_word_of(words, value, n - 1) {
            lemma_word_reaches(model, words, value, n - 1);
            lemma_first_in_order(model.tokens(value), words, 0, n);
        } else {
            lemma_current(model, words, value, n - 1);
        }
    }
}

/// A token of a value stands in order by itself.
pub proof fn lemma_word_reaches(model: Model, words: Seq<Word>, value: u32, index: int)
    ensures
        reach(model.tokens(value), words, index, index + 1) is Some <==> model.is_word_of(
            words,
            value,
            index,
        ),
        model.is_word_of(words, value, index) ==> reach(model.tokens(value), words, index, index + 1)
            == crate::model::position_from(model.tokens(value), words[index].symbol->0, 0),
{
    let tokens = model.tokens(value);
    assert(reach(tokens, words, index, index) == Some(-1int));
    if let Some(token) = words[index].symbol {
        crate::order::lemma_position_from(tokens, token, 0);
        if tokens.contains(token) {
            let k = choose|k: int| 0 <= k < tokens.len() && tokens[k] == token;
            assert(tokens[k] == token);
        }
    }
}

/// The words of a part that stands in order are tokens of the value.
pub proof fn lemma_words_in_order(
    model: Model,
    words: Seq<Word>,
    value: u32,
    first: int,
    end: int,
    index: int,
)
    requires
        first <= index < end,
        reach(model.tokens(value), words, first, end) is Some,
    ensures
        model.is_word_of(words, value, index),
{
    lemma_reach_within(model.tokens(value), words, first, end, index, index + 1);
    lemma_word_reaches(model, words, value, index);
}

/// A longest part that can stand for the value, and behind which no token of the value has been read, is
/// the one that may still grow.
proof fn lemma_longest_is_current(
    model: Model,
    words: Seq<Word>,
    value: u32,
    first: int,
    end: int,
    n: int,
)
    requires
        0 <= first < end <= n <= words.len(),
        model.is_longest(words, value, first, end),
        model.has_content(words, value, first, end),
        forall|j: int| end <= j < n ==> !#[trigger] model.is_word_of(words, value, j),
    ensures
        model.current(words, value, n) == Some((first, end)),
    decreases n,
{
    if n == end {
        lemma_keeps_order(model, words, value, first, end);
        if first > 0 {
            lemma_keeps_order(model, words, value, first - 1, end);
        }
        lemma_words_in_order(model, words, value, first, end, end - 1);
        lemma_is_first(model.tokens(value), words, 0, end, first);
    } else {
        assert(!model.is_word_of(words, value, n - 1));
        lemma_longest_is_current(model, words, value, first, end, n - 1);
    }
}

/// When the part that may still grow is a match.
pub proof fn lemma_current_is_match(
    model: Model,
    words: Seq<Word>,
    value: u32,
    n: int,
    threshold: Single,
)
    requires
        0 <= n <= words.len(),
        n == words.len() || model.is_word_of(words, value, n),
    ensures
        model.current(words, value, n) matches Some((first, end)) ==> {
            &&& model.spans(words, value, threshold).contains((first, end)) <==> model.suffices(
                value,
                first,
                end,
                threshold,
            ) && (n == words.len() || end < n || reach(model.tokens(value), words, first, n + 1) is None)
            &&& !model.done(words, value, n, threshold).contains((first, end))
        },
{
    lemma_current(model, words, value, n);
    if let Some((first, end)) = model.current(words, value, n) {
        let tokens = model.tokens(value);
        lemma_first_in_order(tokens, words, 0, end);
        lemma_keeps_order(model, words, value, first, end);
        if first > 0 {
            lemma_keeps_order(model, words, value, first - 1, end);
            assert(reach(tokens, words, first - 1, end) is None);
        }
        if end < words.len() {
            lemma_keeps_order(model, words, value, first, end + 1);
            if end < n {
                if reach(tokens, words, first, end + 1) is Some {
                    lemma_words_in_order(model, words, value, first, end + 1, end);
                }
                assert(!model.is_word_of(words, value, end));
            }
        }
    }
}

/// A word that is no token of a value changes nothing for it.
pub proof fn lemma_other_word(model: Model, words: Seq<Word>, value: u32, n: int, threshold: Single)
    requires
        0 <= n < words.len(),
        !model.is_word_of(words, value, n),
    ensures
        model.track(words, value, n + 1, threshold) == model.track(words, value, n, threshold),
{
    assert forall|span: (int, int)| model.done(words, value, n + 1, threshold).contains(span)
        <==> model.done(words, value, n, threshold).contains(span) by {
        if exists|j: int| span.1 <= j < n + 1 && #[trigger] model.is_word_of(words, value, j) {
            let j = choose|j: int| span.1 <= j < n + 1 && #[trigger] model.is_word_of(words, value, j);
            assert(j < n);
        }
    }
    assert(model.done(words, value, n + 1, threshold) =~= model.done(words, value, n, threshold));
}

/// At a token of a value, the part that might still grow grows, or it ends and is a match if it suffices.
pub proof fn lemma_done_after_word(
    model: Model,
    words: Seq<Word>,
    value: u32,
    n: int,
    threshold: Single,
)
    requires
        0 <= n < words.len(),
        model.is_word_of(words, value, n),
    ensures
        model.done(words, value, n + 1, threshold) == match model.current(words, value, n) {
            Some((first, end)) => if model.suffices(value, first, end, threshold) && (end < n || reach(
                model.tokens(value),
                words,
                first,
                n + 1,
            ) is None) {
                model.done(words, value, n, threshold).insert((first, end))
            } else {
                model.done(words, value, n, threshold)
            },
            None => model.done(words, value, n, threshold),
        },
{
    let before = model.done(words, value, n, threshold);
    let after = model.done(words, value, n + 1, threshold);
    lemma_current(model, words, value, n);
    lemma_current_is_match(model, words, value, n, threshold);
    assert forall|span: (int, int)| after.contains(span) <==> (before.contains(span) || (
    model.spans(words, value, threshold).contains(span) && model.current(words, value, n) == Some(span))) by {
        if before.contains(span) {
            let j = choose|j: int| span.1 <= j < n && #[trigger] model.is_word_of(words, value, j);
            assert(span.1 <= j < n + 1 && model.is_word_of(words, value, j));
        }
        if after.contains(span) && !before.contains(span) {
            let j = choose|j: int| span.1 <= j < n + 1 && #[trigger] model.is_word_of(words, value, j);
            assert(span.1 <= n);
            lemma_longest_is_current(model, words, value, span.0, span.1, n);
        }
        if model.current(words, value, n) == Some(span) {
            assert(span.1 <= n && model.is_word_of(words, value, n));
        }
    }
    match model.current(words, value, n) {
        Some((first, end)) => {
            if model.spans(words, value, threshold).contains((first, end)) {
                assert(after =~= before.insert((first, end)));
            } else {
                assert(after =~= before);
            }
        },
        None => {
            assert(after =~= before);
        },
    }
}

/// Where the longest part begins that ends with the word at `n`, a token of the value: not before the part
/// that might still grow, if it ends directly before, and otherwise not before the stop words there.
pub proof fn lemma_first_after_word(model: Model, words: Seq<Word>, value: u32, n: int, from: int)
    requires
        0 <= from <= n < words.len(),
        model.is_word_of(words, value, n),
        match model.current(words, value, n) {
            Some((first, end)) => from == if end == n {
                first
            } else {
                n
            },
            None => from == 0 || !model.is_word_of(words, value, from - 1) || !(
            words[from - 1].symbol is Some && model.stop_words.contains(words[from - 1].symbol->0)),
        },
    ensures
        first_in_order(model.tokens(value), words, 0, n + 1) == first_in_order(
            model.tokens(value),
            words,
            from,
            n + 1,
        ),
        first_in_order(model.tokens(value), words, 0, n + 1) <= n,
{
    let tokens = model.tokens(value);
    let first = first_in_order(tokens, words, 0, n + 1);
    lemma_first_in_order(tokens, words, 0, n + 1);
    lemma_word_reaches(model, words, value, n);
    lemma_current(model, words, value, n);
    assert(first <= n);
    if first < from {
        lemma_words_in_order(model, words, value, first, n + 1, n - 1);
        lemma_words_in_order(model, words, value, first, n + 1, from - 1);
        lemma_reach_within(tokens, words, first, n + 1, first, n);
        lemma_first_in_order(tokens, words, 0, n);
        match model.current(words, value, n) {
            Some((f, end)) => {
                assert(model.is_word_of(words, value, n - 1));
                assert(end == n);
                assert(reach(tokens, words, first, n) is None);
            },
            None => {
                let g = first_in_order(tokens, words, 0, n);
                assert(g <= first);
                assert(g <= from - 1 < n);
                assert(words[from - 1].symbol is Some);
                assert(model.has_content(words, value, g, n));
            },
        }
        assert(false);
    }
    assert(first == from || reach(tokens, words, first - 1, n + 1) is None);
    lemma_is_first(tokens, words, from, n + 1, first);
}

/// A stop word begins no match of a value that is no edge case.
pub proof fn lemma_stop_word_passed_over(
    model: Model,
    words: Seq<Word>,
    value: u32,
    n: int,
    threshold: Single,
)
    requires
        0 <= n < words.len(),
        words[n].symbol matches Some(token) && model.stop_words.contains(token),
        !model.edge_cases.contains(value),
        model.current(words, value, n) is None,
    ensures
        model.track(words, value, n + 1, threshold) == model.track(words, value, n, threshold),
{
    if model.is_word_of(words, value, n) {
        lemma_done_after_word(model, words, value, n, threshold);
        let tokens = model.tokens(value);
        let first = first_in_order(tokens, words, 0, n + 1);
        lemma_first_in_order(tokens, words, 0, n + 1);
        if model.has_content(words, value, first, n + 1) {
            let j = choose|j: int|
                first <= j < n + 1 && (#[trigger] words[j]).symbol is Some && !model.stop_words.contains(
                    words[j].symbol->0,
                );
            assert(j < n);
            lemma_words_in_order(model, words, value, first, n + 1, n - 1);
            lemma_reach_within(tokens, words, first, n + 1, first, n);
            lemma_first_in_order(tokens, words, 0, n);
            let g = first_in_order(tokens, words, 0, n);
            assert(g <= first);
            assert(model.has_content(words, value, g, n));
        }
    } else {
        lemma_other_word(model, words, value, n, threshold);
    }
}

/// At the end of a query the part that might still grow is a match if it suffices.
pub proof fn lemma_done_at_end(model: Model, words: Seq<Word>, value: u32, threshold: Single)
    ensures
        ({
            let n = words.len() as int;
            let done = model.done(words, value, n, threshold);
            model.spans(words, value, threshold) == match model.current(words, value, n) {
                Some((first, end)) => if model.suffices(value, first, end, threshold) {
                    done.insert((first, end))
                } else {
                    done
                },
                None => done,
            }
        }),
{
    let n = words.len() as int;
    let done = model.done(words, value, n, threshold);
    let spans = model.spans(words, value, threshold);
    lemma_current_is_match(model, words, value, n, threshold);
    assert forall|span: (int, int)| #[trigger] spans.contains(span) implies done.contains(span)
        || model.current(words, value, n) == Some(span) by {
        if !done.contains(span) {
            lemma_longest_is_current(model, words, value, span.0, span.1, n);
        }
    }
    match model.current(words, value, n) {
        Some((first, end)) => {
            if model.suffices(value, first, end, threshold) {
                assert(spans =~= done.insert((first, end)));
            } else {
                assert(spans =~= done);
            }
        },
        None => {
            assert(spans =~= done);
        },
    }
}

} // verus!
