//! What a parser knows, and which parts of a query match which values.

use crate::single::{Single, ONE_BITS};
use crate::symbol_table::single_index;
use crate::utils::{passes, token_ranges, white_space, RESOLVED_SYMBOL};
use vstd::prelude::*;

verus! {

/// The contents of a parser. A symbol is known by its index.
pub struct Model {
    /// The symbols: tokens, and resolved values in the form that `format_resolved` gives them.
    pub symbols: Seq<Seq<char>>,
    /// How often each token occurs.
    pub counts: Map<u32, u32>,
    /// The resolved values that each token occurs in.
    pub token_values: Map<u32, Set<u32>>,
    /// The rank and the tokens of each resolved value.
    pub values: Map<u32, (u32, Seq<u32>)>,
    /// The tokens that are too frequent to tell values apart.
    pub stop_words: Set<u32>,
    /// The resolved values that are made of stop words alone.
    pub edge_cases: Set<u32>,
}

/// Whether `text` is a single token.
pub open spec fn is_token(text: Seq<char>) -> bool {
    text.len() > 0 && forall|i: int| 0 <= i < text.len() ==> !white_space(#[trigger] text[i])
}

impl Model {
    pub open spec fn rank(self, value: u32) -> u32 {
        self.values[value].0
    }

    /// The tokens of a resolved value.
    pub open spec fn tokens(self, value: u32) -> Seq<u32> {
        self.values[value].1
    }

    /// Whether a token occurs in a resolved value.
    pub open spec fn occurs_in(self, token: u32, value: u32) -> bool {
        self.token_values.contains_key(token) && self.token_values[token].contains(value)
    }

    /// Whether a resolved value is made of stop words alone.
    pub open spec fn only_stop_words(self, value: u32) -> bool {
        forall|k: int|
            0 <= k < self.tokens(value).len() ==> self.stop_words.contains(#[trigger] self.tokens(value)[k])
    }

    /// The resolved values are symbols of their own and have tokens; no two have the same rank.
    pub open spec fn values_wf(self) -> bool {
        &&& self.values.dom().finite()
        &&& forall|value: u32| #[trigger]
            self.values.contains_key(value) ==> {
                &&& value < self.symbols.len()
                &&& self.symbols[value as int].len() > 0
                &&& self.symbols[value as int][0] == RESOLVED_SYMBOL
                &&& 0 < self.tokens(value).len() <= u32::MAX
            }
        &&& forall|a: u32, b: u32|
            #![trigger self.rank(a), self.rank(b)]
            self.values.contains_key(a) && self.values.contains_key(b) && a != b ==> self.rank(a)
                != self.rank(b)
    }

    /// The two ways between tokens and resolved values agree.
    pub open spec fn links_wf(self) -> bool {
        &&& forall|value: u32, k: int|
            self.values.contains_key(value) && 0 <= k < self.tokens(value).len() ==> self.occurs_in(
                #[trigger] self.tokens(value)[k],
                value,
            )
        &&& forall|token: u32, value: u32| #[trigger]
            self.occurs_in(token, value) ==> self.values.contains_key(value) && self.tokens(
                value,
            ).contains(token)
    }

    /// The symbols without white space are the tokens, and each of them has one index.
    pub open spec fn tokens_wf(self) -> bool {
        &&& self.symbols.len() <= u32::MAX
        &&& self.counts.dom() == self.token_values.dom()
        &&& self.counts.dom().finite()
        &&& forall|token: u32| #[trigger]
            self.token_values.contains_key(token) ==> token < self.symbols.len() && is_token(
                self.symbols[token as int],
            )
        &&& forall|i: int|
            0 <= i < self.symbols.len() && is_token(#[trigger] self.symbols[i])
                ==> self.token_values.contains_key(i as u32)
        &&& forall|i: int, j: int|
            #![trigger self.symbols[i], self.symbols[j]]
            0 <= i < j < self.symbols.len() && is_token(self.symbols[i]) ==> self.symbols[i]
                != self.symbols[j]
    }

    /// The stop words are tokens, and the edge cases are the values made of stop words alone.
    pub open spec fn stop_words_wf(self) -> bool {
        &&& self.stop_words.subset_of(self.token_values.dom())
        &&& forall|value: u32| #[trigger]
            self.edge_cases.contains(value) <==> self.values.contains_key(value) && self.only_stop_words(
                value,
            )
    }

    pub open spec fn wf(self) -> bool {
        &&& self.values_wf()
        &&& self.links_wf()
        &&& self.tokens_wf()
        &&& self.stop_words_wf()
    }
}

/// A token of a query: its range in characters, and its index where the parser knows it.
pub struct Word {
    pub start: int,
    pub end: int,
    pub symbol: Option<u32>,
}

/// A match of a value with the words `first..end` of a query.
pub struct Candidate {
    pub value: u32,
    pub first: int,
    pub end: int,
}

/// The first place of `token` among `tokens` that is not before `from`.
pub open spec fn position_from(tokens: Seq<u32>, token: u32, from: int) -> Option<int>
    decreases tokens.len() - from,
{
    if from >= tokens.len() {
        None
    } else if tokens[from] == token {
        Some(from)
    } else {
        position_from(tokens, token, from + 1)
    }
}

/// The place at which the words `first..end` have been matched, when each of them is matched with the
/// first token of the value that comes after the one before. `None`: they do not stand in the order of
/// the value.
pub open spec fn reach(tokens: Seq<u32>, words: Seq<Word>, first: int, end: int) -> Option<int>
    decreases end - first,
{
    if end <= first {
        Some(-1)
    } else {
        match (reach(tokens, words, first, end - 1), words[end - 1].symbol) {
            (Some(place), Some(token)) => position_from(tokens, token, place + 1),
            _ => None,
        }
    }
}

/// Whether enough tokens of the value have been matched.
pub open spec fn enough(tokens: Seq<u32>, first: int, end: int, threshold: Single) -> bool {
    passes((end - first) as nat, (tokens.len() - (end - first)) as nat, threshold)
}

/// The threshold one: that of a complete match.
pub open spec fn complete() -> Single {
    Single { bits: ONE_BITS }
}

impl Model {
    /// The words of a query.
    pub open spec fn words(self, input: Seq<char>) -> Seq<Word> {
        Seq::new(
            token_ranges(input).len(),
            |i: int|
                {
                    let range = token_ranges(input)[i];
                    Word {
                        start: range.0,
                        end: range.1,
                        symbol: match single_index(self.symbols, input.subrange(range.0, range.1)) {
                            Ok(found) => found,
                            Err(_) => None,
                        },
                    }
                },
        )
    }

    /// Whether the word at `index` is a token of `value`.
    pub open spec fn is_word_of(self, words: Seq<Word>, value: u32, index: int) -> bool {
        words[index].symbol matches Some(token) && self.tokens(value).contains(token)
    }

    /// Whether the words `first..end` are, in their order, the tokens of `value` at `places`.
    pub open spec fn aligned(
        self,
        words: Seq<Word>,
        value: u32,
        first: int,
        end: int,
        places: Seq<int>,
    ) -> bool {
        &&& places.len() == end - first
        &&& forall|k: int|
            0 <= k < places.len() ==> {
                &&& 0 <= #[trigger] places[k] < self.tokens(value).len()
                &&& words[first + k].symbol == Some(self.tokens(value)[places[k]])
            }
        &&& forall|j: int, k: int| 0 <= j < k < places.len() ==> places[j] < places[k]
    }

    /// Whether the words `first..end` are tokens of `value`, in the order that they have there.
    pub open spec fn keeps_order(self, words: Seq<Word>, value: u32, first: int, end: int) -> bool {
        exists|places: Seq<int>| #[trigger] self.aligned(words, value, first, end, places)
    }

    /// Whether the words `first..end` are a longest part of the query that is made of tokens of `value`
    /// in their order: it can be extended on neither side.
    pub open spec fn is_longest(self, words: Seq<Word>, value: u32, first: int, end: int) -> bool {
        &&& self.keeps_order(words, value, first, end)
        &&& first == 0 || !self.keeps_order(words, value, first - 1, end)
        &&& end == words.len() || !self.keeps_order(words, value, first, end + 1)
    }

    /// Whether the words `first..end` can stand for `value`: not all of them are stop words, unless the
    /// value is an edge case.
    pub open spec fn has_content(self, words: Seq<Word>, value: u32, first: int, end: int) -> bool {
        self.edge_cases.contains(value) || exists|j: int|
            first <= j < end && (#[trigger] words[j]).symbol is Some && !self.stop_words.contains(
                words[j].symbol->0,
            )
    }

    /// Whether the words `first..end` are enough of `value`: all of it for an edge case, and the fraction
    /// `threshold` of its tokens for any other.
    pub open spec fn suffices(self, value: u32, first: int, end: int, threshold: Single) -> bool {
        if self.edge_cases.contains(value) {
            end - first == self.tokens(value).len()
        } else {
            enough(self.tokens(value), first, end, threshold)
        }
    }

    /// The ranges of words with which `value` is matched.
    pub open spec fn spans(self, words: Seq<Word>, value: u32, threshold: Single) -> Set<(int, int)> {
        Set::new(
            |span: (int, int)|
                {
                    &&& 0 <= span.0 < span.1 <= words.len()
                    &&& self.is_longest(words, value, span.0, span.1)
                    &&& self.has_content(words, value, span.0, span.1)
                    &&& self.suffices(value, span.0, span.1, threshold)
                },
        )
    }

    /// All matches in a query.
    pub open spec fn candidates(self, words: Seq<Word>, threshold: Single) -> Set<Candidate> {
        Set::new(
            |c: Candidate|
                self.values.contains_key(c.value) && self.spans(words, c.value, threshold).contains(
                    (c.first, c.end),
                ),
        )
    }
}

} // verus!
