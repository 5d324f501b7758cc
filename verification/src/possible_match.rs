//! Matches that are found while a query is read, and the order in which they are preferred.

use crate::model::{Candidate, Model, Word};
use core::cmp::Ordering;
use core::ops::Range;
use vstd::prelude::*;

verus! {

broadcast use vstd::seq_lib::group_to_multiset_ensures;

/// A match of a resolved value that can be grown by the next tokens of a query.
#[derive(Debug, PartialEq, Eq)]
pub struct PossibleMatch {
    pub resolved_value: u32,
    /// The range of the match in characters.
    pub range: Range<usize>,
    /// The range of the match in tokens.
    pub tokens_range: Range<usize>,
    /// The number of tokens of the resolved value.
    pub raw_value_length: u32,
    pub n_consumed_tokens: u32,
    pub last_token_in_input: usize,
    pub last_token_in_resolution: usize,
    pub rank: u32,
}

/// How `a` compares with `b`: a match of more tokens is greater, then one of a shorter value, then one
/// of a value of lower rank.
pub open spec fn preference(a: PossibleMatch, b: PossibleMatch) -> Ordering {
    if a.n_consumed_tokens < b.n_consumed_tokens {
        Ordering::Less
    } else if a.n_consumed_tokens > b.n_consumed_tokens {
        Ordering::Greater
    } else if a.raw_value_length < b.raw_value_length {
        Ordering::Greater
    } else if a.raw_value_length > b.raw_value_length {
        Ordering::Less
    } else if a.rank < b.rank {
        Ordering::Greater
    } else if a.rank > b.rank {
        Ordering::Less
    } else {
        Ordering::Equal
    }
}

/// Whether `a` is considered not later than `b`: greater matches first, and of two that compare equal
/// the one that begins earlier in the query.
pub open spec fn not_later(a: PossibleMatch, b: PossibleMatch) -> bool {
    ||| preference(a, b) == Ordering::Greater
    ||| preference(a, b) == Ordering::Equal && a.tokens_range.start <= b.tokens_range.start
}

impl PossibleMatch {
    pub open spec fn candidate(self) -> Candidate {
        Candidate {
            value: self.resolved_value,
            first: self.tokens_range.start as int,
            end: self.tokens_range.end as int,
        }
    }

    /// The match is one of its resolved value, and has consumed as many of its tokens as of the query,
    /// none of them behind the last matched one.
    pub open spec fn fits(self, model: Model) -> bool {
        &&& model.values.contains_key(self.resolved_value)
        &&& self.rank == model.rank(self.resolved_value)
        &&& self.raw_value_length == model.tokens(self.resolved_value).len()
        &&& self.tokens_range.start < self.tokens_range.end
        &&& self.n_consumed_tokens == self.tokens_range.end - self.tokens_range.start
        &&& self.last_token_in_input == self.tokens_range.end - 1
        &&& self.last_token_in_resolution < self.raw_value_length
        &&& self.n_consumed_tokens <= self.last_token_in_resolution + 1
    }

    /// The match lies in a query, and its range in characters is that of its words.
    pub open spec fn lies_in(self, words: Seq<Word>) -> bool {
        &&& self.tokens_range.end <= words.len()
        &&& self.range.start == words[self.tokens_range.start as int].start
        &&& self.range.end == words[self.tokens_range.end - 1].end
    }

    pub fn cmp(&self, other: &PossibleMatch) -> (order: Ordering)
        ensures
            order == preference(*self, *other),
    {
        if self.n_consumed_tokens < other.n_consumed_tokens {
            Ordering::Less
        } else if self.n_consumed_tokens > other.n_consumed_tokens {
            Ordering::Greater
        } else {
            if self.raw_value_length < other.raw_value_length {
                Ordering::Greater
            } else if self.raw_value_length > other.raw_value_length {
                Ordering::Less
            } else if other.rank < self.rank {
                Ordering::Less
            } else if other.rank > self.rank {
                Ordering::Greater
            } else {
                Ordering::Equal
            }
        }
    }

    /// Whether this match is considered not later than `other`.
    fn comes_first(&self, other: &PossibleMatch) -> (yes: bool)
        ensures
            yes == not_later(*self, *other),
    {
        match self.cmp(other) {
            Ordering::Greater => true,
            Ordering::Equal => self.tokens_range.start <= other.tokens_range.start,
            Ordering::Less => false,
        }
    }
}

impl PartialOrd for PossibleMatch {
    fn partial_cmp(&self, other: &PossibleMatch) -> (order: Option<Ordering>) {
        Some(self.cmp(other))
    }
}

impl vstd::std_specs::cmp::PartialOrdSpecImpl for PossibleMatch {
    open spec fn obeys_partial_cmp_spec() -> bool {
        true
    }

    open spec fn partial_cmp_spec(&self, other: &PossibleMatch) -> Option<Ordering> {
        Some(preference(*self, *other))
    }
}

impl Clone for PossibleMatch {
    fn clone(&self) -> (copy: PossibleMatch)
        ensures
            copy == *self,
    {
        PossibleMatch {
            resolved_value: self.resolved_value,
            range: self.range.start..self.range.end,
            tokens_range: self.tokens_range.start..self.tokens_range.end,
            raw_value_length: self.raw_value_length,
            n_consumed_tokens: self.n_consumed_tokens,
            last_token_in_input: self.last_token_in_input,
            last_token_in_resolution: self.last_token_in_resolution,
            rank: self.rank,
        }
    }
}

/// The order of matches is total, and two matches compare equal exactly if they have consumed as many
/// tokens of values that have as many tokens and the same rank.
pub proof fn law_preference_is_a_total_order(a: PossibleMatch, b: PossibleMatch, c: PossibleMatch)
    ensures
        preference(a, a) == Ordering::Equal,
        preference(a, b) == Ordering::Less <==> preference(b, a) == Ordering::Greater,
        preference(a, b) == Ordering::Equal <==> (a.n_consumed_tokens == b.n_consumed_tokens
            && a.raw_value_length == b.raw_value_length && a.rank == b.rank),
        preference(a, b) != Ordering::Greater && preference(b, c) != Ordering::Greater ==> preference(a, c)
            != Ordering::Greater,
{
}

/// The matches in the order in which they are considered.
pub open spec fn in_order(matches: Seq<PossibleMatch>) -> bool {
    forall|i: int, j: int|
        #![trigger matches[i], matches[j]]
        0 <= i <= j < matches.len() ==> not_later(matches[i], matches[j])
}

/// Merges two lists that are in order.
fn merge(left: &Vec<PossibleMatch>, right: &Vec<PossibleMatch>) -> (merged: Vec<PossibleMatch>)
    requires
        in_order(left@),
        in_order(right@),
    ensures
        in_order(merged@),
        merged@.to_multiset() == left@.to_multiset().add(right@.to_multiset()),
{
    let mut merged: Vec<PossibleMatch> = Vec::new();
    let mut i: usize = 0;
    let mut j: usize = 0;
    assert(merged@.to_multiset() =~= left@.take(0).to_multiset().add(right@.take(0).to_multiset()));
    while i < left.len() || j < right.len()
        invariant
            in_order(left@),
            in_order(right@),
            i <= left.len(),
            j <= right.len(),
            in_order(merged@),
            forall|a: int, b: int|
                #![trigger merged@[a], left@[b]]
                0 <= a < merged.len() && i <= b < left.len() ==> not_later(merged@[a], left@[b]),
            forall|a: int, b: int|
                #![trigger merged@[a], right@[b]]
                0 <= a < merged.len() && j <= b < right.len() ==> not_later(merged@[a], right@[b]),
            merged@.to_multiset() == left@.take(i as int).to_multiset().add(
                right@.take(j as int).to_multiset(),
            ),
        decreases left.len() - i + right.len() - j,
    {
        if j == right.len() || (i < left.len() && left[i].comes_first(&right[j])) {
            let next = left[i].clone();
            merged.push(next);
            assert(left@.take(i + 1) =~= left@.take(i as int).push(left@[i as int]));
            i = i + 1;
        } else {
            let next = right[j].clone();
            merged.push(next);
            assert(right@.take(j + 1) =~= right@.take(j as int).push(right@[j as int]));
            j = j + 1;
        }
        assert(merged@.to_multiset() =~= left@.take(i as int).to_multiset().add(
            right@.take(j as int).to_multiset(),
        ));
    }
    assert(left@.take(left.len() as int) =~= left@);
    assert(right@.take(right.len() as int) =~= right@);
    merged
}

/// The matches `from..to` in the order in which they are considered.
fn sorted(matches: &Vec<PossibleMatch>, from: usize, to: usize) -> (ordered: Vec<PossibleMatch>)
    requires
        from <= to <= matches.len(),
    ensures
        in_order(ordered@),
        ordered@.to_multiset() == matches@.subrange(from as int, to as int).to_multiset(),
    decreases to - from,
{
    if to - from <= 1 {
        let mut ordered: Vec<PossibleMatch> = Vec::new();
        if from < to {
            ordered.push(matches[from].clone());
        }
        assert(ordered@ =~= matches@.subrange(from as int, to as int));
        ordered
    } else {
        let middle: usize = from + (to - from) / 2;
        let left = sorted(matches, from, middle);
        let right = sorted(matches, middle, to);
        proof {
            let a = matches@.subrange(from as int, middle as int);
            let b = matches@.subrange(middle as int, to as int);
            assert(a + b =~= matches@.subrange(from as int, to as int));
            vstd::seq_lib::lemma_multiset_commutative(a, b);
        }
        merge(&left, &right)
    }
}

/// The matches in the order in which they are considered.
pub fn into_sorted(matches: &Vec<PossibleMatch>) -> (ordered: Vec<PossibleMatch>)
    ensures
        in_order(ordered@),
        ordered@.to_multiset() == matches@.to_multiset(),
{
    assert(matches@.subrange(0, matches.len() as int) =~= matches@);
    sorted(matches, 0, matches.len())
}

} // verus!
