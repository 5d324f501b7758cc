//! The choice among the matches in a query, and the parsed values.

use crate::errors::GazetteerParserResult;
use crate::model::{Candidate, Model, Word};
use crate::parsed_value::{ParsedValue, ParsedView};
use crate::parser::Parser;
use crate::possible_match::{in_order, into_sorted, not_later, PossibleMatch};
use crate::search::{is_found, is_match, recorded};
use crate::single::Single;
use crate::tables::{set_contains, set_insert, set_len};
use crate::utils::{
    fst_unformat_resolved_value, law_tokens_are_longest_runs, token_ranges, unformat_resolved,
    whitespace_tokenizer,
};
use fnv::FnvHashSet;
use vstd::prelude::*;

verus! {

broadcast use {
    vstd::std_specs::hash::group_hash_axioms,
    vstd::string::group_string_axioms,
    vstd::seq_lib::group_to_multiset_ensures,
};

/// Whether two matches have a word in common.
pub open spec fn overlap(a: Candidate, b: Candidate) -> bool {
    a.first < b.end && b.first < a.end
}

impl Model {
    /// Whether the match `a` is preferred to `b`: the one of more words, then the one of the shorter
    /// value, then the one of the value of lower rank, then the one that comes first.
    pub open spec fn beats(self, a: Candidate, b: Candidate) -> bool {
        let a_words = a.end - a.first;
        let b_words = b.end - b.first;
        let a_length = self.tokens(a.value).len();
        let b_length = self.tokens(b.value).len();
        ||| a_words > b_words
        ||| a_words == b_words && a_length < b_length
        ||| a_words == b_words && a_length == b_length && self.rank(a.value) < self.rank(b.value)
        ||| a_words == b_words && a_length == b_length && self.rank(a.value) == self.rank(b.value)
            && a.first < b.first
    }

    /// `chosen` are the matches of `all` that have no word in common with a chosen match that is
    /// preferred to them.
    pub open spec fn is_selection(self, all: Set<Candidate>, chosen: Set<Candidate>) -> bool {
        forall|c: Candidate| #[trigger]
            chosen.contains(c) <==> all.contains(c) && forall|d: Candidate| #[trigger]
                chosen.contains(d) && self.beats(d, c) ==> !overlap(d, c)
    }

    /// The value that a match stands for.
    pub open spec fn parsed(self, input: Seq<char>, c: Candidate) -> ParsedView {
        let words = self.words(input);
        ParsedView {
            resolved_value: unformat_resolved(self.symbols[c.value as int]),
            start: words[c.first].start,
            end: words[c.end - 1].end,
            raw_value: input.subrange(words[c.first].start, words[c.end - 1].end),
        }
    }

    /// `values` are those of `picks`, which are the chosen matches of `all` in the order of the query.
    pub open spec fn reads(
        self,
        input: Seq<char>,
        all: Set<Candidate>,
        picks: Seq<Candidate>,
        values: Seq<ParsedView>,
    ) -> bool {
        &&& self.is_selection(all, picks.to_set())
        &&& forall|i: int, j: int|
            #![trigger picks[i], picks[j]]
            0 <= i < j < picks.len() ==> picks[i].end <= picks[j].first
        &&& values.len() == picks.len()
        &&& forall|i: int|
            0 <= i < picks.len() ==> #[trigger] values[i] == self.parsed(input, picks[i])
    }

    /// `values` are those of the chosen matches of `all`, in the order of the query.
    pub open spec fn is_parsing(
        self,
        input: Seq<char>,
        all: Set<Candidate>,
        values: Seq<ParsedView>,
    ) -> bool {
        exists|picks: Seq<Candidate>| #[trigger] self.reads(input, all, picks, values)
    }
}

/// Whether a word belongs to a match.
spec fn covers(m: PossibleMatch, index: usize) -> bool {
    m.tokens_range.start <= index < m.tokens_range.end
}

/// Whether a match is one of `picks`, or has a word in common with one that comes not later.
spec fn settled(picks: Seq<PossibleMatch>, m: PossibleMatch) -> bool {
    ||| picks.contains(m)
    ||| exists|p: PossibleMatch| #[trigger]
        picks.contains(p) && not_later(p, m) && overlap(p.candidate(), m.candidate())
}

/// A set of numbers below `n` has at most `n` elements, and if it has `n` it holds them all.
proof fn lemma_full(set: Set<usize>, n: nat)
    requires
        set.finite(),
        n <= usize::MAX,
        forall|x: usize| #[trigger] set.contains(x) ==> x < n,
    ensures
        set.len() <= n,
        set.len() == n ==> forall|x: usize| x < n ==> #[trigger] set.contains(x),
    decreases n,
{
    if n == 0 {
        assert(set =~= Set::<usize>::empty());
    } else {
        let last = (n - 1) as usize;
        if set.contains(last) {
            lemma_full(set.remove(last), (n - 1) as nat);
            if set.len() == n {
                assert forall|x: usize| x < n implies #[trigger] set.contains(x) by {
                    if x != last {
                        assert(set.remove(last).contains(x));
                    }
                }
            }
        } else {
            lemma_full(set, (n - 1) as nat);
        }
    }
}

proof fn lemma_insert_contains(picks: Seq<PossibleMatch>, place: int, m: PossibleMatch)
    requires
        0 <= place <= picks.len(),
    ensures
        forall|p: PossibleMatch| #[trigger]
            picks.insert(place, m).contains(p) <==> picks.contains(p) || p == m,
{
    let after = picks.insert(place, m);
    assert forall|p: PossibleMatch| #[trigger] after.contains(p) <==> picks.contains(p) || p == m by {
        if picks.contains(p) {
            let i = choose|i: int| 0 <= i < picks.len() && picks[i] == p;
            if i < place {
                assert(after[i] == p);
            } else {
                assert(after[i + 1] == p);
            }
        }
        if p == m {
            assert(after[place] == p);
        }
        if after.contains(p) && p != m {
            let i = choose|i: int| 0 <= i < after.len() && after[i] == p;
            if i < place {
                assert(picks[i] == p);
            } else {
                assert(picks[i - 1] == p);
            }
        }
    }
}

/// The order of possible matches is that of [`Model::beats`].
proof fn lemma_not_later(model: Model, a: PossibleMatch, b: PossibleMatch)
    requires
        model.wf(),
        a.fits(model),
        b.fits(model),
        not_later(a, b),
    ensures
        model.beats(a.candidate(), b.candidate()) || a.candidate() == b.candidate(),
{
    if a.rank == b.rank {
        assert(model.rank(a.resolved_value) == model.rank(b.resolved_value));
    }
}

/// A list of matches in the order of the query in which every match of `all` is settled is the
/// selection.
proof fn lemma_selection(
    model: Model,
    words: Seq<Word>,
    matches: Seq<PossibleMatch>,
    picks: Seq<PossibleMatch>,
)
    requires
        model.wf(),
        forall|k: int| 0 <= k < matches.len() ==> is_match(model, words, #[trigger] matches[k]),
        forall|p: PossibleMatch| #[trigger] picks.contains(p) ==> matches.contains(p),
        forall|k: int| 0 <= k < matches.len() ==> settled(picks, #[trigger] matches[k]),
        forall|i: int, j: int|
            #![trigger picks[i], picks[j]]
            0 <= i < j < picks.len() ==> picks[i].tokens_range.end <= picks[j].tokens_range.start,
    ensures
        model.is_selection(
            recorded(matches),
            picks.map_values(|m: PossibleMatch| m.candidate()).to_set(),
        ),
{
    let list = picks.map_values(|m: PossibleMatch| m.candidate());
    let chosen = list.to_set();
    let all = recorded(matches);
    assert forall|p: PossibleMatch| #[trigger] picks.contains(p) implies is_match(model, words, p)
        && chosen.contains(p.candidate()) by {
        assert(matches.contains(p));
        let k = choose|k: int| 0 <= k < matches.len() && matches[k] == p;
        assert(is_match(model, words, matches[k]));
        let i = choose|i: int| 0 <= i < picks.len() && picks[i] == p;
        assert(list[i] == p.candidate());
    }
    assert forall|c: Candidate| #[trigger] chosen.contains(c) <==> all.contains(c) && forall|
        d: Candidate,
    | #[trigger] chosen.contains(d) && model.beats(d, c) ==> !overlap(d, c) by {
        if chosen.contains(c) {
            let i = choose|i: int| 0 <= i < list.len() && list[i] == c;
            assert(picks.contains(picks[i]));
            assert(matches.contains(picks[i]));
            let k = choose|k: int| 0 <= k < matches.len() && matches[k] == picks[i];
            assert(matches[k].candidate() == c);
            assert forall|d: Candidate| #[trigger] chosen.contains(d) && model.beats(d, c) implies
                !overlap(d, c) by {
                let j = choose|j: int| 0 <= j < list.len() && list[j] == d;
                assert(picks.contains(picks[j]));
                assert(i < j || j < i);
            }
        }
        if all.contains(c) && forall|d: Candidate| #[trigger]
            chosen.contains(d) && model.beats(d, c) ==> !overlap(d, c) {
            let k = choose|k: int| 0 <= k < matches.len() && (#[trigger] matches[k]).candidate() == c;
            assert(settled(picks, matches[k]));
            assert(is_match(model, words, matches[k]));
            if !picks.contains(matches[k]) {
                let p = choose|p: PossibleMatch| #[trigger]
                    picks.contains(p) && not_later(p, matches[k]) && overlap(
                        p.candidate(),
                        matches[k].candidate(),
                    );
                lemma_not_later(model, p, matches[k]);
                assert(chosen.contains(p.candidate()));
            }
        }
    }
}

/// Whether a word of a match is taken.
fn is_taken(taken_tokens: &FnvHashSet<usize>, possible_match: &PossibleMatch) -> (yes: bool)
    ensures
        yes == exists|t: usize| #[trigger] taken_tokens@.contains(t) && covers(*possible_match, t),
{
    let mut tok_idx: usize = possible_match.tokens_range.start;
    while tok_idx < possible_match.tokens_range.end
        invariant
            possible_match.tokens_range.start <= tok_idx,
            forall|t: usize| #[trigger]
                taken_tokens@.contains(t) && covers(*possible_match, t) ==> t >= tok_idx,
        decreases possible_match.tokens_range.end - tok_idx,
    {
        if set_contains(taken_tokens, &tok_idx) {
            assert(covers(*possible_match, tok_idx));
            return true;
        }
        tok_idx = tok_idx + 1;
    }
    false
}

/// Takes the words of a match.
fn take(taken_tokens: &mut FnvHashSet<usize>, possible_match: &PossibleMatch)
    requires
        old(taken_tokens)@.finite(),
    ensures
        final(taken_tokens)@.finite(),
        forall|t: usize| #[trigger]
            final(taken_tokens)@.contains(t) <==> old(taken_tokens)@.contains(t) || covers(
                *possible_match,
                t,
            ),
{
    let mut tok_idx: usize = possible_match.tokens_range.start;
    while tok_idx < possible_match.tokens_range.end
        invariant
            possible_match.tokens_range.start <= tok_idx,
            tok_idx <= possible_match.tokens_range.end || tok_idx == possible_match.tokens_range.start,
            taken_tokens@.finite(),
            forall|t: usize| #[trigger]
                taken_tokens@.contains(t) <==> old(taken_tokens)@.contains(t) || (covers(
                    *possible_match,
                    t,
                ) && t < tok_idx),
        decreases possible_match.tokens_range.end - tok_idx,
    {
        set_insert(taken_tokens, tok_idx);
        tok_idx = tok_idx + 1;
    }
}

/// Puts a match that has no word in common with `picks` in its place among them.
fn put_in_place(picks: &mut Vec<PossibleMatch>, m: &PossibleMatch)
    requires
        m.tokens_range.start < m.tokens_range.end,
        forall|p: PossibleMatch| #[trigger]
            old(picks)@.contains(p) ==> p.tokens_range.start < p.tokens_range.end && !overlap(
                p.candidate(),
                m.candidate(),
            ),
        forall|i: int, j: int|
            #![trigger old(picks)@[i], old(picks)@[j]]
            0 <= i < j < old(picks)@.len() ==> old(picks)@[i].tokens_range.end
                <= old(picks)@[j].tokens_range.start,
    ensures
        forall|i: int, j: int|
            #![trigger final(picks)@[i], final(picks)@[j]]
            0 <= i < j < final(picks)@.len() ==> final(picks)@[i].tokens_range.end
                <= final(picks)@[j].tokens_range.start,
        forall|p: PossibleMatch| #[trigger]
            final(picks)@.contains(p) <==> old(picks)@.contains(p) || p == *m,
{
    let mut place: usize = 0;
    while place < picks.len() && picks[place].tokens_range.end <= m.tokens_range.start
        invariant
            picks@ == old(picks)@,
            place <= picks.len(),
            forall|i: int| 0 <= i < place ==> (#[trigger] picks@[i]).tokens_range.end <= m.tokens_range.start,
        decreases picks.len() - place,
    {
        place = place + 1;
    }
    proof {
        let before = picks@;
        if place < before.len() {
            assert(before.contains(before[place as int]));
            assert(m.tokens_range.end <= before[place as int].tokens_range.start);
            assert forall|i: int| place <= i < before.len() implies m.tokens_range.end <= (
            #[trigger] before[i]).tokens_range.start by {
                if i > place {
                    assert(before[place as int].tokens_range.end <= before[i].tokens_range.start);
                }
            }
        }
        lemma_insert_contains(before, place as int, *m);
    }
    picks.insert(place, m.clone());
}

/// The chosen ones of `matches`, in the order of the query of `n_total_tokens` words.
fn choose_matches(matches: &Vec<PossibleMatch>, n_total_tokens: usize) -> (picks: Vec<PossibleMatch>)
    requires
        forall|k: int|
            0 <= k < matches.len() ==> (#[trigger] matches@[k]).tokens_range.start
                < matches@[k].tokens_range.end <= n_total_tokens,
    ensures
        forall|p: PossibleMatch| #[trigger] picks@.contains(p) ==> matches@.contains(p),
        forall|k: int| 0 <= k < matches.len() ==> settled(picks@, #[trigger] matches@[k]),
        forall|i: int, j: int|
            #![trigger picks@[i], picks@[j]]
            0 <= i < j < picks@.len() ==> picks@[i].tokens_range.end <= picks@[j].tokens_range.start,
{
    let ordered: Vec<PossibleMatch> = into_sorted(matches);
    assert forall|m: PossibleMatch| #[trigger] ordered@.contains(m) <==> matches@.contains(m) by {
        assert(ordered@.to_multiset().count(m) == matches@.to_multiset().count(m));
    }
    assert forall|k: int| 0 <= k < ordered.len() implies (#[trigger] ordered@[k]).tokens_range.start
        < ordered@[k].tokens_range.end <= n_total_tokens by {
        assert(ordered@.contains(ordered@[k]));
        let i = choose|i: int| 0 <= i < matches.len() && matches@[i] == ordered@[k];
        assert(matches@[i].tokens_range.start < matches@[i].tokens_range.end);
    }
    let mut taken_tokens: FnvHashSet<usize> = FnvHashSet::default();
    let mut picks: Vec<PossibleMatch> = Vec::new();
    let mut full: bool = false;
    let mut k: usize = 0;
    while k < ordered.len() && !full
        invariant
            in_order(ordered@),
            forall|i: int|
                0 <= i < ordered.len() ==> (#[trigger] ordered@[i]).tokens_range.start
                    < ordered@[i].tokens_range.end <= n_total_tokens,
            k <= ordered.len(),
            taken_tokens@.finite(),
            forall|t: usize| #[trigger] taken_tokens@.contains(t) ==> t < n_total_tokens,
            forall|t: usize| #[trigger]
                taken_tokens@.contains(t) ==> exists|p: PossibleMatch| #[trigger]
                    picks@.contains(p) && covers(p, t),
            forall|p: PossibleMatch, t: usize|
                #![trigger picks@.contains(p), taken_tokens@.contains(t)]
                picks@.contains(p) && covers(p, t) ==> taken_tokens@.contains(t),
            forall|p: PossibleMatch| #[trigger]
                picks@.contains(p) ==> exists|i: int| 0 <= i < k && #[trigger] ordered@[i] == p,
            forall|i: int| 0 <= i < k ==> settled(picks@, #[trigger] ordered@[i]),
            forall|i: int, j: int|
                #![trigger picks@[i], picks@[j]]
                0 <= i < j < picks@.len() ==> picks@[i].tokens_range.end <= picks@[j].tokens_range.start,
            full ==> forall|t: usize| t < n_total_tokens ==> #[trigger] taken_tokens@.contains(t),
        decreases ordered.len() - k,
    {
        let m = &ordered[k];
        let ghost before = picks@;
        if is_taken(&taken_tokens, m) {
            proof {
                let t = choose|t: usize| #[trigger] taken_tokens@.contains(t) && covers(*m, t);
                let p = choose|p: PossibleMatch| #[trigger] picks@.contains(p) && covers(p, t);
                let i = choose|i: int| 0 <= i < k && #[trigger] ordered@[i] == p;
                assert(not_later(ordered@[i], ordered@[k as int]));
                assert(settled(picks@, *m));
            }
        } else {
            proof {
                assert forall|p: PossibleMatch| #[trigger]
                    picks@.contains(p) implies p.tokens_range.start < p.tokens_range.end && !overlap(
                    p.candidate(),
                    m.candidate(),
                ) by {
                    let i = choose|i: int| 0 <= i < k && #[trigger] ordered@[i] == p;
                    assert(ordered@[i].tokens_range.start < ordered@[i].tokens_range.end);
                    if overlap(p.candidate(), m.candidate()) {
                        let t = if p.tokens_range.start >= m.tokens_range.start {
                            p.tokens_range.start
                        } else {
                            m.tokens_range.start
                        };
                        assert(covers(p, t) && covers(*m, t));
                        assert(taken_tokens@.contains(t));
                    }
                }
            }
            put_in_place(&mut picks, m);
            take(&mut taken_tokens, m);
            full = set_len(&taken_tokens) == n_total_tokens;
            proof {
                assert forall|i: int| 0 <= i < k + 1 implies settled(picks@, #[trigger] ordered@[i]) by {
                    if i < k {
                        assert(settled(before, ordered@[i]));
                        if !before.contains(ordered@[i]) {
                            let p = choose|p: PossibleMatch| #[trigger]
                                before.contains(p) && not_later(p, ordered@[i]) && overlap(
                                    p.candidate(),
                                    ordered@[i].candidate(),
                                );
                            assert(picks@.contains(p));
                        }
                    } else {
                        assert(picks@.contains(ordered@[i]));
                    }
                }
                assert forall|t: usize| #[trigger] taken_tokens@.contains(t) implies exists|
                    p: PossibleMatch,
                | #[trigger] picks@.contains(p) && covers(p, t) by {
                    if covers(*m, t) {
                        assert(picks@.contains(*m));
                    } else {
                        let p = choose|p: PossibleMatch| #[trigger] before.contains(p) && covers(p, t);
                        assert(picks@.contains(p));
                    }
                }
                assert forall|p: PossibleMatch| #[trigger] picks@.contains(p) implies exists|i: int|
                    0 <= i < k + 1 && #[trigger] ordered@[i] == p by {
                    if p == *m {
                        assert(ordered@[k as int] == p);
                    }
                }
                lemma_full(taken_tokens@, n_total_tokens as nat);
            }
        }
        k = k + 1;
    }
    proof {
        assert forall|p: PossibleMatch| #[trigger] picks@.contains(p) implies matches@.contains(p) by {
            let i = choose|i: int| 0 <= i < k && #[trigger] ordered@[i] == p;
            assert(ordered@.contains(p));
        }
        assert forall|i: int| 0 <= i < matches.len() implies settled(picks@, #[trigger] matches@[i]) by {
            let m = matches@[i];
            assert(matches@.contains(m));
            assert(ordered@.contains(m));
            let j = choose|j: int| 0 <= j < ordered.len() && ordered@[j] == m;
            if j < k {
                assert(settled(picks@, ordered@[j]));
            } else {
                let t = ordered@[j].tokens_range.start;
                assert(taken_tokens@.contains(t));
                let p = choose|p: PossibleMatch| #[trigger] picks@.contains(p) && covers(p, t);
                let l = choose|l: int| 0 <= l < k && #[trigger] ordered@[l] == p;
                assert(not_later(ordered@[l], ordered@[j]));
            }
        }
    }
    picks
}

impl Parser {
    /// The values of the chosen ones among `matches`, in the order of the query.
    pub fn parse_input(&self, input: &str, matches: &Vec<PossibleMatch>) -> (parsing:
        GazetteerParserResult<Vec<ParsedValue>>)
        requires
            self.wf(),
            forall|k: int|
                0 <= k < matches.len() ==> is_match(
                    self@,
                    self@.words(input@),
                    #[trigger] matches@[k],
                ),
        ensures
            parsing matches Ok(values) && self@.is_parsing(
                input@,
                recorded(matches@),
                values@.map_values(|value: ParsedValue| value@),
            ),
    {
        let ghost model = self@;
        let ghost words = model.words(input@);
        let n_total_tokens: usize = whitespace_tokenizer(input).len();
        assert forall|k: int| 0 <= k < matches.len() implies (#[trigger] matches@[k]).tokens_range.start
            < matches@[k].tokens_range.end <= n_total_tokens by {
            assert(is_match(model, words, matches@[k]));
        }
        let picks: Vec<PossibleMatch> = choose_matches(matches, n_total_tokens);
        let ghost chosen = picks@.map_values(|m: PossibleMatch| m.candidate());
        proof {
            lemma_selection(model, words, matches@, picks@);
            law_tokens_are_longest_runs(input@);
        }
        let mut parsing: Vec<ParsedValue> = Vec::new();
        let mut i: usize = 0;
        while i < picks.len()
            invariant
                self.wf(),
                model == self@,
                words == model.words(input@),
                forall|k: int|
                    0 <= k < matches.len() ==> is_match(model, words, #[trigger] matches@[k]),
                forall|p: PossibleMatch| #[trigger] picks@.contains(p) ==> matches@.contains(p),
                chosen == picks@.map_values(|m: PossibleMatch| m.candidate()),
                i <= picks.len(),
                parsing.len() == i,
                forall|k: int|
                    0 <= k < i ==> (#[trigger] parsing@[k])@ == model.parsed(input@, chosen[k]),
            decreases picks.len() - i,
        {
            let pick = &picks[i];
            proof {
                assert(picks@.contains(*pick));
                let k = choose|k: int| 0 <= k < matches.len() && matches@[k] == *pick;
                assert(is_match(model, words, matches@[k]));
                law_tokens_are_longest_runs(input@);
                let first = pick.tokens_range.start as int;
                let last = pick.tokens_range.end - 1;
                assert(words[first].start == token_ranges(input@)[first].0);
                assert(words[last].end == token_ranges(input@)[last].1);
                assert(first < last ==> token_ranges(input@)[first].1 < token_ranges(input@)[last].0);
            }
            let symbol: String = match self.symbol_table.find_index(pick.resolved_value) {
                Ok(symbol) => symbol,
                Err(error) => {
                    assert(false);
                    return Err(error);
                },
            };
            parsing.push(
                ParsedValue {
                    range: pick.range.start..pick.range.end,
                    raw_value: input.substring_char(pick.range.start, pick.range.end).to_owned(),
                    resolved_value: fst_unformat_resolved_value(symbol.as_str()),
                },
            );
            i = i + 1;
        }
        proof {
            let values = parsing@.map_values(|value: ParsedValue| value@);
            assert(model.reads(input@, recorded(matches@), chosen, values));
        }
        Ok(parsing)
    }

    /// The values that are found in a query. `decoding_threshold` is the least fraction of the tokens of
    /// a value that has to be matched.
    pub fn run(&self, input: &str, decoding_threshold: Single) -> (parsing: GazetteerParserResult<
        Vec<ParsedValue>,
    >)
        requires
            self.wf(),
        ensures
            ({
                let words = self@.words(input@);
                parsing matches Ok(values) && self@.is_parsing(
                    input@,
                    self@.candidates(words, decoding_threshold),
                    values@.map_values(|value: ParsedValue| value@),
                )
            }),
    {
        match self.find_possible_matches(input, decoding_threshold) {
            Ok(matches) => {
                assert forall|k: int| 0 <= k < matches.len() implies is_match(
                    self@,
                    self@.words(input@),
                    #[trigger] matches@[k],
                ) by {
                    assert(is_found(self@, self@.words(input@), matches@[k]));
                }
                self.parse_input(input, &matches)
            },
            Err(error) => Err(error),
        }
    }
}

} // verus!
