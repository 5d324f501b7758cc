//! Splitting of text into tokens, the form of resolved values among the symbols, and the threshold
//! on the fraction of matched tokens.

use crate::single::{at_least, quotient_at_least, Single};
use core::ops::Range;
use vstd::prelude::*;

verus! {

broadcast use vstd::string::group_string_axioms;

/// First character of the symbols that stand for resolved values. It is white space, so that no token
/// is such a symbol.
pub const RESOLVED_SYMBOL: char = ' ';

/// `String::push`: appends the character.
pub assume_specification[ String::push ](string: &mut String, c: char)
    ensures
        final(string)@ == old(string)@.push(c),
;

/// Whether `c` has the Unicode property White_Space.
pub open spec fn white_space(c: char) -> bool {
    ||| '\u{9}' <= c <= '\u{d}'
    ||| c == ' '
    ||| c == '\u{85}'
    ||| c == '\u{a0}'
    ||| c == '\u{1680}'
    ||| '\u{2000}' <= c <= '\u{200a}'
    ||| c == '\u{2028}'
    ||| c == '\u{2029}'
    ||| c == '\u{202f}'
    ||| c == '\u{205f}'
    ||| c == '\u{3000}'
}

/// Computes [`white_space`].
pub fn is_white_space(c: char) -> (yes: bool)
    ensures
        yes == white_space(c),
{
    ('\u{9}' <= c && c <= '\u{d}') || c == ' ' || c == '\u{85}' || c == '\u{a0}' || c == '\u{1680}'
        || ('\u{2000}' <= c && c <= '\u{200a}') || c == '\u{2028}' || c == '\u{2029}' || c
        == '\u{202f}' || c == '\u{205f}' || c == '\u{3000}'
}

/// The tokens that begin among the first `n` characters of `text`, as far as these go: the ranges of
/// the longest runs of characters without white space.
pub open spec fn token_ranges_to(text: Seq<char>, n: nat) -> Seq<(int, int)>
    decreases n,
{
    if n == 0 {
        Seq::empty()
    } else {
        let before = token_ranges_to(text, (n - 1) as nat);
        if white_space(text[n - 1]) {
            before
        } else if n >= 2 && !white_space(text[n - 2]) {
            before.drop_last().push((before.last().0, n as int))
        } else {
            before.push((n - 1, n as int))
        }
    }
}

/// The ranges of the tokens of `text`, in characters.
pub open spec fn token_ranges(text: Seq<char>) -> Seq<(int, int)> {
    token_ranges_to(text, text.len())
}

/// The tokens of `text`.
pub open spec fn tokens(text: Seq<char>) -> Seq<Seq<char>> {
    token_ranges(text).map_values(|r: (int, int)| text.subrange(r.0, r.1))
}

/// `text` with a plain space in place of every white space character.
pub open spec fn plain_spaces(text: Seq<char>) -> Seq<char> {
    text.map_values(|c: char| if white_space(c) { ' ' } else { c })
}

/// The symbol that stands for the resolved value `text`.
pub open spec fn format_resolved(text: Seq<char>) -> Seq<char> {
    seq![RESOLVED_SYMBOL] + plain_spaces(text)
}

/// The resolved value that `symbol` stands for.
pub open spec fn unformat_resolved(symbol: Seq<char>) -> Seq<char> {
    if symbol.len() > 0 && symbol[0] == RESOLVED_SYMBOL {
        symbol.drop_first()
    } else {
        symbol
    }
}

/// Whether `n_decoded` tokens out of `n_decoded + n_skips` are at least the fraction `threshold`.
pub open spec fn passes(n_decoded: nat, n_skips: nat, threshold: Single) -> bool {
    at_least(n_decoded, n_decoded + n_skips, threshold)
}

proof fn lemma_token_ranges_to(text: Seq<char>, n: nat)
    requires
        n <= text.len(),
    ensures
        ({
            let ranges = token_ranges_to(text, n);
            &&& forall|i: int| 0 <= i < ranges.len() ==> 0 <= (#[trigger] ranges[i]).0 < ranges[i].1 <= n
            &&& forall|i: int, j: int|
                #![trigger ranges[i], ranges[j]]
                0 <= i < j < ranges.len() ==> ranges[i].1 < ranges[j].0
            &&& forall|i: int, k: int|
                #![trigger ranges[i], text[k]]
                0 <= i < ranges.len() && ranges[i].0 <= k < ranges[i].1 ==> !white_space(text[k])
            &&& forall|k: int|
                0 <= k < n && !white_space(#[trigger] text[k]) ==> exists|i: int|
                    0 <= i < ranges.len() && (#[trigger] ranges[i]).0 <= k < ranges[i].1
            &&& n > 0 && !white_space(text[n - 1]) ==> ranges.len() > 0 && ranges.last().1 == n
            &&& n > 0 && white_space(text[n - 1]) && ranges.len() > 0 ==> ranges.last().1 < n
        }),
    decreases n,
{
    if n > 0 {
        let before = token_ranges_to(text, (n - 1) as nat);
        let ranges = token_ranges_to(text, n);
        lemma_token_ranges_to(text, (n - 1) as nat);
        if !white_space(text[n - 1]) {
            assert forall|k: int| 0 <= k < n && !white_space(#[trigger] text[k]) implies exists|i: int|
                0 <= i < ranges.len() && (#[trigger] ranges[i]).0 <= k < ranges[i].1 by {
                if k < n - 1 {
                    let i = choose|i: int|
                        0 <= i < before.len() && (#[trigger] before[i]).0 <= k < before[i].1;
                    assert(ranges[i].0 == before[i].0);
                } else {
                    assert(ranges[ranges.len() - 1].1 == n);
                }
            }
        }
    }
}

/// Splits `string` at white space. Each token comes with its range in characters.
pub fn whitespace_tokenizer(string: &str) -> (found: Vec<(Range<usize>, String)>)
    ensures
        found.len() == token_ranges(string@).len(),
        forall|i: int|
            0 <= i < found.len() ==> {
                &&& (#[trigger] found@[i]).0.start == token_ranges(string@)[i].0
                &&& found@[i].0.end == token_ranges(string@)[i].1
                &&& found@[i].1@ == tokens(string@)[i]
            },
{
    let ghost text = string@;
    let length: usize = string.unicode_len();
    let mut found: Vec<(Range<usize>, String)> = Vec::new();
    let mut token: String = String::new();
    let mut start: usize = 0;
    let mut index: usize = 0;
    for c in chars: string.chars()
        invariant
            text == string@,
            chars.seq() == text,
            length == text.len(),
            index == chars.index(),
            start <= index <= length,
            token@ == text.subrange(start as int, index as int),
            start < index <==> index > 0 && !white_space(text[index - 1]),
            found.len() + (if start < index { 1int } else { 0 }) == token_ranges_to(text, index as nat).len(),
            start < index ==> token_ranges_to(text, index as nat).last() == (start as int, index as int),
            forall|i: int|
                0 <= i < found.len() ==> {
                    let range = token_ranges_to(text, index as nat)[i];
                    &&& (#[trigger] found@[i]).0.start == range.0
                    &&& found@[i].0.end == range.1
                    &&& found@[i].1@ == text.subrange(range.0, range.1)
                },
    {
        assert(c == text[index as int]);
        if is_white_space(c) {
            if start < index {
                found.push((start..index, token));
                token = String::new();
            }
            start = index + 1;
        } else {
            token.push(c);
            assert(token@ == text.subrange(start as int, index + 1));
        }
        index = index + 1;
    }
    if start < index {
        found.push((start..index, token));
    }
    found
}

/// The symbol that stands for a resolved value.
pub fn fst_format_resolved_value(string: &str) -> (symbol: String)
    ensures
        symbol@ == format_resolved(string@),
{
    let ghost text = string@;
    let mut symbol: String = String::new();
    symbol.push(RESOLVED_SYMBOL);
    for c in chars: string.chars()
        invariant
            text == string@,
            chars.seq() == text,
            symbol@ =~= seq![RESOLVED_SYMBOL] + plain_spaces(text.take(chars.index() as int)),
    {
        assert(c == text[chars.index() as int]);
        assert(text.take(chars.index() + 1) =~= text.take(chars.index() as int).push(c));
        if is_white_space(c) {
            symbol.push(' ');
        } else {
            symbol.push(c);
        }
    }
    assert(text.take(text.len() as int) =~= text);
    symbol
}

/// The resolved value that a symbol stands for.
pub fn fst_unformat_resolved_value(symbol: &str) -> (string: String)
    ensures
        string@ == unformat_resolved(symbol@),
{
    let length: usize = symbol.unicode_len();
    if length > 0 && symbol.get_char(0) == RESOLVED_SYMBOL {
        assert(symbol@.subrange(1, length as int) =~= symbol@.drop_first());
        symbol.substring_char(1, length).to_owned()
    } else {
        symbol.to_owned()
    }
}

/// Whether `n_decoded` tokens out of `n_decoded + n_skips` are at least the fraction `threshold`.
pub fn check_threshold(n_decoded: u32, n_skips: u32, threshold: Single) -> (yes: bool)
    ensures
        yes == passes(n_decoded as nat, n_skips as nat, threshold),
        yes == at_least(n_decoded as nat, (n_decoded + n_skips) as nat, threshold),
{
    quotient_at_least(n_decoded as u64, n_decoded as u64 + n_skips as u64, threshold)
}

/// The tokens of `text` are its longest runs of characters without white space, in their order:
/// they are not empty, hold no white space, have white space or an end of `text` on both sides, and
/// every other character is white space. They are taken from `text` as they stand there.
pub proof fn law_tokens_are_longest_runs(text: Seq<char>)
    ensures
        ({
            let ranges = token_ranges(text);
            &&& tokens(text).len() == ranges.len()
            &&& forall|i: int|
                0 <= i < ranges.len() ==> {
                    &&& 0 <= (#[trigger] ranges[i]).0 < ranges[i].1 <= text.len()
                    &&& tokens(text)[i] == text.subrange(ranges[i].0, ranges[i].1)
                    &&& ranges[i].0 > 0 ==> white_space(text[ranges[i].0 - 1])
                    &&& ranges[i].1 < text.len() ==> white_space(text[ranges[i].1])
                }
            &&& forall|i: int, j: int|
                #![trigger ranges[i], ranges[j]]
                0 <= i < j < ranges.len() ==> ranges[i].1 < ranges[j].0
            &&& forall|k: int|
                0 <= k < text.len() ==> (!white_space(#[trigger] text[k]) <==> exists|i: int|
                    0 <= i < ranges.len() && (#[trigger] ranges[i]).0 <= k < ranges[i].1)
        }),
{
    lemma_token_ranges_to(text, text.len());
    let ranges = token_ranges(text);
    assert forall|i: int| 0 <= i < ranges.len() implies {
        &&& 0 <= (#[trigger] ranges[i]).0 < ranges[i].1 <= text.len()
        &&& ranges[i].0 > 0 ==> white_space(text[ranges[i].0 - 1])
        &&& ranges[i].1 < text.len() ==> white_space(text[ranges[i].1])
    } by {
        if ranges[i].0 > 0 && !white_space(text[ranges[i].0 - 1]) {
            let k = ranges[i].0 - 1;
            let j = choose|j: int| 0 <= j < ranges.len() && (#[trigger] ranges[j]).0 <= k < ranges[j].1;
            assert(j < i || i < j || i == j);
        }
        if ranges[i].1 < text.len() && !white_space(text[ranges[i].1]) {
            let k = ranges[i].1;
            let j = choose|j: int| 0 <= j < ranges.len() && (#[trigger] ranges[j]).0 <= k < ranges[j].1;
            assert(j < i || i < j || i == j);
        }
    }
}

/// The white space characters, by their numbers: the tabulator, the line feeds and the carriage return, the
/// plain space, the control character for the next line, the space without a line break, and the typographic
/// and ideographic spaces and separators.
pub proof fn law_white_space_characters(c: char)
    ensures
        white_space(c) <==> {
            let n = c as u32;
            ||| n == 9 || n == 10 || n == 11 || n == 12 || n == 13
            ||| n == 32 || n == 133 || n == 160 || n == 5760
            ||| n == 8192 || n == 8193 || n == 8194 || n == 8195 || n == 8196 || n == 8197
            ||| n == 8198 || n == 8199 || n == 8200 || n == 8201 || n == 8202
            ||| n == 8232 || n == 8233 || n == 8239 || n == 8287 || n == 12288
        },
{
}

/// A resolved value comes back from its symbol with plain spaces in place of its white space.
pub proof fn law_resolved_value_comes_back(text: Seq<char>)
    ensures
        unformat_resolved(format_resolved(text)) == plain_spaces(text),
        (forall|i: int| 0 <= i < text.len() && white_space(#[trigger] text[i]) ==> text[i] == ' ')
            ==> unformat_resolved(format_resolved(text)) == text,
{
    assert(format_resolved(text).drop_first() =~= plain_spaces(text));
    if forall|i: int| 0 <= i < text.len() && white_space(#[trigger] text[i]) ==> text[i] == ' ' {
        assert(plain_spaces(text) =~= text);
    }
}

/// No token is the symbol of a resolved value.
pub proof fn law_no_token_is_a_resolved_value(text: Seq<char>, i: int, value: Seq<char>)
    requires
        0 <= i < tokens(text).len(),
    ensures
        tokens(text)[i] != format_resolved(value),
{
    lemma_token_ranges_to(text, text.len());
    let range = token_ranges(text)[i];
    assert(tokens(text)[i] == text.subrange(range.0, range.1));
    assert(tokens(text)[i][0] == text[range.0]);
    assert(format_resolved(value)[0] == RESOLVED_SYMBOL);
}

/// `ranges`, each further behind by `distance`.
pub open spec fn moved(ranges: Seq<(int, int)>, distance: int) -> Seq<(int, int)> {
    ranges.map_values(|r: (int, int)| (r.0 + distance, r.1 + distance))
}

/// The tokens among the first characters of a text depend on these alone.
proof fn lemma_same_beginning(a: Seq<char>, b: Seq<char>, n: nat)
    requires
        n <= a.len(),
        n <= b.len(),
        a.take(n as int) == b.take(n as int),
    ensures
        token_ranges_to(a, n) == token_ranges_to(b, n),
    decreases n,
{
    if n > 0 {
        assert(a.take(n - 1) =~= a.take(n as int).take(n - 1));
        assert(b.take(n - 1) =~= b.take(n as int).take(n - 1));
        lemma_same_beginning(a, b, (n - 1) as nat);
        assert(a[n - 1] == a.take(n as int)[n - 1]);
        assert(b[n - 1] == b.take(n as int)[n - 1]);
        if n >= 2 {
            assert(a[n - 2] == a.take(n as int)[n - 2]);
            assert(b[n - 2] == b.take(n as int)[n - 2]);
        }
    }
}

proof fn lemma_joined(a: Seq<char>, space: char, b: Seq<char>, m: nat)
    requires
        white_space(space),
        m <= b.len(),
    ensures
        token_ranges_to(a.push(space) + b, a.len() + 1 + m) == token_ranges(a) + moved(
            token_ranges_to(b, m),
            (a.len() + 1) as int,
        ),
    decreases m,
{
    let text = a.push(space) + b;
    let n = a.len() + 1 + m;
    let distance = a.len() + 1;
    if m == 0 {
        assert(text.take(a.len() as int) =~= a.take(a.len() as int));
        lemma_same_beginning(text, a, a.len());
        assert(text[a.len() as int] == space);
        assert(moved(token_ranges_to(b, 0), distance as int) =~= Seq::<(int, int)>::empty());
        assert(token_ranges_to(text, n) =~= token_ranges(a) + moved(token_ranges_to(b, 0), distance as int));
    } else {
        lemma_joined(a, space, b, (m - 1) as nat);
        lemma_token_ranges_to(b, (m - 1) as nat);
        assert(text[n - 1] == b[m - 1]);
        assert(text[n - 2] == if m >= 2 {
            b[m - 2]
        } else {
            space
        });
        assert(token_ranges_to(text, n) =~= token_ranges(a) + moved(token_ranges_to(b, m), distance as int));
    }
}

/// The tokens of two texts with white space between them are the tokens of the first and those of the
/// second.
pub proof fn law_tokens_of_joined_texts(a: Seq<char>, space: char, b: Seq<char>)
    requires
        white_space(space),
    ensures
        token_ranges(a.push(space) + b) == token_ranges(a) + moved(token_ranges(b), (a.len() + 1) as int),
        tokens(a.push(space) + b) == tokens(a) + tokens(b),
{
    let text = a.push(space) + b;
    lemma_joined(a, space, b, b.len());
    lemma_token_ranges_to(a, a.len());
    lemma_token_ranges_to(b, b.len());
    assert forall|i: int| 0 <= i < tokens(text).len() implies #[trigger] tokens(text)[i] == (tokens(a)
        + tokens(b))[i] by {
        let range = token_ranges(text)[i];
        if i < token_ranges(a).len() {
            assert(range == token_ranges(a)[i]);
            assert(text.subrange(range.0, range.1) =~= a.subrange(range.0, range.1));
        } else {
            let other = token_ranges(b)[i - token_ranges(a).len()];
            assert(range == (other.0 + a.len() + 1, other.1 + a.len() + 1));
            assert(text.subrange(range.0, range.1) =~= b.subrange(other.0, other.1));
        }
    }
    assert(tokens(text) =~= tokens(a) + tokens(b));
}

/// A text that is not empty and has no white space is one token.
pub proof fn lemma_one_token(text: Seq<char>, n: nat)
    requires
        0 < n <= text.len(),
        forall|i: int| 0 <= i < text.len() ==> !white_space(#[trigger] text[i]),
    ensures
        token_ranges_to(text, n) == seq![(0int, n as int)],
    decreases n,
{
    if n > 1 {
        lemma_one_token(text, (n - 1) as nat);
        assert(token_ranges_to(text, n) =~= seq![(0int, n as int)]);
    } else {
        assert(token_ranges_to(text, 0) =~= Seq::<(int, int)>::empty());
        assert(token_ranges_to(text, 1) =~= seq![(0int, 1int)]);
    }
}

} // verus!
