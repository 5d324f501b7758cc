# Gazetteer entity parser

A parser that finds the values of a gazetteer in a query. A gazetteer is an ordered list of entity
values: a resolved value and a raw value, the way in which it is written. The parser looks for the
longest parts of a query whose words are tokens of a raw value in their order, and gives back the
resolved values with their ranges.

- A match needs at least a given fraction of the tokens of a value.
- Of two matches with a word in common the parser takes the one of more words, then that of the shorter
  value, then that of the value that comes first in the gazetteer.
- Frequent tokens can be made stop words. Stop words alone are no match, but a match takes in those
  around it. Values made of stop words alone, the edge cases, have to be matched completely.

The library under `src/` is verified with Verus.

| Module | Contents |
| --- | --- |
| `utils` | tokens, symbols of resolved values, the threshold |
| `single` | comparison of quotients with thresholds, exactly as in single precision |
| `symbol_table`, `tables` | symbols and their indices; the hash tables of `fnv` |
| `model` | what a parser knows, and which words of a query match which values |
| `parser`, `construction`, `stop_words` | the parser and how it is made |
| `order`, `state` | words in the order of a value, and what a search knows after some words |
| `search`, `possible_match` | the search for matches and their order |
| `selection`, `parsed_value` | the choice among the matches, and its result |
| `encoding`, `storage`, `config` | saving and loading |
| `consistency` | the test that loaded tables agree |
| `laws`, `matching_laws`, `context_laws` | what holds of every parser and every query |
| `gazetteer_laws`, `influence_laws`, `room_laws` | what a parser has from its gazetteer |

`app/` is an ordinary crate around it: thresholds as floating point numbers, files on disk, JSON.
