# regex-prefilter

Prefilters for regular expressions that a backtracking matcher runs, written and proved in Verus.

* `literal`: the literals that a match must contain. `required` takes them from a parsed pattern,
  `cover` drops those that others make needless, `needles` spells out what a case-insensitive literal
  can stand as, and `filter` searches for the result before the matcher runs.
* `lazy`: the search for many patterns at once. `start` works out the bytes that a match can start
  with, `regex` compiles a pattern when it is first needed, `memo` keeps the outcome, `candidates`
  lists the patterns for each byte, and `finder` puts them together.
* `semantics` says what a parsed pattern can match. It is what the proofs are about: a match contains
  one of the required literals (`literal::required`), so the prefilter lets it through
  (`literal::filter`); it starts with one of the start bytes (`lazy::start`), so the search finds the
  first match of all patterns (`lazy::first`).
* `engine` is what a matcher has to offer. Nothing is taken for granted of its answers.

Unicode case folding and the syntax trees of character classes come from `regex-syntax`, the search
for needles from `regex-automata`. What is taken on trust of them stands at the functions that call
them, in `fold`, `tree`, `literal::cover` and `literal::filter`; for what is kept of a compilation,
of std, in `lazy::memo`.
