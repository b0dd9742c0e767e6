# x_aho_corasick

Multi-pattern byte search with an Aho-Corasick automaton whose transitions are
precomputed for every state and every byte, written in Verus and proved
against a model of the search on strings.

- `src/model.rs`: the search described on `Seq<u8>`: the automaton state after
  reading a string is its longest suffix that is a prefix of a pattern; the
  failure and dictionary links; the sequences of non-overlapping and of
  overlapping matches; lemmas about them.
- `src/trie.rs`, `src/links.rs`: the construction of the trie, then, breadth
  first, of the failure links, dictionary links and transition table.
- `src/matcher.rs`: `FastPatternMatcher`, its invariant and its searches.
- `src/iter.rs`, `src/iter_ol.rs`: the searches, one match per call of `next`.
- `src/ring_buffer.rs`: the 32-slot buffer of matches that end at one byte.
- `src/matches.rs`: `Match`.
- `src/laws.rs`: every reported match is an occurrence of its pattern; the
  non-overlapping matches are disjoint, found greedily (earliest end, then
  longest) and cover every occurrence; overlapping matches come ordered by
  their end and are complete as long as at most 32 of them end at one byte;
  the overlapping search is online and insensitive to the order of the
  patterns; a byte that no pattern holds restarts the non-overlapping search.

Texts are limited to `u32::MAX` bytes and the patterns together to fewer than
`u32::MAX` bytes, since positions and state numbers are stored as `u32`.
