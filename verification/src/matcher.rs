//! The matcher: the automaton of a set of patterns, and the searches over it.
use vstd::prelude::*;
use vstd::string::StringSliceAdditionalSpecFns;
use crate::iter;
use crate::iter_ol;
use crate::laws::{
    first_from, is_occurrence, law_nonoverlapping_greedy, law_nonoverlapping_maximal,
    law_nonoverlapping_sound, occurs,
};
use crate::links::{build_links, dict_ok, row_ok};
use crate::matches::Match;
use crate::model::{
    dict_str, is_pattern, last_idx, lemma_last_idx_bounds, lts, nonoverlapping, overlapping, total_len,
};
use crate::trie::{
    build_trie, included, law_included_keeps_patterns, lemma_cell_index, output_of, ALPHABET_SIZE,
    MAX_PATTERNS,
};

verus! {

/// The patterns given, as byte strings.
pub open spec fn pattern_strs(patterns: Seq<&[u8]>) -> Seq<Seq<u8>> {
    patterns.map_values(|p: &[u8]| p@)
}

/// An Aho-Corasick automaton over bytes whose transitions are precomputed for
/// every state and every byte, so a search takes one table lookup per byte.
pub struct FastPatternMatcher {
    transitions: Vec<u32>,
    dict_links: Vec<u32>,
    output_pattern_idx: Vec<u32>,
    pattern_lengths: Vec<u32>,
    pats: Ghost<Seq<Seq<u8>>>,
    labels: Ghost<Seq<Seq<u8>>>,
}

impl FastPatternMatcher {
    /// The patterns the automaton searches for.
    pub closed spec fn patterns(&self) -> Seq<Seq<u8>> {
        self.pats@
    }

    /// The number of states of the automaton.
    pub closed spec fn num_states(&self) -> int {
        self.labels@.len() as int
    }

    /// The string a state stands for: the longest suffix of what was read that
    /// is a prefix of a pattern.
    pub closed spec fn label(&self, u: int) -> Seq<u8> {
        self.labels@[u]
    }

    /// The tables describe the automaton of `patterns()`.
    #[verifier::type_invariant]
    spec fn inv(&self) -> bool {
        let n = self.labels@.len();
        let pats = self.pats@;
        &&& 1 <= n <= u32::MAX
        &&& self.transitions@.len() == n * 256
        &&& self.dict_links@.len() == n
        &&& self.output_pattern_idx@.len() == n
        &&& self.pattern_lengths@.len() == pats.len()
        &&& pats.len() <= MAX_PATTERNS
        &&& self.labels@[0].len() == 0
        &&& forall|u: int| 0 < u < n ==> #[trigger] self.labels@[u].len() > 0
        &&& forall|u: int, b: int|
            0 <= u < n && 0 <= b < 256 ==> #[trigger] row_ok(pats, self.labels@, self.transitions@, u, b)
        &&& forall|u: int| 0 <= u < n ==> #[trigger] dict_ok(pats, self.labels@, self.dict_links@, u)
        &&& forall|u: int|
            0 <= u < n ==> #[trigger] self.output_pattern_idx@[u] == output_of(pats, self.labels@[u])
        &&& forall|k: int| 0 <= k < pats.len() ==> #[trigger] self.pattern_lengths@[k] == pats[k].len()
    }

    /// The start state stands for the empty string, and only it does.
    pub open spec fn states_ok(&self) -> bool {
        &&& 1 <= self.num_states() <= u32::MAX
        &&& self.label(0).len() == 0
        &&& forall|u: int| 0 < u < self.num_states() ==> #[trigger] self.label(u).len() > 0
        &&& self.patterns().len() <= MAX_PATTERNS
    }

    /// The start state.
    pub(crate) fn start_state(&self) -> (r: usize)
        ensures
            r == 0,
            self.states_ok(),
    {
        proof {
            use_type_invariant(self);
        }
        0
    }

    /// Builds the automaton of `patterns` (of the first `u32::MAX - 1` of them,
    /// when there are more).
    pub fn new(patterns: &[&[u8]]) -> (m: Self)
        requires
            total_len(included(pattern_strs(patterns@))) < u32::MAX,
        ensures
            m.patterns() == included(pattern_strs(patterns@)),
            patterns@.len() <= u32::MAX - 1 ==> m.patterns() == pattern_strs(patterns@),
            m.patterns().len() == if patterns@.len() <= u32::MAX - 1 {
                patterns@.len() as int
            } else {
                u32::MAX - 1
            },
            forall|k: int| 0 <= k < m.patterns().len() ==> #[trigger] m.patterns()[k] == patterns@[k]@,
    {
        proof {
            law_included_keeps_patterns(pattern_strs(patterns@));
        }
        let n_pats = if patterns.len() <= MAX_PATTERNS {
            patterns.len()
        } else {
            MAX_PATTERNS
        };
        proof {
            let all = pattern_strs(patterns@);
            if patterns@.len() <= MAX_PATTERNS {
                assert(all.take(n_pats as int) =~= all);
            }
        }
        let (trie, output, lengths, Ghost(strs), Ghost(node_of)) = build_trie(patterns, n_pats);
        let ghost pats = pattern_strs(patterns@).take(n_pats as int);
        let (transitions, dict_links) = build_links(
            &trie,
            &output,
            Ghost(pats),
            Ghost(strs),
            Ghost(node_of),
        );
        proof {
            assert(node_of.dom().contains(strs[0]));
            assert forall|u: int| 0 < u < strs.len() implies #[trigger] strs[u].len() > 0 by {
                assert(node_of.dom().contains(strs[u]));
                if strs[u].len() == 0 {
                    assert(strs[u] =~= strs[0]);
                }
            }
        }
        FastPatternMatcher {
            transitions,
            dict_links,
            output_pattern_idx: output,
            pattern_lengths: lengths,
            pats: Ghost(pats),
            labels: Ghost(strs),
        }
    }

    /// The state reached from state `u` on byte `b`.
    pub(crate) fn next_state(&self, u: usize, b: u8) -> (r: usize)
        requires
            u < self.num_states(),
        ensures
            r < self.num_states(),
            self.label(r as int) == lts(self.patterns(), self.label(u as int).push(b)),
    {
        proof {
            use_type_invariant(self);
            lemma_cell_index(self.labels@.len() as int, u as int, b as int);
            assert(row_ok(self.pats@, self.labels@, self.transitions@, u as int, b as int));
            assert(b as int as u8 == b);
        }
        let tl = self.transitions.len();
        self.transitions[u * ALPHABET_SIZE + b as usize] as usize
    }

    /// The index of the last pattern that state `u` spells, or `u32::MAX`.
    pub(crate) fn output_at(&self, u: usize) -> (r: u32)
        requires
            u < self.num_states(),
        ensures
            r == output_of(self.patterns(), self.label(u as int)),
            r != u32::MAX <==> is_pattern(self.patterns(), self.label(u as int)),
            r != u32::MAX ==> r == last_idx(self.patterns(), self.label(u as int)) && r
                < self.patterns().len() && self.patterns()[r as int] == self.label(u as int),
    {
        proof {
            use_type_invariant(self);
            lemma_last_idx_bounds(self.pats@, self.labels@[u as int]);
        }
        self.output_pattern_idx[u]
    }

    /// The dictionary link of state `u`.
    pub(crate) fn dict_link(&self, u: usize) -> (r: usize)
        requires
            u < self.num_states(),
        ensures
            r < self.num_states(),
            self.label(r as int) == dict_str(self.patterns(), self.label(u as int)),
    {
        proof {
            use_type_invariant(self);
            assert(dict_ok(self.pats@, self.labels@, self.dict_links@, u as int));
        }
        self.dict_links[u] as usize
    }

    /// The length of pattern `k`.
    pub(crate) fn pattern_len(&self, k: usize) -> (r: u32)
        requires
            k < self.patterns().len(),
        ensures
            r == self.patterns()[k as int].len(),
    {
        proof {
            use_type_invariant(self);
        }
        self.pattern_lengths[k]
    }
}

impl FastPatternMatcher {
    /// The non-overlapping matches in `text`, scanned as UTF-8 bytes; the
    /// positions are byte offsets.
    pub fn find_all_in<'a>(&'a self, text: &'a str) -> (it: iter::MatchIterator<'a>)
        requires
            text.spec_bytes().len() <= u32::MAX,
        ensures
            it.matcher() == self,
            it.text() == text.spec_bytes(),
            it@ == nonoverlapping(self.patterns(), text.spec_bytes(), 0, 0),
    {
        self.find_all_bytes_in(text.as_bytes())
    }

    /// The overlapping matches in `text`, scanned as UTF-8 bytes; the positions
    /// are byte offsets.
    pub fn find_all_overlapping_in<'a>(&'a self, text: &'a str) -> (it: iter_ol::MatchIterator<'a>)
        requires
            text.spec_bytes().len() <= u32::MAX,
        ensures
            it.matcher() == self,
            it.text() == text.spec_bytes(),
            it@ == overlapping(self.patterns(), text.spec_bytes(), 0),
    {
        self.find_all_bytes_overlapping_in(text.as_bytes())
    }

    /// The first of the non-overlapping matches in `text`, if any.
    pub fn find_any_in(&self, text: &str) -> (r: Option<Match>)
        requires
            text.spec_bytes().len() <= u32::MAX,
        ensures
            ({
                let all = nonoverlapping(self.patterns(), text.spec_bytes(), 0, 0);
                r == if all.len() > 0 {
                    Some(all[0])
                } else {
                    None
                }
            }),
            r matches Some(m) ==> is_occurrence(self.patterns(), text.spec_bytes(), m) && first_from(
                self.patterns(),
                text.spec_bytes(),
                0,
                m,
            ),
            (exists|k: int, start: int|
                #[trigger] occurs(self.patterns(), text.spec_bytes(), k, start) && self.patterns()[k].len()
                    > 0) ==> r is Some,
            (forall|k: int| 0 <= k < self.patterns().len() ==> #[trigger] self.patterns()[k].len()
                > 0) ==> (r is Some <==> exists|k: int, start: int|
                #[trigger] occurs(self.patterns(), text.spec_bytes(), k, start)),
    {
        self.find_any_byte_in(text.as_bytes())
    }

    /// The non-overlapping matches in `bytes`.
    pub fn find_all_bytes_in<'a>(&'a self, bytes: &'a [u8]) -> (it: iter::MatchIterator<'a>)
        requires
            bytes@.len() <= u32::MAX,
        ensures
            it.matcher() == self,
            it.text() == bytes@,
            it@ == nonoverlapping(self.patterns(), bytes@, 0, 0),
    {
        iter::MatchIterator::start(self, bytes)
    }

    /// The overlapping matches in `bytes`.
    pub fn find_all_bytes_overlapping_in<'a>(&'a self, bytes: &'a [u8]) -> (it: iter_ol::MatchIterator<'a>)
        requires
            bytes@.len() <= u32::MAX,
        ensures
            it.matcher() == self,
            it.text() == bytes@,
            it@ == overlapping(self.patterns(), bytes@, 0),
    {
        iter_ol::MatchIterator::start(self, bytes)
    }

    /// The first of the non-overlapping matches in `bytes`, if any.
    pub fn find_any_byte_in(&self, bytes: &[u8]) -> (r: Option<Match>)
        requires
            bytes@.len() <= u32::MAX,
        ensures
            ({
                let all = nonoverlapping(self.patterns(), bytes@, 0, 0);
                r == if all.len() > 0 {
                    Some(all[0])
                } else {
                    None
                }
            }),
            r matches Some(m) ==> is_occurrence(self.patterns(), bytes@, m) && first_from(
                self.patterns(),
                bytes@,
                0,
                m,
            ),
            (exists|k: int, start: int|
                #[trigger] occurs(self.patterns(), bytes@, k, start) && self.patterns()[k].len()
                    > 0) ==> r is Some,
            (forall|k: int| 0 <= k < self.patterns().len() ==> #[trigger] self.patterns()[k].len()
                > 0) ==> (r is Some <==> exists|k: int, start: int|
                #[trigger] occurs(self.patterns(), bytes@, k, start)),
    {
        // the automaton's invariants, for the proof below
        self.start_state();
        let mut it = self.find_all_bytes_in(bytes);
        let r = it.next();
        proof {
            let pats = self.patterns();
            let ms = nonoverlapping(pats, bytes@, 0, 0);
            law_nonoverlapping_sound(pats, bytes@);
            law_nonoverlapping_greedy(pats, bytes@);
            if ms.len() > 0 {
                assert(is_occurrence(pats, bytes@, ms[0]));
                let m = ms[0];
                assert(occurs(pats, bytes@, m.pattern_idx as int, m.start_pos as int));
            }
            if exists|k: int, start: int| #[trigger] occurs(pats, bytes@, k, start) && pats[k].len() > 0 {
                let (k, start) = choose|k: int, start: int| #[trigger] occurs(pats, bytes@, k, start) && pats[k].len() > 0;
                law_nonoverlapping_maximal(pats, bytes@, k, start);
            }
        }
        r
    }
}

} // verus!
