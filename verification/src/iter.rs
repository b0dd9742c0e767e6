//! The search for non-overlapping matches.
use vstd::prelude::*;
use crate::matcher::FastPatternMatcher;
use crate::matches::Match;
use crate::model::{lemma_lts, lemma_lts_step, lemma_reported, lts, match_for, nonoverlapping};

verus! {

/// Yields, one call of `next` at a time, the non-overlapping matches found in a
/// byte slice.
pub struct MatchIterator<'a> {
    pub(crate) matcher: &'a FastPatternMatcher,
    pub(crate) bytes: &'a [u8],
    pub(crate) current_byte_idx: usize,
    pub(crate) current_node: usize,
}

impl<'a> View for MatchIterator<'a> {
    type V = Seq<Match>;

    /// The matches still to come.
    closed spec fn view(&self) -> Seq<Match> {
        nonoverlapping(
            self.matcher.patterns(),
            self.bytes@,
            self.current_byte_idx as int,
            self.current_byte_idx as int,
        )
    }
}

impl<'a> MatchIterator<'a> {
    /// The matcher searched with.
    pub closed spec fn matcher(&self) -> &'a FastPatternMatcher {
        self.matcher
    }

    /// The bytes searched.
    pub closed spec fn text(&self) -> Seq<u8> {
        self.bytes@
    }

    /// Between two calls the automaton is at its start state, unless the whole
    /// text has been read.
    #[verifier::type_invariant]
    spec fn inv(&self) -> bool {
        &&& self.matcher.states_ok()
        &&& self.current_byte_idx <= self.bytes@.len() <= u32::MAX
        &&& self.current_node < self.matcher.num_states()
        &&& (self.current_node == 0 || self.current_byte_idx == self.bytes@.len())
    }

    /// A search of `bytes` from its first byte.
    pub(crate) fn start(matcher: &'a FastPatternMatcher, bytes: &'a [u8]) -> (it: Self)
        requires
            bytes@.len() <= u32::MAX,
        ensures
            it.matcher() == matcher,
            it.text() == bytes@,
            it@ == nonoverlapping(matcher.patterns(), bytes@, 0, 0),
    {
        let node = matcher.start_state();
        MatchIterator { matcher, bytes, current_byte_idx: 0, current_node: node }
    }

    /// Returns the next non-overlapping match, or `None` when there is none left.
    pub fn next(&mut self) -> (r: Option<Match>)
        ensures
            final(self).matcher() == old(self).matcher(),
            final(self).text() == old(self).text(),
            old(self)@.len() == 0 ==> r is None && final(self)@.len() == 0,
            old(self)@.len() > 0 ==> r == Some(old(self)@[0]) && final(self)@ == old(self)@.drop_first(),
    {
        proof {
            use_type_invariant(&*self);
        }
        let ghost pats = self.matcher.patterns();
        let ghost text = self.bytes@;
        let ghost p = self.current_byte_idx as int;
        let len = self.bytes.len();
        if self.current_byte_idx >= len {
            return None;
        }
        let matcher = self.matcher;
        let bytes = self.bytes;
        let mut idx = self.current_byte_idx;
        let mut node = self.current_node;
        proof {
            lemma_lts(pats, text.subrange(p, p));
        }
        while idx < len
            invariant
                matcher.states_ok(),
                matcher == self.matcher,
                self.matcher == old(self).matcher,
                self.bytes == old(self).bytes,
                self.current_byte_idx == p,
                self.current_node == 0,
                pats == matcher.patterns(),
                text == bytes@,
                bytes == self.bytes,
                len == text.len(),
                text.len() <= u32::MAX,
                0 <= p <= idx <= len,
                node < matcher.num_states(),
                matcher.label(node as int) == lts(pats, text.subrange(p, idx as int)),
                old(self)@ == nonoverlapping(pats, text, p, idx as int),
            decreases len - idx,
        {
            let i = idx;
            let b = bytes[i];
            assert(b == text[i as int]);
            proof {
                lemma_lts_step(pats, text.subrange(p, i as int), b);
                assert(text.subrange(p, i as int).push(b) =~= text.subrange(p, i as int + 1));
            }
            node = matcher.next_state(node, b);
            let ghost w = matcher.label(node as int);
            proof {
                lemma_reported(pats, w);
                lemma_lts(pats, text.subrange(p, i as int + 1));
            }
            // the state itself, or else its longest pattern suffix
            let mut out = matcher.output_at(node);
            if out == u32::MAX {
                let d = matcher.dict_link(node);
                if d != 0 {
                    out = matcher.output_at(d);
                }
            }
            if out != u32::MAX {
                let plen = matcher.pattern_len(out as usize);
                let pos = i + 1 - plen as usize;
                self.current_byte_idx = i + 1;
                let m = Match { start_pos: pos as u32, pattern_idx: out };
                assert(m == match_for(pats, text, p, i as int));
                return Some(m);
            }
            idx = i + 1;
        }
        self.current_byte_idx = len;
        None
    }

    /// All the matches still to come, in order; the search is then exhausted.
    pub fn collect_all(&mut self) -> (r: Vec<Match>)
        ensures
            r@ == old(self)@,
            final(self)@.len() == 0,
            final(self).matcher() == old(self).matcher(),
            final(self).text() == old(self).text(),
    {
        let mut out: Vec<Match> = Vec::new();
        loop
            invariant
                out@ + self@ == old(self)@,
                self.matcher() == old(self).matcher(),
                self.text() == old(self).text(),
            decreases self@.len(),
        {
            let ghost before = self@;
            match self.next() {
                Some(m) => {
                    out.push(m);
                    assert(out@ + self@ =~= old(self)@);
                },
                None => {
                    assert(out@ =~= old(self)@);
                    return out;
                },
            }
        }
    }
}

} // verus!
