//! The search for overlapping matches.
use vstd::prelude::*;
use crate::matcher::FastPatternMatcher;
use crate::matches::Match;
use crate::model::{
    ends_at, keep_last, lemma_dict_link_of_suffix, lemma_lts, lemma_lts_step,
    lemma_suffix_matches_of_state, lts, overlapping, sfx, suffix_matches,
};
use crate::ring_buffer::{lemma_keep_last_push, RingBuffer};

verus! {

/// Yields, one call of `next` at a time, the overlapping matches found in a
/// byte slice, ordered by their last byte, and longest first among those that
/// end at the same byte.
pub struct MatchIterator<'a> {
    pub(crate) matcher: &'a FastPatternMatcher,
    pub(crate) bytes: &'a [u8],
    pub(crate) current_byte_idx: usize,
    pub(crate) current_node: usize,
    pub(crate) pending_matches: RingBuffer<Match>,
}

/// Sets a position and the automaton state that goes with it, in one step.
fn move_to(idx: &mut usize, node: &mut usize, new_idx: usize, new_node: usize)
    ensures
        *final(idx) == new_idx,
        *final(node) == new_node,
    no_unwind
{
    *idx = new_idx;
    *node = new_node;
}

impl<'a> View for MatchIterator<'a> {
    type V = Seq<Match>;

    /// The matches still to come.
    closed spec fn view(&self) -> Seq<Match> {
        self.pending_matches@ + overlapping(
            self.matcher.patterns(),
            self.bytes@,
            self.current_byte_idx as int,
        )
    }
}

impl<'a> MatchIterator<'a> {
    /// The matcher searched with.
    pub closed spec fn matcher(&self) -> &'a FastPatternMatcher {
        self.matcher
    }

    /// The bytes searched.
    pub closed spec fn text(&self) -> Seq<u8> {
        self.bytes@
    }

    /// The automaton state is the one reached after reading the bytes before
    /// the current position.
    #[verifier::type_invariant]
    spec fn inv(&self) -> bool {
        &&& self.matcher.states_ok()
        &&& self.current_byte_idx <= self.bytes@.len() <= u32::MAX
        &&& self.current_node < self.matcher.num_states()
        &&& self.matcher.label(self.current_node as int) == lts(
            self.matcher.patterns(),
            self.bytes@.take(self.current_byte_idx as int),
        )
    }

    /// A search of `bytes` from its first byte.
    pub(crate) fn start(matcher: &'a FastPatternMatcher, bytes: &'a [u8]) -> (it: Self)
        requires
            bytes@.len() <= u32::MAX,
        ensures
            it.matcher() == matcher,
            it.text() == bytes@,
            it@ == overlapping(matcher.patterns(), bytes@, 0),
    {
        let node = matcher.start_state();
        proof {
            lemma_lts(matcher.patterns(), bytes@.take(0));
            assert(matcher.label(0) =~= lts(matcher.patterns(), bytes@.take(0)));
        }
        let it = MatchIterator {
            matcher,
            bytes,
            current_byte_idx: 0,
            current_node: node,
            pending_matches: RingBuffer::new(),
        };
        assert(it@ =~= overlapping(matcher.patterns(), bytes@, 0));
        it
    }

    /// Returns the next overlapping match, or `None` when there is none left.
    pub fn next(&mut self) -> (r: Option<Match>)
        ensures
            final(self).matcher() == old(self).matcher(),
            final(self).text() == old(self).text(),
            old(self)@.len() == 0 ==> r is None && final(self)@.len() == 0,
            old(self)@.len() > 0 ==> r == Some(old(self)@[0]) && final(self)@ == old(self)@.drop_first(),
    {
        let matcher = self.matcher;
        let bytes = self.bytes;
        let ghost pats = matcher.patterns();
        let ghost text = bytes@;
        let ghost v0 = self@;
        loop
            invariant
                matcher == self.matcher,
                bytes == self.bytes,
                self.matcher == old(self).matcher,
                self.bytes == old(self).bytes,
                pats == matcher.patterns(),
                text == bytes@,
                v0 == old(self)@,
                v0 == self.pending_matches@ + overlapping(pats, text, self.current_byte_idx as int),
            decreases text.len() - self.current_byte_idx,
        {
            proof {
                use_type_invariant(&*self);
            }
            // 1. a match found earlier and not yet handed out
            if let Some(m) = self.pending_matches.pop_front() {
                assert(self@ =~= v0.drop_first());
                return Some(m);
            }
            // 2. the end of the text
            if self.current_byte_idx >= bytes.len() {
                assert(v0 =~= Seq::<Match>::empty());
                return None;
            }
            let i = self.current_byte_idx;
            let b = bytes[i];
            let ghost x = text.take(i as int + 1);
            proof {
                lemma_lts_step(pats, text.take(i as int), b);
                assert(text.take(i as int).push(b) =~= x);
            }
            let node = matcher.next_state(self.current_node, b);
            // 3. every pattern that ends here, through the dictionary links
            let mut temp = node;
            let ghost mut emitted: Seq<Match> = seq![];
            proof {
                lemma_lts(pats, x);
                lemma_suffix_matches_of_state(pats, x);
                assert(self.pending_matches@ =~= keep_last(emitted, 32));
            }
            while temp > 0
                invariant
                    matcher.states_ok(),
                    matcher == self.matcher,
                    bytes == self.bytes,
                    self.matcher == old(self).matcher,
                    self.bytes == old(self).bytes,
                    self.current_byte_idx == i,
                    self.current_node < matcher.num_states(),
                    matcher.label(self.current_node as int) == lts(pats, text.take(i as int)),
                    text == bytes@,
                    x == text.take(i as int + 1),
                    node < matcher.num_states(),
                    matcher.label(node as int) == lts(pats, x),
                    pats == matcher.patterns(),
                    x.len() == i + 1,
                    i < text.len() <= u32::MAX,
                    temp < matcher.num_states(),
                    matcher.label(temp as int).len() <= x.len(),
                    matcher.label(temp as int) == sfx(x, matcher.label(temp as int).len() as int),
                    emitted + suffix_matches(pats, x, matcher.label(temp as int).len() as int)
                        == suffix_matches(pats, x, x.len() as int),
                    self.pending_matches@ == keep_last(emitted, 32),
                decreases matcher.label(temp as int).len(),
            {
                let ghost k = matcher.label(temp as int).len() as int;
                assert(k > 0);
                let out = matcher.output_at(temp);
                if out != u32::MAX {
                    let len = matcher.pattern_len(out as usize);
                    let pos = i + 1 - len as usize;
                    let m = Match { start_pos: pos as u32, pattern_idx: out };
                    proof {
                        assert(sfx(x, k) == matcher.label(temp as int));
                        assert(suffix_matches(pats, x, k) =~= seq![m] + suffix_matches(pats, x, k - 1));
                        lemma_keep_last_push(emitted, m);
                        emitted = emitted.push(m);
                    }
                    self.pending_matches.push_back(m);
                    proof {
                        assert(emitted + suffix_matches(pats, x, k - 1) =~= (emitted.drop_last()
                            + suffix_matches(pats, x, k)));
                    }
                } else {
                    proof {
                        assert(sfx(x, k) == matcher.label(temp as int));
                        assert(suffix_matches(pats, x, k) =~= suffix_matches(pats, x, k - 1));
                    }
                }
                proof {
                    lemma_dict_link_of_suffix(pats, x, k);
                }
                temp = matcher.dict_link(temp);
            }
            proof {
                assert(suffix_matches(pats, x, 0) =~= Seq::<Match>::empty());
                assert(emitted =~= ends_at(pats, text, i as int));
                assert(self.pending_matches@ + overlapping(pats, text, i as int + 1) =~= overlapping(pats, text, i as int));
            }
            // 4. move on, state and position together
            move_to(&mut self.current_byte_idx, &mut self.current_node, i + 1, node);
        }
    }

    /// All the matches still to come, in order; the search is then exhausted.
    pub fn collect_all(&mut self) -> (r: Vec<Match>)
        ensures
            r@ == old(self)@,
            final(self)@.len() == 0,
            final(self).matcher() == old(self).matcher(),
            final(self).text() == old(self).text(),
    {
        let mut out: Vec<Match> = Vec::new();
        loop
            invariant
                out@ + self@ == old(self)@,
                self.matcher() == old(self).matcher(),
                self.text() == old(self).text(),
            decreases self@.len(),
        {
            match self.next() {
                Some(m) => {
                    out.push(m);
                    assert(out@ + self@ =~= old(self)@);
                },
                None => {
                    assert(out@ =~= old(self)@);
                    return out;
                },
            }
        }
    }
}

} // verus!
