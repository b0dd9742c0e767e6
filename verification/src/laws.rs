//! What holds of every search: each reported match is an occurrence of its
//! pattern; the non-overlapping matches are found greedily and cover every
//! occurrence; the overlapping search reports every occurrence unless too many
//! end at one byte, in order of their end; and how the searches behave when
//! the text or the pattern order changes.
use vstd::prelude::*;
use crate::matches::Match;
use crate::model::{
    ends_at, hits, is_pattern, keep_last, last_idx, lemma_last_idx_bounds, lemma_lts,
    lemma_lts_step, lemma_pat_sfx_len, lemma_pattern_is_trie, lemma_reported, lemma_sfx_of_sfx,
    lts, match_for, nonoverlapping, overlapping, prefix_of, reported, sfx, suffix_matches,
};
use crate::trie::MAX_PATTERNS;

verus! {

/// `m` reports an occurrence in `text` of pattern `m.pattern_idx`, under the
/// last index of all patterns equal to it.
pub open spec fn is_occurrence(pats: Seq<Seq<u8>>, text: Seq<u8>, m: Match) -> bool {
    let k = m.pattern_idx as int;
    let s = m.start_pos as int;
    &&& 0 <= k < pats.len()
    &&& s + pats[k].len() <= text.len()
    &&& text.subrange(s, s + pats[k].len()) == pats[k]
    &&& last_idx(pats, pats[k]) == k
}

/// One past the last byte of the occurrence that `m` reports.
pub open spec fn match_end(pats: Seq<Seq<u8>>, m: Match) -> int {
    m.start_pos + pats[m.pattern_idx as int].len()
}

proof fn lemma_nonoverlapping_sound(pats: Seq<Seq<u8>>, text: Seq<u8>, p: int, i: int)
    requires
        0 <= p <= i,
        text.len() <= u32::MAX,
        pats.len() <= MAX_PATTERNS,
    ensures
        forall|k: int|
            0 <= k < nonoverlapping(pats, text, p, i).len() ==> #[trigger] is_occurrence(
                pats,
                text,
                nonoverlapping(pats, text, p, i)[k],
            ),
        forall|k: int|
            0 <= k < nonoverlapping(pats, text, p, i).len() ==> #[trigger] nonoverlapping(
                pats,
                text,
                p,
                i,
            )[k].start_pos >= p,
        forall|k: int|
            0 <= k < nonoverlapping(pats, text, p, i).len() ==> match_end(
                pats,
                #[trigger] nonoverlapping(pats, text, p, i)[k],
            ) > i,
        forall|k: int|
            0 <= k < nonoverlapping(pats, text, p, i).len() - 1 ==> #[trigger] match_end(
                pats,
                nonoverlapping(pats, text, p, i)[k],
            ) <= nonoverlapping(pats, text, p, i)[k + 1].start_pos,
    decreases text.len() - i,
{
    if i < text.len() {
        let sub = text.subrange(p, i + 1);
        let w = lts(pats, sub);
        lemma_lts(pats, sub);
        lemma_reported(pats, w);
        if hits(pats, w) {
            lemma_nonoverlapping_sound(pats, text, i + 1, i + 1);
            let r = reported(pats, w);
            lemma_sfx_of_sfx(sub, w.len() as int, r.len() as int);
            lemma_last_idx_bounds(pats, r);
            let m = match_for(pats, text, p, i);
            let rest = nonoverlapping(pats, text, i + 1, i + 1);
            let ms = nonoverlapping(pats, text, p, i);
            assert(ms == seq![m] + rest);
            assert(text.subrange(i + 1 - r.len(), i + 1) =~= r);
            assert(last_idx(pats, pats[last_idx(pats, r)]) == last_idx(pats, r));
            assert(is_occurrence(pats, text, m));
            assert(m.start_pos >= p);
            assert(match_end(pats, m) == i + 1);
            assert forall|k: int| 0 <= k < ms.len() implies #[trigger] is_occurrence(pats, text, ms[k]) && ms[k].start_pos >= p && match_end(pats, ms[k]) > i by {
                if k > 0 {
                    assert(ms[k] == rest[k - 1]);
                }
            }
            assert forall|k: int| 0 <= k < ms.len() - 1 implies #[trigger] match_end(pats, ms[k]) <= ms[k + 1].start_pos by {
                assert(ms[k + 1] == rest[k]);
                if k > 0 {
                    assert(ms[k] == rest[k - 1]);
                }
            }
        } else {
            lemma_nonoverlapping_sound(pats, text, p, i + 1);
            assert(nonoverlapping(pats, text, p, i) == nonoverlapping(pats, text, p, i + 1));
        }
    }
}

/// Every non-overlapping match is an occurrence of its pattern, reported under
/// the last index of the equal patterns.
pub proof fn law_nonoverlapping_sound(pats: Seq<Seq<u8>>, text: Seq<u8>)
    requires
        text.len() <= u32::MAX,
        pats.len() <= MAX_PATTERNS,
    ensures
        forall|k: int|
            0 <= k < nonoverlapping(pats, text, 0, 0).len() ==> #[trigger] is_occurrence(
                pats,
                text,
                nonoverlapping(pats, text, 0, 0)[k],
            ),
{
    lemma_nonoverlapping_sound(pats, text, 0, 0);
}

/// Non-overlapping matches do not overlap: each starts at or after the end of
/// the one before it.
pub proof fn law_nonoverlapping_disjoint(pats: Seq<Seq<u8>>, text: Seq<u8>)
    requires
        text.len() <= u32::MAX,
        pats.len() <= MAX_PATTERNS,
    ensures
        forall|k: int|
            0 <= k < nonoverlapping(pats, text, 0, 0).len() - 1 ==> #[trigger] match_end(
                pats,
                nonoverlapping(pats, text, 0, 0)[k],
            ) <= nonoverlapping(pats, text, 0, 0)[k + 1].start_pos,
{
    lemma_nonoverlapping_sound(pats, text, 0, 0);
}

/// The items of `suffix_matches(s, k)` are occurrences in `s` of non-empty
/// patterns ending at its end, and each such occurrence of length at most `k`
/// is one of them.
proof fn lemma_suffix_matches(pats: Seq<Seq<u8>>, s: Seq<u8>, k: int)
    requires
        k <= s.len() <= u32::MAX,
        pats.len() <= MAX_PATTERNS,
    ensures
        forall|x: int|
            0 <= x < suffix_matches(pats, s, k).len() ==> {
                let m = #[trigger] suffix_matches(pats, s, k)[x];
                &&& is_occurrence(pats, s, m)
                &&& match_end(pats, m) == s.len()
                &&& pats[m.pattern_idx as int].len() > 0
            },
        forall|j: int|
            0 < j <= k && is_pattern(pats, #[trigger] sfx(s, j)) ==> suffix_matches(pats, s, k).contains(
                Match { start_pos: (s.len() - j) as u32, pattern_idx: last_idx(pats, sfx(s, j)) as u32 },
            ),
    decreases k,
{
    if k > 0 {
        lemma_suffix_matches(pats, s, k - 1);
        let w = sfx(s, k);
        let rest = suffix_matches(pats, s, k - 1);
        let all = suffix_matches(pats, s, k);
        lemma_last_idx_bounds(pats, w);
        if is_pattern(pats, w) {
            let m = Match { start_pos: (s.len() - k) as u32, pattern_idx: last_idx(pats, w) as u32 };
            assert(all == seq![m] + rest);
            assert(last_idx(pats, pats[last_idx(pats, w)]) == last_idx(pats, w));
            assert(is_occurrence(pats, s, m));
            assert forall|x: int| 0 <= x < all.len() implies {
                let m = #[trigger] all[x];
                &&& is_occurrence(pats, s, m)
                &&& match_end(pats, m) == s.len()
                &&& pats[m.pattern_idx as int].len() > 0
            } by {
                if x > 0 {
                    assert(all[x] == rest[x - 1]);
                }
            }
            assert forall|j: int| 0 < j <= k && is_pattern(pats, #[trigger] sfx(s, j)) implies all.contains(
                Match { start_pos: (s.len() - j) as u32, pattern_idx: last_idx(pats, sfx(s, j)) as u32 },
            ) by {
                if j < k {
                    let mm = Match { start_pos: (s.len() - j) as u32, pattern_idx: last_idx(pats, sfx(s, j)) as u32 };
                    let y = choose|y: int| 0 <= y < rest.len() && rest[y] == mm;
                    assert(all[y + 1] == mm);
                } else {
                    assert(all[0] == m);
                }
            }
        } else {
            assert(all =~= rest);
        }
    }
}

/// The occurrences ending at position `i` are the suffix matches of the text up
/// to `i`, and they are occurrences in the whole text.
proof fn lemma_ends_at(pats: Seq<Seq<u8>>, text: Seq<u8>, i: int)
    requires
        0 <= i < text.len() <= u32::MAX,
        pats.len() <= MAX_PATTERNS,
    ensures
        forall|x: int|
            0 <= x < ends_at(pats, text, i).len() ==> {
                let m = #[trigger] ends_at(pats, text, i)[x];
                &&& is_occurrence(pats, text, m)
                &&& match_end(pats, m) == i + 1
                &&& pats[m.pattern_idx as int].len() > 0
            },
{
    let s = text.take(i + 1);
    lemma_suffix_matches(pats, s, i + 1);
    assert forall|x: int| 0 <= x < ends_at(pats, text, i).len() implies {
        let m = #[trigger] ends_at(pats, text, i)[x];
        &&& is_occurrence(pats, text, m)
        &&& match_end(pats, m) == i + 1
        &&& pats[m.pattern_idx as int].len() > 0
    } by {
        let m = ends_at(pats, text, i)[x];
        let a = m.start_pos as int;
        let b = a + pats[m.pattern_idx as int].len();
        assert(text.subrange(a, b) =~= s.subrange(a, b));
    }
}

proof fn lemma_overlapping_sound(pats: Seq<Seq<u8>>, text: Seq<u8>, i: int)
    requires
        0 <= i,
        text.len() <= u32::MAX,
        pats.len() <= MAX_PATTERNS,
    ensures
        forall|x: int|
            0 <= x < overlapping(pats, text, i).len() ==> {
                let m = #[trigger] overlapping(pats, text, i)[x];
                &&& is_occurrence(pats, text, m)
                &&& pats[m.pattern_idx as int].len() > 0
            },
    decreases text.len() - i,
{
    if i < text.len() {
        lemma_overlapping_sound(pats, text, i + 1);
        lemma_ends_at(pats, text, i);
        let e = ends_at(pats, text, i);
        let here = keep_last(e, 32);
        let rest = overlapping(pats, text, i + 1);
        let all = overlapping(pats, text, i);
        assert(all == here + rest);
        assert forall|x: int| 0 <= x < all.len() implies {
            let m = #[trigger] all[x];
            &&& is_occurrence(pats, text, m)
            &&& pats[m.pattern_idx as int].len() > 0
        } by {
            if x < here.len() {
                if e.len() > 32 {
                    assert(here[x] == e[x + e.len() - 32]);
                } else {
                    assert(here[x] == e[x]);
                }
            } else {
                assert(all[x] == rest[x - here.len()]);
            }
        }
    }
}

/// Every overlapping match is an occurrence of a non-empty pattern, reported
/// under the last index of the equal patterns.
pub proof fn law_overlapping_sound(pats: Seq<Seq<u8>>, text: Seq<u8>)
    requires
        text.len() <= u32::MAX,
        pats.len() <= MAX_PATTERNS,
    ensures
        forall|x: int|
            0 <= x < overlapping(pats, text, 0).len() ==> {
                let m = #[trigger] overlapping(pats, text, 0)[x];
                &&& is_occurrence(pats, text, m)
                &&& pats[m.pattern_idx as int].len() > 0
            },
{
    lemma_overlapping_sound(pats, text, 0);
}

proof fn lemma_overlapping_contains(pats: Seq<Seq<u8>>, text: Seq<u8>, p: int, i: int, m: Match)
    requires
        0 <= p <= i < text.len(),
        ends_at(pats, text, i).len() <= 32,
        ends_at(pats, text, i).contains(m),
    ensures
        overlapping(pats, text, p).contains(m),
    decreases i - p,
{
    let all = overlapping(pats, text, p);
    let e = keep_last(ends_at(pats, text, p), 32);
    assert(all == e + overlapping(pats, text, p + 1));
    if p == i {
        let y = choose|y: int| 0 <= y < e.len() && e[y] == m;
        assert(all[y] == m);
    } else {
        lemma_overlapping_contains(pats, text, p + 1, i, m);
        let rest = overlapping(pats, text, p + 1);
        let y = choose|y: int| 0 <= y < rest.len() && #[trigger] rest[y] == m;
        assert(all[y + e.len()] == m);
    }
}

/// Every occurrence of a non-empty pattern is an overlapping match (under the
/// last index of the equal patterns), provided no more than 32 occurrences of
/// distinct patterns end at its last byte.
pub proof fn law_overlapping_complete(pats: Seq<Seq<u8>>, text: Seq<u8>, k: int, start: int)
    requires
        text.len() <= u32::MAX,
        pats.len() <= MAX_PATTERNS,
        0 <= k < pats.len(),
        pats[k].len() > 0,
        0 <= start,
        start + pats[k].len() <= text.len(),
        text.subrange(start, start + pats[k].len()) == pats[k],
        ends_at(pats, text, start + pats[k].len() - 1).len() <= 32,
    ensures
        overlapping(pats, text, 0).contains(
            Match { start_pos: start as u32, pattern_idx: last_idx(pats, pats[k]) as u32 },
        ),
{
    let j = pats[k].len() as int;
    let i = start + j - 1;
    let s = text.take(i + 1);
    lemma_suffix_matches(pats, s, i + 1);
    assert(sfx(s, j) =~= pats[k]);
    lemma_last_idx_bounds(pats, pats[k]);
    if last_idx(pats, pats[k]) < 0 {
        assert(pats[k] != pats[k]);
    }
    assert(is_pattern(pats, sfx(s, j)));
    lemma_overlapping_contains(
        pats,
        text,
        0,
        i,
        Match { start_pos: start as u32, pattern_idx: last_idx(pats, pats[k]) as u32 },
    );
}

/// The suffix matches come longest first, that is, by increasing start.
proof fn lemma_suffix_matches_order(pats: Seq<Seq<u8>>, s: Seq<u8>, k: int)
    requires
        k <= s.len() <= u32::MAX,
    ensures
        forall|x: int|
            0 <= x < suffix_matches(pats, s, k).len() ==> s.len() - k <= (#[trigger] suffix_matches(
                pats,
                s,
                k,
            )[x]).start_pos,
        forall|x: int|
            0 <= x < suffix_matches(pats, s, k).len() - 1 ==> (#[trigger] suffix_matches(
                pats,
                s,
                k,
            )[x]).start_pos < suffix_matches(pats, s, k)[x + 1].start_pos,
    decreases k,
{
    if k > 0 {
        lemma_suffix_matches_order(pats, s, k - 1);
        let rest = suffix_matches(pats, s, k - 1);
        let all = suffix_matches(pats, s, k);
        if is_pattern(pats, sfx(s, k)) {
            assert forall|x: int| 0 <= x < all.len() implies s.len() - k <= (#[trigger] all[x]).start_pos by {
                if x > 0 {
                    assert(all[x] == rest[x - 1]);
                }
            }
            assert forall|x: int| 0 <= x < all.len() - 1 implies (#[trigger] all[x]).start_pos < all[x
                + 1].start_pos by {
                assert(all[x + 1] == rest[x]);
                if x > 0 {
                    assert(all[x] == rest[x - 1]);
                }
            }
        } else {
            assert(all =~= rest);
        }
    }
}

/// Two consecutive overlapping matches: the second ends later, or ends at the
/// same byte and is shorter.
pub open spec fn in_order(pats: Seq<Seq<u8>>, a: Match, b: Match) -> bool {
    match_end(pats, a) < match_end(pats, b) || (match_end(pats, a) == match_end(pats, b)
        && a.start_pos < b.start_pos)
}

proof fn lemma_overlapping_order(pats: Seq<Seq<u8>>, text: Seq<u8>, i: int)
    requires
        0 <= i,
        text.len() <= u32::MAX,
        pats.len() <= MAX_PATTERNS,
    ensures
        forall|x: int|
            0 <= x < overlapping(pats, text, i).len() ==> match_end(
                pats,
                #[trigger] overlapping(pats, text, i)[x],
            ) > i,
        forall|x: int|
            0 <= x < overlapping(pats, text, i).len() - 1 ==> in_order(
                pats,
                #[trigger] overlapping(pats, text, i)[x],
                overlapping(pats, text, i)[x + 1],
            ),
    decreases text.len() - i,
{
    if i < text.len() {
        lemma_overlapping_order(pats, text, i + 1);
        lemma_ends_at(pats, text, i);
        lemma_suffix_matches_order(pats, text.take(i + 1), i + 1);
        let e = ends_at(pats, text, i);
        let here = keep_last(e, 32);
        let rest = overlapping(pats, text, i + 1);
        let all = overlapping(pats, text, i);
        let off = if e.len() > 32 { e.len() - 32 } else { 0 };
        assert(all == here + rest);
        assert forall|x: int| 0 <= x < here.len() implies #[trigger] here[x] == e[x + off] by {
        }
        assert forall|x: int| 0 <= x < all.len() implies match_end(pats, #[trigger] all[x]) > i by {
            if x < here.len() {
                assert(all[x] == e[x + off]);
            } else {
                assert(all[x] == rest[x - here.len()]);
            }
        }
        assert forall|x: int| 0 <= x < all.len() - 1 implies in_order(pats, #[trigger] all[x], all[x + 1]) by {
            if x + 1 < here.len() {
                assert(all[x] == e[x + off]);
                assert(all[x + 1] == e[x + 1 + off]);
            } else if x + 1 == here.len() {
                assert(all[x] == e[x + off]);
                assert(all[x + 1] == rest[0]);
            } else {
                assert(all[x] == rest[x - here.len()]);
                assert(all[x + 1] == rest[x + 1 - here.len()]);
            }
        }
    }
}

/// Overlapping matches come by the byte they end at, and, among those ending at
/// the same byte, longest first.
pub proof fn law_overlapping_ordered(pats: Seq<Seq<u8>>, text: Seq<u8>)
    requires
        text.len() <= u32::MAX,
        pats.len() <= MAX_PATTERNS,
    ensures
        forall|x: int|
            0 <= x < overlapping(pats, text, 0).len() - 1 ==> in_order(
                pats,
                #[trigger] overlapping(pats, text, 0)[x],
                overlapping(pats, text, 0)[x + 1],
            ),
{
    lemma_overlapping_order(pats, text, 0);
}

/// Pattern `k` occurs in `text` at `start`.
pub open spec fn occurs(pats: Seq<Seq<u8>>, text: Seq<u8>, k: int, start: int) -> bool {
    &&& 0 <= k < pats.len()
    &&& 0 <= start
    &&& start + pats[k].len() <= text.len()
    &&& text.subrange(start, start + pats[k].len()) == pats[k]
}

/// The match `m` shares a byte with the occurrence of a pattern of length `len` at `start`.
pub open spec fn overlaps(pats: Seq<Seq<u8>>, m: Match, start: int, len: int) -> bool {
    m.start_pos < start + len && start < match_end(pats, m)
}

/// No occurrence of a non-empty pattern that starts at `from` or later ends
/// before `m`, and of those that end with it none is longer.
pub open spec fn first_from(pats: Seq<Seq<u8>>, text: Seq<u8>, from: int, m: Match) -> bool {
    forall|k: int, start: int|
        #[trigger] occurs(pats, text, k, start) && pats[k].len() > 0 && start >= from ==> {
            &&& match_end(pats, m) <= start + pats[k].len()
            &&& match_end(pats, m) == start + pats[k].len() ==> pats[k].len()
                <= pats[m.pattern_idx as int].len()
        }
}

/// An occurrence of a non-empty pattern that starts at or after the restart
/// point `p` and ends with the byte at `i` makes the automaton report, and
/// what it reports is at least as long.
proof fn lemma_state_sees_occurrence(pats: Seq<Seq<u8>>, text: Seq<u8>, p: int, i: int, k: int, start: int)
    requires
        0 <= p <= start,
        i < text.len(),
        occurs(pats, text, k, start),
        pats[k].len() > 0,
        start + pats[k].len() == i + 1,
    ensures
        hits(pats, lts(pats, text.subrange(p, i + 1))),
        pats[k].len() <= reported(pats, lts(pats, text.subrange(p, i + 1))).len(),
{
    let q = pats[k];
    let sub = text.subrange(p, i + 1);
    let w = lts(pats, sub);
    lemma_lts(pats, sub);
    lemma_last_idx_bounds(pats, q);
    assert(is_pattern(pats, q));
    lemma_pattern_is_trie(pats, q);
    assert(sfx(sub, q.len() as int) =~= q);
    assert(q.len() <= w.len());
    lemma_sfx_of_sfx(sub, w.len() as int, q.len() as int);
    if q.len() < w.len() {
        lemma_pat_sfx_len(pats, w, w.len() - 1);
        assert(sfx(w, q.len() as int) == q);
    } else {
        assert(w =~= q);
    }
}

/// A prefix of an occurrence that starts at or after the restart point and
/// ends with the byte at `i` keeps the automaton state non-empty, so a report
/// made there is non-empty.
proof fn lemma_state_inside_occurrence(pats: Seq<Seq<u8>>, text: Seq<u8>, p: int, i: int, k: int, start: int)
    requires
        0 <= p <= start <= i,
        i + 1 < start + pats[k].len(),
        occurs(pats, text, k, start),
    ensures
        hits(pats, lts(pats, text.subrange(p, i + 1))) ==> reported(
            pats,
            lts(pats, text.subrange(p, i + 1)),
        ).len() > 0,
{
    let q = pats[k];
    let sub = text.subrange(p, i + 1);
    let w = lts(pats, sub);
    let t = text.subrange(start, i + 1);
    lemma_lts(pats, sub);
    lemma_reported(pats, w);
    lemma_last_idx_bounds(pats, q);
    lemma_pattern_is_trie(pats, q);
    crate::model::lemma_trie_prefix_closed(pats, q, i + 1 - start);
    assert(q.subrange(0, i + 1 - start) =~= t);
    assert(sfx(sub, t.len() as int) =~= t);
    assert(w.len() >= t.len());
}

proof fn lemma_nonoverlapping_scan(pats: Seq<Seq<u8>>, text: Seq<u8>, p: int, i: int)
    requires
        text.len() <= u32::MAX,
        pats.len() <= MAX_PATTERNS,
        0 <= p <= i,
        forall|k: int, start: int|
            #[trigger] occurs(pats, text, k, start) && pats[k].len() > 0 && start >= p ==> start
                + pats[k].len() > i,
    ensures
        ({
            let ms = nonoverlapping(pats, text, p, i);
            &&& ms.len() > 0 ==> first_from(pats, text, p, ms[0])
            &&& forall|x: int|
                0 < x < ms.len() ==> first_from(pats, text, match_end(pats, ms[x - 1]), #[trigger] ms[x])
        }),
    decreases text.len() - i,
{
    if i < text.len() {
        let sub = text.subrange(p, i + 1);
        let w = lts(pats, sub);
        lemma_lts(pats, sub);
        lemma_reported(pats, w);
        lemma_nonoverlapping_sound(pats, text, p, i);
        let ms = nonoverlapping(pats, text, p, i);
        if hits(pats, w) {
            let rest = nonoverlapping(pats, text, i + 1, i + 1);
            assert(ms == seq![match_for(pats, text, p, i)] + rest);
            let r = reported(pats, w);
            lemma_last_idx_bounds(pats, r);
            assert(is_pattern(pats, r));
            assert(ms[0].pattern_idx as int == last_idx(pats, r));
            assert(pats[ms[0].pattern_idx as int] == r);
            assert(ms[0].start_pos as int == i + 1 - r.len());
            assert(match_end(pats, ms[0]) == i + 1);
            assert forall|k: int, start: int|
                #[trigger] occurs(pats, text, k, start) && pats[k].len() > 0 && start >= p implies {
                &&& match_end(pats, ms[0]) <= start + pats[k].len()
                &&& match_end(pats, ms[0]) == start + pats[k].len() ==> pats[k].len()
                    <= pats[ms[0].pattern_idx as int].len()
            } by {
                if start + pats[k].len() == i + 1 {
                    lemma_state_sees_occurrence(pats, text, p, i, k, start);
                }
            }
            lemma_nonoverlapping_scan(pats, text, i + 1, i + 1);
            assert forall|x: int| 0 < x < ms.len() implies first_from(
                pats,
                text,
                match_end(pats, ms[x - 1]),
                #[trigger] ms[x],
            ) by {
                assert(ms[x] == rest[x - 1]);
                if x > 1 {
                    assert(ms[x - 1] == rest[x - 2]);
                }
            }
        } else {
            assert forall|k: int, start: int|
                #[trigger] occurs(pats, text, k, start) && pats[k].len() > 0 && start >= p implies start
                + pats[k].len() > i + 1 by {
                if start + pats[k].len() == i + 1 {
                    lemma_state_sees_occurrence(pats, text, p, i, k, start);
                }
            }
            lemma_nonoverlapping_scan(pats, text, p, i + 1);
            assert(ms == nonoverlapping(pats, text, p, i + 1));
        }
    }
}

/// The non-overlapping matches are found greedily: the first one ends no later
/// than any occurrence of a non-empty pattern, and each next one ends no later
/// than any such occurrence that starts after the match before it; among those
/// that end at the same byte, it is the longest.
pub proof fn law_nonoverlapping_greedy(pats: Seq<Seq<u8>>, text: Seq<u8>)
    requires
        text.len() <= u32::MAX,
        pats.len() <= MAX_PATTERNS,
    ensures
        ({
            let ms = nonoverlapping(pats, text, 0, 0);
            &&& ms.len() > 0 ==> first_from(pats, text, 0, ms[0])
            &&& forall|x: int|
                0 < x < ms.len() ==> first_from(pats, text, match_end(pats, ms[x - 1]), #[trigger] ms[x])
        }),
{
    lemma_nonoverlapping_scan(pats, text, 0, 0);
}

proof fn lemma_nonoverlapping_maximal(
    pats: Seq<Seq<u8>>,
    text: Seq<u8>,
    k: int,
    start: int,
    p: int,
    i: int,
)
    requires
        text.len() <= u32::MAX,
        pats.len() <= MAX_PATTERNS,
        occurs(pats, text, k, start),
        pats[k].len() > 0,
        0 <= p <= i,
        p <= start,
        i < start + pats[k].len(),
    ensures
        exists|x: int|
            0 <= x < nonoverlapping(pats, text, p, i).len() && overlaps(
                pats,
                #[trigger] nonoverlapping(pats, text, p, i)[x],
                start,
                pats[k].len() as int,
            ),
    decreases text.len() - i,
{
    let q = pats[k];
    let e = start + q.len();
    let sub = text.subrange(p, i + 1);
    let w = lts(pats, sub);
    let ms = nonoverlapping(pats, text, p, i);
    lemma_lts(pats, sub);
    lemma_reported(pats, w);
    if hits(pats, w) {
        let r = reported(pats, w);
        lemma_last_idx_bounds(pats, r);
        let m = match_for(pats, text, p, i);
        let rest = nonoverlapping(pats, text, i + 1, i + 1);
        assert(ms == seq![m] + rest);
        if start <= i {
            if i + 1 < e {
                lemma_state_inside_occurrence(pats, text, p, i, k, start);
            } else {
                lemma_state_sees_occurrence(pats, text, p, i, k, start);
            }
            assert(pats[m.pattern_idx as int] == r);
            assert(overlaps(pats, ms[0], start, q.len() as int));
        } else {
            lemma_nonoverlapping_maximal(pats, text, k, start, i + 1, i + 1);
            let x = choose|x: int|
                0 <= x < rest.len() && overlaps(pats, #[trigger] rest[x], start, q.len() as int);
            assert(ms[x + 1] == rest[x]);
        }
    } else {
        if e == i + 1 {
            lemma_state_sees_occurrence(pats, text, p, i, k, start);
        }
        lemma_nonoverlapping_maximal(pats, text, k, start, p, i + 1);
        assert(ms == nonoverlapping(pats, text, p, i + 1));
    }
}

/// The non-overlapping matches are a maximal set of disjoint occurrences:
/// every occurrence of a non-empty pattern is one of them or overlaps one.
pub proof fn law_nonoverlapping_maximal(pats: Seq<Seq<u8>>, text: Seq<u8>, k: int, start: int)
    requires
        text.len() <= u32::MAX,
        pats.len() <= MAX_PATTERNS,
        occurs(pats, text, k, start),
        pats[k].len() > 0,
    ensures
        exists|x: int|
            0 <= x < nonoverlapping(pats, text, 0, 0).len() && overlaps(
                pats,
                #[trigger] nonoverlapping(pats, text, 0, 0)[x],
                start,
                pats[k].len() as int,
            ),
{
    lemma_nonoverlapping_maximal(pats, text, k, start, 0, 0);
}

proof fn lemma_overlapping_split(pats: Seq<Seq<u8>>, text: Seq<u8>, e: int, i: int)
    requires
        0 <= i <= e <= text.len(),
    ensures
        overlapping(pats, text, i) == overlapping(pats, text.take(e), i) + overlapping(pats, text, e),
    decreases e - i,
{
    if i < e {
        lemma_overlapping_split(pats, text, e, i + 1);
        assert(text.take(e).take(i + 1) =~= text.take(i + 1));
        assert(ends_at(pats, text.take(e), i) == ends_at(pats, text, i));
        assert(overlapping(pats, text, i) =~= overlapping(pats, text.take(e), i) + overlapping(
            pats,
            text,
            e,
        ));
    } else {
        assert(overlapping(pats, text.take(e), e) =~= Seq::<Match>::empty());
        assert(overlapping(pats, text, i) =~= overlapping(pats, text.take(e), i) + overlapping(
            pats,
            text,
            e,
        ));
    }
}

/// The overlapping search is online: on the first `e` bytes of a text it gives
/// exactly the matches that the search of the whole text gives first, which
/// are those that end within these bytes; the rest end after them.
pub proof fn law_overlapping_prefix(pats: Seq<Seq<u8>>, text: Seq<u8>, e: int)
    requires
        text.len() <= u32::MAX,
        pats.len() <= MAX_PATTERNS,
        0 <= e <= text.len(),
    ensures
        overlapping(pats, text, 0) == overlapping(pats, text.take(e), 0) + overlapping(pats, text, e),
        forall|x: int|
            0 <= x < overlapping(pats, text.take(e), 0).len() ==> match_end(
                pats,
                #[trigger] overlapping(pats, text.take(e), 0)[x],
            ) <= e,
        forall|x: int|
            0 <= x < overlapping(pats, text, e).len() ==> match_end(
                pats,
                #[trigger] overlapping(pats, text, e)[x],
            ) > e,
{
    lemma_overlapping_split(pats, text, e, 0);
    lemma_overlapping_sound(pats, text.take(e), 0);
    lemma_overlapping_order(pats, text, e);
}

proof fn lemma_nonoverlapping_first_prefix(
    pats: Seq<Seq<u8>>,
    t: Seq<u8>,
    t2: Seq<u8>,
    e: int,
    p: int,
    i: int,
)
    requires
        t.len() <= u32::MAX,
        t2.len() <= u32::MAX,
        pats.len() <= MAX_PATTERNS,
        0 <= p <= i,
        e <= t.len(),
        e <= t2.len(),
        t.take(e) == t2.take(e),
        nonoverlapping(pats, t, p, i).len() > 0,
        match_end(pats, nonoverlapping(pats, t, p, i)[0]) <= e,
    ensures
        nonoverlapping(pats, t2, p, i).len() > 0,
        nonoverlapping(pats, t2, p, i)[0] == nonoverlapping(pats, t, p, i)[0],
    decreases t.len() - i,
{
    lemma_nonoverlapping_sound(pats, t, p, i);
    let sub = t.subrange(p, i + 1);
    let w = lts(pats, sub);
    lemma_lts(pats, sub);
    lemma_reported(pats, w);
    if hits(pats, w) {
        let r = reported(pats, w);
        lemma_last_idx_bounds(pats, r);
        let ms = nonoverlapping(pats, t, p, i);
        assert(ms[0] == match_for(pats, t, p, i));
        assert(pats[ms[0].pattern_idx as int] == r);
        assert(match_end(pats, ms[0]) == i + 1);
        assert(t2.subrange(p, i + 1) =~= t.take(e).subrange(p, i + 1));
        assert(t.subrange(p, i + 1) =~= t.take(e).subrange(p, i + 1));
        assert(match_for(pats, t2, p, i) == match_for(pats, t, p, i));
    } else {
        assert(nonoverlapping(pats, t, p, i) == nonoverlapping(pats, t, p, i + 1));
        lemma_nonoverlapping_sound(pats, t, p, i + 1);
        assert(i + 1 < e);
        assert(t2.subrange(p, i + 1) =~= t.take(e).subrange(p, i + 1));
        assert(t.subrange(p, i + 1) =~= t.take(e).subrange(p, i + 1));
        lemma_nonoverlapping_first_prefix(pats, t, t2, e, p, i + 1);
        assert(nonoverlapping(pats, t2, p, i) == nonoverlapping(pats, t2, p, i + 1));
    }
}

/// The first non-overlapping match (what `find_any` returns) depends only on the
/// bytes up to its end: any text that starts with the same bytes gives it too.
pub proof fn law_first_match_local(pats: Seq<Seq<u8>>, t: Seq<u8>, t2: Seq<u8>)
    requires
        t.len() <= u32::MAX,
        t2.len() <= u32::MAX,
        pats.len() <= MAX_PATTERNS,
        nonoverlapping(pats, t, 0, 0).len() > 0,
        match_end(pats, nonoverlapping(pats, t, 0, 0)[0]) <= t2.len(),
        t.take(match_end(pats, nonoverlapping(pats, t, 0, 0)[0])) == t2.take(
            match_end(pats, nonoverlapping(pats, t, 0, 0)[0]),
        ),
    ensures
        nonoverlapping(pats, t2, 0, 0).len() > 0,
        nonoverlapping(pats, t2, 0, 0)[0] == nonoverlapping(pats, t, 0, 0)[0],
{
    lemma_nonoverlapping_sound(pats, t, 0, 0);
    let e = match_end(pats, nonoverlapping(pats, t, 0, 0)[0]);
    assert(is_occurrence(pats, t, nonoverlapping(pats, t, 0, 0)[0]));
    lemma_nonoverlapping_first_prefix(pats, t, t2, e, 0, 0);
}

/// `f` places the items of `a`, in order, among those of `b`.
pub open spec fn embedding(f: Seq<int>, a: Seq<Match>, b: Seq<Match>) -> bool {
    &&& f.len() == a.len()
    &&& forall|x: int| 0 <= x < f.len() ==> 0 <= #[trigger] f[x] < b.len() && b[f[x]] == a[x]
    &&& forall|x: int, y: int| 0 <= x < y < f.len() ==> #[trigger] f[x] < #[trigger] f[y]
}

proof fn lemma_ends_sorted(pats: Seq<Seq<u8>>, ms: Seq<Match>, a: int, b: int)
    requires
        forall|x: int| 0 <= x < ms.len() - 1 ==> in_order(pats, #[trigger] ms[x], ms[x + 1]),
        0 <= a <= b < ms.len(),
    ensures
        match_end(pats, ms[a]) <= match_end(pats, ms[b]),
    decreases b - a,
{
    if a < b {
        lemma_ends_sorted(pats, ms, a, b - 1);
        assert(in_order(pats, ms[b - 1], ms[b]));
    }
}

proof fn lemma_ends_increasing(pats: Seq<Seq<u8>>, ms: Seq<Match>, a: int, b: int)
    requires
        forall|x: int|
            0 <= x < ms.len() - 1 ==> #[trigger] match_end(pats, ms[x]) <= ms[x + 1].start_pos,
        forall|x: int| 0 <= x < ms.len() ==> (#[trigger] ms[x]).start_pos < match_end(pats, ms[x]),
        0 <= a < b < ms.len(),
    ensures
        match_end(pats, ms[a]) < match_end(pats, ms[b]),
    decreases b - a,
{
    assert(ms[b - 1].start_pos < match_end(pats, ms[b - 1]));
    assert(match_end(pats, ms[b - 1]) <= ms[b].start_pos);
    assert(ms[b].start_pos < match_end(pats, ms[b]));
    if a < b - 1 {
        lemma_ends_increasing(pats, ms, a, b - 1);
    }
}

/// When no pattern is empty and at most 32 occurrences end at any byte, the
/// non-overlapping matches are a subsequence of the overlapping ones: they
/// appear among them, in the same order.
pub proof fn law_nonoverlapping_within_overlapping(pats: Seq<Seq<u8>>, text: Seq<u8>)
    requires
        text.len() <= u32::MAX,
        pats.len() <= MAX_PATTERNS,
        forall|k: int| 0 <= k < pats.len() ==> #[trigger] pats[k].len() > 0,
        forall|i: int| 0 <= i < text.len() ==> #[trigger] ends_at(pats, text, i).len() <= 32,
    ensures
        exists|f: Seq<int>|
            #[trigger] embedding(
                f,
                nonoverlapping(pats, text, 0, 0),
                overlapping(pats, text, 0),
            ),
{
    let ms = nonoverlapping(pats, text, 0, 0);
    let ov = overlapping(pats, text, 0);
    lemma_nonoverlapping_sound(pats, text, 0, 0);
    lemma_overlapping_order(pats, text, 0);
    assert forall|x: int| 0 <= x < ms.len() implies ov.contains(#[trigger] ms[x]) by {
        let m = ms[x];
        assert(is_occurrence(pats, text, m));
        let k = m.pattern_idx as int;
        let st = m.start_pos as int;
        assert(pats[k].len() > 0);
        assert(ends_at(pats, text, st + pats[k].len() - 1).len() <= 32);
        law_overlapping_complete(pats, text, k, st);
        assert(Match { start_pos: st as u32, pattern_idx: last_idx(pats, pats[k]) as u32 } == m);
    }
    let f = Seq::new(ms.len(), |x: int| choose|y: int| 0 <= y < ov.len() && ov[y] == ms[x]);
    assert forall|x: int| 0 <= x < f.len() implies 0 <= #[trigger] f[x] < ov.len() && ov[f[x]] == ms[x] by {
        assert(ov.contains(ms[x]));
    }
    assert forall|x: int| 0 <= x < ms.len() implies (#[trigger] ms[x]).start_pos < match_end(pats, ms[x]) by {
        assert(is_occurrence(pats, text, ms[x]));
    }
    assert forall|x: int, y: int| 0 <= x < y < f.len() implies #[trigger] f[x] < #[trigger] f[y] by {
        assert(ov.contains(ms[x]));
        assert(ov.contains(ms[y]));
        lemma_ends_increasing(pats, ms, x, y);
        if f[y] <= f[x] {
            lemma_ends_sorted(pats, ov, f[y], f[x]);
        }
    }
    assert(embedding(f, ms, ov));
}

/// `m` moved `o` bytes to the right.
pub open spec fn shift_match(m: Match, o: int) -> Match {
    Match { start_pos: (m.start_pos + o) as u32, pattern_idx: m.pattern_idx }
}

/// The matches `ms` moved `o` bytes to the right.
pub open spec fn shifted(ms: Seq<Match>, o: int) -> Seq<Match> {
    ms.map_values(|m: Match| shift_match(m, o))
}

/// Two starting points that leave the automaton in the same state give the
/// same matches from then on.
proof fn lemma_nonoverlapping_same_state(pats: Seq<Seq<u8>>, text: Seq<u8>, p: int, q: int, i: int)
    requires
        0 <= p <= i,
        0 <= q <= i,
        i <= text.len(),
        lts(pats, text.subrange(p, i)) == lts(pats, text.subrange(q, i)),
    ensures
        nonoverlapping(pats, text, p, i) == nonoverlapping(pats, text, q, i),
    decreases text.len() - i,
{
    if i < text.len() {
        let b = text[i];
        lemma_lts_step(pats, text.subrange(p, i), b);
        lemma_lts_step(pats, text.subrange(q, i), b);
        assert(text.subrange(p, i).push(b) =~= text.subrange(p, i + 1));
        assert(text.subrange(q, i).push(b) =~= text.subrange(q, i + 1));
        if !hits(pats, lts(pats, text.subrange(p, i + 1))) {
            lemma_nonoverlapping_same_state(pats, text, p, q, i + 1);
        }
    }
}

/// No pattern is empty, and none holds the byte `c`.
pub open spec fn avoids(pats: Seq<Seq<u8>>, c: u8) -> bool {
    &&& forall|k: int| 0 <= k < pats.len() ==> #[trigger] pats[k].len() > 0
    &&& forall|k: int, j: int| 0 <= k < pats.len() && 0 <= j < pats[k].len() ==> #[trigger] pats[k][j] != c
}

/// Reading the byte `c` that no pattern holds brings the automaton back to its
/// start state, without a match.
proof fn lemma_state_after_absent_byte(pats: Seq<Seq<u8>>, s: Seq<u8>, c: u8)
    requires
        avoids(pats, c),
    ensures
        lts(pats, s.push(c)).len() == 0,
        !hits(pats, lts(pats, s.push(c))),
{
    let w = lts(pats, s.push(c));
    lemma_lts(pats, s.push(c));
    if w.len() > 0 {
        let k = choose|k: int| 0 <= k < pats.len() && #[trigger] prefix_of(w, pats[k]);
        assert(w[w.len() - 1] == c);
        assert(pats[k][w.len() - 1] == w[w.len() - 1]);
    }
    lemma_reported(pats, w);
    if is_pattern(pats, w) {
        lemma_last_idx_bounds(pats, w);
    }
}

proof fn lemma_nonoverlapping_before_absent_byte(
    pats: Seq<Seq<u8>>,
    a: Seq<u8>,
    c: u8,
    b: Seq<u8>,
    p: int,
    i: int,
)
    requires
        avoids(pats, c),
        0 <= p <= i <= a.len(),
    ensures
        nonoverlapping(pats, a + seq![c] + b, p, i) == nonoverlapping(pats, a, p, i) + nonoverlapping(
            pats,
            a + seq![c] + b,
            a.len() + 1 as int,
            a.len() + 1 as int,
        ),
    decreases a.len() - i,
{
    let text = a + seq![c] + b;
    let o = a.len() + 1int;
    if i == a.len() {
        assert(text.subrange(p, i) =~= text.subrange(p, i + 1).drop_last());
        assert(text.subrange(p, i + 1) =~= text.subrange(p, i).push(c));
        lemma_state_after_absent_byte(pats, text.subrange(p, i), c);
        assert(nonoverlapping(pats, text, p, i) == nonoverlapping(pats, text, p, i + 1));
        lemma_lts(pats, text.subrange(o, o));
        assert(text.subrange(o, o).len() == 0);
        assert(lts(pats, text.subrange(p, o)) =~= lts(pats, text.subrange(o, o)));
        lemma_nonoverlapping_same_state(pats, text, p, o, o);
        assert(nonoverlapping(pats, a, p, i) =~= Seq::<Match>::empty());
        assert(nonoverlapping(pats, text, p, i) =~= nonoverlapping(pats, a, p, i) + nonoverlapping(
            pats,
            text,
            o,
            o,
        ));
    } else {
        assert(text.subrange(p, i + 1) =~= a.subrange(p, i + 1));
        if hits(pats, lts(pats, a.subrange(p, i + 1))) {
            lemma_nonoverlapping_before_absent_byte(pats, a, c, b, i + 1, i + 1);
            assert(match_for(pats, text, p, i) == match_for(pats, a, p, i));
            assert(nonoverlapping(pats, text, p, i) =~= nonoverlapping(pats, a, p, i) + nonoverlapping(
                pats,
                text,
                o,
                o,
            ));
        } else {
            lemma_nonoverlapping_before_absent_byte(pats, a, c, b, p, i + 1);
        }
    }
}

proof fn lemma_nonoverlapping_shift(pats: Seq<Seq<u8>>, pre: Seq<u8>, b: Seq<u8>, q: int, i: int)
    requires
        (pre + b).len() <= u32::MAX,
        pats.len() <= MAX_PATTERNS,
        pre.len() <= q <= i,
    ensures
        nonoverlapping(pats, pre + b, q, i) == shifted(
            nonoverlapping(pats, b, q - pre.len(), i - pre.len()),
            pre.len() as int,
        ),
    decreases (pre + b).len() - i,
{
    let text = pre + b;
    let o = pre.len() as int;
    if i < text.len() {
        assert(text.subrange(q, i + 1) =~= b.subrange(q - o, i + 1 - o));
        let sub = b.subrange(q - o, i + 1 - o);
        let w = lts(pats, sub);
        if hits(pats, w) {
            lemma_nonoverlapping_shift(pats, pre, b, i + 1, i + 1);
            lemma_lts(pats, sub);
            lemma_reported(pats, w);
            let r = reported(pats, w);
            let m = match_for(pats, b, q - o, i - o);
            assert(m.start_pos == i + 1 - o - r.len());
            assert(match_for(pats, text, q, i) == shift_match(m, o));
            let rest = nonoverlapping(pats, b, i + 1 - o, i + 1 - o);
            assert(shifted(seq![m] + rest, o) =~= seq![shift_match(m, o)] + shifted(rest, o));
        } else {
            lemma_nonoverlapping_shift(pats, pre, b, q, i + 1);
        }
    } else {
        assert(shifted(nonoverlapping(pats, b, q - o, i - o), o) =~= Seq::<Match>::empty());
    }
}

/// A byte that no pattern holds cuts the search in two: the non-overlapping
/// matches of `a c b` are those of `a`, then those of `b` moved past `a c`.
pub proof fn law_nonoverlapping_restart(pats: Seq<Seq<u8>>, a: Seq<u8>, c: u8, b: Seq<u8>)
    requires
        (a + seq![c] + b).len() <= u32::MAX,
        pats.len() <= MAX_PATTERNS,
        avoids(pats, c),
    ensures
        nonoverlapping(pats, a + seq![c] + b, 0, 0) == nonoverlapping(pats, a, 0, 0) + shifted(
            nonoverlapping(pats, b, 0, 0),
            a.len() + 1int,
        ),
{
    let pre = a + seq![c];
    assert(a + seq![c] + b == pre + b);
    lemma_nonoverlapping_before_absent_byte(pats, a, c, b, 0, 0);
    lemma_nonoverlapping_shift(pats, pre, b, a.len() + 1int, a.len() + 1int);
}

/// `perm` and `inv` are inverse permutations that reorder `ps` into `qs`,
/// and the patterns are pairwise distinct.
pub open spec fn reordering(ps: Seq<Seq<u8>>, qs: Seq<Seq<u8>>, perm: Seq<int>, inv: Seq<int>) -> bool {
    &&& qs.len() == ps.len()
    &&& perm.len() == ps.len()
    &&& inv.len() == ps.len()
    &&& forall|j: int| 0 <= j < ps.len() ==> 0 <= #[trigger] perm[j] < ps.len() && inv[perm[j]] == j
    &&& forall|i: int| 0 <= i < ps.len() ==> 0 <= #[trigger] inv[i] < ps.len() && perm[inv[i]] == i
    &&& forall|j: int| 0 <= j < ps.len() ==> #[trigger] qs[perm[j]] == ps[j]
    &&& forall|j: int, k: int| 0 <= j < k < ps.len() ==> #[trigger] ps[j] != #[trigger] ps[k]
}

/// `m` with its pattern index renamed by `perm`.
pub open spec fn rename_match(m: Match, perm: Seq<int>) -> Match {
    Match { start_pos: m.start_pos, pattern_idx: perm[m.pattern_idx as int] as u32 }
}

proof fn lemma_reordered_pattern(ps: Seq<Seq<u8>>, qs: Seq<Seq<u8>>, perm: Seq<int>, inv: Seq<int>, s: Seq<u8>)
    requires
        reordering(ps, qs, perm, inv),
    ensures
        is_pattern(qs, s) == is_pattern(ps, s),
        is_pattern(ps, s) ==> last_idx(qs, s) == perm[last_idx(ps, s)],
{
    lemma_last_idx_bounds(ps, s);
    lemma_last_idx_bounds(qs, s);
    if is_pattern(ps, s) {
        let j = last_idx(ps, s);
        assert(qs[perm[j]] == s);
        let l = last_idx(qs, s);
        assert(l >= 0);
        let i = inv[l];
        assert(qs[perm[i]] == ps[i]);
        assert(ps[i] == s);
        if i != j {
            if i < j {
                assert(ps[i] != ps[j]);
            } else {
                assert(ps[j] != ps[i]);
            }
        }
    } else if is_pattern(qs, s) {
        let l = last_idx(qs, s);
        let i = inv[l];
        assert(qs[perm[i]] == ps[i]);
        assert(ps[i] == s);
    }
}

proof fn lemma_reordered_suffix_matches(
    ps: Seq<Seq<u8>>,
    qs: Seq<Seq<u8>>,
    perm: Seq<int>,
    inv: Seq<int>,
    x: Seq<u8>,
    k: int,
)
    requires
        reordering(ps, qs, perm, inv),
        ps.len() <= MAX_PATTERNS,
    ensures
        suffix_matches(qs, x, k) == suffix_matches(ps, x, k).map_values(
            |m: Match| rename_match(m, perm),
        ),
    decreases k,
{
    if k > 0 {
        lemma_reordered_suffix_matches(ps, qs, perm, inv, x, k - 1);
        let w = sfx(x, k);
        lemma_reordered_pattern(ps, qs, perm, inv, w);
        lemma_last_idx_bounds(ps, w);
        let f = |m: Match| rename_match(m, perm);
        let head = if is_pattern(ps, w) {
            seq![Match { start_pos: (x.len() - k) as u32, pattern_idx: last_idx(ps, w) as u32 }]
        } else {
            seq![]
        };
        let rest = suffix_matches(ps, x, k - 1);
        assert((head + rest).map_values(f) =~= head.map_values(f) + rest.map_values(f));
        assert(suffix_matches(qs, x, k) =~= (head + rest).map_values(f));
    } else {
        assert(suffix_matches(ps, x, k).map_values(|m: Match| rename_match(m, perm)) =~= seq![]);
    }
}

proof fn lemma_reordered_overlapping(
    ps: Seq<Seq<u8>>,
    qs: Seq<Seq<u8>>,
    perm: Seq<int>,
    inv: Seq<int>,
    text: Seq<u8>,
    i: int,
)
    requires
        reordering(ps, qs, perm, inv),
        ps.len() <= MAX_PATTERNS,
    ensures
        overlapping(qs, text, i) == overlapping(ps, text, i).map_values(
            |m: Match| rename_match(m, perm),
        ),
    decreases text.len() - i,
{
    let f = |m: Match| rename_match(m, perm);
    if 0 <= i < text.len() {
        lemma_reordered_overlapping(ps, qs, perm, inv, text, i + 1);
        lemma_reordered_suffix_matches(ps, qs, perm, inv, text.take(i + 1), i + 1);
        let e = ends_at(ps, text, i);
        let rest = overlapping(ps, text, i + 1);
        assert(keep_last(e.map_values(f), 32) =~= keep_last(e, 32).map_values(f));
        assert((keep_last(e, 32) + rest).map_values(f) =~= keep_last(e, 32).map_values(f)
            + rest.map_values(f));
    } else {
        assert(overlapping(ps, text, i).map_values(f) =~= seq![]);
    }
}

/// Reordering distinct patterns only renames the indices of the overlapping
/// matches: the positions and their order stay the same.
pub proof fn law_overlapping_reorder(
    ps: Seq<Seq<u8>>,
    qs: Seq<Seq<u8>>,
    perm: Seq<int>,
    inv: Seq<int>,
    text: Seq<u8>,
)
    requires
        reordering(ps, qs, perm, inv),
        ps.len() <= MAX_PATTERNS,
    ensures
        overlapping(qs, text, 0) == overlapping(ps, text, 0).map_values(
            |m: Match| rename_match(m, perm),
        ),
{
    lemma_reordered_overlapping(ps, qs, perm, inv, text, 0);
}

} // verus!
