//! The mathematical model of the search: strings are `Seq<u8>`, the pattern
//! set is a `Seq<Seq<u8>>`, and every notion the automaton computes is given
//! here directly in terms of them.
use vstd::prelude::*;
use crate::matches::Match;

verus! {

/// The suffix of `s` of length `j`.
pub open spec fn sfx(s: Seq<u8>, j: int) -> Seq<u8> {
    s.subrange(s.len() - j, s.len() as int)
}

/// `s` is a prefix of `t`.
pub open spec fn prefix_of(s: Seq<u8>, t: Seq<u8>) -> bool {
    s.len() <= t.len() && t.subrange(0, s.len() as int) == s
}

/// `s` labels a node of the trie of `pats`: it is empty or a prefix of some pattern.
pub open spec fn is_trie_str(pats: Seq<Seq<u8>>, s: Seq<u8>) -> bool {
    s.len() == 0 || exists|k: int| 0 <= k < pats.len() && #[trigger] prefix_of(s, pats[k])
}

/// The largest index of a pattern equal to `s`, or -1 when no pattern equals `s`.
pub open spec fn last_idx(pats: Seq<Seq<u8>>, s: Seq<u8>) -> int
    decreases pats.len(),
{
    if pats.len() == 0 {
        -1
    } else if pats.last() == s {
        pats.len() - 1
    } else {
        last_idx(pats.drop_last(), s)
    }
}

/// `s` is one of the patterns.
pub open spec fn is_pattern(pats: Seq<Seq<u8>>, s: Seq<u8>) -> bool {
    last_idx(pats, s) >= 0
}

/// The largest `j <= k` such that the suffix of `s` of length `j` is a trie string
/// (0 when `k <= 0`).
pub open spec fn trie_sfx_len(pats: Seq<Seq<u8>>, s: Seq<u8>, k: int) -> int
    decreases k,
{
    if k <= 0 {
        0
    } else if is_trie_str(pats, sfx(s, k)) {
        k
    } else {
        trie_sfx_len(pats, s, k - 1)
    }
}

/// The longest suffix of `s` that is a trie string: the automaton state after reading `s`.
pub open spec fn lts(pats: Seq<Seq<u8>>, s: Seq<u8>) -> Seq<u8> {
    sfx(s, trie_sfx_len(pats, s, s.len() as int))
}

/// The longest proper suffix of `s` that is a trie string (the failure link of `s`).
pub open spec fn fail_str(pats: Seq<Seq<u8>>, s: Seq<u8>) -> Seq<u8> {
    if s.len() == 0 {
        s
    } else {
        lts(pats, s.drop_first())
    }
}

/// The largest `j` with `1 <= j <= k` such that the suffix of `s` of length `j` is a
/// pattern, or 0 when there is none.
pub open spec fn pat_sfx_len(pats: Seq<Seq<u8>>, s: Seq<u8>, k: int) -> int
    decreases k,
{
    if k <= 0 {
        0
    } else if is_pattern(pats, sfx(s, k)) {
        k
    } else {
        pat_sfx_len(pats, s, k - 1)
    }
}

/// The longest proper non-empty suffix of `s` that is a pattern, or the empty
/// string when there is none (the dictionary link of `s`).
pub open spec fn dict_str(pats: Seq<Seq<u8>>, s: Seq<u8>) -> Seq<u8> {
    sfx(s, pat_sfx_len(pats, s, s.len() - 1))
}

/// The sum of the lengths of the patterns.
pub open spec fn total_len(pats: Seq<Seq<u8>>) -> int
    decreases pats.len(),
{
    if pats.len() == 0 {
        0
    } else {
        total_len(pats.drop_last()) + pats.last().len()
    }
}

/// The last `n` items of `s` (all of `s` when it holds no more than `n`).
pub open spec fn keep_last<T>(s: Seq<T>, n: int) -> Seq<T> {
    if s.len() <= n {
        s
    } else {
        s.skip(s.len() - n)
    }
}

/// The pattern the automaton reports in state `w`: `w` itself when it is a
/// pattern, and otherwise its longest proper non-empty suffix that is a
/// pattern (empty when there is none).
pub open spec fn reported(pats: Seq<Seq<u8>>, w: Seq<u8>) -> Seq<u8> {
    if is_pattern(pats, w) {
        w
    } else {
        dict_str(pats, w)
    }
}

/// The automaton reports a match in state `w`: `w` is a pattern or has a
/// non-empty suffix that is one.
pub open spec fn hits(pats: Seq<Seq<u8>>, w: Seq<u8>) -> bool {
    is_pattern(pats, w) || dict_str(pats, w).len() > 0
}

/// The match reported when the automaton, started at `p`, reports one after
/// reading the byte at `i`.
pub open spec fn match_for(pats: Seq<Seq<u8>>, text: Seq<u8>, p: int, i: int) -> Match {
    let r = reported(pats, lts(pats, text.subrange(p, i + 1)));
    Match { start_pos: (i + 1 - r.len()) as u32, pattern_idx: last_idx(pats, r) as u32 }
}

/// The non-overlapping matches of `text` found by an automaton started at `p`
/// that has read up to (not including) position `i`: as soon as a pattern ends
/// at the byte just read, the longest such pattern is reported and the
/// automaton restarts after it.
pub open spec fn nonoverlapping(pats: Seq<Seq<u8>>, text: Seq<u8>, p: int, i: int) -> Seq<Match>
    decreases text.len() - i,
{
    if i < 0 || i >= text.len() || p > i {
        seq![]
    } else if hits(pats, lts(pats, text.subrange(p, i + 1))) {
        seq![match_for(pats, text, p, i)] + nonoverlapping(pats, text, i + 1, i + 1)
    } else {
        nonoverlapping(pats, text, p, i + 1)
    }
}

/// The occurrences of non-empty patterns that are suffixes of `s` of length at
/// most `k`, longest first, each under the last index of its pattern.
pub open spec fn suffix_matches(pats: Seq<Seq<u8>>, s: Seq<u8>, k: int) -> Seq<Match>
    decreases k,
{
    if k <= 0 {
        seq![]
    } else {
        let w = sfx(s, k);
        (if is_pattern(pats, w) {
            seq![Match { start_pos: (s.len() - k) as u32, pattern_idx: last_idx(pats, w) as u32 }]
        } else {
            seq![]
        }) + suffix_matches(pats, s, k - 1)
    }
}

/// All occurrences of non-empty patterns that end with the byte at `i`, longest first.
pub open spec fn ends_at(pats: Seq<Seq<u8>>, text: Seq<u8>, i: int) -> Seq<Match> {
    suffix_matches(pats, text.take(i + 1), i + 1)
}

/// The overlapping matches of `text` that end at position `i` or later: for each
/// end position in turn, the last 32 of those ending there, longest first.
pub open spec fn overlapping(pats: Seq<Seq<u8>>, text: Seq<u8>, i: int) -> Seq<Match>
    decreases text.len() - i,
{
    if i < 0 || i >= text.len() {
        seq![]
    } else {
        keep_last(ends_at(pats, text, i), 32) + overlapping(pats, text, i + 1)
    }
}

// ------------------------------------------------------------------------------------------
// Lemmas
// ------------------------------------------------------------------------------------------

pub proof fn lemma_sfx_of_sfx(s: Seq<u8>, j: int, i: int)
    requires
        0 <= i <= j <= s.len(),
    ensures
        sfx(sfx(s, j), i) == sfx(s, i),
        sfx(s, j).len() == j,
{
    assert(sfx(sfx(s, j), i) =~= sfx(s, i));
}

pub proof fn lemma_pattern_is_trie(pats: Seq<Seq<u8>>, s: Seq<u8>)
    requires
        is_pattern(pats, s),
    ensures
        0 <= last_idx(pats, s) < pats.len(),
        pats[last_idx(pats, s)] == s,
        is_trie_str(pats, s),
    decreases pats.len(),
{
    if pats.last() != s {
        lemma_pattern_is_trie(pats.drop_last(), s);
    }
    let k = last_idx(pats, s);
    assert(s.subrange(0, s.len() as int) =~= s);
    assert(prefix_of(s, pats[k]));
}

pub proof fn lemma_last_idx_bounds(pats: Seq<Seq<u8>>, s: Seq<u8>)
    ensures
        -1 <= last_idx(pats, s) < pats.len(),
        last_idx(pats, s) >= 0 ==> pats[last_idx(pats, s)] == s,
        last_idx(pats, s) < 0 ==> forall|k: int| 0 <= k < pats.len() ==> pats[k] != s,
    decreases pats.len(),
{
    if pats.len() > 0 && pats.last() != s {
        lemma_last_idx_bounds(pats.drop_last(), s);
        assert forall|k: int| 0 <= k < pats.len() && last_idx(pats, s) < 0 implies pats[k] != s by {
            if k < pats.len() - 1 {
                assert(pats.drop_last()[k] == pats[k]);
            }
        }
    }
}

/// Trie strings are closed under taking prefixes.
pub proof fn lemma_trie_prefix_closed(pats: Seq<Seq<u8>>, s: Seq<u8>, n: int)
    requires
        is_trie_str(pats, s),
        0 <= n <= s.len(),
    ensures
        is_trie_str(pats, s.subrange(0, n)),
{
    if n > 0 {
        let k = choose|k: int| 0 <= k < pats.len() && #[trigger] prefix_of(s, pats[k]);
        assert(pats[k].subrange(0, n) =~= s.subrange(0, n));
        assert(prefix_of(s.subrange(0, n), pats[k]));
    }
}

/// Facts about `trie_sfx_len`: it is in range, names a trie suffix, and is the largest one.
pub proof fn lemma_trie_sfx_len(pats: Seq<Seq<u8>>, s: Seq<u8>, k: int)
    requires
        k <= s.len(),
    ensures
        0 <= trie_sfx_len(pats, s, k),
        k >= 0 ==> trie_sfx_len(pats, s, k) <= k,
        is_trie_str(pats, sfx(s, trie_sfx_len(pats, s, k))),
        forall|j: int|
            trie_sfx_len(pats, s, k) < j <= k ==> !is_trie_str(pats, #[trigger] sfx(s, j)),
    decreases k,
{
    if k <= 0 {
        assert(sfx(s, 0).len() == 0);
    } else if !is_trie_str(pats, sfx(s, k)) {
        lemma_trie_sfx_len(pats, s, k - 1);
    }
}

/// Same for `pat_sfx_len`.
pub proof fn lemma_pat_sfx_len(pats: Seq<Seq<u8>>, s: Seq<u8>, k: int)
    requires
        k <= s.len(),
    ensures
        0 <= pat_sfx_len(pats, s, k),
        k >= 0 ==> pat_sfx_len(pats, s, k) <= k,
        pat_sfx_len(pats, s, k) > 0 ==> is_pattern(pats, sfx(s, pat_sfx_len(pats, s, k))),
        forall|j: int|
            pat_sfx_len(pats, s, k) < j <= k ==> !is_pattern(pats, #[trigger] sfx(s, j)),
    decreases k,
{
    if k > 0 && !is_pattern(pats, sfx(s, k)) {
        lemma_pat_sfx_len(pats, s, k - 1);
    }
}

/// The lengths computed on a suffix `t` of `s` agree with those on `s` up to `|t|`.
pub proof fn lemma_sfx_len_of_suffix(pats: Seq<Seq<u8>>, s: Seq<u8>, t: Seq<u8>, k: int)
    requires
        t.len() <= s.len(),
        t == sfx(s, t.len() as int),
        k <= t.len(),
    ensures
        trie_sfx_len(pats, t, k) == trie_sfx_len(pats, s, k),
        pat_sfx_len(pats, t, k) == pat_sfx_len(pats, s, k),
    decreases k,
{
    if k > 0 {
        lemma_sfx_of_sfx(s, t.len() as int, k);
        lemma_sfx_len_of_suffix(pats, s, t, k - 1);
    }
}

/// The state after reading `s` is a suffix of `s` that is a trie string, and no
/// longer suffix of `s` is one.
pub proof fn lemma_lts(pats: Seq<Seq<u8>>, s: Seq<u8>)
    ensures
        lts(pats, s).len() <= s.len(),
        lts(pats, s) == sfx(s, lts(pats, s).len() as int),
        is_trie_str(pats, lts(pats, s)),
        forall|j: int|
            lts(pats, s).len() < j <= s.len() ==> !is_trie_str(pats, #[trigger] sfx(s, j)),
{
    lemma_trie_sfx_len(pats, s, s.len() as int);
    let r = trie_sfx_len(pats, s, s.len() as int);
    lemma_sfx_of_sfx(s, r, r);
    assert(sfx(s, r).len() == r);
}

/// A trie string is its own longest trie suffix.
pub proof fn lemma_lts_of_trie(pats: Seq<Seq<u8>>, s: Seq<u8>)
    requires
        is_trie_str(pats, s),
    ensures
        lts(pats, s) == s,
{
    if s.len() > 0 {
        assert(sfx(s, s.len() as int) =~= s);
    } else {
        assert(sfx(s, 0) =~= s);
    }
}

/// For a non-trie, non-empty `w`, dropping its first byte does not change its state.
pub proof fn lemma_lts_drop_first(pats: Seq<Seq<u8>>, w: Seq<u8>)
    requires
        w.len() > 0,
        !is_trie_str(pats, w),
    ensures
        lts(pats, w) == lts(pats, w.drop_first()),
{
    let t = w.drop_first();
    assert(sfx(w, w.len() as int) =~= w);
    assert(t =~= sfx(w, t.len() as int));
    lemma_sfx_len_of_suffix(pats, w, t, t.len() as int);
    lemma_trie_sfx_len(pats, t, t.len() as int);
    let r = trie_sfx_len(pats, t, t.len() as int);
    lemma_sfx_of_sfx(w, t.len() as int, r);
}

/// The step of the automaton: the state after `x` then `b` depends on `x` only
/// through the state after `x`.
pub proof fn lemma_lts_step(pats: Seq<Seq<u8>>, x: Seq<u8>, b: u8)
    ensures
        lts(pats, x.push(b)) == lts(pats, lts(pats, x).push(b)),
{
    let y = lts(pats, x);
    let w = x.push(b);
    let v = y.push(b);
    lemma_lts(pats, x);
    lemma_lts(pats, w);
    lemma_lts(pats, v);
    let r1 = lts(pats, w).len() as int;
    let r2 = lts(pats, v).len() as int;
    assert(v =~= sfx(w, v.len() as int)) by {
        assert(y =~= sfx(x, y.len() as int));
    }
    // the state after w is no longer than v
    if r1 > v.len() {
        let t = sfx(w, r1);
        lemma_trie_prefix_closed(pats, t, r1 - 1);
        assert(t.subrange(0, r1 - 1) =~= sfx(x, r1 - 1));
        assert(false);
    }
    lemma_sfx_of_sfx(w, v.len() as int, r1);
    lemma_sfx_of_sfx(w, v.len() as int, r2);
    assert(r1 == r2) by {
        if r2 < r1 {
            assert(!is_trie_str(pats, sfx(v, r1)));
        }
        if r1 < r2 {
            assert(!is_trie_str(pats, sfx(w, r2)));
        }
    }
}

/// The failure link of a child: `fail(s b) = step(fail(s), b)` for non-empty `s`.
pub proof fn lemma_fail_step(pats: Seq<Seq<u8>>, s: Seq<u8>, b: u8)
    requires
        s.len() > 0,
    ensures
        fail_str(pats, s.push(b)) == lts(pats, fail_str(pats, s).push(b)),
{
    assert(s.push(b).drop_first() =~= s.drop_first().push(b));
    lemma_lts_step(pats, s.drop_first(), b);
}

/// The transition on a missing trie edge goes where the failure link goes.
pub proof fn lemma_missing_edge(pats: Seq<Seq<u8>>, s: Seq<u8>, b: u8)
    requires
        !is_trie_str(pats, s.push(b)),
    ensures
        s.len() > 0 ==> lts(pats, s.push(b)) == lts(pats, fail_str(pats, s).push(b)),
        s.len() == 0 ==> lts(pats, s.push(b)).len() == 0,
{
    lemma_lts_drop_first(pats, s.push(b));
    if s.len() > 0 {
        lemma_fail_step(pats, s, b);
    } else {
        assert(s.push(b).drop_first() =~= Seq::<u8>::empty());
        lemma_lts(pats, Seq::<u8>::empty());
    }
}

/// The dictionary link of a non-empty string is its failure link if that is a
/// non-empty pattern, and otherwise the dictionary link of the failure link.
pub proof fn lemma_dict_step(pats: Seq<Seq<u8>>, s: Seq<u8>)
    requires
        s.len() > 0,
    ensures
        ({
            let f = fail_str(pats, s);
            dict_str(pats, s) == if f.len() > 0 && is_pattern(pats, f) {
                f
            } else {
                dict_str(pats, f)
            }
        }),
{
    let t = s.drop_first();
    let f = lts(pats, t);
    lemma_lts(pats, t);
    assert(t =~= sfx(s, t.len() as int));
    lemma_sfx_of_sfx(s, t.len() as int, f.len() as int);
    // no pattern suffix of s of a length in (|f|, |s| - 1]
    assert forall|j: int| f.len() < j <= s.len() - 1 implies !is_pattern(pats, #[trigger] sfx(s, j)) by {
        lemma_sfx_of_sfx(s, t.len() as int, j);
        if is_pattern(pats, sfx(s, j)) {
            lemma_pattern_is_trie(pats, sfx(s, j));
            assert(is_trie_str(pats, sfx(t, j)));
        }
    }
    lemma_pat_sfx_skip(pats, s, f.len() as int, s.len() - 1);
    lemma_sfx_len_of_suffix(pats, s, f, f.len() as int);
    lemma_pat_sfx_len(pats, f, f.len() - 1);
    let r = pat_sfx_len(pats, f, f.len() - 1);
    if f.len() > 0 {
        lemma_sfx_of_sfx(s, f.len() as int, r);
        assert(sfx(f, f.len() as int) =~= f);
    } else {
        assert(sfx(s, 0) =~= sfx(f, 0));
    }
}

/// With no pattern suffix of a length in `(a, k]`, the search for one may start at `a`.
pub proof fn lemma_pat_sfx_skip(pats: Seq<Seq<u8>>, s: Seq<u8>, a: int, k: int)
    requires
        0 <= a <= k,
        forall|j: int| a < j <= k ==> !is_pattern(pats, #[trigger] sfx(s, j)),
    ensures
        pat_sfx_len(pats, s, k) == pat_sfx_len(pats, s, a),
    decreases k - a,
{
    if k > a {
        lemma_pat_sfx_skip(pats, s, a, k - 1);
    }
}

} // verus!

verus! {

/// What the automaton reports in state `w` is a suffix of `w` and a pattern.
pub proof fn lemma_reported(pats: Seq<Seq<u8>>, w: Seq<u8>)
    ensures
        dict_str(pats, w).len() < w.len() || w.len() == 0,
        dict_str(pats, w) == sfx(w, dict_str(pats, w).len() as int),
        dict_str(pats, w).len() > 0 ==> is_pattern(pats, dict_str(pats, w)),
        w.len() == 0 ==> dict_str(pats, w).len() == 0,
        reported(pats, w).len() <= w.len(),
        reported(pats, w) == sfx(w, reported(pats, w).len() as int),
        hits(pats, w) ==> is_pattern(pats, reported(pats, w)),
{
    lemma_pat_sfx_len(pats, w, w.len() - 1);
    let r = pat_sfx_len(pats, w, w.len() - 1);
    if w.len() > 0 {
        lemma_sfx_of_sfx(w, r, r);
        assert(sfx(w, w.len() as int) =~= w);
    } else {
        assert(sfx(w, 0) =~= w);
    }
    if !is_pattern(pats, w) && dict_str(pats, w).len() == 0 {
        if w.len() > 0 {
            assert(r == 0);
        }
    }
}

/// With no pattern suffix of a length in `(a, k]`, the suffix matches up to
/// length `k` are those up to length `a`.
pub proof fn lemma_suffix_matches_skip(pats: Seq<Seq<u8>>, s: Seq<u8>, a: int, k: int)
    requires
        0 <= a <= k,
        forall|j: int| a < j <= k ==> !is_pattern(pats, #[trigger] sfx(s, j)),
    ensures
        suffix_matches(pats, s, k) == suffix_matches(pats, s, a),
    decreases k - a,
{
    if k > a {
        lemma_suffix_matches_skip(pats, s, a, k - 1);
        assert(!is_pattern(pats, sfx(s, k)));
        assert(suffix_matches(pats, s, k) =~= suffix_matches(pats, s, k - 1));
    }
}

/// The pattern suffixes of `x` all fit in the automaton state after `x`.
pub proof fn lemma_suffix_matches_of_state(pats: Seq<Seq<u8>>, x: Seq<u8>)
    ensures
        suffix_matches(pats, x, x.len() as int) == suffix_matches(
            pats,
            x,
            lts(pats, x).len() as int,
        ),
{
    lemma_lts(pats, x);
    assert forall|j: int| lts(pats, x).len() < j <= x.len() implies !is_pattern(
        pats,
        #[trigger] sfx(x, j),
    ) by {
        if is_pattern(pats, sfx(x, j)) {
            lemma_pattern_is_trie(pats, sfx(x, j));
        }
    }
    lemma_suffix_matches_skip(pats, x, lts(pats, x).len() as int, x.len() as int);
}

/// Following the dictionary link from the suffix of length `k` of `x` skips no
/// pattern suffix of `x`.
pub proof fn lemma_dict_link_of_suffix(pats: Seq<Seq<u8>>, x: Seq<u8>, k: int)
    requires
        0 < k <= x.len(),
    ensures
        ({
            let d = dict_str(pats, sfx(x, k));
            &&& d.len() < k
            &&& d == sfx(x, d.len() as int)
            &&& suffix_matches(pats, x, k - 1) == suffix_matches(pats, x, d.len() as int)
        }),
{
    let t = sfx(x, k);
    lemma_sfx_of_sfx(x, k, k);
    lemma_sfx_len_of_suffix(pats, x, t, k - 1);
    lemma_pat_sfx_len(pats, x, k - 1);
    let r = pat_sfx_len(pats, x, k - 1);
    lemma_sfx_of_sfx(x, k, r);
    lemma_suffix_matches_skip(pats, x, r, k - 1);
}

} // verus!
