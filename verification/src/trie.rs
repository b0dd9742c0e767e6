//! The trie of the patterns, stored as a flat table of `256` child slots per
//! node, where slot `0` means "no child" (the root is never a child).
use vstd::prelude::*;
use crate::model::{
    is_pattern, is_trie_str, last_idx, lemma_pattern_is_trie, lemma_trie_prefix_closed, prefix_of,
    total_len,
};

verus! {

/// Number of distinct byte values: the width of one row of a table.
pub const ALPHABET_SIZE: usize = 256;

/// Largest number of patterns taken into account; the indices of the patterns
/// taken stay below `u32::MAX`, which marks "no pattern".
pub const MAX_PATTERNS: usize = 4294967294;

/// The entry of row `u`, column `b` of a table of `256` entries per row.
pub open spec fn cell(t: Seq<u32>, u: int, b: int) -> int {
    t[u * 256 + b] as int
}

pub proof fn lemma_cell_index(n: int, u: int, b: int)
    requires
        0 <= u < n,
        0 <= b < 256,
    ensures
        0 <= u * 256 + b < n * 256,
{
}

/// Two cells of a table are distinct positions when their rows or columns differ.
pub proof fn lemma_cell_distinct(u: int, b: int, v: int, c: int)
    requires
        0 <= b < 256,
        0 <= c < 256,
        u != v || b != c,
    ensures
        u * 256 + b != v * 256 + c,
{
    if u != v {
        assert(u * 256 + b != v * 256 + c) by (nonlinear_arith)
            requires
                u != v,
                0 <= b < 256,
                0 <= c < 256,
        ;
    }
}

/// The patterns taken into account from the patterns given.
pub open spec fn included(ps: Seq<Seq<u8>>) -> Seq<Seq<u8>> {
    if ps.len() <= MAX_PATTERNS {
        ps
    } else {
        ps.take(MAX_PATTERNS as int)
    }
}

/// Every pattern given is taken into account, in its place, as long as there
/// are at most `u32::MAX - 1` of them; beyond that only the first
/// `u32::MAX - 1` are.
pub proof fn law_included_keeps_patterns(ps: Seq<Seq<u8>>)
    ensures
        ps.len() <= u32::MAX - 1 ==> included(ps) == ps,
        included(ps).len() == if ps.len() <= u32::MAX - 1 {
            ps.len() as int
        } else {
            u32::MAX - 1
        },
        forall|k: int| 0 <= k < included(ps).len() ==> #[trigger] included(ps)[k] == ps[k],
{
}

/// What the output table holds for a node labelled `s`: the index of the last
/// pattern equal to `s`, or `u32::MAX` when `s` is no pattern.
pub open spec fn output_of(pats: Seq<Seq<u8>>, s: Seq<u8>) -> u32 {
    if is_pattern(pats, s) {
        last_idx(pats, s) as u32
    } else {
        u32::MAX
    }
}

/// The node labels `strs` and their inverse `node_of` describe a trie table `t`
/// whose node labels are exactly the strings `s` with `in_dom(s)`.
pub open spec fn trie_wf(
    t: Seq<u32>,
    strs: Seq<Seq<u8>>,
    node_of: Map<Seq<u8>, int>,
) -> bool {
    let n = strs.len();
    &&& n >= 1
    &&& t.len() == n * 256
    &&& strs[0].len() == 0
    &&& forall|s: Seq<u8>|
        #[trigger] node_of.dom().contains(s) ==> 0 <= node_of[s] < n && strs[node_of[s]] == s
    &&& forall|v: int| 0 <= v < n ==> #[trigger] node_of.dom().contains(strs[v]) && node_of[strs[v]] == v
    &&& forall|u: int, b: int|
        0 <= u < n && 0 <= b < 256 ==> {
            let c = #[trigger] cell(t, u, b);
            &&& c != 0 ==> c < n && strs[c] == strs[u].push(b as u8)
            &&& c == 0 ==> !node_of.dom().contains(strs[u].push(b as u8))
        }
}

/// The labels of the trie of `pats` are exactly its trie strings.
pub open spec fn trie_of(
    pats: Seq<Seq<u8>>,
    t: Seq<u32>,
    strs: Seq<Seq<u8>>,
    node_of: Map<Seq<u8>, int>,
) -> bool {
    &&& trie_wf(t, strs, node_of)
    &&& forall|s: Seq<u8>| #[trigger] node_of.dom().contains(s) <==> is_trie_str(pats, s)
}

/// Node labels during the insertion of pattern `k`, of which `j` bytes are in.
spec fn in_dom_during(pats: Seq<Seq<u8>>, k: int, j: int, s: Seq<u8>) -> bool {
    is_trie_str(pats.take(k), s) || (s.len() <= j && prefix_of(s, pats[k]))
}

proof fn lemma_trie_take_next(pats: Seq<Seq<u8>>, k: int, s: Seq<u8>)
    requires
        0 <= k < pats.len(),
    ensures
        is_trie_str(pats.take(k + 1), s) <==> in_dom_during(pats, k, pats[k].len() as int, s),
{
    if is_trie_str(pats.take(k + 1), s) && s.len() > 0 {
        let i = choose|i: int| 0 <= i < k + 1 && #[trigger] prefix_of(s, pats.take(k + 1)[i]);
        if i < k {
            assert(prefix_of(s, pats.take(k)[i]));
        }
    }
    if is_trie_str(pats.take(k), s) && s.len() > 0 {
        let i = choose|i: int| 0 <= i < k && #[trigger] prefix_of(s, pats.take(k)[i]);
        assert(prefix_of(s, pats.take(k + 1)[i]));
    }
    if prefix_of(s, pats[k]) {
        assert(prefix_of(s, pats.take(k + 1)[k]));
    }
}

proof fn lemma_output_take_next(pats: Seq<Seq<u8>>, k: int, s: Seq<u8>)
    requires
        0 <= k < pats.len(),
        k < MAX_PATTERNS,
    ensures
        output_of(pats.take(k + 1), s) == if s == pats[k] {
            k as u32
        } else {
            output_of(pats.take(k), s)
        },
{
    assert(pats.take(k + 1).drop_last() =~= pats.take(k));
}

proof fn lemma_total_len_take(pats: Seq<Seq<u8>>, k: int)
    requires
        0 <= k < pats.len(),
    ensures
        total_len(pats.take(k + 1)) == total_len(pats.take(k)) + pats[k].len(),
{
    assert(pats.take(k + 1).drop_last() =~= pats.take(k));
}

proof fn lemma_total_len_mono(pats: Seq<Seq<u8>>, k: int)
    requires
        0 <= k <= pats.len(),
    ensures
        total_len(pats.take(k)) <= total_len(pats),
    decreases pats.len() - k,
{
    if k < pats.len() {
        lemma_total_len_take(pats, k);
        lemma_total_len_mono(pats, k + 1);
    } else {
        assert(pats.take(k) =~= pats);
    }
}

/// Builds the trie of the first `n_pats` patterns, with the output table (for
/// each node, the last pattern it spells) and the pattern lengths.
pub fn build_trie(patterns: &[&[u8]], n_pats: usize) -> (r: (
    Vec<u32>,
    Vec<u32>,
    Vec<u32>,
    Ghost<Seq<Seq<u8>>>,
    Ghost<Map<Seq<u8>, int>>,
))
    requires
        n_pats <= patterns@.len(),
        n_pats <= MAX_PATTERNS,
        total_len(patterns@.map_values(|p: &[u8]| p@).take(n_pats as int)) < u32::MAX,
    ensures
        ({
            let pats = patterns@.map_values(|p: &[u8]| p@).take(n_pats as int);
            let (t, out, lens, strs, node_of) = r;
            &&& trie_of(pats, t@, strs@, node_of@)
            &&& strs@.len() <= u32::MAX
            &&& out@.len() == strs@.len()
            &&& forall|u: int| 0 <= u < strs@.len() ==> #[trigger] out@[u] == output_of(pats, strs@[u])
            &&& lens@.len() == pats.len()
            &&& forall|k: int| 0 <= k < pats.len() ==> #[trigger] lens@[k] == pats[k].len()
        }),
{
    let ghost all = patterns@.map_values(|p: &[u8]| p@);
    let ghost pats = all.take(n_pats as int);
    let mut trie: Vec<u32> = Vec::new();
    let mut i: usize = 0;
    while i < ALPHABET_SIZE
        invariant
            i <= 256,
            trie@.len() == i,
            forall|k: int| 0 <= k < i ==> trie@[k] == 0,
        decreases 256 - i,
    {
        trie.push(0);
        i += 1;
    }
    let mut output: Vec<u32> = Vec::new();
    output.push(u32::MAX);
    let mut lengths: Vec<u32> = Vec::new();
    let ghost mut strs: Seq<Seq<u8>> = seq![Seq::<u8>::empty()];
    let ghost mut node_of: Map<Seq<u8>, int> = map![Seq::<u8>::empty() => 0int];
    proof {
        assert forall|u: int, b: int| 0 <= u < 1 && 0 <= b < 256 implies {
            let c = #[trigger] cell(trie@, u, b);
            &&& c != 0 ==> c < 1 && strs[c] == strs[u].push(b as u8)
            &&& c == 0 ==> !node_of.dom().contains(strs[u].push(b as u8))
        } by {
            assert(strs[u].push(b as u8).len() == 1);
        }
        assert forall|s: Seq<u8>| #[trigger] node_of.dom().contains(s) <==> is_trie_str(pats.take(0), s) by {
            if s.len() == 0 {
                assert(s =~= Seq::<u8>::empty());
            }
        }
        lemma_total_len_mono(pats, 0);
        assert(pats.take(0).len() == 0);
    }
    let mut idx: usize = 0;
    while idx < n_pats
        invariant
            n_pats <= patterns@.len(),
            n_pats <= MAX_PATTERNS,
            all == patterns@.map_values(|p: &[u8]| p@),
            pats == all.take(n_pats as int),
            total_len(pats) < u32::MAX,
            idx <= n_pats,
            trie_of(pats.take(idx as int), trie@, strs, node_of),
            output@.len() == strs.len(),
            forall|u: int| 0 <= u < strs.len() ==> #[trigger] output@[u] == output_of(pats.take(idx as int), strs[u]),
            lengths@.len() == idx,
            forall|k: int| 0 <= k < idx ==> #[trigger] lengths@[k] == pats[k].len(),
            strs.len() <= 1 + total_len(pats.take(idx as int)),
        decreases n_pats - idx,
    {
        let pattern: &[u8] = patterns[idx];
        let ghost pat = pattern@;
        assert(pat == pats[idx as int]);
        proof {
            lemma_total_len_take(pats, idx as int);
            lemma_total_len_mono(pats, idx + 1);
        }
        lengths.push(pattern.len() as u32);
        let mut curr: usize = 0;
        let mut j: usize = 0;
        assert(pat.take(0) =~= strs[0]);
        assert forall|s: Seq<u8>| #[trigger] node_of.dom().contains(s) <==> in_dom_during(pats, idx as int, 0, s) by {
            if s.len() == 0 {
                assert(is_trie_str(pats.take(idx as int), s));
            }
        }
        while j < pattern.len()
            invariant
                pats == all.take(n_pats as int),
                total_len(pats) < u32::MAX,
                idx < n_pats,
                n_pats <= MAX_PATTERNS,
                pat == pats[idx as int],
                pat == pattern@,
                j <= pat.len(),
                trie_wf(trie@, strs, node_of),
                forall|s: Seq<u8>| #[trigger] node_of.dom().contains(s) <==> in_dom_during(pats, idx as int, j as int, s),
                curr < strs.len(),
                strs[curr as int] == pat.take(j as int),
                output@.len() == strs.len(),
                forall|u: int| 0 <= u < strs.len() ==> #[trigger] output@[u] == output_of(pats.take(idx as int), strs[u]),
                strs.len() <= 1 + total_len(pats.take(idx as int)) + j,
                total_len(pats.take(idx as int)) + pat.len() <= total_len(pats),
            decreases pat.len() - j,
        {
            let b = pattern[j];
            let ghost w = pat.take(j + 1);
            assert(w =~= strs[curr as int].push(b));
            proof {
                lemma_cell_index(strs.len() as int, curr as int, b as int);
            }
            let tl = trie.len();
            let k = curr * ALPHABET_SIZE + b as usize;
            assert(trie@[k as int] == cell(trie@, curr as int, b as int));
            if trie[k] == 0 {
                // a new node labelled `w`
                let n = output.len();
                assert(!node_of.dom().contains(w));
                let ghost old_trie = trie@;
                let ghost old_strs = strs;
                let ghost old_node_of = node_of;
                let ghost old_out = output@;
                trie.set(k, n as u32);
                let mut c: usize = 0;
                while c < ALPHABET_SIZE
                    invariant
                        c <= 256,
                        trie@.len() == old_trie.len() + c,
                        old_trie.len() == n * 256,
                        forall|x: int| 0 <= x < old_trie.len() ==> #[trigger] trie@[x] == if x == k {
                            n as u32
                        } else {
                            old_trie[x]
                        },
                        forall|x: int| old_trie.len() <= x < trie@.len() ==> #[trigger] trie@[x] == 0,
                    decreases 256 - c,
                {
                    trie.push(0);
                    c += 1;
                }
                output.push(u32::MAX);
                proof {
                    strs = strs.push(w);
                    node_of = node_of.insert(w, n as int);
                    // nothing spelled by an earlier pattern equals the new label
                    if is_pattern(pats.take(idx as int), w) {
                        lemma_pattern_is_trie(pats.take(idx as int), w);
                        assert(old_node_of.dom().contains(w));
                    }
                    assert forall|s: Seq<u8>| #[trigger] node_of.dom().contains(s) implies 0 <= node_of[s] < strs.len() && strs[node_of[s]] == s by {
                        if s != w {
                            assert(old_node_of.dom().contains(s));
                        }
                    }
                    assert forall|v: int| 0 <= v < strs.len() implies #[trigger] node_of.dom().contains(strs[v]) && node_of[strs[v]] == v by {
                        if v < n {
                            assert(old_node_of.dom().contains(old_strs[v]));
                            assert(old_strs[v] != w);
                        }
                    }
                    assert forall|u: int, bb: int| 0 <= u < strs.len() && 0 <= bb < 256 implies {
                        let cc = #[trigger] cell(trie@, u, bb);
                        &&& cc != 0 ==> cc < strs.len() && strs[cc] == strs[u].push(bb as u8)
                        &&& cc == 0 ==> !node_of.dom().contains(strs[u].push(bb as u8))
                    } by {
                        lemma_cell_index(strs.len() as int, u, bb);
                        if u < n {
                            lemma_cell_index(n as int, u, bb);
                            if u != curr || bb != b {
                                lemma_cell_distinct(u, bb, curr as int, b as int);
                                assert(cell(trie@, u, bb) == cell(old_trie, u, bb));
                                let cc = cell(old_trie, u, bb);
                                assert(old_strs[u] == strs[u]);
                                if cc != 0 {
                                    assert(strs[cc] == old_strs[cc]);
                                } else if strs[u].push(bb as u8) == w {
                                    assert(old_strs[u] =~= w.drop_last());
                                    assert(old_strs[curr as int] =~= w.drop_last());
                                    assert(old_node_of.dom().contains(old_strs[u]));
                                    assert(old_node_of.dom().contains(old_strs[curr as int]));
                                    assert(u == curr);
                                    assert(w[j as int] == b);
                                    assert(strs[u].push(bb as u8)[j as int] == bb as u8);
                                    assert(false);
                                }
                            } else {
                                assert(cell(trie@, u, bb) == n);
                            }
                        } else {
                            assert(u == n);
                            assert(u * 256 + bb >= old_trie.len());
                            let t = strs[u].push(bb as u8);
                            if node_of.dom().contains(t) {
                                assert(t != w);
                                assert(old_node_of.dom().contains(t));
                                if is_trie_str(pats.take(idx as int), t) {
                                    lemma_trie_prefix_closed(pats.take(idx as int), t, j + 1);
                                    assert(t.subrange(0, j + 1) =~= w);
                                } else {
                                    assert(t.len() == j + 2);
                                }
                            }
                        }
                    }
                    assert forall|s: Seq<u8>| #[trigger] node_of.dom().contains(s) <==> in_dom_during(pats, idx as int, j + 1, s) by {
                        if s.len() <= j + 1 && prefix_of(s, pat) && s.len() > j {
                            assert(s =~= w);
                        }
                        if s == w {
                            assert(prefix_of(s, pat));
                        }
                    }
                    assert forall|u: int| 0 <= u < strs.len() implies #[trigger] output@[u] == output_of(pats.take(idx as int), strs[u]) by {
                        if u < n {
                            assert(output@[u] == old_out[u]);
                        }
                    }
                }
                curr = n;
            } else {
                let next = trie[k] as usize;
                proof {
                    assert(cell(trie@, curr as int, b as int) == next);
                    assert forall|s: Seq<u8>| #[trigger] node_of.dom().contains(s) <==> in_dom_during(pats, idx as int, j + 1, s) by {
                        if s.len() <= j + 1 && prefix_of(s, pat) && s.len() > j {
                            assert(s =~= w);
                            assert(node_of.dom().contains(strs[next as int]));
                        }
                    }
                }
                curr = next;
            }
            j += 1;
        }
        proof {
            assert(pat.take(pat.len() as int) =~= pat);
            assert forall|s: Seq<u8>| #[trigger] node_of.dom().contains(s) <==> is_trie_str(pats.take(idx + 1), s) by {
                lemma_trie_take_next(pats, idx as int, s);
            }
        }
        let ghost before_out = output@;
        output.set(curr, idx as u32);
        proof {
            assert forall|u: int| 0 <= u < strs.len() implies #[trigger] output@[u] == output_of(pats.take(idx + 1), strs[u]) by {
                lemma_output_take_next(pats, idx as int, strs[u]);
                if u != curr {
                    assert(node_of.dom().contains(strs[u]));
                    assert(node_of.dom().contains(strs[curr as int]));
                    assert(strs[u] != pat);
                }
            }
        }
        idx += 1;
    }
    assert(pats.take(n_pats as int) =~= pats);
    (trie, output, lengths, Ghost(strs), Ghost(node_of))
}

} // verus!
