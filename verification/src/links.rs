//! Breadth-first computation, over the trie, of the failure links, the
//! dictionary links and the full transition table of the automaton.
use vstd::prelude::*;
use crate::model::{
    dict_str, fail_str, is_pattern, is_trie_str, lemma_dict_step, lemma_fail_step,
    lemma_last_idx_bounds, lemma_lts_of_trie, lemma_missing_edge, lemma_pat_sfx_len,
    lemma_trie_sfx_len, lts,
};
use crate::trie::{
    cell, lemma_cell_distinct, lemma_cell_index, output_of, trie_of, ALPHABET_SIZE, MAX_PATTERNS,
};

verus! {

/// The node whose label is the label of `v` without its last byte.
pub open spec fn parent(strs: Seq<Seq<u8>>, node_of: Map<Seq<u8>, int>, v: int) -> int {
    node_of[strs[v].drop_last()]
}

/// The number of `false` entries.
pub open spec fn count_false(s: Seq<bool>) -> nat
    decreases s.len(),
{
    if s.len() == 0 {
        0
    } else {
        count_false(s.drop_last()) + if s.last() {
            0nat
        } else {
            1nat
        }
    }
}

proof fn lemma_count_false_update(s: Seq<bool>, i: int)
    requires
        0 <= i < s.len(),
        !s[i],
    ensures
        count_false(s.update(i, true)) + 1 == count_false(s),
    decreases s.len(),
{
    if i < s.len() - 1 {
        assert(s.update(i, true).drop_last() =~= s.drop_last().update(i, true));
        lemma_count_false_update(s.drop_last(), i);
    } else {
        assert(s.update(i, true).drop_last() =~= s.drop_last());
    }
}

/// The failure and dictionary links stored for node `v` are right.
pub open spec fn links_ok(
    pats: Seq<Seq<u8>>,
    strs: Seq<Seq<u8>>,
    fail: Seq<u32>,
    dict: Seq<u32>,
    v: int,
) -> bool {
    &&& (fail[v] as int) < strs.len()
    &&& strs[fail[v] as int] == fail_str(pats, strs[v])
    &&& (dict[v] as int) < strs.len()
    &&& strs[dict[v] as int] == dict_str(pats, strs[v])
}

/// The dictionary link stored for node `u` is right.
pub open spec fn dict_ok(pats: Seq<Seq<u8>>, strs: Seq<Seq<u8>>, dict: Seq<u32>, u: int) -> bool {
    &&& (dict[u] as int) < strs.len()
    &&& strs[dict[u] as int] == dict_str(pats, strs[u])
}

/// The transition stored for node `u` and byte `b` is right.
pub open spec fn row_ok(pats: Seq<Seq<u8>>, strs: Seq<Seq<u8>>, trans: Seq<u32>, u: int, b: int) -> bool {
    &&& 0 <= cell(trans, u, b) < strs.len()
    &&& strs[cell(trans, u, b)] == lts(pats, strs[u].push(b as u8))
}

/// Facts about the parent of a non-root node.
proof fn lemma_parent(
    pats: Seq<Seq<u8>>,
    t: Seq<u32>,
    strs: Seq<Seq<u8>>,
    node_of: Map<Seq<u8>, int>,
    v: int,
)
    requires
        trie_of(pats, t, strs, node_of),
        0 < v < strs.len(),
    ensures
        strs[v].len() > 0,
        0 <= parent(strs, node_of, v) < strs.len(),
        strs[parent(strs, node_of, v)] == strs[v].drop_last(),
        strs[parent(strs, node_of, v)].len() + 1 == strs[v].len(),
        cell(t, parent(strs, node_of, v), strs[v].last() as int) == v,
        strs[v] == strs[parent(strs, node_of, v)].push(strs[v].last()),
{
    assert(node_of.dom().contains(strs[v]));
    assert(node_of.dom().contains(strs[0]));
    if strs[v].len() == 0 {
        assert(strs[v] =~= strs[0]);
    }
    lemma_trie_prefix_closed_last(pats, strs[v]);
    let p = parent(strs, node_of, v);
    assert(node_of.dom().contains(strs[v].drop_last()));
    let b = strs[v].last();
    assert(strs[v] =~= strs[p].push(b));
    lemma_cell_index(strs.len() as int, p, b as int);
    let c = cell(t, p, b as int);
    if c == 0 {
        assert(!node_of.dom().contains(strs[p].push(b as int as u8)));
        assert(false);
    }
    assert(strs[c] == strs[v]);
    assert(node_of.dom().contains(strs[c]));
}

proof fn lemma_trie_prefix_closed_last(pats: Seq<Seq<u8>>, s: Seq<u8>)
    requires
        is_trie_str(pats, s),
        s.len() > 0,
    ensures
        is_trie_str(pats, s.drop_last()),
{
    crate::model::lemma_trie_prefix_closed(pats, s, s.len() - 1);
}

/// Every node label is a trie string.
proof fn lemma_label_is_trie(
    pats: Seq<Seq<u8>>,
    t: Seq<u32>,
    strs: Seq<Seq<u8>>,
    node_of: Map<Seq<u8>, int>,
    v: int,
)
    requires
        trie_of(pats, t, strs, node_of),
        0 <= v < strs.len(),
    ensures
        is_trie_str(pats, strs[v]),
{
    assert(node_of.dom().contains(strs[v]));
}

/// A child's parent is the node it hangs from.
proof fn lemma_child_parent(
    pats: Seq<Seq<u8>>,
    t: Seq<u32>,
    strs: Seq<Seq<u8>>,
    node_of: Map<Seq<u8>, int>,
    u: int,
    b: int,
)
    requires
        trie_of(pats, t, strs, node_of),
        0 <= u < strs.len(),
        0 <= b < 256,
        cell(t, u, b) != 0,
    ensures
        0 < cell(t, u, b) < strs.len(),
        parent(strs, node_of, cell(t, u, b)) == u,
        strs[cell(t, u, b)].last() == b as u8,
        strs[cell(t, u, b)].len() == strs[u].len() + 1,
{
    let v = cell(t, u, b);
    assert(strs[v].drop_last() =~= strs[u]);
    assert(node_of.dom().contains(strs[u]));
}

/// Two distinct nodes have distinct labels.
proof fn lemma_labels_distinct(
    pats: Seq<Seq<u8>>,
    t: Seq<u32>,
    strs: Seq<Seq<u8>>,
    node_of: Map<Seq<u8>, int>,
    v: int,
    w: int,
)
    requires
        trie_of(pats, t, strs, node_of),
        0 <= v < strs.len(),
        0 <= w < strs.len(),
        strs[v] == strs[w],
    ensures
        v == w,
{
    assert(node_of.dom().contains(strs[v]));
    assert(node_of.dom().contains(strs[w]));
}

/// The links of the root and of its children.
proof fn lemma_shallow_links(pats: Seq<Seq<u8>>, s: Seq<u8>)
    requires
        s.len() <= 1,
    ensures
        fail_str(pats, s).len() == 0,
        dict_str(pats, s).len() == 0,
{
    if s.len() == 1 {
        lemma_trie_sfx_len(pats, s.drop_first(), 0);
    }
    lemma_pat_sfx_len(pats, s, s.len() - 1);
}

/// Once nothing is queued, every node has been processed.
proof fn lemma_all_done(
    pats: Seq<Seq<u8>>,
    t: Seq<u32>,
    strs: Seq<Seq<u8>>,
    node_of: Map<Seq<u8>, int>,
    done: Seq<bool>,
    w: int,
)
    requires
        trie_of(pats, t, strs, node_of),
        done.len() == strs.len(),
        done[0],
        forall|x: int|
            #![trigger done[x]]
            0 < x < strs.len() && done[parent(strs, node_of, x)] ==> done[x],
        0 <= w < strs.len(),
    ensures
        done[w],
    decreases strs[w].len(),
{
    if w != 0 {
        lemma_parent(pats, t, strs, node_of, w);
        lemma_all_done(pats, t, strs, node_of, done, parent(strs, node_of, w));
        assert(done[w]);
    }
}

fn zeros(n: usize) -> (v: Vec<u32>)
    ensures
        v@.len() == n,
        forall|i: int| 0 <= i < n ==> #[trigger] v@[i] == 0,
{
    let mut v: Vec<u32> = Vec::new();
    let mut i: usize = 0;
    while i < n
        invariant
            i <= n,
            v@.len() == i,
            forall|k: int| 0 <= k < i ==> #[trigger] v@[k] == 0,
        decreases n - i,
    {
        v.push(0);
        i += 1;
    }
    v
}

/// Computes the transition table and the dictionary links of the automaton
/// of the trie `t`.
pub fn build_links(
    t: &Vec<u32>,
    output: &Vec<u32>,
    Ghost(pats): Ghost<Seq<Seq<u8>>>,
    Ghost(strs): Ghost<Seq<Seq<u8>>>,
    Ghost(node_of): Ghost<Map<Seq<u8>, int>>,
) -> (r: (Vec<u32>, Vec<u32>))
    requires
        trie_of(pats, t@, strs, node_of),
        pats.len() <= MAX_PATTERNS,
        strs.len() <= u32::MAX,
        output@.len() == strs.len(),
        forall|u: int| 0 <= u < strs.len() ==> #[trigger] output@[u] == output_of(pats, strs[u]),
    ensures
        r.0@.len() == t@.len(),
        r.1@.len() == strs.len(),
        forall|u: int, b: int|
            0 <= u < strs.len() && 0 <= b < 256 ==> #[trigger] row_ok(pats, strs, r.0@, u, b),
        forall|u: int| 0 <= u < strs.len() ==> #[trigger] dict_ok(pats, strs, r.1@, u),
{
    let n = output.len();
    let tl = t.len();
    let mut fail = zeros(n);
    let mut dict = zeros(n);
    let mut trans = zeros(tl);
    let mut queue: std::collections::VecDeque<u32> = std::collections::VecDeque::new();

    // the root: its children, whose links all point to the root
    let mut b: usize = 0;
    while b < ALPHABET_SIZE
        invariant
            trie_of(pats, t@, strs, node_of),
            n == strs.len(),
            tl == t@.len(),
            b <= 256,
            trans@.len() == tl,
            forall|c: int| 0 <= c < b ==> #[trigger] row_ok(pats, strs, trans@, 0, c),
            forall|x: int| b <= x < tl ==> #[trigger] trans@[x] == 0,
            forall|i: int|
                0 <= i < queue@.len() ==> {
                    let q = #[trigger] queue@[i] as int;
                    &&& 0 < q < n
                    &&& strs[q].len() == 1
                    &&& parent(strs, node_of, q) == 0
                    &&& strs[q][0] < b
                },
            forall|w: int|
                0 < w < n && strs[w].len() == 1 && strs[w][0] < b ==> #[trigger] queue@.contains(
                    w as u32,
                ),
            queue@.no_duplicates(),
        decreases 256 - b,
    {
        let child = t[b];
        proof {
            lemma_cell_index(n as int, 0, b as int);
            assert(t@[b as int] == cell(t@, 0, b as int));
            assert(strs[0].push(b as u8) =~= seq![b as u8]);
        }
        if child > 0 {
            proof {
                lemma_child_parent(pats, t@, strs, node_of, 0, b as int);
                lemma_label_is_trie(pats, t@, strs, node_of, child as int);
                lemma_lts_of_trie(pats, strs[child as int]);
            }
            let ghost before = queue@;
            let ghost old_trans = trans@;
            trans.set(b, child);
            queue.push_back(child);
            proof {
                assert(row_ok(pats, strs, trans@, 0, b as int));
                assert forall|c: int| 0 <= c < b + 1 implies #[trigger] row_ok(pats, strs, trans@, 0, c) by {
                    if c < b {
                        assert(row_ok(pats, strs, old_trans, 0, c));
                        assert(cell(trans@, 0, c) == cell(old_trans, 0, c));
                    }
                }
                assert forall|w: int|
                    0 < w < n && strs[w].len() == 1 && strs[w][0] < b + 1 implies #[trigger] queue@.contains(
                    w as u32,
                ) by {
                    if strs[w][0] == b {
                        assert(strs[w] =~= strs[child as int]);
                        lemma_labels_distinct(pats, t@, strs, node_of, w, child as int);
                        assert(queue@[before.len() as int] == child);
                    } else {
                        assert(before.contains(w as u32));
                        let i = choose|i: int| 0 <= i < before.len() && before[i] == w as u32;
                        assert(queue@[i] == w as u32);
                    }
                }
                assert forall|i: int, j: int|
                    0 <= i < queue@.len() && 0 <= j < queue@.len() && i != j implies queue@[i]
                    != queue@[j] by {
                    if i < before.len() && j < before.len() {
                    } else if i < before.len() {
                        assert(strs[queue@[i] as int][0] < b);
                    } else if j < before.len() {
                        assert(strs[queue@[j] as int][0] < b);
                    }
                }
            }
        } else {
            proof {
                crate::trie::lemma_cell_index(n as int, 0, b as int);
                assert(!node_of.dom().contains(strs[0].push(b as u8)));
                assert(!is_trie_str(pats, strs[0].push(b as u8)));
                lemma_missing_edge(pats, strs[0], b as u8);
                assert(strs[0] =~= lts(pats, strs[0].push(b as u8)));
                assert(row_ok(pats, strs, trans@, 0, b as int));
                assert forall|w: int|
                    0 < w < n && strs[w].len() == 1 && strs[w][0] < b + 1 implies #[trigger] queue@.contains(
                    w as u32,
                ) by {
                    if strs[w][0] == b {
                        assert(strs[w] =~= strs[0].push(b as u8));
                        assert(node_of.dom().contains(strs[w]));
                    }
                }
            }
        }
        b += 1;
    }

    let ghost mut done: Seq<bool> = Seq::new(n as nat, |i: int| i == 0);
    let ghost mut d: int = 0;
    proof {
        assert forall|v: int|
            0 <= v < n && (v == 0 || done[parent(strs, node_of, v)]) implies #[trigger] links_ok(
            pats,
            strs,
            fail@,
            dict@,
            v,
        ) by {
            if v != 0 {
                lemma_parent(pats, t@, strs, node_of, v);
            }
            lemma_shallow_links(pats, strs[v]);
            assert(strs[0] =~= fail_str(pats, strs[v]));
            assert(strs[0] =~= dict_str(pats, strs[v]));
        }
        assert forall|w: int|
            #![trigger done[w]]
            0 < w < n && done[parent(strs, node_of, w)] && !done[w] implies queue@.contains(
            w as u32,
        ) by {
            lemma_parent(pats, t@, strs, node_of, w);
            assert(strs[w].len() == 1);
            assert(strs[w][0] < 256);
            assert(queue@.contains(w as u32));
        }
    }

    loop
        invariant
            trie_of(pats, t@, strs, node_of),
            pats.len() <= MAX_PATTERNS,
            output@.len() == strs.len(),
            forall|u: int| 0 <= u < strs.len() ==> #[trigger] output@[u] == output_of(pats, strs[u]),
            n == strs.len(),
            n <= u32::MAX,
            tl == t@.len(),
            fail@.len() == n,
            dict@.len() == n,
            trans@.len() == tl,
            done.len() == n,
            done[0],
            0 <= d,
            forall|v: int|
                0 <= v < n && (v == 0 || done[parent(strs, node_of, v)]) ==> #[trigger] links_ok(
                    pats,
                    strs,
                    fail@,
                    dict@,
                    v,
                ),
            forall|u: int, c: int|
                0 <= u < n && 0 <= c < 256 && done[u] ==> #[trigger] row_ok(pats, strs, trans@, u, c),
            forall|w: int| #![trigger done[w]] 0 <= w < n && strs[w].len() < d ==> done[w],
            forall|w: int| #![trigger done[w]] 0 <= w < n && done[w] ==> strs[w].len() <= d,
            forall|i: int|
                0 <= i < queue@.len() ==> {
                    let q = #[trigger] queue@[i] as int;
                    &&& 0 < q < n
                    &&& d <= strs[q].len() <= d + 1
                    &&& done[parent(strs, node_of, q)]
                    &&& !done[q]
                },
            forall|i: int, j: int|
                0 <= i < j < queue@.len() ==> strs[#[trigger] queue@[i] as int].len() <= strs[
                    #[trigger] queue@[j] as int].len(),
            queue@.no_duplicates(),
            forall|w: int|
                #![trigger done[w]]
                0 < w < n && done[parent(strs, node_of, w)] && !done[w] ==> queue@.contains(
                    w as u32,
                ),
        ensures
            trie_of(pats, t@, strs, node_of),
            n == strs.len(),
            dict@.len() == n,
            trans@.len() == tl,
            done.len() == n,
            done[0],
            forall|v: int|
                0 <= v < n && (v == 0 || done[parent(strs, node_of, v)]) ==> #[trigger] links_ok(
                    pats,
                    strs,
                    fail@,
                    dict@,
                    v,
                ),
            forall|u: int, c: int|
                0 <= u < n && 0 <= c < 256 && done[u] ==> #[trigger] row_ok(pats, strs, trans@, u, c),
            forall|w: int|
                #![trigger done[w]]
                0 < w < n && done[parent(strs, node_of, w)] ==> done[w],
        decreases count_false(done) * 257 + queue@.len(),
    {
        let ghost q0 = queue@;
        let next = queue.pop_front();
        match next {
            None => {
                proof {
                    assert forall|w: int|
                        #![trigger done[w]]
                        0 < w < n && done[parent(strs, node_of, w)] implies done[w] by {
                        if !done[w] {
                            assert(q0.contains(w as u32));
                        }
                    }
                }
                break ;
            },
            Some(uu) => {
                let u = uu as usize;
                let ghost q1 = queue@;
                assert(q0[0] == uu);
                proof {
                    // move on to the next level once its first node comes out
                    if strs[u as int].len() > d {
                        assert forall|w: int|
                            #![trigger done[w]]
                            0 <= w < n && strs[w].len() < d + 1 implies done[w] by {
                            if strs[w].len() == d && !done[w] {
                                if w == 0 {
                                } else {
                                    lemma_parent(pats, t@, strs, node_of, w);
                                    assert(done[parent(strs, node_of, w)]);
                                    assert(q0.contains(w as u32));
                                    let i = choose|i: int| 0 <= i < q0.len() && q0[i] == w as u32;
                                    if i > 0 {
                                        assert(strs[q0[0] as int].len() <= strs[q0[i] as int].len());
                                    }
                                }
                            }
                        }
                        d = d + 1;
                    }
                    lemma_parent(pats, t@, strs, node_of, u as int);
                    assert(links_ok(pats, strs, fail@, dict@, u as int));
                }
                let f = fail[u] as usize;
                proof {
                    // the failure target is shallower, hence processed
                    lemma_trie_sfx_len(pats, strs[u as int].drop_first(), strs[u as int].len() - 1);
                    assert(strs[f as int].len() < d);
                    assert(done[f as int]);
                    assert(strs[u as int].len() > 0);
                    assert(q1 =~= q0.subrange(1, q0.len() as int));
                    assert forall|i: int| 0 <= i < q1.len() implies #[trigger] q1[i] != uu by {
                        assert(q0[i + 1] != q0[0]);
                    }
                    assert forall|w: int|
                        #![trigger done[w]]
                        0 < w < n && w != u && !done[w] && done[parent(strs, node_of, w)]
                            implies q1.contains(w as u32) by {
                        assert(q0.contains(w as u32));
                        let i = choose|i: int| 0 <= i < q0.len() && q0[i] == w as u32;
                        assert(i != 0);
                        assert(q1[i - 1] == w as u32);
                    }
                    assert forall|i: int, j: int|
                        0 <= i < j < q1.len() implies strs[#[trigger] q1[i] as int].len()
                            <= strs[#[trigger] q1[j] as int].len() by {
                        assert(q1[i] == q0[i + 1]);
                        assert(q1[j] == q0[j + 1]);
                    }
                }
                let mut b: usize = 0;
                while b < ALPHABET_SIZE
                    invariant
                        trie_of(pats, t@, strs, node_of),
                        pats.len() <= MAX_PATTERNS,
                        output@.len() == strs.len(),
                        forall|x: int| 0 <= x < strs.len() ==> #[trigger] output@[x] == output_of(pats, strs[x]),
                        n == strs.len(),
                        n <= u32::MAX,
                        tl == t@.len(),
                        fail@.len() == n,
                        dict@.len() == n,
                        trans@.len() == tl,
                        done.len() == n,
                        done[0],
                        0 < u < n,
                        strs[u as int].len() == d,
                        strs[u as int].len() > 0,
                        !done[u as int],
                        done[parent(strs, node_of, u as int)],
                        f < n,
                        done[f as int],
                        strs[f as int] == fail_str(pats, strs[u as int]),
                        fail@[u as int] == f,
                        b <= 256,
                        forall|v: int|
                            0 <= v < n && (v == 0 || done[parent(strs, node_of, v)] || (parent(
                                strs,
                                node_of,
                                v,
                            ) == u && v != 0 && (strs[v].last() as int) < b)) ==> #[trigger] links_ok(
                                pats,
                                strs,
                                fail@,
                                dict@,
                                v,
                            ),
                        forall|w: int, c: int|
                            0 <= w < n && 0 <= c < 256 && done[w] ==> #[trigger] row_ok(pats, strs, trans@, w, c),
                        forall|c: int| 0 <= c < b ==> #[trigger] row_ok(pats, strs, trans@, u as int, c),
                        forall|w: int| #![trigger done[w]] 0 <= w < n && strs[w].len() < d ==> done[w],
                        forall|w: int| #![trigger done[w]] 0 <= w < n && done[w] ==> strs[w].len() <= d,
                        forall|i: int|
                            0 <= i < queue@.len() ==> {
                                let q = #[trigger] queue@[i] as int;
                                &&& 0 < q < n
                                &&& d <= strs[q].len() <= d + 1
                                &&& (done[parent(strs, node_of, q)] || (parent(strs, node_of, q)
                                    == u && (strs[q].last() as int) < b))
                                &&& !done[q]
                                &&& q != u
                            },
                        forall|i: int, j: int|
                            0 <= i < j < queue@.len() ==> strs[#[trigger] queue@[i] as int].len()
                                <= strs[#[trigger] queue@[j] as int].len(),
                        queue@.no_duplicates(),
                        forall|w: int|
                            #![trigger done[w]]
                            0 < w < n && w != u && !done[w] && (done[parent(strs, node_of, w)] || (
                            parent(strs, node_of, w) == u && (strs[w].last() as int) < b))
                                ==> queue@.contains(w as u32),
                        queue@.len() <= q1.len() + b,
                    decreases 256 - b,
                {
                    proof {
                        lemma_cell_index(n as int, u as int, b as int);
                        lemma_cell_index(n as int, f as int, b as int);
                        assert(row_ok(pats, strs, trans@, f as int, b as int));
                    }
                    let v = t[u * ALPHABET_SIZE + b];
                    assert(cell(t@, u as int, b as int) == v);
                    if v > 0 {
                        let vi = v as usize;
                        proof {
                            lemma_child_parent(pats, t@, strs, node_of, u as int, b as int);
                            lemma_fail_step(pats, strs[u as int], b as u8);
                            lemma_dict_step(pats, strs[vi as int]);
                        }
                        let fv = trans[f * ALPHABET_SIZE + b];
                        let ghost old_fail = fail@;
                        let ghost old_dict = dict@;
                        let ghost old_trans = trans@;
                        let ghost old_q = queue@;
                        fail.set(vi, fv);
                        proof {
                            // the failure target of the child is known already
                            let fs = fail_str(pats, strs[vi as int]);
                            assert(strs[fv as int] == fs);
                            lemma_trie_sfx_len(pats, strs[vi as int].drop_first(), strs[vi as int].len() - 1);
                            assert(strs[fv as int].len() <= d);
                            if fv != 0 {
                                lemma_parent(pats, t@, strs, node_of, fv as int);
                                assert(done[parent(strs, node_of, fv as int)]);
                                assert(fv as int != vi);
                            }
                            assert(links_ok(pats, strs, old_fail, old_dict, fv as int));
                            lemma_last_idx_bounds(pats, strs[fv as int]);
                            assert(output@[fv as int] == output_of(pats, strs[fv as int]));
                        }
                        let fo = output[fv as usize];
                        let dl = if fo != u32::MAX {
                            fv
                        } else {
                            dict[fv as usize]
                        };
                        dict.set(vi, dl);
                        proof {
                            lemma_label_is_trie(pats, t@, strs, node_of, vi as int);
                            lemma_lts_of_trie(pats, strs[vi as int]);
                            assert(strs[vi as int] == strs[u as int].push(b as u8));
                        }
                        trans.set(u * ALPHABET_SIZE + b, v);
                        queue.push_back(v);
                        proof {
                            assert(links_ok(pats, strs, fail@, dict@, vi as int)) by {
                                if fo != u32::MAX {
                                    assert(is_pattern(pats, strs[fv as int]));
                                    if strs[fv as int].len() == 0 {
                                        lemma_shallow_links(pats, strs[fv as int]);
                                        assert(dict_str(pats, strs[vi as int]) =~= strs[fv as int]);
                                    }
                                } else {
                                    assert(!is_pattern(pats, strs[fv as int]));
                                    assert(dict@[vi as int] == old_dict[fv as int]);
                                }
                            }
                            assert forall|x: int|
                                0 <= x < n && (x == 0 || done[parent(strs, node_of, x)] || (parent(
                                    strs,
                                    node_of,
                                    x,
                                ) == u && x != 0 && (strs[x].last() as int) < b + 1)) implies #[trigger] links_ok(
                                pats,
                                strs,
                                fail@,
                                dict@,
                                x,
                            ) by {
                                if x != vi {
                                    if x != 0 && parent(strs, node_of, x) == u && strs[x].last() as int == b {
                                        lemma_parent(pats, t@, strs, node_of, x);
                                        assert(strs[x] =~= strs[vi as int]);
                                        lemma_labels_distinct(pats, t@, strs, node_of, x, vi as int);
                                    }
                                    assert(links_ok(pats, strs, old_fail, old_dict, x));
                                }
                            }
                            assert forall|w: int, c: int|
                                0 <= w < n && 0 <= c < 256 && done[w] implies #[trigger] row_ok(pats, strs, trans@, w, c) by {
                                lemma_cell_distinct(w, c, u as int, b as int);
                                lemma_cell_index(n as int, w, c);
                                assert(row_ok(pats, strs, old_trans, w, c));
                            }
                            assert forall|c: int| 0 <= c < b + 1 implies #[trigger] row_ok(pats, strs, trans@, u as int, c) by {
                                if c < b {
                                    lemma_cell_distinct(u as int, c, u as int, b as int);
                                    lemma_cell_index(n as int, u as int, c);
                                    assert(row_ok(pats, strs, old_trans, u as int, c));
                                }
                            }
                            assert(strs[vi as int].len() == d + 1);
                            assert(!done[vi as int]);
                            assert forall|i: int| 0 <= i < old_q.len() implies #[trigger] old_q[i] != v by {
                                let q = old_q[i] as int;
                                if q == vi {
                                    assert(old_q[i] == queue@[i]);
                                }
                            }
                            assert forall|i: int, j: int|
                                0 <= i < j < queue@.len() implies strs[#[trigger] queue@[i] as int].len()
                                    <= strs[#[trigger] queue@[j] as int].len() by {
                                if j == old_q.len() {
                                    assert(queue@[i] == old_q[i]);
                                } else {
                                    assert(queue@[i] == old_q[i]);
                                    assert(queue@[j] == old_q[j]);
                                }
                            }
                            assert forall|i: int, j: int|
                                0 <= i < queue@.len() && 0 <= j < queue@.len() && i != j implies queue@[i]
                                != queue@[j] by {
                                if i < old_q.len() && j < old_q.len() {
                                    assert(old_q[i] != old_q[j]);
                                } else if i < old_q.len() {
                                    assert(old_q[i] != v);
                                } else if j < old_q.len() {
                                    assert(old_q[j] != v);
                                }
                            }
                            assert forall|w: int|
                                #![trigger done[w]]
                                0 < w < n && w != u && !done[w] && (done[parent(strs, node_of, w)] || (
                                parent(strs, node_of, w) == u && (strs[w].last() as int) < b + 1))
                                    implies queue@.contains(w as u32) by {
                                if !done[parent(strs, node_of, w)] && strs[w].last() as int == b {
                                    lemma_parent(pats, t@, strs, node_of, w);
                                    assert(strs[w] =~= strs[vi as int]);
                                    lemma_labels_distinct(pats, t@, strs, node_of, w, vi as int);
                                    assert(queue@[old_q.len() as int] == v);
                                } else {
                                    assert(old_q.contains(w as u32));
                                    let i = choose|i: int| 0 <= i < old_q.len() && old_q[i] == w as u32;
                                    assert(queue@[i] == w as u32);
                                }
                            }
                        }
                    } else {
                        proof {
                            assert(!node_of.dom().contains(strs[u as int].push(b as u8)));
                            assert(!is_trie_str(pats, strs[u as int].push(b as u8)));
                            lemma_missing_edge(pats, strs[u as int], b as u8);
                            assert forall|x: int|
                                0 <= x < n && (x == 0 || done[parent(strs, node_of, x)] || (parent(
                                    strs,
                                    node_of,
                                    x,
                                ) == u && x != 0 && (strs[x].last() as int) < b + 1)) implies #[trigger] links_ok(
                                pats,
                                strs,
                                fail@,
                                dict@,
                                x,
                            ) by {
                                if x != 0 && !done[parent(strs, node_of, x)] && strs[x].last() as int == b {
                                    lemma_parent(pats, t@, strs, node_of, x);
                                    assert(node_of.dom().contains(strs[x]));
                                    assert(strs[x] =~= strs[u as int].push(b as u8));
                                }
                            }
                        }
                        let ghost old_trans = trans@;
                        let tv = trans[f * ALPHABET_SIZE + b];
                        trans.set(u * ALPHABET_SIZE + b, tv);
                        proof {
                            assert forall|w: int, c: int|
                                0 <= w < n && 0 <= c < 256 && done[w] implies #[trigger] row_ok(pats, strs, trans@, w, c) by {
                                lemma_cell_distinct(w, c, u as int, b as int);
                                lemma_cell_index(n as int, w, c);
                                assert(row_ok(pats, strs, old_trans, w, c));
                            }
                            assert forall|c: int| 0 <= c < b + 1 implies #[trigger] row_ok(pats, strs, trans@, u as int, c) by {
                                if c < b {
                                    lemma_cell_distinct(u as int, c, u as int, b as int);
                                    lemma_cell_index(n as int, u as int, c);
                                    assert(row_ok(pats, strs, old_trans, u as int, c));
                                }
                            }
                            assert forall|w: int|
                                #![trigger done[w]]
                                0 < w < n && w != u && !done[w] && (done[parent(strs, node_of, w)] || (
                                parent(strs, node_of, w) == u && (strs[w].last() as int) < b + 1))
                                    implies queue@.contains(w as u32) by {
                                if !done[parent(strs, node_of, w)] && strs[w].last() as int == b {
                                    lemma_parent(pats, t@, strs, node_of, w);
                                    assert(node_of.dom().contains(strs[w]));
                                    assert(strs[w] =~= strs[u as int].push(b as u8));
                                }
                            }
                        }
                    }
                    b += 1;
                }
                proof {
                    lemma_count_false_update(done, u as int);
                    let old_done = done;
                    done = done.update(u as int, true);
                    assert forall|v: int|
                        0 <= v < n && (v == 0 || done[parent(strs, node_of, v)]) implies #[trigger] links_ok(
                        pats,
                        strs,
                        fail@,
                        dict@,
                        v,
                    ) by {
                        if v != 0 && !old_done[parent(strs, node_of, v)] {
                            lemma_parent(pats, t@, strs, node_of, v);
                        }
                    }
                    assert forall|w: int, c: int|
                        0 <= w < n && 0 <= c < 256 && done[w] implies #[trigger] row_ok(pats, strs, trans@, w, c) by {
                        if w != u {
                            assert(old_done[w]);
                        }
                    }
                    assert forall|w: int|
                        #![trigger done[w]]
                        0 < w < n && done[parent(strs, node_of, w)] && !done[w] implies queue@.contains(
                        w as u32,
                    ) by {
                        lemma_parent(pats, t@, strs, node_of, w);
                        assert(old_done[parent(strs, node_of, w)] || parent(strs, node_of, w) == u);
                        assert(!old_done[w]);
                    }
                    assert forall|i: int|
                        0 <= i < queue@.len() implies {
                            let q = #[trigger] queue@[i] as int;
                            &&& 0 < q < n
                            &&& d <= strs[q].len() <= d + 1
                            &&& done[parent(strs, node_of, q)]
                            &&& !done[q]
                        } by {
                        let q = queue@[i] as int;
                        assert(0 < q < n);
                        lemma_parent(pats, t@, strs, node_of, q);
                        assert(d <= strs[q].len() <= d + 1);
                        assert(old_done[parent(strs, node_of, q)] || parent(strs, node_of, q) == u);
                        assert(done[parent(strs, node_of, q)]);
                        assert(q != u);
                        assert(!old_done[q]);
                        assert(done[q] == old_done[q]);
                        assert(done[u as int]);
                    }
                    assert(count_false(done) * 257 + queue@.len() < count_false(old_done) * 257 + q0.len());
                }
            },
        }
    }
    proof {
        assert forall|u: int, c: int| 0 <= u < n && 0 <= c < 256 implies #[trigger] row_ok(pats, strs, trans@, u, c) by {
            lemma_all_done(pats, t@, strs, node_of, done, u);
        }
        assert forall|u: int| 0 <= u < n implies #[trigger] dict_ok(pats, strs, dict@, u) by {
            lemma_all_done(pats, t@, strs, node_of, done, u);
            if u != 0 {
                lemma_parent(pats, t@, strs, node_of, u);
                lemma_all_done(pats, t@, strs, node_of, done, parent(strs, node_of, u));
            }
            assert(links_ok(pats, strs, fail@, dict@, u));
        }
    }
    (trans, dict)
}

} // verus!
