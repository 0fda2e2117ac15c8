use vstd::prelude::*;

use crate::assemble::branch_insert1;
use crate::balance::{borrow_from_next, borrow_from_prev, chunk_len, merge_chunks};
use crate::chunk::{
    Chunk, branch_parts_wf, centries, clen, entries_range, half, lemma_leaf_pairs_remove,
    lemma_parts_remove, lemma_psum_mono, lemma_range_count, lemma_range_one, lemma_range_shift,
    lemma_range_split, psum, wf_chunk,
};
use crate::navigate::search_counts_must;

verus! {

/// Rebuild a branch around slot `pos` after the child there fell to one edge
/// under `HALF`: borrow an edge from the next sibling, else from the previous
/// one, else merge with the next sibling, else with the previous one. The
/// slots in `children` are the child's siblings; the child itself is passed
/// detached as `child1`.
#[verifier::rlimit(100)]
#[verifier::spinoff_prover]
pub(crate) fn fix_underflow<V>(
    children: Vec<Chunk<V>>,
    counts: Vec<usize>,
    pos: usize,
    child1: Chunk<V>,
    k1: usize,
    height: usize,
    bp: usize,
) -> (r: Chunk<V>)
    requires
        4 <= bp,
        height >= 1,
        branch_parts_wf(children@, counts@, (height - 1) as nat, bp as nat),
        pos as int <= children@.len(),
        children@.len() >= 1,
        children@.len() + 1 <= bp - 1,
        wf_chunk(child1, (height - 1) as nat, bp as nat),
        clen(child1) == half(bp as nat) - 1,
        k1 as int == centries(child1, (height - 1) as nat).len(),
        psum(counts@, counts@.len() as int) + k1 <= usize::MAX,
    ensures
        wf_chunk(r, height as nat, bp as nat),
        children@.len() <= clen(r) <= children@.len() + 1,
        centries(r, height as nat) == entries_range(children@, (height - 1) as nat, 0, pos as int)
            + centries(child1, (height - 1) as nat) + entries_range(
            children@,
            (height - 1) as nat,
            pos as int,
            children@.len() as int,
        ),
{
    let ghost h1 = (height - 1) as nat;
    let ghost cs0 = children@;
    let ghost ks0 = counts@;
    let ghost n = cs0.len() as int;
    let ghost p = pos as int;
    let mut children = children;
    let mut counts = counts;
    proof {
        lemma_range_count(cs0, ks0, h1, 0, n);
    }
    let has_next = pos < children.len();
    let next_big = has_next && chunk_len(&children[pos]) > bp / 2;
    let prev_big = pos > 0 && chunk_len(&children[pos - 1]) > bp / 2;
    if next_big || (has_next && !prev_big) {
        // the slot at `pos` is the next sibling
        let next = children.remove(pos);
        let nk = counts.remove(pos);
        let ghost csr = children@;
        proof {
            lemma_psum_mono(ks0, 0, p);
            lemma_psum_mono(ks0, p + 1, n);
            assert forall|m: int| 0 <= m < n - 1 implies {
                &&& wf_chunk(#[trigger] csr[m], h1, bp as nat)
                &&& half(bp as nat) <= clen(csr[m]) <= bp - 1
                &&& counts@[m] as int == centries(csr[m], h1).len()
            } by {
                if m < p {
                    assert(csr[m] == cs0[m]);
                    assert(counts@[m] == ks0[m]);
                } else {
                    assert(csr[m] == cs0[m + 1]);
                    assert(counts@[m] == ks0[m + 1]);
                }
            }
            lemma_range_shift(cs0, csr, h1, 0, p, 0);
            lemma_range_shift(cs0, csr, h1, p + 1, n, -1);
            lemma_range_split(cs0, h1, p, p + 1, n);
            lemma_range_one(cs0, h1, p);
        }
        let r = if next_big {
            borrow_from_next(children, counts, pos, child1, k1, next, nk, height, bp)
        } else {
            let merged = merge_chunks(child1, next, height - 1, bp);
            branch_insert1(children, counts, pos, merged, k1 + nk, height, bp)
        };
        proof {
            assert(entries_range(csr, h1, 0, p) == entries_range(cs0, h1, 0, p));
            assert(entries_range(csr, h1, p, n - 1) == entries_range(cs0, h1, p + 1, n));
            assert(centries(r, height as nat) =~= entries_range(cs0, h1, 0, p) + centries(
                child1,
                h1,
            ) + entries_range(cs0, h1, p, n));
        }
        r
    } else {
        // no usable next sibling: the slot at `pos - 1` is the previous one
        let prev = children.remove(pos - 1);
        let pk = counts.remove(pos - 1);
        let ghost csr = children@;
        proof {
            lemma_psum_mono(ks0, 0, p - 1);
            lemma_psum_mono(ks0, p, n);
            assert forall|m: int| 0 <= m < n - 1 implies {
                &&& wf_chunk(#[trigger] csr[m], h1, bp as nat)
                &&& half(bp as nat) <= clen(csr[m]) <= bp - 1
                &&& counts@[m] as int == centries(csr[m], h1).len()
            } by {
                if m < p - 1 {
                    assert(csr[m] == cs0[m]);
                    assert(counts@[m] == ks0[m]);
                } else {
                    assert(csr[m] == cs0[m + 1]);
                    assert(counts@[m] == ks0[m + 1]);
                }
            }
            lemma_range_shift(cs0, csr, h1, 0, p - 1, 0);
            lemma_range_shift(cs0, csr, h1, p, n, -1);
            lemma_range_split(cs0, h1, 0, p - 1, p);
            lemma_range_one(cs0, h1, p - 1);
            lemma_range_split(cs0, h1, 0, p, n);
        }
        let r = if prev_big {
            borrow_from_prev(children, counts, pos - 1, prev, pk, child1, k1, height, bp)
        } else {
            let merged = merge_chunks(prev, child1, height - 1, bp);
            branch_insert1(children, counts, pos - 1, merged, pk + k1, height, bp)
        };
        proof {
            assert(entries_range(csr, h1, 0, p - 1) == entries_range(cs0, h1, 0, p - 1));
            assert(entries_range(csr, h1, p - 1, n - 1) == entries_range(cs0, h1, p, n));
            assert(entries_range(cs0, h1, 0, p) == entries_range(cs0, h1, 0, p - 1) + centries(
                cs0[p - 1],
                h1,
            ));
            assert(centries(r, height as nat) =~= entries_range(cs0, h1, 0, p) + centries(
                child1,
                h1,
            ) + entries_range(cs0, h1, p, n));
        }
        r
    }
}

/// Remove the entry at ordinal `index` of the subtree `c`. The flag reports
/// that the chunk fell under `HALF` edges, so the caller must rebalance it
/// among its siblings.
#[verifier::rlimit(100)]
#[verifier::spinoff_prover]
pub(crate) fn chunk_remove_at<V>(c: Chunk<V>, height: usize, index: usize, bp: usize) -> (res: (
    Chunk<V>,
    bool,
))
    requires
        wf_chunk(c, height as nat, bp as nat),
        4 <= bp,
        clen(c) <= bp - 1,
        height > 0 ==> clen(c) >= 2,
        (index as int) < centries(c, height as nat).len(),
        centries(c, height as nat).len() <= usize::MAX,
    ensures
        wf_chunk(res.0, height as nat, bp as nat),
        centries(res.0, height as nat) == centries(c, height as nat).remove(index as int),
        clen(c) - 1 <= clen(res.0) <= clen(c),
        clen(res.0) <= bp - 1,
        res.1 <==> clen(res.0) < half(bp as nat),
        height > 0 ==> clen(res.0) >= 1,
    decreases height,
{
    match c {
        Chunk::Leaves { mut leaves } => {
            let ghost s0 = leaves@;
            leaves.remove(index);
            proof {
                lemma_leaf_pairs_remove(s0, index as int);
            }
            let underflow = leaves.len() < bp / 2;
            (Chunk::Leaves { leaves }, underflow)
        },
        Chunk::Branch { mut children, mut counts } => {
            let ghost h1 = (height - 1) as nat;
            let ghost cs0 = children@;
            let ghost ks0 = counts@;
            let ghost n = cs0.len() as int;
            let ghost e0 = entries_range(cs0, h1, 0, n);
            proof {
                lemma_range_count(cs0, ks0, h1, 0, n);
            }
            let (pos, inner) = search_counts_must(&counts, index);
            let ghost p = pos as int;
            proof {
                lemma_psum_mono(ks0, 0, p);
                lemma_psum_mono(ks0, p + 1, n);
                lemma_range_split(cs0, h1, 0, p, n);
                lemma_range_one(cs0, h1, p);
                lemma_range_split(cs0, h1, p, p + 1, n);
                lemma_range_count(cs0, ks0, h1, 0, p);
            }
            let child = children.remove(pos);
            let k = counts.remove(pos);
            let ghost a = entries_range(cs0, h1, 0, p);
            let ghost b = centries(cs0[p], h1);
            let ghost cc = entries_range(cs0, h1, p + 1, n);
            let ghost csr = children@;
            proof {
                assert(e0 == a + b + cc);
                assert(a.len() == psum(ks0, p));
                lemma_parts_remove(a, b, cc, inner as int);
                assert forall|m: int| 0 <= m < n - 1 implies {
                    &&& wf_chunk(#[trigger] csr[m], h1, bp as nat)
                    &&& half(bp as nat) <= clen(csr[m]) <= bp - 1
                    &&& counts@[m] as int == centries(csr[m], h1).len()
                } by {
                    if m < p {
                        assert(csr[m] == cs0[m]);
                        assert(counts@[m] == ks0[m]);
                    } else {
                        assert(csr[m] == cs0[m + 1]);
                        assert(counts@[m] == ks0[m + 1]);
                    }
                }
                lemma_range_shift(cs0, csr, h1, 0, p, 0);
                lemma_range_shift(cs0, csr, h1, p + 1, n, -1);
                assert(branch_parts_wf(csr, counts@, h1, bp as nat));
                lemma_range_count(csr, counts@, h1, 0, n - 1);
                lemma_range_split(csr, h1, 0, p, n - 1);
                assert(entries_range(csr, h1, 0, n - 1) == a + cc);
                assert(psum(counts@, n - 1) == a.len() + cc.len());
            }
            let (child1, unf) = chunk_remove_at(child, height - 1, inner, bp);
            let ghost b1 = centries(child1, h1);
            proof {
                assert(b1 == b.remove(inner as int));
            }
            let k1 = k - 1;
            let r = if !unf {
                branch_insert1(children, counts, pos, child1, k1, height, bp)
            } else {
                fix_underflow(children, counts, pos, child1, k1, height, bp)
            };
            proof {
                assert(entries_range(csr, h1, 0, p) == a);
                assert(entries_range(csr, h1, p, n - 1) == cc);
                assert(centries(r, height as nat) == a + b1 + cc);
                assert(centries(r, height as nat) == e0.remove(index as int));
            }
            let rl = chunk_len(&r);
            (r, rl < bp / 2)
        },
    }
}

} // verus!
