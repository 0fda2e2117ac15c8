use vstd::prelude::*;
use vstd::pervasive::unreached;

use crate::assemble::{branch_insert1, branch_insert2, split_branch};
use crate::chunk::{
    Chunk, LeafEntry, branch_parts_wf, centries, clen, entries_range, half, leaf_pairs,
    lemma_leaf_pairs_insert, lemma_leaf_pairs_subrange, lemma_leaf_pairs_update,
    lemma_parts_insert, lemma_parts_update, lemma_psum_mono, lemma_range_count, lemma_range_index,
    lemma_range_one, lemma_range_shift, lemma_range_split, psum, wf_chunk,
};
use crate::navigate::search_counts_insert;

verus! {

/// Insert the entry `(id, value)` at ordinal `index` of a leaf chunk,
/// splitting it in the middle when it overflows to `bp` entries.
fn insert_leaves<V>(leaves: Vec<LeafEntry<V>>, index: usize, id: u64, value: V, bp: usize) -> (res:
    (Chunk<V>, Option<(Chunk<V>, usize)>))
    requires
        4 <= bp,
        leaves@.len() <= bp - 1,
        index as int <= leaves@.len(),
    ensures
        wf_chunk(res.0, 0, bp as nat),
        match res.1 {
            None => {
                &&& centries(res.0, 0) == leaf_pairs(leaves@).insert(index as int, (id, value))
                &&& leaves@.len() <= clen(res.0)
                &&& clen(res.0) <= bp - 1
            },
            Some((c2, cnt2)) => {
                &&& wf_chunk(c2, 0, bp as nat)
                &&& centries(res.0, 0) + centries(c2, 0) == leaf_pairs(leaves@).insert(
                    index as int,
                    (id, value),
                )
                &&& half(bp as nat) <= clen(res.0) <= bp - 1
                &&& half(bp as nat) <= clen(c2) <= bp - 1
                &&& cnt2 as int == centries(c2, 0).len()
            },
        },
{
    let ghost s0 = leaves@;
    let mut leaves = leaves;
    leaves.insert(index, LeafEntry { id, value });
    proof {
        lemma_leaf_pairs_insert(s0, index as int, LeafEntry { id, value });
    }
    if leaves.len() == bp {
        let ghost s1 = leaves@;
        let right = leaves.split_off(bp / 2);
        proof {
            lemma_leaf_pairs_subrange(s1, 0, (bp / 2) as int);
            lemma_leaf_pairs_subrange(s1, (bp / 2) as int, s1.len() as int);
            assert(leaf_pairs(leaves@) + leaf_pairs(right@) =~= leaf_pairs(s1));
        }
        let right_count = right.len();
        (Chunk::Leaves { leaves }, Some((Chunk::Leaves { leaves: right }, right_count)))
    } else {
        (Chunk::Leaves { leaves }, None)
    }
}

/// Insert the entry `(id, value)` at ordinal `index` of the subtree `c`.
/// When the chunk overflows to `bp` edges it splits: the result then carries
/// a new right sibling beside that sibling's entry total, to be hung under
/// the caller.
pub(crate) fn chunk_insert_at<V>(
    c: Chunk<V>,
    height: usize,
    index: usize,
    id: u64,
    value: V,
    bp: usize,
) -> (res: (Chunk<V>, Option<(Chunk<V>, usize)>))
    requires
        wf_chunk(c, height as nat, bp as nat),
        4 <= bp,
        clen(c) <= bp - 1,
        height > 0 ==> clen(c) >= 1,
        index as int <= centries(c, height as nat).len(),
        centries(c, height as nat).len() < usize::MAX,
    ensures
        wf_chunk(res.0, height as nat, bp as nat),
        match res.1 {
            None => {
                &&& centries(res.0, height as nat) == centries(c, height as nat).insert(
                    index as int,
                    (id, value),
                )
                &&& clen(c) <= clen(res.0)
                &&& clen(res.0) <= bp - 1
            },
            Some((c2, cnt2)) => {
                &&& wf_chunk(c2, height as nat, bp as nat)
                &&& centries(res.0, height as nat) + centries(c2, height as nat) == centries(
                    c,
                    height as nat,
                ).insert(index as int, (id, value))
                &&& half(bp as nat) <= clen(res.0) <= bp - 1
                &&& half(bp as nat) <= clen(c2) <= bp - 1
                &&& cnt2 as int == centries(c2, height as nat).len()
            },
        },
    decreases height,
{
    match c {
        Chunk::Leaves { leaves } => insert_leaves(leaves, index, id, value, bp),
        Chunk::Branch { mut children, mut counts } => {
            let ghost h1 = (height - 1) as nat;
            let ghost cs0 = children@;
            let ghost ks0 = counts@;
            let ghost n = cs0.len() as int;
            let ghost e0 = entries_range(cs0, h1, 0, n);
            proof {
                lemma_range_count(cs0, ks0, h1, 0, n);
            }
            let (pos, inner) = search_counts_insert(&counts, index);
            let ghost p = pos as int;
            proof {
                lemma_psum_mono(ks0, 0, p);
                lemma_psum_mono(ks0, p + 1, n);
                lemma_range_split(cs0, h1, 0, p, n);
                lemma_range_one(cs0, h1, p);
                lemma_range_split(cs0, h1, p, p + 1, n);
                lemma_range_count(cs0, ks0, h1, 0, p);
            }
            let child = children.remove(pos);
            let k = counts.remove(pos);
            let ghost a = entries_range(cs0, h1, 0, p);
            let ghost b = centries(cs0[p], h1);
            let ghost cc = entries_range(cs0, h1, p + 1, n);
            let ghost csr = children@;
            proof {
                assert(e0 == a + b + cc);
                assert(a.len() == crate::chunk::psum(ks0, p));
                lemma_parts_insert(a, b, cc, inner as int, (id, value));
                assert forall|m: int| 0 <= m < n - 1 implies {
                    &&& wf_chunk(#[trigger] csr[m], h1, bp as nat)
                    &&& half(bp as nat) <= clen(csr[m]) <= bp - 1
                    &&& counts@[m] as int == centries(csr[m], h1).len()
                } by {
                    if m < p {
                        assert(csr[m] == cs0[m]);
                        assert(counts@[m] == ks0[m]);
                    } else {
                        assert(csr[m] == cs0[m + 1]);
                        assert(counts@[m] == ks0[m + 1]);
                    }
                }
                lemma_range_shift(cs0, csr, h1, 0, p, 0);
                lemma_range_shift(cs0, csr, h1, p + 1, n, -1);
                assert(branch_parts_wf(csr, counts@, h1, bp as nat));
            }
            let (child1, sp) = chunk_insert_at(child, height - 1, inner, id, value, bp);
            match sp {
                None => {
                    let ghost b1 = centries(child1, h1);
                    proof {
                        assert(b1 == b.insert(inner as int, (id, value)));
                    }
                    let r = branch_insert1(children, counts, pos, child1, k + 1, height, bp);
                    proof {
                        assert(entries_range(csr, h1, 0, p) == a);
                        assert(entries_range(csr, h1, p, n - 1) == cc);
                        assert(centries(r, height as nat) == a + b1 + cc);
                        assert(centries(r, height as nat) == e0.insert(
                            index as int,
                            (id, value),
                        ));
                    }
                    (r, None)
                },
                Some((c2, cnt2)) => {
                    let ghost b1 = centries(child1, h1);
                    let ghost b2 = centries(c2, h1);
                    proof {
                        assert(b1 + b2 == b.insert(inner as int, (id, value)));
                        assert(b1.len() + b2.len() == b.len() + 1);
                    }
                    let k1 = k + 1 - cnt2;
                    let cl = children.len();
                    let r = branch_insert2(
                        children,
                        counts,
                        pos,
                        child1,
                        k1,
                        c2,
                        cnt2,
                        height,
                        bp,
                    );
                    proof {
                        assert(centries(r, height as nat) == a + b1 + b2 + cc);
                        assert(a + b1 + b2 + cc =~= a + (b1 + b2) + cc);
                        assert(centries(r, height as nat) == e0.insert(
                            index as int,
                            (id, value),
                        ));
                        assert(clen(r) == n + 1);
                    }
                    if cl + 2 < bp {
                        (r, None)
                    } else {
                        match r {
                            Chunk::Branch { children, counts } => {
                                proof {
                                    lemma_range_count(
                                        children@,
                                        counts@,
                                        h1,
                                        0,
                                        children@.len() as int,
                                    );
                                }
                                let (left, right, right_count) = split_branch(
                                    children,
                                    counts,
                                    height,
                                    bp,
                                );
                                (left, Some((right, right_count)))
                            },
                            Chunk::Leaves { .. } => unreached(),
                        }
                    }
                },
            }
        },
    }
}

/// Replace the value at ordinal `index` of the subtree `c`, keeping the
/// entry's identifier and the whole shape of the tree.
#[verifier::rlimit(100)]
#[verifier::spinoff_prover]
pub(crate) fn chunk_set_value<V>(
    c: Chunk<V>,
    height: usize,
    index: usize,
    value: V,
    bp: usize,
) -> (r: Chunk<V>)
    requires
        wf_chunk(c, height as nat, bp as nat),
        4 <= bp,
        (index as int) < centries(c, height as nat).len(),
        centries(c, height as nat).len() <= usize::MAX,
    ensures
        wf_chunk(r, height as nat, bp as nat),
        clen(r) == clen(c),
        centries(r, height as nat) == centries(c, height as nat).update(
            index as int,
            (centries(c, height as nat)[index as int].0, value),
        ),
    decreases height,
{
    match c {
        Chunk::Leaves { mut leaves } => {
            let ghost s0 = leaves@;
            let lid = leaves[index].id;
            leaves.set(index, LeafEntry { id: lid, value });
            proof {
                lemma_leaf_pairs_update(s0, index as int, LeafEntry { id: lid, value });
            }
            Chunk::Leaves { leaves }
        },
        Chunk::Branch { mut children, mut counts } => {
            let ghost h1 = (height - 1) as nat;
            let ghost cs0 = children@;
            let ghost ks0 = counts@;
            let ghost n = cs0.len() as int;
            let ghost e0 = entries_range(cs0, h1, 0, n);
            proof {
                lemma_range_count(cs0, ks0, h1, 0, n);
            }
            let (pos, inner) = crate::navigate::search_counts_must(&counts, index);
            let ghost p = pos as int;
            proof {
                lemma_psum_mono(ks0, 0, p);
                lemma_psum_mono(ks0, p + 1, n);
                lemma_range_split(cs0, h1, 0, p, n);
                lemma_range_one(cs0, h1, p);
                lemma_range_split(cs0, h1, p, p + 1, n);
                lemma_range_count(cs0, ks0, h1, 0, p);
                lemma_range_index(cs0, ks0, h1, n, p, inner as int);
            }
            let child = children.remove(pos);
            let k = counts.remove(pos);
            let ghost a = entries_range(cs0, h1, 0, p);
            let ghost b = centries(cs0[p], h1);
            let ghost cc = entries_range(cs0, h1, p + 1, n);
            let ghost csr = children@;
            let ghost x = (b[inner as int].0, value);
            proof {
                assert(e0 == a + b + cc);
                assert(a.len() == psum(ks0, p));
                lemma_parts_update(a, b, cc, inner as int, x);
                assert forall|m: int| 0 <= m < n - 1 implies {
                    &&& wf_chunk(#[trigger] csr[m], h1, bp as nat)
                    &&& half(bp as nat) <= clen(csr[m]) <= bp - 1
                    &&& counts@[m] as int == centries(csr[m], h1).len()
                } by {
                    if m < p {
                        assert(csr[m] == cs0[m]);
                        assert(counts@[m] == ks0[m]);
                    } else {
                        assert(csr[m] == cs0[m + 1]);
                        assert(counts@[m] == ks0[m + 1]);
                    }
                }
                lemma_range_shift(cs0, csr, h1, 0, p, 0);
                lemma_range_shift(cs0, csr, h1, p + 1, n, -1);
            }
            let child1 = chunk_set_value(child, height - 1, inner, value, bp);
            let r = branch_insert1(children, counts, pos, child1, k, height, bp);
            proof {
                assert(entries_range(csr, h1, 0, p) == a);
                assert(entries_range(csr, h1, p, n - 1) == cc);
                assert(centries(r, height as nat) == a + b.update(inner as int, x) + cc);
                assert(centries(r, height as nat) == e0.update(index as int, x));
            }
            r
        },
    }
}

} // verus!
