use vstd::prelude::*;
use vstd::pervasive::unreached;

use crate::chunk::{
    Chunk, LeafEntry, centries, clen, entries_range, leaf_pairs, lemma_psum_mono,
    lemma_range_count, lemma_range_index, lemma_range_one, lemma_range_split, psum, wf_chunk,
};

verus! {

/// Scan the cached counts left to right, accumulating a running total, and
/// report the first slot whose cumulative count exceeds `index`, beside the
/// residual index inside that slot; `None` when `index` is past the total.
pub fn search_counts(counts: &Vec<usize>, index: usize) -> (r: Option<(usize, usize)>)
    requires
        psum(counts@, counts@.len() as int) <= usize::MAX,
    ensures
        match r {
            Some(p) => {
                &&& (p.0 as int) < counts@.len()
                &&& psum(counts@, p.0 as int) <= index as int
                &&& (index as int) < psum(counts@, p.0 as int + 1)
                &&& p.1 as int == index as int - psum(counts@, p.0 as int)
            },
            None => psum(counts@, counts@.len() as int) <= index as int,
        },
{
    let mut acc: usize = 0;
    let mut i: usize = 0;
    while i < counts.len()
        invariant
            i as int <= counts@.len(),
            acc as int == psum(counts@, i as int),
            psum(counts@, i as int) <= index as int,
            psum(counts@, counts@.len() as int) <= usize::MAX,
        decreases counts@.len() - i as int,
    {
        proof {
            lemma_psum_mono(counts@, i as int + 1, counts@.len() as int);
        }
        let count = counts[i];
        if acc + count > index {
            return Some((i, index - acc));
        }
        acc = acc + count;
        i = i + 1;
    }
    None
}

/// `search_counts` for an index known to lie under the total: never `None`.
pub(crate) fn search_counts_must(counts: &Vec<usize>, index: usize) -> (r: (usize, usize))
    requires
        psum(counts@, counts@.len() as int) <= usize::MAX,
        (index as int) < psum(counts@, counts@.len() as int),
    ensures
        (r.0 as int) < counts@.len(),
        psum(counts@, r.0 as int) <= index as int,
        (index as int) < psum(counts@, r.0 as int + 1),
        r.1 as int == index as int - psum(counts@, r.0 as int),
{
    match search_counts(counts, index) {
        Some(p) => p,
        None => unreached(),
    }
}

/// Pick the slot an insertion at `index` descends into: the first slot whose
/// cumulative count reaches `index`, so the residual index may equal the
/// slot's own count (an insertion at that child's right end).
pub(crate) fn search_counts_insert(counts: &Vec<usize>, index: usize) -> (r: (usize, usize))
    requires
        counts@.len() >= 1,
        psum(counts@, counts@.len() as int) <= usize::MAX,
        index as int <= psum(counts@, counts@.len() as int),
    ensures
        (r.0 as int) < counts@.len(),
        psum(counts@, r.0 as int) <= index as int,
        r.1 as int == index as int - psum(counts@, r.0 as int),
        r.1 <= counts@[r.0 as int],
{
    let mut acc: usize = 0;
    let mut i: usize = 0;
    while i < counts.len()
        invariant
            i as int <= counts@.len(),
            acc as int == psum(counts@, i as int),
            psum(counts@, i as int) <= index as int,
            i as int == 0 || psum(counts@, i as int) < index as int,
            index as int <= psum(counts@, counts@.len() as int),
            psum(counts@, counts@.len() as int) <= usize::MAX,
            counts@.len() >= 1,
        decreases counts@.len() - i as int,
    {
        proof {
            lemma_psum_mono(counts@, i as int + 1, counts@.len() as int);
        }
        let count = counts[i];
        if acc + count >= index {
            return (i, index - acc);
        }
        acc = acc + count;
        i = i + 1;
    }
    unreached()
}

/// Position of the leaf entry named `id` among its sibling leaves; the caller
/// must know the entry lives here.
pub fn idx_among_siblings<V>(leaves: &Vec<LeafEntry<V>>, id: u64) -> (r: usize)
    requires
        exists|i: int| 0 <= i < leaves@.len() && leaves@[i].id == id,
    ensures
        (r as int) < leaves@.len(),
        leaves@[r as int].id == id,
{
    match find_leaf(leaves, id) {
        Some(i) => i,
        None => unreached(),
    }
}

/// Scan sibling leaves for the entry named `id`.
pub(crate) fn find_leaf<V>(leaves: &Vec<LeafEntry<V>>, id: u64) -> (r: Option<usize>)
    ensures
        match r {
            Some(i) => (i as int) < leaves@.len() && leaves@[i as int].id == id,
            None => forall|i: int| 0 <= i < leaves@.len() ==> leaves@[i].id != id,
        },
{
    let mut i: usize = 0;
    while i < leaves.len()
        invariant
            i as int <= leaves@.len(),
            forall|j: int| 0 <= j < i as int ==> leaves@[j].id != id,
        decreases leaves@.len() - i as int,
    {
        if leaves[i].id == id {
            return Some(i);
        }
        i = i + 1;
    }
    None
}

/// Descend from `c` by the cached counts and return the identifier of the
/// entry at ordinal `index`.
pub(crate) fn chunk_select<V>(c: &Chunk<V>, height: usize, index: usize, bp: usize) -> (r: u64)
    requires
        wf_chunk(*c, height as nat, bp as nat),
        (index as int) < centries(*c, height as nat).len(),
        centries(*c, height as nat).len() <= usize::MAX,
    ensures
        r == centries(*c, height as nat)[index as int].0,
    decreases height,
{
    match c {
        Chunk::Leaves { leaves } => leaves[index].id,
        Chunk::Branch { children, counts } => {
            let ghost h1 = (height - 1) as nat;
            proof {
                lemma_range_count(children@, counts@, h1, 0, children@.len() as int);
            }
            let (pos, inner) = search_counts_must(counts, index);
            proof {
                lemma_range_index(children@, counts@, h1, children@.len() as int, pos as int, inner as int);
                lemma_psum_mono(counts@, 0, pos as int);
                lemma_psum_mono(counts@, pos as int + 1, children@.len() as int);
            }
            chunk_select(&children[pos], height - 1, inner, bp)
        },
    }
}

/// Descend from `c` by the cached counts and return a reference to the value
/// at ordinal `index`.
pub(crate) fn chunk_value<'a, V>(c: &'a Chunk<V>, height: usize, index: usize, bp: usize) -> (r:
    &'a V)
    requires
        wf_chunk(*c, height as nat, bp as nat),
        (index as int) < centries(*c, height as nat).len(),
        centries(*c, height as nat).len() <= usize::MAX,
    ensures
        *r == centries(*c, height as nat)[index as int].1,
    decreases height,
{
    match c {
        Chunk::Leaves { leaves } => &leaves[index].value,
        Chunk::Branch { children, counts } => {
            let ghost h1 = (height - 1) as nat;
            proof {
                lemma_range_count(children@, counts@, h1, 0, children@.len() as int);
            }
            let (pos, inner) = search_counts_must(counts, index);
            proof {
                lemma_range_index(children@, counts@, h1, children@.len() as int, pos as int, inner as int);
                lemma_psum_mono(counts@, 0, pos as int);
                lemma_psum_mono(counts@, pos as int + 1, children@.len() as int);
            }
            chunk_value(&children[pos], height - 1, inner, bp)
        },
    }
}

/// Search the subtree at `c` for the entry named `id` and return its ordinal
/// rank inside this subtree.
pub(crate) fn chunk_find<V>(c: &Chunk<V>, height: usize, id: u64, bp: usize) -> (r: Option<usize>)
    requires
        wf_chunk(*c, height as nat, bp as nat),
        centries(*c, height as nat).len() <= usize::MAX,
    ensures
        match r {
            Some(i) => (i as int) < centries(*c, height as nat).len() && centries(
                *c,
                height as nat,
            )[i as int].0 == id,
            None => forall|j: int|
                0 <= j < centries(*c, height as nat).len() ==> centries(
                    *c,
                    height as nat,
                )[j].0 != id,
        },
    decreases height,
{
    match c {
        Chunk::Leaves { leaves } => find_leaf(leaves, id),
        Chunk::Branch { children, counts } => {
            let ghost h1 = (height - 1) as nat;
            let ghost n = children@.len() as int;
            proof {
                lemma_range_count(children@, counts@, h1, 0, n);
            }
            let mut i: usize = 0;
            let mut acc: usize = 0;
            while i < children.len()
                invariant
                    wf_chunk(*c, height as nat, bp as nat),
                    c matches Chunk::Branch { children: cs2, counts: ks2 } && cs2 == children
                        && ks2 == counts,
                    height >= 1,
                    h1 == (height - 1) as nat,
                    n == children@.len() as int,
                    i as int <= n,
                    acc as int == psum(counts@, i as int),
                    centries(*c, height as nat).len() <= usize::MAX,
                    centries(*c, height as nat) == entries_range(children@, h1, 0, n),
                    entries_range(children@, h1, 0, n).len() == psum(counts@, n),
                    forall|j: int|
                        0 <= j < entries_range(children@, h1, 0, i as int).len()
                            ==> entries_range(children@, h1, 0, i as int)[j].0 != id,
                decreases n - i as int,
            {
                proof {
                    lemma_range_count(children@, counts@, h1, 0, i as int);
                    lemma_range_count(children@, counts@, h1, 0, i as int + 1);
                    lemma_psum_mono(counts@, i as int + 1, n);
                }
                match chunk_find(&children[i], height - 1, id, bp) {
                    Some(rr) => {
                        proof {
                            lemma_range_index(children@, counts@, h1, n, i as int, rr as int);
                        }
                        return Some(acc + rr);
                    },
                    None => {
                        proof {
                            lemma_range_split(children@, h1, 0, i as int, i as int + 1);
                            lemma_range_one(children@, h1, i as int);
                            assert forall|j: int|
                                0 <= j < entries_range(children@, h1, 0, i as int + 1).len()
                                    implies (#[trigger] entries_range(
                                children@,
                                h1,
                                0,
                                i as int + 1,
                            )[j]).0 != id by {
                                if j < entries_range(children@, h1, 0, i as int).len() {
                                    assert(entries_range(children@, h1, 0, i as int + 1)[j]
                                        == entries_range(children@, h1, 0, i as int)[j]);
                                } else {
                                    assert(entries_range(children@, h1, 0, i as int + 1)[j]
                                        == centries(children@[i as int], h1)[j - entries_range(
                                        children@,
                                        h1,
                                        0,
                                        i as int,
                                    ).len()]);
                                }
                            }
                        }
                        acc = acc + counts[i];
                        i = i + 1;
                    },
                }
            }
            None
        },
    }
}

} // verus!
