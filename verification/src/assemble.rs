use vstd::prelude::*;

use crate::chunk::{
    Chunk, branch_parts_wf, centries, clen, entries_range, half, lemma_psum_mono,
    lemma_range_count, lemma_range_one, lemma_range_shift, lemma_range_split, psum, wf_chunk,
};

verus! {

/// Sum of all cached counts in a slot sequence.
pub(crate) fn sum_counts(counts: &Vec<usize>) -> (r: usize)
    requires
        psum(counts@, counts@.len() as int) <= usize::MAX,
    ensures
        r as int == psum(counts@, counts@.len() as int),
{
    let mut acc: usize = 0;
    let mut i: usize = 0;
    while i < counts.len()
        invariant
            i as int <= counts@.len(),
            acc as int == psum(counts@, i as int),
            psum(counts@, counts@.len() as int) <= usize::MAX,
        decreases counts@.len() - i as int,
    {
        proof {
            lemma_psum_mono(counts@, i as int + 1, counts@.len() as int);
            lemma_psum_mono(counts@, 0, i as int);
        }
        acc = acc + counts[i];
        i = i + 1;
    }
    acc
}

/// Rebuild a branch chunk from slots with one extra child hung at `pos`.
pub(crate) fn branch_insert1<V>(
    children: Vec<Chunk<V>>,
    counts: Vec<usize>,
    pos: usize,
    child1: Chunk<V>,
    k1: usize,
    height: usize,
    bp: usize,
) -> (r: Chunk<V>)
    requires
        4 <= bp,
        height >= 1,
        branch_parts_wf(children@, counts@, (height - 1) as nat, bp as nat),
        pos as int <= children@.len(),
        wf_chunk(child1, (height - 1) as nat, bp as nat),
        half(bp as nat) <= clen(child1) <= bp - 1,
        k1 as int == centries(child1, (height - 1) as nat).len(),
    ensures
        wf_chunk(r, height as nat, bp as nat),
        clen(r) == children@.len() + 1,
        centries(r, height as nat) == entries_range(children@, (height - 1) as nat, 0, pos as int)
            + centries(child1, (height - 1) as nat) + entries_range(
            children@,
            (height - 1) as nat,
            pos as int,
            children@.len() as int,
        ),
{
    let ghost h1 = (height - 1) as nat;
    let ghost cs0 = children@;
    let ghost ks0 = counts@;
    let ghost n = cs0.len() as int;
    let ghost p = pos as int;
    let mut children = children;
    let mut counts = counts;
    children.insert(pos, child1);
    counts.insert(pos, k1);
    let ghost cs1 = children@;
    let ghost ks1 = counts@;
    let r = Chunk::Branch { children, counts };
    proof {
        assert forall|m: int| 0 <= m < n + 1 implies {
            &&& wf_chunk(#[trigger] cs1[m], h1, bp as nat)
            &&& half(bp as nat) <= clen(cs1[m]) <= bp - 1
            &&& ks1[m] as int == centries(cs1[m], h1).len()
        } by {
            if m < p {
                assert(cs1[m] == cs0[m]);
                assert(ks1[m] == ks0[m]);
            } else if m == p {
                assert(cs1[m] == child1);
            } else {
                assert(cs1[m] == cs0[m - 1]);
                assert(ks1[m] == ks0[m - 1]);
            }
        }
        lemma_range_split(cs1, h1, 0, p, n + 1);
        lemma_range_split(cs1, h1, p, p + 1, n + 1);
        lemma_range_one(cs1, h1, p);
        lemma_range_shift(cs0, cs1, h1, 0, p, 0);
        lemma_range_shift(cs0, cs1, h1, p, n, 1);
        assert(centries(r, height as nat) =~= entries_range(cs0, h1, 0, p) + centries(child1, h1)
            + entries_range(cs0, h1, p, n));
    }
    r
}

/// Rebuild a branch chunk from slots with two children hung at `pos`.
pub(crate) fn branch_insert2<V>(
    children: Vec<Chunk<V>>,
    counts: Vec<usize>,
    pos: usize,
    child1: Chunk<V>,
    k1: usize,
    child2: Chunk<V>,
    k2: usize,
    height: usize,
    bp: usize,
) -> (r: Chunk<V>)
    requires
        4 <= bp,
        height >= 1,
        branch_parts_wf(children@, counts@, (height - 1) as nat, bp as nat),
        pos as int <= children@.len(),
        children@.len() + 2 <= bp,
        wf_chunk(child1, (height - 1) as nat, bp as nat),
        half(bp as nat) <= clen(child1) <= bp - 1,
        k1 as int == centries(child1, (height - 1) as nat).len(),
        wf_chunk(child2, (height - 1) as nat, bp as nat),
        half(bp as nat) <= clen(child2) <= bp - 1,
        k2 as int == centries(child2, (height - 1) as nat).len(),
    ensures
        wf_chunk(r, height as nat, bp as nat),
        clen(r) == children@.len() + 2,
        centries(r, height as nat) == entries_range(children@, (height - 1) as nat, 0, pos as int)
            + centries(child1, (height - 1) as nat) + centries(child2, (height - 1) as nat)
            + entries_range(children@, (height - 1) as nat, pos as int, children@.len() as int),
{
    let ghost h1 = (height - 1) as nat;
    let ghost cs0 = children@;
    let ghost ks0 = counts@;
    let ghost n = cs0.len() as int;
    let ghost p = pos as int;
    let mut children = children;
    let mut counts = counts;
    children.insert(pos, child2);
    children.insert(pos, child1);
    counts.insert(pos, k2);
    counts.insert(pos, k1);
    let ghost cs1 = children@;
    let ghost ks1 = counts@;
    let r = Chunk::Branch { children, counts };
    proof {
        assert forall|m: int| 0 <= m < n + 2 implies {
            &&& wf_chunk(#[trigger] cs1[m], h1, bp as nat)
            &&& half(bp as nat) <= clen(cs1[m]) <= bp - 1
            &&& ks1[m] as int == centries(cs1[m], h1).len()
        } by {
            if m < p {
                assert(cs1[m] == cs0[m]);
                assert(ks1[m] == ks0[m]);
            } else if m == p {
                assert(cs1[m] == child1);
            } else if m == p + 1 {
                assert(cs1[m] == child2);
            } else {
                assert(cs1[m] == cs0[m - 2]);
                assert(ks1[m] == ks0[m - 2]);
            }
        }
        lemma_range_split(cs1, h1, 0, p, n + 2);
        lemma_range_split(cs1, h1, p, p + 2, n + 2);
        lemma_range_split(cs1, h1, p, p + 1, p + 2);
        lemma_range_one(cs1, h1, p);
        lemma_range_one(cs1, h1, p + 1);
        lemma_range_shift(cs0, cs1, h1, 0, p, 0);
        lemma_range_shift(cs0, cs1, h1, p, n, 2);
        assert(centries(r, height as nat) =~= entries_range(cs0, h1, 0, p) + centries(child1, h1)
            + centries(child2, h1) + entries_range(cs0, h1, p, n));
    }
    r
}

/// Split a full branch chunk in the middle: the left half keeps the first
/// `HALF` slots, a new right sibling takes the rest; the right sibling's
/// entry total is returned beside it.
pub(crate) fn split_branch<V>(
    children: Vec<Chunk<V>>,
    counts: Vec<usize>,
    height: usize,
    bp: usize,
) -> (r: (Chunk<V>, Chunk<V>, usize))
    requires
        4 <= bp,
        height >= 1,
        branch_parts_wf(children@, counts@, (height - 1) as nat, bp as nat),
        children@.len() == bp,
        psum(counts@, counts@.len() as int) <= usize::MAX,
    ensures
        wf_chunk(r.0, height as nat, bp as nat),
        wf_chunk(r.1, height as nat, bp as nat),
        clen(r.0) == half(bp as nat),
        clen(r.1) == bp - half(bp as nat),
        centries(r.0, height as nat) + centries(r.1, height as nat) == entries_range(
            children@,
            (height - 1) as nat,
            0,
            children@.len() as int,
        ),
        r.2 as int == centries(r.1, height as nat).len(),
{
    let ghost h1 = (height - 1) as nat;
    let ghost cs0 = children@;
    let ghost ks0 = counts@;
    let ghost n = cs0.len() as int;
    let hl = bp / 2;
    let mut children = children;
    let mut counts = counts;
    let right_children = children.split_off(hl);
    let right_counts = counts.split_off(hl);
    let ghost csl = children@;
    let ghost csr = right_children@;
    proof {
        assert forall|m: int| 0 <= m < csl.len() implies {
            &&& wf_chunk(#[trigger] csl[m], h1, bp as nat)
            &&& half(bp as nat) <= clen(csl[m]) <= bp - 1
            &&& counts@[m] as int == centries(csl[m], h1).len()
        } by {
            assert(csl[m] == cs0[m]);
            assert(counts@[m] == ks0[m]);
        }
        assert forall|m: int| 0 <= m < csr.len() implies {
            &&& wf_chunk(#[trigger] csr[m], h1, bp as nat)
            &&& half(bp as nat) <= clen(csr[m]) <= bp - 1
            &&& right_counts@[m] as int == centries(csr[m], h1).len()
        } by {
            assert(csr[m] == cs0[m + hl as int]);
            assert(right_counts@[m] == ks0[m + hl as int]);
        }
        lemma_range_split(cs0, h1, 0, hl as int, n);
        lemma_range_shift(cs0, csl, h1, 0, hl as int, 0);
        lemma_range_shift(cs0, csr, h1, hl as int, n, -(hl as int));
        lemma_range_count(csr, right_counts@, h1, 0, csr.len() as int);
        assert forall|m: int| 0 <= m < right_counts@.len() implies #[trigger] right_counts@[m]
            == ks0[m + hl as int] by {}
        lemma_psum_shift(ks0, right_counts@, hl as int, right_counts@.len() as int);
        lemma_psum_mono(ks0, hl as int, n);
        lemma_psum_mono(ks0, 0, hl as int);
    }
    let right_count = sum_counts(&right_counts);
    let left = Chunk::Branch { children, counts };
    let right = Chunk::Branch { children: right_children, counts: right_counts };
    proof {
        assert(centries(left, height as nat) + centries(right, height as nat) =~= entries_range(
            cs0,
            h1,
            0,
            n,
        ));
    }
    (left, right, right_count)
}

/// A suffix window of prefix sums equals the prefix sums of the shifted copy.
pub proof fn lemma_psum_shift(ks0: Seq<usize>, ks1: Seq<usize>, off: int, n: int)
    requires
        0 <= off,
        0 <= n,
        forall|m: int| 0 <= m < n ==> #[trigger] ks1[m] == ks0[m + off],
    ensures
        psum(ks1, n) == psum(ks0, off + n) - psum(ks0, off),
    decreases n,
{
    if n > 0 {
        lemma_psum_shift(ks0, ks1, off, n - 1);
        assert(ks1[n - 1] == ks0[n - 1 + off]);
    }
}

} // verus!
