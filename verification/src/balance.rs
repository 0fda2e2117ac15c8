use vstd::prelude::*;
use vstd::pervasive::unreached;

use crate::assemble::branch_insert2;
use crate::chunk::{
    Chunk, LeafEntry, branch_parts_wf, centries, clen, entries_range, half, leaf_pairs,
    lemma_leaf_pairs_concat, lemma_range_one, lemma_range_shift, lemma_range_split, wf_chunk,
};

verus! {

/// One edge of a chunk, detached: a leaf entry out of a leaf chunk, or a
/// child chunk beside its cached count out of a branch chunk.
pub enum ChunkEdge<V> {
    L { leaf: LeafEntry<V> },
    B { chunk: Chunk<V>, count: usize },
}

/// An edge detached from a chunk whose leaf chunks sit `h` levels below.
pub open spec fn edge_wf<V>(e: ChunkEdge<V>, h: nat, bp: nat) -> bool {
    match e {
        ChunkEdge::L { .. } => h == 0,
        ChunkEdge::B { chunk, count } => {
            &&& h >= 1
            &&& wf_chunk(chunk, (h - 1) as nat, bp)
            &&& half(bp) <= clen(chunk) <= bp - 1
            &&& count as int == centries(chunk, (h - 1) as nat).len()
        },
    }
}

/// The entries a detached edge carries.
pub open spec fn edge_entries<V>(e: ChunkEdge<V>, h: nat) -> Seq<(u64, V)> {
    match e {
        ChunkEdge::L { leaf } => seq![(leaf.id, leaf.value)],
        ChunkEdge::B { chunk, .. } => centries(chunk, (h - 1) as nat),
    }
}

/// Number of edges a chunk holds.
pub(crate) fn chunk_len<V>(c: &Chunk<V>) -> (r: usize)
    ensures
        r == clen(*c),
{
    match c {
        Chunk::Leaves { leaves } => leaves.len(),
        Chunk::Branch { children, .. } => children.len(),
    }
}

/// Detach the first edge of `c`.
pub(crate) fn take_first_edge<V>(c: Chunk<V>, height: usize, bp: usize) -> (r: (
    Chunk<V>,
    ChunkEdge<V>,
    usize,
))
    requires
        wf_chunk(c, height as nat, bp as nat),
        clen(c) >= 1,
        4 <= bp,
    ensures
        wf_chunk(r.0, height as nat, bp as nat),
        clen(r.0) == clen(c) - 1,
        edge_wf(r.1, height as nat, bp as nat),
        edge_entries(r.1, height as nat) + centries(r.0, height as nat) == centries(
            c,
            height as nat,
        ),
        r.2 as int == edge_entries(r.1, height as nat).len(),
{
    match c {
        Chunk::Leaves { mut leaves } => {
            let ghost s0 = leaves@;
            let leaf = leaves.remove(0);
            let ghost e = ChunkEdge::L { leaf };
            proof {
                assert(edge_entries(e, 0) + leaf_pairs(leaves@) =~= leaf_pairs(s0));
            }
            (Chunk::Leaves { leaves }, ChunkEdge::L { leaf }, 1)
        },
        Chunk::Branch { mut children, mut counts } => {
            let ghost h1 = (height - 1) as nat;
            let ghost cs0 = children@;
            let ghost ks0 = counts@;
            let ghost n = cs0.len() as int;
            let chunk = children.remove(0);
            let count = counts.remove(0);
            proof {
                lemma_range_split(cs0, h1, 0, 1, n);
                lemma_range_one(cs0, h1, 0);
                lemma_range_shift(cs0, children@, h1, 1, n, -1);
                assert forall|m: int| 0 <= m < n - 1 implies {
                    &&& wf_chunk(#[trigger] children@[m], h1, bp as nat)
                    &&& half(bp as nat) <= clen(children@[m]) <= bp - 1
                    &&& counts@[m] as int == centries(children@[m], h1).len()
                } by {
                    assert(children@[m] == cs0[m + 1]);
                    assert(counts@[m] == ks0[m + 1]);
                }
            }
            let r = Chunk::Branch { children, counts };
            (r, ChunkEdge::B { chunk, count }, count)
        },
    }
}

/// Detach the last edge of `c`.
pub(crate) fn take_last_edge<V>(c: Chunk<V>, height: usize, bp: usize) -> (r: (
    Chunk<V>,
    ChunkEdge<V>,
    usize,
))
    requires
        wf_chunk(c, height as nat, bp as nat),
        clen(c) >= 1,
        4 <= bp,
    ensures
        wf_chunk(r.0, height as nat, bp as nat),
        clen(r.0) == clen(c) - 1,
        edge_wf(r.1, height as nat, bp as nat),
        centries(r.0, height as nat) + edge_entries(r.1, height as nat) == centries(
            c,
            height as nat,
        ),
        r.2 as int == edge_entries(r.1, height as nat).len(),
{
    match c {
        Chunk::Leaves { mut leaves } => {
            let ghost s0 = leaves@;
            let last = leaves.len() - 1;
            let leaf = leaves.remove(last);
            let ghost e = ChunkEdge::L { leaf };
            proof {
                assert(leaf_pairs(leaves@) + edge_entries(e, 0) =~= leaf_pairs(s0));
            }
            (Chunk::Leaves { leaves }, ChunkEdge::L { leaf }, 1)
        },
        Chunk::Branch { mut children, mut counts } => {
            let ghost h1 = (height - 1) as nat;
            let ghost cs0 = children@;
            let ghost ks0 = counts@;
            let ghost n = cs0.len() as int;
            let last = children.len() - 1;
            let chunk = children.remove(last);
            let count = counts.remove(last);
            proof {
                lemma_range_split(cs0, h1, 0, n - 1, n);
                lemma_range_one(cs0, h1, n - 1);
                lemma_range_shift(cs0, children@, h1, 0, n - 1, 0);
                assert forall|m: int| 0 <= m < n - 1 implies {
                    &&& wf_chunk(#[trigger] children@[m], h1, bp as nat)
                    &&& half(bp as nat) <= clen(children@[m]) <= bp - 1
                    &&& counts@[m] as int == centries(children@[m], h1).len()
                } by {
                    assert(children@[m] == cs0[m]);
                    assert(counts@[m] == ks0[m]);
                }
            }
            let r = Chunk::Branch { children, counts };
            (r, ChunkEdge::B { chunk, count }, count)
        },
    }
}

/// Hang a detached edge at the right end of `c`.
pub(crate) fn push_back_edge<V>(c: Chunk<V>, e: ChunkEdge<V>, height: usize, bp: usize) -> (r:
    Chunk<V>)
    requires
        wf_chunk(c, height as nat, bp as nat),
        edge_wf(e, height as nat, bp as nat),
        clen(c) + 1 <= bp - 1,
        4 <= bp,
    ensures
        wf_chunk(r, height as nat, bp as nat),
        clen(r) == clen(c) + 1,
        centries(r, height as nat) == centries(c, height as nat) + edge_entries(
            e,
            height as nat,
        ),
{
    match c {
        Chunk::Leaves { mut leaves } => {
            match e {
                ChunkEdge::L { leaf } => {
                    let ghost s0 = leaves@;
                    let ghost e2 = ChunkEdge::L { leaf };
                    leaves.push(leaf);
                    proof {
                        assert(leaf_pairs(leaves@) =~= leaf_pairs(s0) + edge_entries(e2, 0));
                    }
                    Chunk::Leaves { leaves }
                },
                ChunkEdge::B { .. } => unreached(),
            }
        },
        Chunk::Branch { mut children, mut counts } => {
            match e {
                ChunkEdge::B { chunk, count } => {
                    let ghost h1 = (height - 1) as nat;
                    let ghost cs0 = children@;
                    let ghost ks0 = counts@;
                    let ghost n = cs0.len() as int;
                    children.push(chunk);
                    counts.push(count);
                    proof {
                        lemma_range_split(children@, h1, 0, n, n + 1);
                        lemma_range_one(children@, h1, n);
                        lemma_range_shift(cs0, children@, h1, 0, n, 0);
                        assert forall|m: int| 0 <= m < n + 1 implies {
                            &&& wf_chunk(#[trigger] children@[m], h1, bp as nat)
                            &&& half(bp as nat) <= clen(children@[m]) <= bp - 1
                            &&& counts@[m] as int == centries(children@[m], h1).len()
                        } by {
                            if m < n {
                                assert(children@[m] == cs0[m]);
                                assert(counts@[m] == ks0[m]);
                            } else {
                                assert(children@[m] == chunk);
                            }
                        }
                    }
                    Chunk::Branch { children, counts }
                },
                ChunkEdge::L { .. } => unreached(),
            }
        },
    }
}

/// Hang a detached edge at the left end of `c`.
pub(crate) fn push_front_edge<V>(c: Chunk<V>, e: ChunkEdge<V>, height: usize, bp: usize) -> (r:
    Chunk<V>)
    requires
        wf_chunk(c, height as nat, bp as nat),
        edge_wf(e, height as nat, bp as nat),
        clen(c) + 1 <= bp - 1,
        4 <= bp,
    ensures
        wf_chunk(r, height as nat, bp as nat),
        clen(r) == clen(c) + 1,
        centries(r, height as nat) == edge_entries(e, height as nat) + centries(
            c,
            height as nat,
        ),
{
    match c {
        Chunk::Leaves { mut leaves } => {
            match e {
                ChunkEdge::L { leaf } => {
                    let ghost s0 = leaves@;
                    let ghost e2 = ChunkEdge::L { leaf };
                    leaves.insert(0, leaf);
                    proof {
                        assert(leaf_pairs(leaves@) =~= edge_entries(e2, 0) + leaf_pairs(s0));
                    }
                    Chunk::Leaves { leaves }
                },
                ChunkEdge::B { .. } => unreached(),
            }
        },
        Chunk::Branch { mut children, mut counts } => {
            match e {
                ChunkEdge::B { chunk, count } => {
                    let ghost h1 = (height - 1) as nat;
                    let ghost cs0 = children@;
                    let ghost ks0 = counts@;
                    let ghost n = cs0.len() as int;
                    children.insert(0, chunk);
                    counts.insert(0, count);
                    proof {
                        lemma_range_split(children@, h1, 0, 1, n + 1);
                        lemma_range_one(children@, h1, 0);
                        lemma_range_shift(cs0, children@, h1, 0, n, 1);
                        assert forall|m: int| 0 <= m < n + 1 implies {
                            &&& wf_chunk(#[trigger] children@[m], h1, bp as nat)
                            &&& half(bp as nat) <= clen(children@[m]) <= bp - 1
                            &&& counts@[m] as int == centries(children@[m], h1).len()
                        } by {
                            if m >= 1 {
                                assert(children@[m] == cs0[m - 1]);
                                assert(counts@[m] == ks0[m - 1]);
                            } else {
                                assert(children@[m] == chunk);
                            }
                        }
                    }
                    Chunk::Branch { children, counts }
                },
                ChunkEdge::L { .. } => unreached(),
            }
        },
    }
}

/// Merge two sibling chunks of the same height into one, keeping order:
/// all of `a`'s edges, then all of `b`'s.
pub(crate) fn merge_chunks<V>(a: Chunk<V>, b: Chunk<V>, height: usize, bp: usize) -> (r: Chunk<V>)
    requires
        wf_chunk(a, height as nat, bp as nat),
        wf_chunk(b, height as nat, bp as nat),
        clen(a) + clen(b) <= bp - 1,
        4 <= bp,
    ensures
        wf_chunk(r, height as nat, bp as nat),
        clen(r) == clen(a) + clen(b),
        centries(r, height as nat) == centries(a, height as nat) + centries(b, height as nat),
{
    match (a, b) {
        (Chunk::Leaves { mut leaves }, Chunk::Leaves { leaves: mut leaves2 }) => {
            let ghost s1 = leaves@;
            let ghost s2 = leaves2@;
            leaves.append(&mut leaves2);
            proof {
                lemma_leaf_pairs_concat(s1, s2);
            }
            Chunk::Leaves { leaves }
        },
        (
            Chunk::Branch { mut children, mut counts },
            Chunk::Branch { children: mut children2, counts: mut counts2 },
        ) => {
            let ghost h1 = (height - 1) as nat;
            let ghost cs1 = children@;
            let ghost ks1 = counts@;
            let ghost cs2 = children2@;
            let ghost ks2 = counts2@;
            let ghost n1 = cs1.len() as int;
            let ghost n2 = cs2.len() as int;
            children.append(&mut children2);
            counts.append(&mut counts2);
            proof {
                lemma_range_split(children@, h1, 0, n1, n1 + n2);
                lemma_range_shift(cs1, children@, h1, 0, n1, 0);
                lemma_range_shift(cs2, children@, h1, 0, n2, n1);
                assert forall|m: int| 0 <= m < n1 + n2 implies {
                    &&& wf_chunk(#[trigger] children@[m], h1, bp as nat)
                    &&& half(bp as nat) <= clen(children@[m]) <= bp - 1
                    &&& counts@[m] as int == centries(children@[m], h1).len()
                } by {
                    if m < n1 {
                        assert(children@[m] == cs1[m]);
                        assert(counts@[m] == ks1[m]);
                    } else {
                        assert(children@[m] == cs2[m - n1]);
                        assert(counts@[m] == ks2[m - n1]);
                    }
                }
            }
            Chunk::Branch { children, counts }
        },
        _ => unreached(),
    }
}

/// An underfull chunk beside a rich next sibling: move the sibling's first
/// edge to the chunk's right end and rebuild both under their parent's slots.
pub(crate) fn borrow_from_next<V>(
    children: Vec<Chunk<V>>,
    counts: Vec<usize>,
    pos: usize,
    child1: Chunk<V>,
    k1: usize,
    next: Chunk<V>,
    nk: usize,
    height: usize,
    bp: usize,
) -> (r: Chunk<V>)
    requires
        4 <= bp,
        height >= 1,
        branch_parts_wf(children@, counts@, (height - 1) as nat, bp as nat),
        pos as int <= children@.len(),
        children@.len() + 2 <= bp,
        wf_chunk(child1, (height - 1) as nat, bp as nat),
        clen(child1) == half(bp as nat) - 1,
        k1 as int == centries(child1, (height - 1) as nat).len(),
        wf_chunk(next, (height - 1) as nat, bp as nat),
        half(bp as nat) < clen(next) <= bp - 1,
        nk as int == centries(next, (height - 1) as nat).len(),
        k1 + nk <= usize::MAX,
    ensures
        wf_chunk(r, height as nat, bp as nat),
        clen(r) == children@.len() + 2,
        centries(r, height as nat) == entries_range(children@, (height - 1) as nat, 0, pos as int)
            + centries(child1, (height - 1) as nat) + centries(next, (height - 1) as nat)
            + entries_range(children@, (height - 1) as nat, pos as int, children@.len() as int),
{
    let ghost h1 = (height - 1) as nat;
    let (next1, edge, ec) = take_first_edge(next, height - 1, bp);
    let child2 = push_back_edge(child1, edge, height - 1, bp);
    let r = branch_insert2(children, counts, pos, child2, k1 + ec, next1, nk - ec, height, bp);
    proof {
        assert(centries(child2, h1) + centries(next1, h1) =~= centries(child1, h1) + centries(
            next,
            h1,
        ));
        assert(entries_range(children@, h1, 0, pos as int) + centries(child2, h1) + centries(
            next1,
            h1,
        ) + entries_range(children@, h1, pos as int, children@.len() as int) =~= entries_range(
            children@,
            h1,
            0,
            pos as int,
        ) + centries(child1, h1) + centries(next, h1) + entries_range(
            children@,
            h1,
            pos as int,
            children@.len() as int,
        ));
    }
    r
}

/// An underfull chunk beside a rich previous sibling: move the sibling's last
/// edge to the chunk's left end and rebuild both under their parent's slots.
pub(crate) fn borrow_from_prev<V>(
    children: Vec<Chunk<V>>,
    counts: Vec<usize>,
    pos: usize,
    prev: Chunk<V>,
    pk: usize,
    child1: Chunk<V>,
    k1: usize,
    height: usize,
    bp: usize,
) -> (r: Chunk<V>)
    requires
        4 <= bp,
        height >= 1,
        branch_parts_wf(children@, counts@, (height - 1) as nat, bp as nat),
        pos as int <= children@.len(),
        children@.len() + 2 <= bp,
        wf_chunk(child1, (height - 1) as nat, bp as nat),
        clen(child1) == half(bp as nat) - 1,
        k1 as int == centries(child1, (height - 1) as nat).len(),
        wf_chunk(prev, (height - 1) as nat, bp as nat),
        half(bp as nat) < clen(prev) <= bp - 1,
        pk as int == centries(prev, (height - 1) as nat).len(),
        k1 + pk <= usize::MAX,
    ensures
        wf_chunk(r, height as nat, bp as nat),
        clen(r) == children@.len() + 2,
        centries(r, height as nat) == entries_range(children@, (height - 1) as nat, 0, pos as int)
            + centries(prev, (height - 1) as nat) + centries(child1, (height - 1) as nat)
            + entries_range(children@, (height - 1) as nat, pos as int, children@.len() as int),
{
    let ghost h1 = (height - 1) as nat;
    let (prev1, edge, ec) = take_last_edge(prev, height - 1, bp);
    let child2 = push_front_edge(child1, edge, height - 1, bp);
    let r = branch_insert2(children, counts, pos, prev1, pk - ec, child2, k1 + ec, height, bp);
    proof {
        assert(centries(prev1, h1) + centries(child2, h1) =~= centries(prev, h1) + centries(
            child1,
            h1,
        ));
        assert(entries_range(children@, h1, 0, pos as int) + centries(prev1, h1) + centries(
            child2,
            h1,
        ) + entries_range(children@, h1, pos as int, children@.len() as int) =~= entries_range(
            children@,
            h1,
            0,
            pos as int,
        ) + centries(prev, h1) + centries(child1, h1) + entries_range(
            children@,
            h1,
            pos as int,
            children@.len() as int,
        ));
    }
    r
}

} // verus!
