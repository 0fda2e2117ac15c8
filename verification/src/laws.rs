use vstd::prelude::*;

use crate::chunk::{
    Chunk, centries, clen, entries_range, half, lemma_range_one, lemma_range_split, wf_chunk,
};

verus! {

// ---------------------------------------------------------------------------
// Identifier bookkeeping over the abstract entry sequence.
// ---------------------------------------------------------------------------

/// No two entries carry the same identifier.
pub open spec fn uniq_ids<V>(s: Seq<(u64, V)>) -> bool {
    forall|i: int, j: int| 0 <= i < j < s.len() ==> s[i].0 != s[j].0
}

/// Every identifier lies under the bound `b`.
pub open spec fn ids_below<V>(s: Seq<(u64, V)>, b: u64) -> bool {
    forall|i: int| 0 <= i < s.len() ==> (#[trigger] s[i]).0 < b
}

/// Some entry carries the identifier `id`.
pub open spec fn has_handle<V>(s: Seq<(u64, V)>, id: u64) -> bool {
    exists|i: int| 0 <= i < s.len() && (#[trigger] s[i]).0 == id
}

/// The ordinal position of the entry carrying `id`.
pub open spec fn index_of_id<V>(s: Seq<(u64, V)>, id: u64) -> int {
    choose|i: int| 0 <= i < s.len() && (#[trigger] s[i]).0 == id
}

/// A present identifier has a valid position that carries it.
pub proof fn lemma_index_of_id_valid<V>(s: Seq<(u64, V)>, id: u64)
    requires
        has_handle(s, id),
    ensures
        0 <= index_of_id(s, id) < s.len(),
        s[index_of_id(s, id)].0 == id,
{
}

/// With distinct identifiers, the position of an entry's identifier is that
/// entry's own position: rank and select are mutually inverse.
pub proof fn lemma_index_unique<V>(s: Seq<(u64, V)>, i: int)
    requires
        uniq_ids(s),
        0 <= i < s.len(),
    ensures
        has_handle(s, s[i].0),
        index_of_id(s, s[i].0) == i,
{
    assert(0 <= i < s.len() && s[i].0 == s[i].0);
    lemma_index_of_id_valid(s, s[i].0);
}

/// Inserting an entry with a fresh identifier keeps identifiers distinct.
pub proof fn lemma_uniq_insert<V>(s: Seq<(u64, V)>, p: int, x: (u64, V))
    requires
        uniq_ids(s),
        0 <= p <= s.len(),
        forall|m: int| 0 <= m < s.len() ==> (#[trigger] s[m]).0 != x.0,
    ensures
        uniq_ids(s.insert(p, x)),
{
    let t = s.insert(p, x);
    assert forall|i: int, j: int| 0 <= i < j < t.len() implies t[i].0 != t[j].0 by {
        if i < p {
            assert(t[i] == s[i]);
        } else if i == p {
            assert(t[i] == x);
        } else {
            assert(t[i] == s[i - 1]);
        }
        if j < p {
            assert(t[j] == s[j]);
        } else if j == p {
            assert(t[j] == x);
        } else {
            assert(t[j] == s[j - 1]);
        }
    }
}

/// Inserting an entry whose identifier lies under the bound keeps the bound.
pub proof fn lemma_below_insert<V>(s: Seq<(u64, V)>, p: int, x: (u64, V), b: u64)
    requires
        ids_below(s, b),
        0 <= p <= s.len(),
        x.0 < b,
    ensures
        ids_below(s.insert(p, x), b),
{
    let t = s.insert(p, x);
    assert forall|i: int| 0 <= i < t.len() implies (#[trigger] t[i]).0 < b by {
        if i < p {
            assert(t[i] == s[i]);
        } else if i == p {
            assert(t[i] == x);
        } else {
            assert(t[i] == s[i - 1]);
        }
    }
}

/// Removing an entry keeps identifiers distinct.
pub proof fn lemma_uniq_remove<V>(s: Seq<(u64, V)>, p: int)
    requires
        uniq_ids(s),
        0 <= p < s.len(),
    ensures
        uniq_ids(s.remove(p)),
{
    let t = s.remove(p);
    assert forall|i: int, j: int| 0 <= i < j < t.len() implies t[i].0 != t[j].0 by {
        if i < p {
            assert(t[i] == s[i]);
        } else {
            assert(t[i] == s[i + 1]);
        }
        if j < p {
            assert(t[j] == s[j]);
        } else {
            assert(t[j] == s[j + 1]);
        }
    }
}

/// Removing an entry keeps the identifier bound.
pub proof fn lemma_below_remove<V>(s: Seq<(u64, V)>, p: int, b: u64)
    requires
        ids_below(s, b),
        0 <= p < s.len(),
    ensures
        ids_below(s.remove(p), b),
{
    let t = s.remove(p);
    assert forall|i: int| 0 <= i < t.len() implies (#[trigger] t[i]).0 < b by {
        if i < p {
            assert(t[i] == s[i]);
        } else {
            assert(t[i] == s[i + 1]);
        }
    }
}

/// Removing the entry that carries `id` leaves no entry carrying `id`.
pub proof fn lemma_remove_no_handle<V>(s: Seq<(u64, V)>, id: u64)
    requires
        uniq_ids(s),
        has_handle(s, id),
    ensures
        !has_handle(s.remove(index_of_id(s, id)), id),
{
    lemma_index_of_id_valid(s, id);
    let p = index_of_id(s, id);
    let t = s.remove(p);
    assert forall|i: int| 0 <= i < t.len() implies (#[trigger] t[i]).0 != id by {
        if i < p {
            assert(t[i] == s[i]);
        } else {
            assert(t[i] == s[i + 1]);
        }
    }
}

/// Replacing an entry's value in place, keeping its identifier, preserves
/// distinctness and the identifier bound.
pub proof fn lemma_ids_update<V>(s: Seq<(u64, V)>, p: int, x: (u64, V), b: u64)
    requires
        uniq_ids(s),
        ids_below(s, b),
        0 <= p < s.len(),
        x.0 == s[p].0,
    ensures
        uniq_ids(s.update(p, x)),
        ids_below(s.update(p, x), b),
{
    let t = s.update(p, x);
    assert forall|i: int, j: int| 0 <= i < j < t.len() implies t[i].0 != t[j].0 by {
        assert(t[i].0 == s[i].0);
        assert(t[j].0 == s[j].0);
    }
    assert forall|i: int| 0 <= i < t.len() implies (#[trigger] t[i]).0 < b by {
        assert(t[i].0 == s[i].0);
    }
}

// ---------------------------------------------------------------------------
// Handle stability: reshaping around a handle moves only its ordinal rank.
// ---------------------------------------------------------------------------

/// Inserting some other entry anywhere leaves the entry named `id` intact:
/// the same identifier still names the same value, and its ordinal rank
/// changes exactly by one when the insertion lands at or before it.
pub proof fn lemma_handle_stable_insert<V>(s: Seq<(u64, V)>, p: int, x: (u64, V), id: u64)
    requires
        uniq_ids(s),
        0 <= p <= s.len(),
        forall|m: int| 0 <= m < s.len() ==> (#[trigger] s[m]).0 != x.0,
        has_handle(s, id),
        id != x.0,
    ensures
        has_handle(s.insert(p, x), id),
        index_of_id(s.insert(p, x), id) == index_of_id(s, id) + (if p <= index_of_id(s, id) {
            1int
        } else {
            0int
        }),
        s.insert(p, x)[index_of_id(s.insert(p, x), id)] == s[index_of_id(s, id)],
{
    lemma_index_of_id_valid(s, id);
    lemma_uniq_insert(s, p, x);
    let i = index_of_id(s, id);
    let t = s.insert(p, x);
    let i2 = if p <= i {
        i + 1
    } else {
        i
    };
    assert(t[i2] == s[i]);
    lemma_index_unique(t, i2);
}

/// Removing some other entry leaves the entry named `id` intact: the same
/// identifier still names the same value, and its ordinal rank drops exactly
/// by one when the removal happened before it.
pub proof fn lemma_handle_stable_remove<V>(s: Seq<(u64, V)>, p: int, id: u64)
    requires
        uniq_ids(s),
        0 <= p < s.len(),
        has_handle(s, id),
        s[p].0 != id,
    ensures
        has_handle(s.remove(p), id),
        index_of_id(s.remove(p), id) == index_of_id(s, id) - (if p < index_of_id(s, id) {
            1int
        } else {
            0int
        }),
        s.remove(p)[index_of_id(s.remove(p), id)] == s[index_of_id(s, id)],
{
    lemma_index_of_id_valid(s, id);
    lemma_uniq_remove(s, p);
    let i = index_of_id(s, id);
    let t = s.remove(p);
    let i2 = if p < i {
        i - 1
    } else {
        i
    };
    assert(t[i2] == s[i]);
    lemma_index_unique(t, i2);
}

// ---------------------------------------------------------------------------
// Structural invariants restated independently of the well-formedness spec.
// ---------------------------------------------------------------------------

/// All leaf chunks of `c` sit exactly `d` levels below it.
pub open spec fn uniform_leaf_depth<V>(c: Chunk<V>, d: nat) -> bool
    decreases d,
{
    match c {
        Chunk::Leaves { .. } => d == 0,
        Chunk::Branch { children, .. } => d >= 1 && forall|i: int|
            0 <= i < children@.len() ==> uniform_leaf_depth(
                #[trigger] children@[i],
                (d - 1) as nat,
            ),
    }
}

/// A well-formed subtree keeps all its leaf chunks at one depth.
pub proof fn lemma_wf_uniform_depth<V>(c: Chunk<V>, h: nat, bp: nat)
    requires
        wf_chunk(c, h, bp),
    ensures
        uniform_leaf_depth(c, h),
    decreases h,
{
    match c {
        Chunk::Leaves { .. } => {},
        Chunk::Branch { children, .. } => {
            assert forall|i: int| 0 <= i < children@.len() implies uniform_leaf_depth(
                #[trigger] children@[i],
                (h - 1) as nat,
            ) by {
                lemma_wf_uniform_depth(children@[i], (h - 1) as nat, bp);
            }
        },
    }
}

/// Every chunk hanging below `c` holds between `HALF` and `BP - 1` edges.
pub open spec fn occupancy_below<V>(c: Chunk<V>, bp: nat, d: nat) -> bool
    decreases d,
{
    match c {
        Chunk::Leaves { .. } => true,
        Chunk::Branch { children, .. } => d >= 1 && forall|i: int|
            0 <= i < children@.len() ==> half(bp) <= clen(#[trigger] children@[i]) <= bp - 1
                && occupancy_below(children@[i], bp, (d - 1) as nat),
    }
}

/// A well-formed subtree keeps the occupancy bounds on every chunk below it.
pub proof fn lemma_wf_occupancy<V>(c: Chunk<V>, h: nat, bp: nat)
    requires
        wf_chunk(c, h, bp),
    ensures
        occupancy_below(c, bp, h),
    decreases h,
{
    match c {
        Chunk::Leaves { .. } => {},
        Chunk::Branch { children, .. } => {
            assert forall|i: int| 0 <= i < children@.len() implies half(bp) <= clen(
                #[trigger] children@[i],
            ) <= bp - 1 && occupancy_below(children@[i], bp, (h - 1) as nat) by {
                lemma_wf_occupancy(children@[i], (h - 1) as nat, bp);
            }
        },
    }
}

/// The number of leaf entries reachable through `c`, counted directly and
/// without consulting any cached count.
pub open spec fn leaf_count<V>(c: Chunk<V>, d: nat) -> nat
    decreases d, 1int,
{
    match c {
        Chunk::Leaves { leaves } => leaves@.len(),
        Chunk::Branch { children, .. } => {
            if d == 0 {
                0
            } else {
                leaf_count_range(children@, (d - 1) as nat, children@.len() as int)
            }
        },
    }
}

/// Sum of the leaf counts of the first `n` children.
pub open spec fn leaf_count_range<V>(cs: Seq<Chunk<V>>, d: nat, n: int) -> nat
    decreases d, 2int, n,
{
    if n <= 0 || n > cs.len() {
        0
    } else {
        leaf_count_range(cs, d, n - 1) + leaf_count(cs[n - 1], d)
    }
}

/// Every cached count below `c` equals the directly counted number of leaf
/// entries of its child, and every counts sequence runs parallel to its
/// children sequence.
pub open spec fn counts_accurate<V>(c: Chunk<V>, d: nat) -> bool
    decreases d,
{
    match c {
        Chunk::Leaves { .. } => true,
        Chunk::Branch { children, counts } => {
            &&& d >= 1
            &&& counts@.len() == children@.len()
            &&& forall|i: int|
                0 <= i < children@.len() ==> (#[trigger] counts@[i]) as nat == leaf_count(
                    children@[i],
                    (d - 1) as nat,
                )
            &&& forall|i: int|
                0 <= i < children@.len() ==> counts_accurate(
                    #[trigger] children@[i],
                    (d - 1) as nat,
                )
        },
    }
}

/// The direct leaf count of a well-formed subtree is its entry total.
pub proof fn lemma_leaf_count_is_entries<V>(c: Chunk<V>, h: nat, bp: nat)
    requires
        wf_chunk(c, h, bp),
    ensures
        leaf_count(c, h) == centries(c, h).len(),
    decreases h, 1int,
{
    match c {
        Chunk::Leaves { .. } => {},
        Chunk::Branch { children, .. } => {
            lemma_leaf_count_range(children@, (h - 1) as nat, children@.len() as int, bp);
        },
    }
}

/// The summed direct leaf counts of well-formed children are their summed
/// entry totals.
pub proof fn lemma_leaf_count_range<V>(cs: Seq<Chunk<V>>, d: nat, n: int, bp: nat)
    requires
        0 <= n <= cs.len(),
        forall|i: int| 0 <= i < cs.len() ==> wf_chunk(#[trigger] cs[i], d, bp),
    ensures
        leaf_count_range(cs, d, n) == entries_range(cs, d, 0, n).len(),
    decreases d, 2int, n,
{
    if n > 0 {
        lemma_leaf_count_range(cs, d, n - 1, bp);
        lemma_leaf_count_is_entries(cs[n - 1], d, bp);
        lemma_range_split(cs, d, 0, n - 1, n);
        lemma_range_one(cs, d, n - 1);
    }
}

/// A well-formed subtree keeps every cached count equal to the number of
/// leaf entries actually reachable through its edge, in lock step with the
/// children.
pub proof fn lemma_wf_counts_accurate<V>(c: Chunk<V>, h: nat, bp: nat)
    requires
        wf_chunk(c, h, bp),
    ensures
        counts_accurate(c, h),
    decreases h,
{
    match c {
        Chunk::Leaves { .. } => {},
        Chunk::Branch { children, counts } => {
            assert forall|i: int| 0 <= i < children@.len() implies (#[trigger] counts@[i]) as nat
                == leaf_count(children@[i], (h - 1) as nat) by {
                lemma_leaf_count_is_entries(children@[i], (h - 1) as nat, bp);
            }
            assert forall|i: int| 0 <= i < children@.len() implies counts_accurate(
                #[trigger] children@[i],
                (h - 1) as nat,
            ) by {
                lemma_wf_counts_accurate(children@[i], (h - 1) as nat, bp);
            }
        },
    }
}

// ---------------------------------------------------------------------------
// Size bounds of well-formed subtrees.
// ---------------------------------------------------------------------------

/// A well-formed subtree with at least one edge holds at least one entry.
pub proof fn lemma_chunk_nonempty<V>(c: Chunk<V>, h: nat, bp: nat)
    requires
        wf_chunk(c, h, bp),
        clen(c) >= 1,
        bp >= 4,
    ensures
        centries(c, h).len() >= 1,
    decreases h,
{
    match c {
        Chunk::Leaves { .. } => {},
        Chunk::Branch { children, .. } => {
            let n = children@.len() as int;
            lemma_range_split(children@, (h - 1) as nat, 0, 1, n);
            lemma_range_one(children@, (h - 1) as nat, 0);
            lemma_chunk_nonempty(children@[0], (h - 1) as nat, bp);
        },
    }
}

/// A well-formed branching subtree holds more entries than it is tall: its
/// entry total strictly bounds its depth.
pub proof fn lemma_depth_lt_count<V>(c: Chunk<V>, h: nat, bp: nat)
    requires
        wf_chunk(c, h, bp),
        h >= 1,
        clen(c) >= 2,
        bp >= 4,
    ensures
        centries(c, h).len() >= h + 1,
    decreases h,
{
    match c {
        Chunk::Leaves { .. } => {},
        Chunk::Branch { children, .. } => {
            let h1 = (h - 1) as nat;
            let n = children@.len() as int;
            lemma_range_split(children@, h1, 0, 1, n);
            lemma_range_one(children@, h1, 0);
            lemma_range_split(children@, h1, 1, 2, n);
            lemma_range_one(children@, h1, 1);
            lemma_chunk_nonempty(children@[1], h1, bp);
            if h == 1 {
                assert(centries(children@[0], h1).len() >= 2);
            } else {
                lemma_depth_lt_count(children@[0], h1, bp);
            }
        },
    }
}

} // verus!
