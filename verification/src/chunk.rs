use vstd::prelude::*;

verus! {

/// One element of the list: a stable identifier and the client value.
pub struct LeafEntry<V> {
    pub id: u64,
    pub value: V,
}

/// An internal tree node: either a leaf chunk holding the entries themselves,
/// or a branch chunk holding child chunks beside their cached subtree counts.
pub enum Chunk<V> {
    Leaves { leaves: Vec<LeafEntry<V>> },
    Branch { children: Vec<Chunk<V>>, counts: Vec<usize> },
}

/// Minimum number of edges a non-root chunk may hold.
pub open spec fn half(bp: nat) -> nat {
    bp / 2
}

/// Number of edges a chunk holds.
pub open spec fn clen<V>(c: Chunk<V>) -> nat {
    match c {
        Chunk::Leaves { leaves } => leaves@.len(),
        Chunk::Branch { children, .. } => children@.len(),
    }
}

/// The (identifier, value) pairs stored in a sequence of leaf entries.
pub open spec fn leaf_pairs<V>(s: Seq<LeafEntry<V>>) -> Seq<(u64, V)> {
    s.map_values(|l: LeafEntry<V>| (l.id, l.value))
}

/// All entries of the subtree rooted at `c`, left to right, for a chunk whose
/// leaf chunks sit `h` levels below it.
pub open spec fn centries<V>(c: Chunk<V>, h: nat) -> Seq<(u64, V)>
    decreases h, 1int, 0int,
{
    match c {
        Chunk::Leaves { leaves } => leaf_pairs(leaves@),
        Chunk::Branch { children, .. } => {
            if h == 0 {
                Seq::empty()
            } else {
                entries_range(children@, (h - 1) as nat, 0, children@.len() as int)
            }
        },
    }
}

/// Entries of the children `cs[i..j]`, each of height `h`, concatenated.
pub open spec fn entries_range<V>(cs: Seq<Chunk<V>>, h: nat, i: int, j: int) -> Seq<(u64, V)>
    decreases h, 2int, j - i,
{
    if i < 0 || i >= j || j > cs.len() {
        Seq::empty()
    } else {
        centries(cs[i], h) + entries_range(cs, h, i + 1, j)
    }
}

/// Sum of the first `n` cached counts.
pub open spec fn psum(ks: Seq<usize>, n: int) -> int
    decreases n,
{
    if n <= 0 {
        0
    } else {
        psum(ks, n - 1) + ks[n - 1]
    }
}

/// Well-formedness of the subtree rooted at `c` with leaf chunks `h` levels
/// below: shapes follow the height uniformly, every child chunk keeps the
/// occupancy bounds, and every cached count equals the child's entry total.
/// The occupancy of `c` itself is its owner's concern.
pub open spec fn wf_chunk<V>(c: Chunk<V>, h: nat, bp: nat) -> bool
    decreases h, 1int,
{
    match c {
        Chunk::Leaves { .. } => h == 0,
        Chunk::Branch { children, counts } => {
            &&& h >= 1
            &&& branch_parts_wf(children@, counts@, (h - 1) as nat, bp)
        },
    }
}

/// Well-formedness of a branch chunk's slots, taken apart: children of height
/// `h`, each well formed and within the occupancy bounds, with each cached
/// count equal to its child's entry total.
pub open spec fn branch_parts_wf<V>(cs: Seq<Chunk<V>>, ks: Seq<usize>, h: nat, bp: nat) -> bool
    decreases h, 2int,
{
    &&& ks.len() == cs.len()
    &&& forall|i: int| 0 <= i < cs.len() ==> wf_chunk(#[trigger] cs[i], h, bp)
    &&& forall|i: int| 0 <= i < cs.len() ==> half(bp) <= clen(#[trigger] cs[i]) <= bp - 1
    &&& forall|i: int|
        0 <= i < cs.len() ==> (#[trigger] ks[i]) as int == centries(cs[i], h).len()
}

/// A child range of length one holds exactly that child's entries.
pub proof fn lemma_range_one<V>(cs: Seq<Chunk<V>>, h: nat, i: int)
    requires
        0 <= i < cs.len(),
    ensures
        entries_range(cs, h, i, i + 1) == centries(cs[i], h),
{
    assert(entries_range(cs, h, i + 1, i + 1) =~= Seq::<(u64, V)>::empty());
    assert(centries(cs[i], h) + Seq::<(u64, V)>::empty() =~= centries(cs[i], h));
}

/// A child range splits at any midpoint into the concatenation of its parts.
pub proof fn lemma_range_split<V>(cs: Seq<Chunk<V>>, h: nat, i: int, k: int, j: int)
    requires
        0 <= i <= k <= j <= cs.len(),
    ensures
        entries_range(cs, h, i, j) == entries_range(cs, h, i, k) + entries_range(cs, h, k, j),
    decreases k - i,
{
    if i == k {
        assert(entries_range(cs, h, i, k) =~= Seq::<(u64, V)>::empty());
        assert(entries_range(cs, h, i, k) + entries_range(cs, h, k, j) =~= entries_range(
            cs,
            h,
            k,
            j,
        ));
    } else {
        lemma_range_split(cs, h, i + 1, k, j);
        assert(entries_range(cs, h, i, j) =~= entries_range(cs, h, i, k) + entries_range(
            cs,
            h,
            k,
            j,
        ));
    }
}

/// Two sequences of children that agree on a window, up to an index shift,
/// have the same entries over that window.
pub proof fn lemma_range_shift<V>(
    cs1: Seq<Chunk<V>>,
    cs2: Seq<Chunk<V>>,
    h: nat,
    i: int,
    j: int,
    d: int,
)
    requires
        0 <= i,
        i <= j,
        j <= cs1.len(),
        0 <= i + d,
        j + d <= cs2.len(),
        forall|m: int| i <= m < j ==> cs2[m + d] == #[trigger] cs1[m],
    ensures
        entries_range(cs2, h, i + d, j + d) == entries_range(cs1, h, i, j),
    decreases j - i,
{
    if i < j {
        lemma_range_shift(cs1, cs2, h, i + 1, j, d);
        assert(cs2[i + d] == cs1[i]);
    }
}

/// The prefix sums are monotone in their length.
pub proof fn lemma_psum_mono(ks: Seq<usize>, i: int, j: int)
    requires
        0 <= i <= j,
    ensures
        psum(ks, i) <= psum(ks, j),
    decreases j - i,
{
    if i < j {
        lemma_psum_mono(ks, i, j - 1);
    }
}

/// When every cached count in a window is correct, the entries of that window
/// number exactly the difference of the prefix sums.
pub proof fn lemma_range_count<V>(cs: Seq<Chunk<V>>, ks: Seq<usize>, h: nat, i: int, j: int)
    requires
        0 <= i <= j <= cs.len(),
        forall|m: int| i <= m < j ==> (#[trigger] ks[m]) as int == centries(cs[m], h).len(),
    ensures
        entries_range(cs, h, i, j).len() == psum(ks, j) - psum(ks, i),
    decreases j - i,
{
    if i < j {
        lemma_range_count(cs, ks, h, i + 1, j);
        assert(ks[i] as int == centries(cs[i], h).len());
    }
}

/// Indexing into the concatenated entries of a window lands in the child that
/// the prefix sums select.
pub proof fn lemma_range_index<V>(
    cs: Seq<Chunk<V>>,
    ks: Seq<usize>,
    h: nat,
    n: int,
    pos: int,
    off: int,
)
    requires
        0 <= pos < n <= cs.len(),
        forall|m: int| 0 <= m < n ==> (#[trigger] ks[m]) as int == centries(cs[m], h).len(),
        0 <= off < ks[pos],
    ensures
        0 <= psum(ks, pos) + off < entries_range(cs, h, 0, n).len(),
        entries_range(cs, h, 0, n)[psum(ks, pos) + off] == centries(cs[pos], h)[off],
{
    lemma_range_split(cs, h, 0, pos, n);
    lemma_range_count(cs, ks, h, 0, pos);
    lemma_range_count(cs, ks, h, 0, n);
    lemma_psum_mono(ks, pos + 1, n);
    assert(entries_range(cs, h, pos, n) == centries(cs[pos], h) + entries_range(
        cs,
        h,
        pos + 1,
        n,
    ));
    assert(entries_range(cs, h, 0, n)[psum(ks, pos) + off] == entries_range(cs, h, pos, n)[off]);
}

/// Inserting into the middle part of a three-way concatenation is an insert
/// into the whole, at the shifted position.
pub proof fn lemma_parts_insert<A>(a: Seq<A>, b: Seq<A>, c: Seq<A>, k: int, x: A)
    requires
        0 <= k <= b.len(),
    ensures
        (a + b + c).insert(a.len() + k, x) == a + b.insert(k, x) + c,
{
    assert((a + b + c).insert(a.len() + k, x) =~= a + b.insert(k, x) + c);
}

/// Removing from the middle part of a three-way concatenation is a removal
/// from the whole, at the shifted position.
pub proof fn lemma_parts_remove<A>(a: Seq<A>, b: Seq<A>, c: Seq<A>, k: int)
    requires
        0 <= k < b.len(),
    ensures
        (a + b + c).remove(a.len() + k) == a + b.remove(k) + c,
{
    assert((a + b + c).remove(a.len() + k) =~= a + b.remove(k) + c);
}

/// Updating the middle part of a three-way concatenation is an update of the
/// whole, at the shifted position.
pub proof fn lemma_parts_update<A>(a: Seq<A>, b: Seq<A>, c: Seq<A>, k: int, x: A)
    requires
        0 <= k < b.len(),
    ensures
        (a + b + c).update(a.len() + k, x) == a + b.update(k, x) + c,
{
    assert((a + b + c).update(a.len() + k, x) =~= a + b.update(k, x) + c);
}

/// `leaf_pairs` commutes with insertion.
pub proof fn lemma_leaf_pairs_insert<V>(s: Seq<LeafEntry<V>>, k: int, l: LeafEntry<V>)
    requires
        0 <= k <= s.len(),
    ensures
        leaf_pairs(s.insert(k, l)) == leaf_pairs(s).insert(k, (l.id, l.value)),
{
    assert(leaf_pairs(s.insert(k, l)) =~= leaf_pairs(s).insert(k, (l.id, l.value)));
}

/// `leaf_pairs` commutes with removal.
pub proof fn lemma_leaf_pairs_remove<V>(s: Seq<LeafEntry<V>>, k: int)
    requires
        0 <= k < s.len(),
    ensures
        leaf_pairs(s.remove(k)) == leaf_pairs(s).remove(k),
{
    assert(leaf_pairs(s.remove(k)) =~= leaf_pairs(s).remove(k));
}

/// `leaf_pairs` commutes with updating one entry.
pub proof fn lemma_leaf_pairs_update<V>(s: Seq<LeafEntry<V>>, k: int, l: LeafEntry<V>)
    requires
        0 <= k < s.len(),
    ensures
        leaf_pairs(s.update(k, l)) == leaf_pairs(s).update(k, (l.id, l.value)),
{
    assert(leaf_pairs(s.update(k, l)) =~= leaf_pairs(s).update(k, (l.id, l.value)));
}

/// `leaf_pairs` commutes with taking a subrange.
pub proof fn lemma_leaf_pairs_subrange<V>(s: Seq<LeafEntry<V>>, i: int, j: int)
    requires
        0 <= i <= j <= s.len(),
    ensures
        leaf_pairs(s.subrange(i, j)) == leaf_pairs(s).subrange(i, j),
{
    assert(leaf_pairs(s.subrange(i, j)) =~= leaf_pairs(s).subrange(i, j));
}

/// `leaf_pairs` distributes over concatenation.
pub proof fn lemma_leaf_pairs_concat<V>(s1: Seq<LeafEntry<V>>, s2: Seq<LeafEntry<V>>)
    ensures
        leaf_pairs(s1 + s2) == leaf_pairs(s1) + leaf_pairs(s2),
{
    assert(leaf_pairs(s1 + s2) =~= leaf_pairs(s1) + leaf_pairs(s2));
}

} // verus!
