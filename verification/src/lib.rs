use vstd::prelude::*;
use vstd::pervasive::unreached;

pub mod assemble;
pub mod balance;
pub mod chunk;
pub mod insert;
pub mod laws;
pub mod navigate;
pub mod remove;

use balance::chunk_len;
use chunk::{Chunk, centries, clen, entries_range, lemma_range_one, wf_chunk};
use insert::{chunk_insert_at, chunk_set_value};
use laws::{
    counts_accurate, has_handle, ids_below, index_of_id, lemma_below_insert, lemma_below_remove,
    lemma_depth_lt_count, lemma_ids_update, lemma_index_of_id_valid,
    lemma_index_unique, lemma_remove_no_handle, lemma_uniq_insert, lemma_uniq_remove,
    lemma_wf_counts_accurate, lemma_wf_occupancy, lemma_wf_uniform_depth, occupancy_below,
    uniform_leaf_depth, uniq_ids,
};
use navigate::{chunk_find, chunk_select, chunk_value};
use remove::chunk_remove_at;

verus! {

/// A stable handle naming one element of the list. It stays valid across any
/// rebalancing and any insertion or removal of other elements, and is
/// invalidated exactly when its own element is removed.
#[derive(Clone, Copy)]
pub struct InsertedId {
    id: u64,
}

impl View for InsertedId {
    type V = u64;

    closed spec fn view(&self) -> u64 {
        self.id
    }
}

/// An ordered positional list backed by a B+ tree with branching factor `BP`:
/// every chunk holds at most `BP - 1` edges and every non-root chunk at least
/// `HALF = BP / 2`. The list is viewed abstractly as the sequence of
/// (identifier, value) pairs it holds, left to right.
pub struct OrderedBList<V, const BP: usize> {
    root: Chunk<V>,
    height: usize,
    len: usize,
    next_id: u64,
}

impl<V, const BP: usize> View for OrderedBList<V, BP> {
    type V = Seq<(u64, V)>;

    closed spec fn view(&self) -> Seq<(u64, V)> {
        centries(self.root, self.height as nat)
    }
}

impl<V, const BP: usize> OrderedBList<V, BP> {
    /// The whole structural invariant: a well-formed root chunk of the stored
    /// height, root occupancy bounds, an accurate cached length, and
    /// identifiers that are pairwise distinct and all below the next fresh
    /// one.
    pub closed spec fn wf(self) -> bool {
        &&& 4 <= BP
        &&& wf_chunk(self.root, self.height as nat, BP as nat)
        &&& clen(self.root) <= BP - 1
        &&& (self.height > 0 ==> 2 <= clen(self.root))
        &&& self.len == self@.len()
        &&& uniq_ids(self@)
        &&& ids_below(self@, self.next_id)
    }

    /// The identifier the next insertion will assign.
    pub closed spec fn fresh_id(self) -> u64 {
        self.next_id
    }

    /// How many levels of branch chunks stand above the leaf chunks.
    pub closed spec fn depth_spec(self) -> nat {
        self.height as nat
    }

    /// The root chunk, for stating structural laws.
    pub closed spec fn root_spec(self) -> Chunk<V> {
        self.root
    }

    /// A fresh, empty list.
    pub fn new() -> (r: Self)
        requires
            4 <= BP,
        ensures
            r.wf(),
            r@ == Seq::<(u64, V)>::empty(),
            r.fresh_id() == 0,
            r.depth_spec() == 0,
    {
        let r = OrderedBList {
            root: Chunk::Leaves { leaves: Vec::new() },
            height: 0,
            len: 0,
            next_id: 0,
        };
        proof {
            assert(r@ =~= Seq::<(u64, V)>::empty());
        }
        r
    }

    /// Number of elements held.
    pub fn len(&self) -> (r: usize)
        requires
            self.wf(),
        ensures
            r == self@.len(),
    {
        self.len
    }

    /// Current depth of the tree: how many branch levels stand above the
    /// leaf chunks.
    pub fn depth(&self) -> (r: usize)
        requires
            self.wf(),
        ensures
            r as nat == self.depth_spec(),
    {
        self.height
    }

    /// Fetch the stable handle of the element at ordinal `index`.
    pub fn get_id(&self, index: usize) -> (r: InsertedId)
        requires
            self.wf(),
            (index as int) < self@.len(),
        ensures
            r@ == self@[index as int].0,
    {
        let id = chunk_select(&self.root, self.height, index, BP);
        InsertedId { id }
    }

    /// Fetch the handle at ordinal `index`, or `None` exactly when `index`
    /// is out of range.
    pub fn try_get_id(&self, index: usize) -> (r: Option<InsertedId>)
        requires
            self.wf(),
        ensures
            match r {
                Some(h) => (index as int) < self@.len() && h@ == self@[index as int].0,
                None => (index as int) >= self@.len(),
            },
    {
        if index < self.len {
            Some(self.get_id(index))
        } else {
            None
        }
    }

    /// Current ordinal index of the element the live handle names.
    pub fn get_index(&self, id: &InsertedId) -> (r: usize)
        requires
            self.wf(),
            has_handle(self@, id@),
        ensures
            (r as int) < self@.len(),
            self@[r as int].0 == id@,
            r as int == index_of_id(self@, id@),
    {
        match chunk_find(&self.root, self.height, id.id, BP) {
            Some(i) => {
                proof {
                    lemma_index_unique(self@, i as int);
                }
                i
            },
            None => {
                proof {
                    lemma_index_of_id_valid(self@, id@);
                }
                unreached()
            },
        }
    }

    /// Whether the handle still names a live element.
    pub fn contains_id(&self, id: &InsertedId) -> (r: bool)
        requires
            self.wf(),
        ensures
            r == has_handle(self@, id@),
    {
        match chunk_find(&self.root, self.height, id.id, BP) {
            Some(i) => {
                proof {
                    assert((i as int) < self@.len() && self@[i as int].0 == id@);
                }
                true
            },
            None => false,
        }
    }

    /// Read the value of the element the live handle names.
    pub fn value(&self, id: &InsertedId) -> (r: &V)
        requires
            self.wf(),
            has_handle(self@, id@),
        ensures
            *r == self@[index_of_id(self@, id@)].1,
    {
        let i = self.get_index(id);
        chunk_value(&self.root, self.height, i, BP)
    }

    /// Replace the value of the element the live handle names; the handle
    /// and every other element stay untouched.
    pub fn set_value(&mut self, id: &InsertedId, value: V)
        requires
            old(self).wf(),
            has_handle(old(self)@, id@),
        ensures
            final(self).wf(),
            final(self)@ == old(self)@.update(index_of_id(old(self)@, id@), (id@, value)),
            final(self).fresh_id() == old(self).fresh_id(),
            final(self).depth_spec() == old(self).depth_spec(),
    {
        let ghost s0 = self@;
        let i = self.get_index(id);
        let mut root = Chunk::Leaves { leaves: Vec::new() };
        core::mem::swap(&mut root, &mut self.root);
        let r1 = chunk_set_value(root, self.height, i, value, BP);
        self.root = r1;
        proof {
            lemma_ids_update(s0, i as int, (id@, value), self.next_id);
        }
    }

    /// Insert a fresh element at ordinal `index`, shifting everything at and
    /// after `index` one place right. This is also the bootstrap entry for an
    /// empty list, which no handle can address.
    pub fn insert_at(&mut self, index: usize, value: V)
        requires
            old(self).wf(),
            index as int <= old(self)@.len(),
            old(self)@.len() < usize::MAX,
            old(self).fresh_id() < u64::MAX,
        ensures
            final(self).wf(),
            final(self)@ == old(self)@.insert(index as int, (old(self).fresh_id(), value)),
            final(self).fresh_id() == old(self).fresh_id() + 1,
    {
        let ghost s0 = self@;
        let mut root = Chunk::Leaves { leaves: Vec::new() };
        core::mem::swap(&mut root, &mut self.root);
        let ghost root0 = root;
        let id = self.next_id;
        let (r1, sp) = chunk_insert_at(root, self.height, index, id, value, BP);
        match sp {
            None => {
                self.root = r1;
            },
            Some((r2, cnt2)) => {
                let ghost h1 = self.height as nat;
                proof {
                    if self.height > 0 {
                        lemma_depth_lt_count(root0, self.height as nat, BP as nat);
                    }
                    assert(centries(r1, h1) + centries(r2, h1) == s0.insert(
                        index as int,
                        (id, value),
                    ));
                    assert(centries(r1, h1).len() + centries(r2, h1).len() == s0.len() + 1);
                    assert(self.len == s0.len());
                }
                let k1 = self.len + 1 - cnt2;
                let mut children: Vec<Chunk<V>> = Vec::new();
                let mut counts: Vec<usize> = Vec::new();
                children.push(r1);
                children.push(r2);
                counts.push(k1);
                counts.push(cnt2);
                proof {
                    lemma_range_one(children@, h1, 0);
                    lemma_range_one(children@, h1, 1);
                    assert(entries_range(children@, h1, 0, 2) =~= centries(r1, h1) + centries(
                        r2,
                        h1,
                    ));
                }
                self.root = Chunk::Branch { children, counts };
                self.height = self.height + 1;
            },
        }
        self.next_id = self.next_id + 1;
        self.len = self.len + 1;
        proof {
            assert forall|m: int| 0 <= m < s0.len() implies (#[trigger] s0[m]).0 != id by {
                assert(s0[m].0 < id);
            }
            lemma_uniq_insert(s0, index as int, (id, value));
            assert forall|m: int| 0 <= m < s0.len() implies (#[trigger] s0[m]).0 < self.next_id by {
                assert(s0[m].0 < id);
            }
            lemma_below_insert(s0, index as int, (id, value), self.next_id);
        }
    }

    /// Append a fresh element at the right end; with `insert_at` this is the
    /// way into an empty list, which no handle can address.
    pub fn push_back(&mut self, value: V)
        requires
            old(self).wf(),
            old(self)@.len() < usize::MAX,
            old(self).fresh_id() < u64::MAX,
        ensures
            final(self).wf(),
            final(self)@ == old(self)@.push((old(self).fresh_id(), value)),
            final(self).fresh_id() == old(self).fresh_id() + 1,
    {
        let ghost s0 = self@;
        let n = self.len;
        self.insert_at(n, value);
        proof {
            let p = self@[s0.len() as int];
            assert(s0.insert(s0.len() as int, p) =~= s0.push(p));
        }
    }

    /// Prepend a fresh element at the left end.
    pub fn push_front(&mut self, value: V)
        requires
            old(self).wf(),
            old(self)@.len() < usize::MAX,
            old(self).fresh_id() < u64::MAX,
        ensures
            final(self).wf(),
            final(self)@ == old(self)@.insert(0, (old(self).fresh_id(), value)),
            final(self).fresh_id() == old(self).fresh_id() + 1,
    {
        self.insert_at(0, value);
    }

    /// Insert a fresh element immediately before the element the live handle
    /// names.
    pub fn insert_before_id(&mut self, value: V, id: &InsertedId)
        requires
            old(self).wf(),
            has_handle(old(self)@, id@),
            old(self)@.len() < usize::MAX,
            old(self).fresh_id() < u64::MAX,
        ensures
            final(self).wf(),
            final(self)@ == old(self)@.insert(
                index_of_id(old(self)@, id@),
                (old(self).fresh_id(), value),
            ),
            final(self).fresh_id() == old(self).fresh_id() + 1,
    {
        let i = self.get_index(id);
        self.insert_at(i, value);
    }

    /// Insert a fresh element immediately after the element the live handle
    /// names.
    pub fn insert_after_id(&mut self, value: V, id: &InsertedId)
        requires
            old(self).wf(),
            has_handle(old(self)@, id@),
            old(self)@.len() < usize::MAX,
            old(self).fresh_id() < u64::MAX,
        ensures
            final(self).wf(),
            final(self)@ == old(self)@.insert(
                index_of_id(old(self)@, id@) + 1,
                (old(self).fresh_id(), value),
            ),
            final(self).fresh_id() == old(self).fresh_id() + 1,
    {
        let i = self.get_index(id);
        self.insert_at(i + 1, value);
    }

    /// Remove the element at ordinal `index`, shifting everything after it
    /// one place left.
    pub fn remove_at(&mut self, index: usize)
        requires
            old(self).wf(),
            (index as int) < old(self)@.len(),
        ensures
            final(self).wf(),
            final(self)@ == old(self)@.remove(index as int),
            final(self).fresh_id() == old(self).fresh_id(),
    {
        let ghost s0 = self@;
        let mut root = Chunk::Leaves { leaves: Vec::new() };
        core::mem::swap(&mut root, &mut self.root);
        let (r1, _underflow) = chunk_remove_at(root, self.height, index, BP);
        let rl = chunk_len(&r1);
        if self.height > 0 && rl == 1 {
            // the root kept a single child: promote it and shrink the depth
            match r1 {
                Chunk::Branch { mut children, counts: _counts } => {
                    let ghost cs = children@;
                    let only = match children.pop() {
                        Some(x) => x,
                        None => unreached(),
                    };
                    proof {
                        lemma_range_one(cs, (self.height - 1) as nat, 0);
                    }
                    self.root = only;
                    self.height = self.height - 1;
                },
                Chunk::Leaves { .. } => unreached(),
            }
        } else {
            self.root = r1;
        }
        self.len = self.len - 1;
        proof {
            lemma_uniq_remove(s0, index as int);
            lemma_below_remove(s0, index as int, self.next_id);
        }
    }

    /// Remove the element the live handle names; the handle is dead
    /// afterwards, every other handle stays valid.
    pub fn remove(&mut self, id: &InsertedId)
        requires
            old(self).wf(),
            has_handle(old(self)@, id@),
        ensures
            final(self).wf(),
            final(self)@ == old(self)@.remove(index_of_id(old(self)@, id@)),
            !has_handle(final(self)@, id@),
            final(self).fresh_id() == old(self).fresh_id(),
    {
        let i = self.get_index(id);
        proof {
            lemma_remove_no_handle(self@, id@);
        }
        self.remove_at(i);
    }
}

/// All leaf chunks of a well-formed list sit at one depth below the root.
pub proof fn depth_uniformity_law<V, const BP: usize>(t: OrderedBList<V, BP>)
    requires
        t.wf(),
    ensures
        uniform_leaf_depth(t.root_spec(), t.depth_spec()),
{
    lemma_wf_uniform_depth(t.root_spec(), t.depth_spec(), BP as nat);
}

/// Every non-root chunk of a well-formed list holds between `HALF` and
/// `BP - 1` edges; the root holds at most `BP - 1`, and at least two when
/// any branch level exists.
pub proof fn occupancy_law<V, const BP: usize>(t: OrderedBList<V, BP>)
    requires
        t.wf(),
    ensures
        occupancy_below(t.root_spec(), BP as nat, t.depth_spec()),
        clen(t.root_spec()) <= BP - 1,
        t.depth_spec() > 0 ==> 2 <= clen(t.root_spec()),
{
    lemma_wf_occupancy(t.root_spec(), t.depth_spec(), BP as nat);
}

/// In every branch chunk of a well-formed list the cached counts run parallel
/// to the children, and each equals the number of leaf entries actually
/// reachable through its edge.
pub proof fn count_parallelism_law<V, const BP: usize>(t: OrderedBList<V, BP>)
    requires
        t.wf(),
    ensures
        counts_accurate(t.root_spec(), t.depth_spec()),
{
    lemma_wf_counts_accurate(t.root_spec(), t.depth_spec(), BP as nat);
}

/// The identifiers of a well-formed list are pairwise distinct.
pub proof fn handles_distinct_law<V, const BP: usize>(t: OrderedBList<V, BP>)
    requires
        t.wf(),
    ensures
        uniq_ids(t@),
{
}

/// The identifier the next insertion will assign is not yet carried by any
/// element, nor is any identifier above it: together with the handle
/// stability laws this shows that an insertion leaves every live handle
/// naming its old element.
pub proof fn fresh_id_unused_law<V, const BP: usize>(t: OrderedBList<V, BP>)
    requires
        t.wf(),
    ensures
        ids_below(t@, t.fresh_id()),
{
}

/// Rank and select invert each other: the rank of the handle fetched at a
/// valid index `i` is `i` itself, and conversely the handle fetched at a
/// handle's rank names that same element.
pub proof fn rank_select_inverse_law<V, const BP: usize>(t: OrderedBList<V, BP>, i: int)
    requires
        t.wf(),
        0 <= i < t@.len(),
    ensures
        has_handle(t@, t@[i].0),
        index_of_id(t@, t@[i].0) == i,
{
    lemma_index_unique(t@, i);
}

/// A branching well-formed list holds strictly more elements than it is
/// deep, so the depth can never outgrow the machine's length range.
pub proof fn depth_bound_law<V, const BP: usize>(t: OrderedBList<V, BP>)
    requires
        t.wf(),
    ensures
        t.depth_spec() > 0 ==> t@.len() > t.depth_spec(),
{
    if t.depth_spec() > 0 {
        lemma_depth_lt_count(t.root_spec(), t.depth_spec(), BP as nat);
    }
}

} // verus!
