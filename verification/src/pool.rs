//! The block pool as a mathematical state, and what holds of it.

use vstd::prelude::*;
use vstd::set_lib::*;

use crate::error::CacheError;
use crate::text;
use crate::types::BlockId;

verus! {

/// Widest reference count a block can have.
pub const MAX_REFCOUNT: u16 = 65535;

/// The state of a block pool: a stack of free ids and an owner count per block.
#[verifier::ext_equal]
pub struct Pool {
    /// Blocks in the pool.
    pub num_blocks: nat,
    /// Free ids; the last one is handed out next.
    pub free: Seq<BlockId>,
    /// Owners of each block.
    pub counts: Seq<nat>,
    /// Allocations served since construction.
    pub total: nat,
}

impl Pool {
    /// Whether `id` names a block of this pool.
    pub open spec fn has(self, id: BlockId) -> bool {
        id.0 < self.num_blocks
    }

    /// Owners of `id`.
    pub open spec fn count(self, id: BlockId) -> nat {
        self.counts[id.0 as int]
    }

    /// A block is on the free list exactly once if it has no owner, and not at
    /// all if it has one.
    pub open spec fn consistent(self) -> bool {
        &&& self.free.no_duplicates()
        &&& forall|i: int|
            0 <= i < self.free.len() ==> self.has(#[trigger] self.free[i]) && self.count(
                self.free[i],
            ) == 0
        &&& forall|id: BlockId|
            self.has(id) && #[trigger] self.count(id) == 0 ==> self.free.contains(id)
    }

    /// What every pool satisfies: ids fit their type, counts fit the counter,
    /// and the free list agrees with the counts.
    pub open spec fn wf(self) -> bool {
        &&& self.num_blocks <= u32::MAX + 1
        &&& self.counts.len() == self.num_blocks
        &&& forall|i: int| 0 <= i < self.counts.len() ==> #[trigger] self.counts[i] <= MAX_REFCOUNT
        &&& self.consistent()
    }

    /// A pool of `n` blocks, none of them owned; block 0 is handed out first.
    pub open spec fn fresh(n: nat) -> Pool {
        Pool {
            num_blocks: n,
            free: Seq::new(n, |i: int| BlockId((n - 1 - i) as u32)),
            counts: Seq::new(n, |i: int| 0nat),
            total: 0,
        }
    }

    /// The pool after handing out the top of the free list to one owner.
    pub open spec fn take_one(self) -> Pool {
        Pool {
            free: self.free.drop_last(),
            counts: self.counts.update(self.free.last().0 as int, 1),
            total: self.total + 1,
            ..self
        }
    }

    /// The pool after handing out `k` blocks, one after the other.
    pub open spec fn take(self, k: nat) -> Pool
        decreases k,
    {
        if k == 0 {
            self
        } else {
            self.take((k - 1) as nat).take_one()
        }
    }

    /// The ids that `k` allocations hand out, in order.
    pub open spec fn popped(self, k: nat) -> Seq<BlockId> {
        Seq::new(k, |i: int| self.free[self.free.len() - 1 - i])
    }

    /// Why an owner cannot be added to `id`, if it cannot.
    pub open spec fn incref_error(self, id: BlockId) -> Option<CacheError> {
        if !self.has(id) {
            Some(CacheError::InvalidBlock { id, num_blocks: self.num_blocks as usize })
        } else if self.count(id) == 0 {
            Some(CacheError::BlockNotAllocated { id })
        } else if self.count(id) == MAX_REFCOUNT {
            Some(CacheError::RefCountOverflow { id, max: MAX_REFCOUNT as u32 })
        } else {
            None
        }
    }

    /// The pool with one more owner of `id`.
    pub open spec fn incref(self, id: BlockId) -> Pool {
        Pool { counts: self.counts.update(id.0 as int, self.count(id) + 1), ..self }
    }

    /// Why an owner cannot be dropped from `id`, if it cannot.
    pub open spec fn decref_error(self, id: BlockId) -> Option<CacheError> {
        if !self.has(id) {
            Some(CacheError::InvalidBlock { id, num_blocks: self.num_blocks as usize })
        } else if self.count(id) == 0 {
            Some(CacheError::BlockNotAllocated { id })
        } else {
            None
        }
    }

    /// The pool with one owner of `id` fewer; without owners it becomes free.
    pub open spec fn decref(self, id: BlockId) -> Pool {
        Pool {
            counts: self.counts.update(id.0 as int, (self.count(id) - 1) as nat),
            free: if self.count(id) == 1 {
                self.free.push(id)
            } else {
                self.free
            },
            ..self
        }
    }

    /// Add an owner to each of `ids` in order, stopping at the first that fails.
    pub open spec fn incref_each(self, ids: Seq<BlockId>) -> (Pool, Option<CacheError>)
        decreases ids.len(),
    {
        if ids.len() == 0 {
            (self, None)
        } else {
            let (p, e) = self.incref_each(ids.drop_last());
            if e is Some {
                (p, e)
            } else if p.incref_error(ids.last()) is Some {
                (p, p.incref_error(ids.last()))
            } else {
                (p.incref(ids.last()), None)
            }
        }
    }

    /// Drop an owner of each of `ids` in order, stopping at the first that fails.
    pub open spec fn decref_each(self, ids: Seq<BlockId>) -> (Pool, Option<CacheError>)
        decreases ids.len(),
    {
        if ids.len() == 0 {
            (self, None)
        } else {
            let (p, e) = self.decref_each(ids.drop_last());
            if e is Some {
                (p, e)
            } else if p.decref_error(ids.last()) is Some {
                (p, p.decref_error(ids.last()))
            } else {
                (p.decref(ids.last()), None)
            }
        }
    }

    /// What is wrong with the `i`-th entry of the free list, given those before
    /// it, as a sentence.
    pub open spec fn free_fault(self, i: int) -> Option<Seq<char>> {
        let id = self.free[i];
        if !self.has(id) {
            Some("free list holds out-of-range block "@ + id.label())
        } else if exists|j: int| 0 <= j < i && self.free[j] == id {
            Some("block "@ + id.label() + " appears twice on the free list"@)
        } else if self.count(id) != 0 {
            Some(
                "block "@ + id.label() + " is on the free list but has refcount "@ + text::decimal(
                    self.count(id),
                ),
            )
        } else {
            None
        }
    }

    /// What is wrong with block `i` if it is neither owned nor free.
    pub open spec fn lost_fault(self, i: int) -> Option<Seq<char>> {
        if self.counts[i] == 0 && !self.free.contains(BlockId(i as u32)) {
            Some("block #"@ + text::decimal(i as nat) + " has refcount 0 but is not free"@)
        } else {
            None
        }
    }

    /// The first fault of the pool: of the free list in order, then of the
    /// blocks in order.
    pub open spec fn is_first_fault(self, fault: Seq<char>) -> bool {
        ||| exists|i: int|
            {
                &&& 0 <= i < self.free.len()
                &&& #[trigger] self.free_fault(i) == Some(fault)
                &&& forall|j: int| 0 <= j < i ==> #[trigger] self.free_fault(j) is None
            }
        ||| {
            &&& forall|j: int| 0 <= j < self.free.len() ==> #[trigger] self.free_fault(j) is None
            &&& exists|i: int|
                {
                    &&& 0 <= i < self.num_blocks
                    &&& #[trigger] self.lost_fault(i) == Some(fault)
                    &&& forall|j: int| 0 <= j < i ==> #[trigger] self.lost_fault(j) is None
                }
        }
    }
}

/// Facts about pools.
impl Pool {
    /// A fresh pool satisfies the invariant.
    pub proof fn lemma_fresh_wf(n: nat)
        requires
            n <= u32::MAX + 1,
        ensures
            Pool::fresh(n).wf(),
    {
        let p = Pool::fresh(n);
        assert forall|id: BlockId| p.has(id) && #[trigger] p.count(id) == 0 implies p.free.contains(
            id,
        ) by {
            assert(p.free[n - 1 - id.0] == id);
        }
    }

    /// Indices of the blocks that have an owner.
    pub open spec fn owned(self) -> Set<int> {
        Set::new(|i: int| 0 <= i < self.num_blocks && self.counts[i] > 0)
    }

    /// Every block is either free or owned: the blocks in use are exactly those
    /// with an owner, so between none and all of the pool is in use.
    pub proof fn used_blocks_are_the_owned_ones(self)
        requires
            self.wf(),
        ensures
            self.owned().finite(),
            self.num_blocks - self.free.len() == self.owned().len(),
            self.free.len() <= self.num_blocks,
    {
        let ids = self.free.map_values(|b: BlockId| b.0 as int);
        let free = ids.to_set();
        let all = set_int_range(0, self.num_blocks as int);
        assert(ids.no_duplicates());
        ids.unique_seq_to_set();
        lemma_int_range(0, self.num_blocks as int);
        assert forall|i: int| free.contains(i) implies 0 <= i < self.num_blocks && self.counts[i]
            == 0 by {
            let x = choose|x: int| 0 <= x < ids.len() && ids[x] == i;
            assert(self.count(self.free[x]) == 0);
        }
        assert forall|i: int| 0 <= i < self.num_blocks && self.counts[i] == 0 implies free.contains(
            i,
        ) by {
            let b = BlockId(i as u32);
            assert(self.count(b) == 0);
            let x = choose|x: int| 0 <= x < self.free.len() && self.free[x] == b;
            assert(ids[x] == i);
        }
        assert(self.owned().subset_of(all));
        lemma_set_subset_finite(all, self.owned());
        assert(self.owned() + free =~= all);
        assert(self.owned().disjoint(free));
        lemma_set_disjoint_lens(self.owned(), free);
    }

    /// Handing out a block keeps the invariant.
    pub proof fn lemma_take_one_wf(self)
        requires
            self.wf(),
            self.free.len() > 0,
        ensures
            self.take_one().wf(),
            self.has(self.free.last()),
            self.count(self.free.last()) == 0,
    {
        let p = self.take_one();
        let top = self.free.last();
        assert(self.free[self.free.len() - 1] == top);
        assert forall|id: BlockId| p.has(id) && #[trigger] p.count(id) == 0 implies p.free.contains(
            id,
        ) by {
            assert(self.count(id) == 0);
            let j = choose|j: int| 0 <= j < self.free.len() && self.free[j] == id;
            assert(p.free[j] == id);
        }
        assert forall|i: int| 0 <= i < p.free.len() implies p.has(#[trigger] p.free[i]) && p.count(
            p.free[i],
        ) == 0 by {
            assert(self.free[i] != top);
            assert(self.has(self.free[i]) && self.count(self.free[i]) == 0);
        }
    }

    /// What `k` allocations leave behind.
    pub proof fn lemma_take(self, k: nat)
        requires
            self.wf(),
            k <= self.free.len(),
        ensures
            self.take(k).wf(),
            self.take(k).num_blocks == self.num_blocks,
            self.take(k).total == self.total + k,
            self.take(k).free == self.free.take(self.free.len() - k),
            forall|id: BlockId|
                self.has(id) ==> #[trigger] self.take(k).count(id) == if self.popped(k).contains(
                    id,
                ) {
                    1
                } else {
                    self.count(id)
                },
        decreases k,
    {
        if k == 0 {
            assert(self.free.take(self.free.len() as int) =~= self.free);
            assert(self.popped(k) =~= Seq::empty());
        } else {
            let j = (k - 1) as nat;
            self.lemma_take(j);
            let p = self.take(j);
            p.lemma_take_one_wf();
            assert(p.free.drop_last() =~= self.free.take(self.free.len() - k));
            let top = p.free.last();
            assert(self.popped(k)[k - 1] == top);
            assert(self.popped(k) =~= self.popped(j).push(top));
            assert forall|id: BlockId| self.has(id) implies #[trigger] self.take(k).count(id)
                == if self.popped(k).contains(id) {
                1
            } else {
                self.count(id)
            } by {
                assert(p.count(id) == if self.popped(j).contains(id) {
                    1
                } else {
                    self.count(id)
                });
                if id != top {
                    if self.popped(j).contains(id) {
                        let i = choose|i: int| 0 <= i < j && self.popped(j)[i] == id;
                        assert(self.popped(k)[i] == id);
                    }
                    if self.popped(k).contains(id) {
                        let i = choose|i: int| 0 <= i < k && self.popped(k)[i] == id;
                        assert(self.popped(j)[i] == id);
                    }
                }
            }
        }
    }

    /// Adding an owner keeps the invariant.
    pub proof fn lemma_incref_wf(self, id: BlockId)
        requires
            self.wf(),
            self.incref_error(id) is None,
        ensures
            self.incref(id).wf(),
    {
        let p = self.incref(id);
        assert forall|b: BlockId| p.has(b) && #[trigger] p.count(b) == 0 implies p.free.contains(
            b,
        ) by {
            assert(self.count(b) == 0);
        }
        assert forall|i: int| 0 <= i < p.free.len() implies p.has(#[trigger] p.free[i]) && p.count(
            p.free[i],
        ) == 0 by {
            assert(self.has(self.free[i]) && self.count(self.free[i]) == 0);
        }
    }

    /// Dropping an owner keeps the invariant.
    pub proof fn lemma_decref_wf(self, id: BlockId)
        requires
            self.wf(),
            self.decref_error(id) is None,
        ensures
            self.decref(id).wf(),
    {
        let p = self.decref(id);
        assert forall|b: BlockId| p.has(b) && #[trigger] p.count(b) == 0 implies p.free.contains(
            b,
        ) by {
            if b == id {
                assert(p.free[p.free.len() - 1] == id);
            } else {
                assert(self.count(b) == 0);
                let j = choose|j: int| 0 <= j < self.free.len() && self.free[j] == b;
                assert(p.free[j] == b);
            }
        }
        assert forall|i: int| 0 <= i < p.free.len() implies p.has(#[trigger] p.free[i]) && p.count(
            p.free[i],
        ) == 0 by {
            if i < self.free.len() {
                assert(self.has(self.free[i]) && self.count(self.free[i]) == 0);
            }
        }
        assert(p.free.no_duplicates()) by {
            assert forall|i: int, j: int|
                0 <= i < p.free.len() && 0 <= j < p.free.len() && i != j implies p.free[i]
                != p.free[j] by {
                if i < self.free.len() {
                    assert(self.count(self.free[i]) == 0);
                }
                if j < self.free.len() {
                    assert(self.count(self.free[j]) == 0);
                }
            }
        }
    }

    /// A failure among the first ids is the outcome of the whole run.
    pub proof fn lemma_incref_each_stops(self, ids: Seq<BlockId>, n: int)
        requires
            0 <= n <= ids.len(),
            self.incref_each(ids.take(n)).1 is Some,
        ensures
            self.incref_each(ids) == self.incref_each(ids.take(n)),
        decreases ids.len(),
    {
        if n == ids.len() {
            assert(ids.take(n) =~= ids);
        } else {
            assert(ids.drop_last().take(n) =~= ids.take(n));
            self.lemma_incref_each_stops(ids.drop_last(), n);
        }
    }

    /// A failure among the first ids is the outcome of the whole run.
    pub proof fn lemma_decref_each_stops(self, ids: Seq<BlockId>, n: int)
        requires
            0 <= n <= ids.len(),
            self.decref_each(ids.take(n)).1 is Some,
        ensures
            self.decref_each(ids) == self.decref_each(ids.take(n)),
        decreases ids.len(),
    {
        if n == ids.len() {
            assert(ids.take(n) =~= ids);
        } else {
            assert(ids.drop_last().take(n) =~= ids.take(n));
            self.lemma_decref_each_stops(ids.drop_last(), n);
        }
    }

    /// A pool in which no fault can be named is consistent.
    pub proof fn lemma_no_fault_is_consistent(self)
        requires
            self.num_blocks <= u32::MAX + 1,
            self.counts.len() == self.num_blocks,
            forall|j: int| 0 <= j < self.free.len() ==> #[trigger] self.free_fault(j) is None,
            forall|j: int| 0 <= j < self.num_blocks ==> #[trigger] self.lost_fault(j) is None,
        ensures
            self.consistent(),
    {
        assert forall|i: int| 0 <= i < self.free.len() implies self.has(#[trigger] self.free[i])
            && self.count(self.free[i]) == 0 by {
            assert(self.free_fault(i) is None);
        }
        assert forall|i: int, j: int|
            0 <= i < self.free.len() && 0 <= j < self.free.len() && i != j implies self.free[i]
            != self.free[j] by {
            assert(self.free_fault(i) is None);
            assert(self.free_fault(j) is None);
        }
        assert forall|id: BlockId| self.has(id) && #[trigger] self.count(id) == 0 implies self.free.contains(
        id) by {
            assert(self.lost_fault(id.0 as int) is None);
        }
    }

    /// A pool in which a fault can be named is not consistent.
    pub proof fn lemma_fault_is_inconsistent(self, fault: Seq<char>)
        requires
            self.num_blocks <= u32::MAX + 1,
            self.is_first_fault(fault),
        ensures
            !self.consistent(),
    {
        if exists|i: int| 0 <= i < self.free.len() && #[trigger] self.free_fault(i) is Some {
            let i = choose|i: int| 0 <= i < self.free.len() && #[trigger] self.free_fault(i) is Some;
            let id = self.free[i];
            if self.has(id) && exists|j: int| 0 <= j < i && self.free[j] == id {
                let j = choose|j: int| 0 <= j < i && self.free[j] == id;
                assert(self.free[i] == self.free[j]);
            }
        } else {
            let i = choose|i: int| 0 <= i < self.num_blocks && #[trigger] self.lost_fault(i) is Some;
            assert(self.count(BlockId(i as u32)) == 0);
        }
    }
}

} // verus!
