//! The reference-counted pool of physical blocks.

use vstd::prelude::*;

use crate::error::CacheError;
use crate::pool::{Pool, MAX_REFCOUNT};
use crate::text::append_decimal;
use crate::types::BlockId;

verus! {

/// A reference-counted pool of fixed-size physical blocks.
///
/// It knows nothing about tokens, sequences or attention. It hands out physical
/// block ids and tracks how many logical owners each one has.
///
/// The reference count is what makes copy-on-write possible: when a sequence
/// forks, the child does not copy the parent's blocks but calls
/// [`incref`](BlockAllocator::incref) on each one. A physical copy happens only
/// when someone writes to a block whose refcount exceeds one; see
/// [`is_shared`](BlockAllocator::is_shared).
#[derive(Debug, Clone)]
pub struct BlockAllocator {
    num_blocks: usize,
    /// Stack of available block ids. LIFO on purpose: a recently freed block is
    /// more likely to be still resident in cache, and the working set of
    /// touched pages stays tighter under churn.
    free_list: Vec<BlockId>,
    /// `ref_counts[i]` is the number of live owners of block `i`.
    ref_counts: Vec<u16>,
    /// Cumulative allocations, for reporting churn in benchmarks.
    total_allocated: u64,
}

impl View for BlockAllocator {
    type V = Pool;

    closed spec fn view(&self) -> Pool {
        Pool {
            num_blocks: self.num_blocks as nat,
            free: self.free_list@,
            counts: Seq::new(self.ref_counts@.len(), |i: int| self.ref_counts@[i] as nat),
            total: self.total_allocated as nat,
        }
    }
}

impl BlockAllocator {
    /// The invariant of a pool.
    pub open spec fn wf(self) -> bool {
        self@.wf()
    }

    /// Build a pool of `num_blocks` free blocks.
    ///
    /// Block ids are 32 bits wide, so a pool holds at most `2^32` blocks.
    pub fn new(num_blocks: usize) -> (a: Self)
        requires
            num_blocks <= u32::MAX + 1,
        ensures
            a@ == Pool::fresh(num_blocks as nat),
            a.wf(),
    {
        let mut free_list: Vec<BlockId> = Vec::with_capacity(num_blocks);
        let mut ref_counts: Vec<u16> = Vec::with_capacity(num_blocks);
        let mut i: usize = num_blocks;
        while i > 0
            invariant
                i <= num_blocks <= u32::MAX + 1,
                free_list@.len() == num_blocks - i,
                ref_counts@.len() == num_blocks - i,
                forall|j: int|
                    0 <= j < free_list@.len() ==> #[trigger] free_list@[j] == BlockId(
                        (num_blocks - 1 - j) as u32,
                    ),
                forall|j: int| 0 <= j < ref_counts@.len() ==> #[trigger] ref_counts@[j] == 0,
            decreases i,
        {
            i = i - 1;
            free_list.push(BlockId(i as u32));
            ref_counts.push(0);
        }
        let a = Self { num_blocks, free_list, ref_counts, total_allocated: 0 };
        proof {
            let p = Pool::fresh(num_blocks as nat);
            assert(a@ =~= p);
            Pool::lemma_fresh_wf(num_blocks as nat);
        }
        a
    }

    /// Blocks in the pool.
    pub fn num_blocks(&self) -> (n: usize)
        ensures
            n == self@.num_blocks,
    {
        self.num_blocks
    }

    /// Blocks without an owner.
    pub fn num_free(&self) -> (n: usize)
        ensures
            n == self@.free.len(),
    {
        self.free_list.len()
    }

    /// Blocks with at least one owner.
    pub fn num_used(&self) -> (n: usize)
        requires
            self.wf(),
        ensures
            n == self@.num_blocks - self@.free.len(),
    {
        proof {
            self@.used_blocks_are_the_owned_ones();
        }
        self.num_blocks - self.free_list.len()
    }

    /// Fraction of the pool currently held by at least one owner, as numerator
    /// and denominator. An empty pool is unused.
    pub fn utilization(&self) -> (ratio: (usize, usize))
        requires
            self.wf(),
        ensures
            self@.num_blocks == 0 ==> ratio == (0usize, 1usize),
            self@.num_blocks > 0 ==> ratio.0 == self@.num_blocks - self@.free.len() && ratio.1
                == self@.num_blocks,
    {
        if self.num_blocks == 0 {
            return (0, 1);
        }
        (self.num_used(), self.num_blocks)
    }

    /// Total allocations served since construction. Interesting mainly as a
    /// churn signal.
    pub fn total_allocated(&self) -> (n: u64)
        ensures
            n == self@.total,
    {
        self.total_allocated
    }

    /// Take one block from the free list, with refcount 1.
    pub fn allocate(&mut self) -> (r: Result<BlockId, CacheError>)
        requires
            old(self).wf(),
            old(self)@.free.len() > 0 ==> old(self)@.total < u64::MAX,
        ensures
            final(self).wf(),
            match r {
                Ok(id) => old(self)@.free.len() > 0 && id == old(self)@.free.last()
                    && final(self)@ == old(self)@.take_one(),
                Err(e) => old(self)@.free.len() == 0 && e == (CacheError::OutOfBlocks {
                    requested: 1,
                    available: 0,
                }) && final(self)@ == old(self)@,
            },
    {
        match self.free_list.pop() {
            None => Err(CacheError::OutOfBlocks { requested: 1, available: 0 }),
            Some(id) => {
                proof {
                    old(self)@.lemma_take_one_wf();
                    assert(old(self)@.has(old(self)@.free.last()));
                }
                self.ref_counts[id.index()] = 1;
                self.total_allocated = self.total_allocated + 1;
                assert(self@ =~= old(self)@.take_one());
                Ok(id)
            },
        }
    }

    /// Take `n` blocks, or none at all.
    ///
    /// All-or-nothing matters here: a partial allocation that the caller has to
    /// unwind is an invitation to leak blocks on the error path.
    pub fn allocate_many(&mut self, n: usize) -> (r: Result<Vec<BlockId>, CacheError>)
        requires
            old(self).wf(),
            n <= old(self)@.free.len() ==> old(self)@.total + n <= u64::MAX,
        ensures
            final(self).wf(),
            match r {
                Ok(ids) => n <= old(self)@.free.len() && ids@ == old(self)@.popped(n as nat)
                    && final(self)@ == old(self)@.take(n as nat),
                Err(e) => n > old(self)@.free.len() && e == (CacheError::OutOfBlocks {
                    requested: n,
                    available: old(self)@.free.len() as usize,
                }) && final(self)@ == old(self)@,
            },
    {
        if self.free_list.len() < n {
            return Err(
                CacheError::OutOfBlocks { requested: n, available: self.free_list.len() },
            );
        }
        let mut out: Vec<BlockId> = Vec::with_capacity(n);
        let mut k: usize = 0;
        while k < n
            invariant
                k <= n <= old(self)@.free.len(),
                old(self).wf(),
                old(self)@.total + n <= u64::MAX,
                self.wf(),
                self@ == old(self)@.take(k as nat),
                out@ == old(self)@.popped(k as nat),
            decreases n - k,
        {
            proof {
                old(self)@.lemma_take(k as nat);
            }
            match self.allocate() {
                Ok(id) => {
                    out.push(id);
                    k = k + 1;
                    proof {
                        assert(out@ =~= old(self)@.popped(k as nat));
                    }
                },
                Err(e) => {
                    return Err(e);
                },
            }
        }
        Ok(out)
    }

    /// Add an owner to a live block. Returns the new refcount.
    ///
    /// This is the cheap half of copy-on-write: forking a sequence increfs the
    /// parent's blocks instead of copying their contents.
    pub fn incref(&mut self, id: BlockId) -> (r: Result<u32, CacheError>)
        requires
            old(self).wf(),
        ensures
            final(self).wf(),
            match r {
                Ok(n) => old(self)@.incref_error(id) is None && final(self)@ == old(self)@.incref(
                    id,
                ) && n == final(self)@.count(id),
                Err(e) => old(self)@.incref_error(id) == Some(e) && final(self)@ == old(self)@,
            },
    {
        match self.validate(id) {
            Ok(()) => {},
            Err(e) => {
                return Err(e);
            },
        }
        let rc: u16 = self.ref_counts[id.index()];
        if rc == 0 {
            return Err(CacheError::BlockNotAllocated { id });
        }
        if rc == MAX_REFCOUNT {
            return Err(CacheError::RefCountOverflow { id, max: MAX_REFCOUNT as u32 });
        }
        self.ref_counts[id.index()] = rc + 1;
        proof {
            assert(self@ =~= old(self)@.incref(id));
            old(self)@.lemma_incref_wf(id);
        }
        Ok((rc + 1) as u32)
    }

    /// Drop an owner. Returns the new refcount; the block returns to the free
    /// list when it hits zero.
    ///
    /// Dropping an owner of a free block is an error rather than a silent
    /// no-op: it would corrupt the free list by pushing a duplicate id.
    pub fn decref(&mut self, id: BlockId) -> (r: Result<u32, CacheError>)
        requires
            old(self).wf(),
        ensures
            final(self).wf(),
            match r {
                Ok(n) => old(self)@.decref_error(id) is None && final(self)@ == old(self)@.decref(
                    id,
                ) && n == final(self)@.count(id),
                Err(e) => old(self)@.decref_error(id) == Some(e) && final(self)@ == old(self)@,
            },
    {
        match self.validate(id) {
            Ok(()) => {},
            Err(e) => {
                return Err(e);
            },
        }
        let rc: u16 = self.ref_counts[id.index()];
        if rc == 0 {
            return Err(CacheError::BlockNotAllocated { id });
        }
        self.ref_counts[id.index()] = rc - 1;
        if rc == 1 {
            self.free_list.push(id);
        }
        proof {
            assert(self@ =~= old(self)@.decref(id));
            old(self)@.lemma_decref_wf(id);
        }
        Ok((rc - 1) as u32)
    }

    /// Drop an owner on each of `ids`, stopping at the first failure.
    pub fn decref_many(&mut self, ids: &[BlockId]) -> (r: Result<(), CacheError>)
        requires
            old(self).wf(),
        ensures
            final(self).wf(),
            final(self)@ == old(self)@.decref_each(ids@).0,
            match r {
                Ok(_) => old(self)@.decref_each(ids@).1 is None,
                Err(e) => old(self)@.decref_each(ids@).1 == Some(e),
            },
    {
        let mut i: usize = 0;
        while i < ids.len()
            invariant
                i <= ids@.len(),
                self.wf(),
                self@ == old(self)@.decref_each(ids@.take(i as int)).0,
                old(self)@.decref_each(ids@.take(i as int)).1 is None,
            decreases ids@.len() - i,
        {
            proof {
                assert(ids@.take(i + 1).drop_last() =~= ids@.take(i as int));
                assert(ids@.take(i + 1).last() == ids@[i as int]);
            }
            match self.decref(ids[i]) {
                Ok(_) => {},
                Err(e) => {
                    proof {
                        old(self)@.lemma_decref_each_stops(ids@, i + 1);
                    }
                    return Err(e);
                },
            }
            i = i + 1;
        }
        assert(ids@.take(i as int) =~= ids@);
        Ok(())
    }

    /// Current owner count. Zero means free.
    pub fn ref_count(&self, id: BlockId) -> (r: Result<u32, CacheError>)
        requires
            self.wf(),
        ensures
            match r {
                Ok(n) => self@.has(id) && n == self@.count(id),
                Err(e) => !self@.has(id) && e == (CacheError::InvalidBlock {
                    id,
                    num_blocks: self@.num_blocks as usize,
                }),
            },
    {
        match self.validate(id) {
            Ok(()) => Ok(self.ref_counts[id.index()] as u32),
            Err(e) => Err(e),
        }
    }

    /// Whether this block has more than one owner, and therefore must be
    /// physically copied before anyone writes to it.
    ///
    /// This single predicate is the copy-on-write trigger.
    pub fn is_shared(&self, id: BlockId) -> (r: Result<bool, CacheError>)
        requires
            self.wf(),
        ensures
            match r {
                Ok(b) => self@.has(id) && b == (self@.count(id) > 1),
                Err(e) => !self@.has(id) && e == (CacheError::InvalidBlock {
                    id,
                    num_blocks: self@.num_blocks as usize,
                }),
            },
    {
        match self.ref_count(id) {
            Ok(n) => Ok(n > 1),
            Err(e) => Err(e),
        }
    }

    /// Whether this block currently has any owner.
    pub fn is_allocated(&self, id: BlockId) -> (r: Result<bool, CacheError>)
        requires
            self.wf(),
        ensures
            match r {
                Ok(b) => self@.has(id) && b == (self@.count(id) > 0),
                Err(e) => !self@.has(id) && e == (CacheError::InvalidBlock {
                    id,
                    num_blocks: self@.num_blocks as usize,
                }),
            },
    {
        match self.ref_count(id) {
            Ok(n) => Ok(n > 0),
            Err(e) => Err(e),
        }
    }

    /// Reject ids outside the pool.
    fn validate(&self, id: BlockId) -> (r: Result<(), CacheError>)
        ensures
            match r {
                Ok(_) => self@.has(id),
                Err(e) => !self@.has(id) && e == (CacheError::InvalidBlock {
                    id,
                    num_blocks: self@.num_blocks as usize,
                }),
            },
    {
        if id.index() >= self.num_blocks {
            return Err(CacheError::InvalidBlock { id, num_blocks: self.num_blocks });
        }
        Ok(())
    }

    /// Internal consistency check: every block with refcount 0 appears exactly
    /// once on the free list, and no block with a live refcount appears on it
    /// at all. The error describes the first fault found.
    pub fn check_invariants(&self) -> (r: Result<(), String>)
        requires
            self@.num_blocks <= u32::MAX + 1,
            self@.counts.len() == self@.num_blocks,
        ensures
            match r {
                Ok(_) => self@.consistent(),
                Err(fault) => !self@.consistent() && self@.is_first_fault(fault@),
            },
    {
        let mut seen: Vec<bool> = Vec::with_capacity(self.num_blocks);
        let mut n: usize = 0;
        while n < self.num_blocks
            invariant
                n <= self.num_blocks,
                seen@ == Seq::new(n as nat, |j: int| false),
            decreases self.num_blocks - n,
        {
            seen.push(false);
            n = n + 1;
            assert(seen@ =~= Seq::new(n as nat, |j: int| false));
        }

        let mut k: usize = 0;
        while k < self.free_list.len()
            invariant
                k <= self.free_list@.len(),
                self@.num_blocks <= u32::MAX + 1,
                self@.counts.len() == self@.num_blocks,
                seen@.len() == self.num_blocks,
                forall|j: int| 0 <= j < k ==> #[trigger] self@.free_fault(j) is None,
                forall|b: int|
                    0 <= b < seen@.len() ==> (#[trigger] seen@[b] <==> exists|j: int|
                        0 <= j < k && self@.free[j] == BlockId(b as u32)),
            decreases self.free_list@.len() - k,
        {
            let id = self.free_list[k];
            let i: usize = id.index();
            if i >= self.num_blocks {
                let mut s = "free list holds out-of-range block ".to_string();
                s.append(id.to_string().as_str());
                assert(self@.free_fault(k as int) == Some(s@));
                proof {
                    self@.lemma_fault_is_inconsistent(s@);
                }
                return Err(s);
            }
            if seen[i] {
                let mut s = "block ".to_string();
                s.append(id.to_string().as_str());
                s.append(" appears twice on the free list");
                assert(self@.free_fault(k as int) == Some(s@));
                proof {
                    self@.lemma_fault_is_inconsistent(s@);
                }
                return Err(s);
            }
            if self.ref_counts[i] != 0 {
                let mut s = "block ".to_string();
                s.append(id.to_string().as_str());
                s.append(" is on the free list but has refcount ");
                append_decimal(&mut s, self.ref_counts[i] as u64);
                assert(self@.free_fault(k as int) == Some(s@));
                proof {
                    self@.lemma_fault_is_inconsistent(s@);
                }
                return Err(s);
            }
            let ghost before = seen@;
            seen[i] = true;
            assert(self@.free_fault(k as int) is None);
            k = k + 1;
            proof {
                assert forall|b: int| 0 <= b < seen@.len() implies (#[trigger] seen@[b]
                    <==> exists|j: int| 0 <= j < k && self@.free[j] == BlockId(b as u32)) by {
                    if b == i {
                        assert(self@.free[k - 1] == BlockId(b as u32));
                    } else {
                        assert(before[b] == seen@[b]);
                        if seen@[b] {
                            let j = choose|j: int|
                                0 <= j < k - 1 && self@.free[j] == BlockId(b as u32);
                            assert(0 <= j < k && self@.free[j] == BlockId(b as u32));
                        }
                    }
                }
            }
        }

        let mut i: usize = 0;
        while i < self.num_blocks
            invariant
                i <= self.num_blocks,
                k == self.free_list@.len(),
                self@.num_blocks <= u32::MAX + 1,
                self@.counts.len() == self@.num_blocks,
                seen@.len() == self.num_blocks,
                forall|j: int|
                    0 <= j < self@.free.len() ==> #[trigger] self@.free_fault(j) is None,
                forall|b: int|
                    0 <= b < seen@.len() ==> (#[trigger] seen@[b] <==> exists|j: int|
                        0 <= j < k && self@.free[j] == BlockId(b as u32)),
                forall|j: int| 0 <= j < i ==> #[trigger] self@.lost_fault(j) is None,
            decreases self.num_blocks - i,
        {
            proof {
                let id = BlockId(i as u32);
                if seen@[i as int] {
                    let j = choose|j: int| 0 <= j < k && self@.free[j] == id;
                    assert(self@.free.contains(id));
                } else if self@.free.contains(id) {
                    let j = choose|j: int| 0 <= j < self@.free.len() && self@.free[j] == id;
                    assert(0 <= j < k && self@.free[j] == id);
                }
            }
            if self.ref_counts[i] == 0 && !seen[i] {
                let mut s = "block #".to_string();
                append_decimal(&mut s, i as u64);
                s.append(" has refcount 0 but is not free");
                assert(self@.lost_fault(i as int) == Some(s@));
                proof {
                    self@.lemma_fault_is_inconsistent(s@);
                }
                return Err(s);
            }
            assert(self@.lost_fault(i as int) is None);
            i = i + 1;
        }
        proof {
            self@.lemma_no_fault_is_consistent();
        }
        Ok(())
    }
}

} // verus!
