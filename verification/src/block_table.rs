//! Block tables: where each token of a sequence lives.

use vstd::prelude::*;

use crate::allocator::BlockAllocator;
use crate::config::CacheConfig;
use crate::error::CacheError;
use crate::table::Table;
use crate::types::{BlockId, PhysicalSlot};

verus! {

/// Maps one sequence's logical token positions onto physical blocks.
///
/// This is the "page table" in the paging analogy. The table itself owns no
/// memory: every block it references is refcounted in the shared
/// [`BlockAllocator`], so a `BlockTable` is cheap to fork and cheap to drop.
///
/// It resolves *where* a token's entry lives; writing the actual values is the
/// caller's job, via a backend.
#[derive(Debug, Clone)]
pub struct BlockTable {
    /// Physical block for each logical block index, in order.
    blocks: Vec<BlockId>,
    /// Tokens written so far.
    num_tokens: usize,
    block_size: usize,
}

/// One block's worth of newly forced-private data.
///
/// Returned by [`BlockTable::append`] when a write lands on a shared block: the
/// caller must replicate the bytes of `src` into `dst` before trusting the new
/// block's contents.
#[derive(Debug, Clone, Copy, PartialEq, Eq, Structural)]
pub struct CowCopy {
    pub src: BlockId,
    pub dst: BlockId,
}

impl View for BlockTable {
    type V = Table;

    closed spec fn view(&self) -> Table {
        Table {
            blocks: self.blocks@,
            tokens: self.num_tokens as nat,
            block_size: self.block_size as nat,
        }
    }
}

impl BlockTable {
    /// The invariant of a table.
    pub open spec fn wf(self) -> bool {
        self@.wf()
    }

    /// An empty table for a brand-new sequence. Allocates nothing yet: the
    /// first block is taken lazily on the first [`append`](Self::append).
    pub fn new(block_size: usize) -> (t: Self)
        ensures
            t@ == Table::empty(block_size as nat),
            t.wf(),
    {
        let t = Self { blocks: Vec::new(), num_tokens: 0, block_size };
        assert(t@ =~= Table::empty(block_size as nat));
        t
    }

    /// Build a table for a config's block size.
    pub fn for_config(config: &CacheConfig) -> (t: Self)
        ensures
            t@ == Table::empty(config.block_size as nat),
            t.wf(),
    {
        Self::new(config.block_size)
    }

    /// Tokens written so far.
    pub fn num_tokens(&self) -> (n: usize)
        ensures
            n == self@.tokens,
    {
        self.num_tokens
    }

    /// Blocks backing the tokens.
    pub fn num_blocks(&self) -> (n: usize)
        ensures
            n == self@.blocks.len(),
    {
        self.blocks.len()
    }

    /// Tokens per block.
    pub fn block_size(&self) -> (n: usize)
        ensures
            n == self@.block_size,
    {
        self.block_size
    }

    /// Physical blocks backing this sequence, in logical order.
    pub fn physical_blocks(&self) -> (blocks: &[BlockId])
        ensures
            blocks@ == self@.blocks,
    {
        self.blocks.as_slice()
    }

    /// Whether a tail block already exists and has room for one more token.
    ///
    /// An empty table has no tail block to have room in, although its token
    /// count is a multiple of the block size like that of a full one.
    fn last_block_has_room(&self) -> (b: bool)
        requires
            self.wf(),
        ensures
            b == self@.has_room(),
    {
        if self.blocks.len() == 0 {
            return false;
        }
        proof {
            assert(self@.block_size > 0) by {
                let n = self@.blocks.len();
                let b = self@.block_size;
                assert(b > 0) by (nonlinear_arith)
                    requires
                        n > 0,
                        (n - 1) * b < n * b,
                ;
            }
            self@.lemma_room();
        }
        self.num_tokens % self.block_size != 0
    }

    /// Resolve a logical token position to its physical address, without
    /// requiring the position to be written already.
    fn slot_for_position(&self, position: usize) -> (at: PhysicalSlot)
        requires
            self@.block_size > 0,
            position < self@.blocks.len() * self@.block_size,
        ensures
            at == self@.slot_at(position as nat),
    {
        proof {
            let j = position as int / self.block_size as int;
            let n = self@.blocks.len();
            let b = self.block_size as int;
            assert(0 <= j < n) by (nonlinear_arith)
                requires
                    j == position as int / b,
                    position < n * b,
                    b > 0,
            ;
        }
        let logical_block: usize = position / self.block_size;
        let slot: usize = position % self.block_size;
        PhysicalSlot::new(self.blocks[logical_block], slot)
    }

    /// Where logical token `position` lives physically.
    ///
    /// Returns an error if `position` has not been written yet.
    pub fn resolve(&self, position: usize) -> (r: Result<PhysicalSlot, CacheError>)
        requires
            self.wf(),
        ensures
            match r {
                Ok(at) => position < self@.tokens && at == self@.slot_at(position as nat),
                Err(e) => position >= self@.tokens && e == (CacheError::SlotOutOfRange {
                    slot: position,
                    block_size: self@.tokens as usize,
                }),
            },
    {
        if position >= self.num_tokens {
            return Err(
                CacheError::SlotOutOfRange { slot: position, block_size: self.num_tokens },
            );
        }
        proof {
            if self@.block_size == 0 {
                assert(self@.blocks.len() * 0 == 0);
            }
        }
        Ok(self.slot_for_position(position))
    }

    /// Reserve space for the next token, growing the table by one physical
    /// block from `allocator` if the current tail block is full (or this is
    /// the first token).
    ///
    /// Returns the slot the caller should write into, and, if the tail block
    /// was shared with another sequence, a [`CowCopy`] describing the physical
    /// copy the caller must perform first. A shared tail block cannot be
    /// written in place: a fresh private block takes its place in this table.
    /// A tail block with this table as its sole owner is written in place.
    pub fn append(&mut self, allocator: &mut BlockAllocator) -> (r: Result<
        (PhysicalSlot, Option<CowCopy>),
        CacheError,
    >)
        requires
            old(self).wf(),
            old(allocator).wf(),
            old(self)@.block_size > 0 || old(allocator)@.free.len() == 0,
            old(self)@.append_error(old(allocator)@, 1) is None ==> old(self)@.tokens < usize::MAX,
            old(allocator)@.total + old(self)@.allocations(old(allocator)@, 1) <= u64::MAX,
        ensures
            final(self).wf(),
            final(allocator).wf(),
            match r {
                Ok((slot, cow)) => {
                    &&& old(self)@.append_error(old(allocator)@, 1) is None
                    &&& final(self)@ == old(self)@.grown(old(allocator)@, 1)
                    &&& final(allocator)@ == old(self)@.pool_after(old(allocator)@, 1)
                    &&& slot == final(self)@.slot_at(old(self)@.tokens)
                    &&& cow == old(self)@.copy_owed(old(allocator)@)
                },
                Err(e) => {
                    &&& old(self)@.append_error(old(allocator)@, 1) == Some(e)
                    &&& final(self)@ == old(self)@
                    &&& final(allocator)@ == old(allocator)@
                },
            },
    {
        let ghost t = self@;
        let ghost p = allocator@;
        let mut cow: Option<CowCopy> = None;
        proof {
            if t.block_size > 0 {
                t.lemma_growth_one();
                t.lemma_room();
                t.lemma_grown_wf(p, 1);
                assert(p.take(1) == p.take(0).take_one());
            } else {
                assert(t.blocks.len() * 0 == 0);
            }
        }
        if self.last_block_has_room() {
            // The tail might be shared, for instance by a fork that has not
            // written anything yet. Force it private before handing out the slot.
            let tail = self.blocks[self.blocks.len() - 1];
            match allocator.is_shared(tail) {
                Err(e) => {
                    return Err(e);
                },
                Ok(shared) => {
                    if shared {
                        let fresh = match allocator.allocate() {
                            Ok(id) => id,
                            Err(e) => {
                                return Err(e);
                            },
                        };
                        proof {
                            p.lemma_take_one_wf();
                        }
                        match allocator.decref(tail) {
                            Ok(_) => {},
                            Err(e) => {
                                return Err(e);
                            },
                        }
                        let n: usize = self.blocks.len();
                        self.blocks[n - 1] = fresh;
                        cow = Some(CowCopy { src: tail, dst: fresh });
                        proof {
                            let q = p.decref(tail);
                            assert(q.take(1) == q.take(0).take_one());
                            assert(allocator@ =~= t.pool_after(p, 1));
                            assert(self.blocks@ =~= t.grown(p, 1).blocks);
                        }
                    } else {
                        proof {
                            assert(self.blocks@ =~= t.grown(p, 1).blocks);
                        }
                    }
                },
            }
        } else {
            let fresh = match allocator.allocate() {
                Ok(id) => id,
                Err(e) => {
                    return Err(e);
                },
            };
            self.blocks.push(fresh);
            proof {
                assert(self.blocks@ =~= t.grown(p, 1).blocks);
            }
        }
        let slot = self.slot_for_position(self.num_tokens);
        self.num_tokens = self.num_tokens + 1;
        assert(self@ =~= t.grown(p, 1));
        Ok((slot, cow))
    }

    /// Append `n` tokens' worth of prompt in one call, returning every slot in
    /// order along with any copy triggered along the way.
    ///
    /// All-or-nothing, like [`BlockAllocator::allocate_many`]: on failure the
    /// table is as it was and every block is back with its former owners. That
    /// includes a shared tail that was already replaced: the fresh block is
    /// released and this table owns the shared one again.
    pub fn append_many(&mut self, allocator: &mut BlockAllocator, n: usize) -> (r: Result<
        (Vec<PhysicalSlot>, Vec<CowCopy>),
        CacheError,
    >)
        requires
            old(self).wf(),
            old(allocator).wf(),
            n > 0 ==> old(self)@.block_size > 0 || old(allocator)@.free.len() == 0,
            forall|k: nat|
                k <= n && #[trigger] old(self)@.append_error(old(allocator)@, k) is None ==> old(
                    self,
                )@.tokens + k <= usize::MAX,
            old(allocator)@.total + old(self)@.allocations(old(allocator)@, n as nat) <= u64::MAX,
        ensures
            final(self).wf(),
            final(allocator).wf(),
            match r {
                Ok((slots, copies)) => {
                    &&& old(self)@.append_error(old(allocator)@, n as nat) is None
                    &&& final(self)@ == old(self)@.grown(old(allocator)@, n as nat)
                    &&& final(allocator)@ == old(self)@.pool_after(old(allocator)@, n as nat)
                    &&& slots@ == old(self)@.slots(old(allocator)@, n as nat)
                    &&& copies@ == old(self)@.copies(old(allocator)@, n as nat)
                },
                Err(e) => {
                    &&& old(self)@.append_error(old(allocator)@, n as nat) == Some(e)
                    &&& final(self)@ == old(self)@
                    &&& final(allocator)@ == old(self)@.pool_rolled_back(
                        old(allocator)@,
                        n as nat,
                    )
                },
            },
    {
        let ghost t = self@;
        let ghost p = allocator@;
        let saved_blocks = self.blocks.clone();
        let saved_tokens: usize = self.num_tokens;
        assert(saved_blocks@ =~= self.blocks@);

        let mut slots: Vec<PhysicalSlot> = Vec::new();
        let mut copies: Vec<CowCopy> = Vec::new();

        let mut k: usize = 0;
        proof {
            assert(t.grown(p, 0).blocks =~= t.blocks);
            assert(t.grown(p, 0) =~= t);
            assert(slots@ =~= t.slots(p, 0));
            assert(copies@ =~= t.copies(p, 0));
        }
        while k < n
            invariant
                k <= n,
                t.wf(),
                p.wf(),
                n > 0 ==> t.block_size > 0 || p.free.len() == 0,
                forall|j: nat|
                    j <= n && #[trigger] t.append_error(p, j) is None ==> t.tokens + j
                        <= usize::MAX,
                p.total + t.allocations(p, n as nat) <= u64::MAX,
                t.append_error(p, k as nat) is None,
                self.wf(),
                allocator.wf(),
                self@ == t.grown(p, k as nat),
                allocator@ == t.pool_after(p, k as nat),
                slots@ == t.slots(p, k as nat),
                copies@ == t.copies(p, k as nat),
                saved_blocks@ == t.blocks,
                saved_tokens == t.tokens,
                t == old(self)@,
                p == old(allocator)@,
            decreases n - k,
        {
            proof {
                t.lemma_step_fits(p, k as nat, n as nat);
            }
            match self.append(allocator) {
                Ok((slot, cow)) => {
                    slots.push(slot);
                    if let Some(c) = cow {
                        copies.push(c);
                    }
                    k = k + 1;
                },
                Err(e) => {
                    proof {
                        t.lemma_error_persists(p, (k + 1) as nat, n as nat);
                    }
                    let ghost m = p.free.len();
                    let ghost all = p.popped(m);
                    let ghost mut j: nat = 0;
                    if copies.len() > 0 {
                        let c = copies[0];
                        proof {
                            t.lemma_unwind_copy(p, k as nat);
                        }
                        let _ = allocator.decref(c.dst);
                        let _ = allocator.incref(c.src);
                        proof {
                            j = 1;
                        }
                    } else {
                        proof {
                            if k > 0 {
                                p.lemma_unwound_start();
                            }
                        }
                    }
                    let mut i: usize = saved_blocks.len();
                    while i < self.blocks.len()
                        invariant
                            t.blocks.len() <= i <= self.blocks@.len(),
                            p.wf(),
                            allocator.wf(),
                            m == p.free.len(),
                            all == p.popped(m),
                            k == 0 ==> i == self.blocks@.len() && allocator@ == p,
                            k > 0 ==> self.blocks@.len() - i == m - j,
                            k > 0 ==> forall|x: int|
                                t.blocks.len() <= x < self.blocks@.len()
                                    ==> #[trigger] self.blocks@[x] == all[x - self.blocks@.len()
                                    + m],
                            k > 0 ==> j <= m && allocator@ == p.unwound(j),
                        decreases self.blocks@.len() - i,
                    {
                        proof {
                            p.lemma_unwound_step(j);
                        }
                        let _ = allocator.decref(self.blocks[i]);
                        proof {
                            j = j + 1;
                        }
                        i = i + 1;
                    }
                    proof {
                        p.lemma_unwound_end();
                    }
                    self.blocks = saved_blocks;
                    self.num_tokens = saved_tokens;
                    assert(self@ =~= t);
                    return Err(e);
                },
            }
        }
        Ok((slots, copies))
    }

    /// Fork this table for a new owner (a beam search branch, or a request
    /// sharing another's prefix).
    ///
    /// Increfs every physical block so the child shares them with the parent;
    /// no bytes are copied. Divergence is deferred until one side actually
    /// writes, at which point [`append`](Self::append) does the real copy for
    /// exactly the one block that changed. Stops at the first block whose
    /// reference count cannot grow.
    pub fn fork(&self, allocator: &mut BlockAllocator) -> (r: Result<Self, CacheError>)
        requires
            self.wf(),
            old(allocator).wf(),
        ensures
            final(allocator).wf(),
            final(allocator)@ == old(allocator)@.incref_each(self@.blocks).0,
            match r {
                Ok(child) => old(allocator)@.incref_each(self@.blocks).1 is None && child@ == self@
                    && child.wf(),
                Err(e) => old(allocator)@.incref_each(self@.blocks).1 == Some(e),
            },
    {
        let ghost p = allocator@;
        let ghost ids = self.blocks@;
        let mut i: usize = 0;
        while i < self.blocks.len()
            invariant
                i <= ids.len(),
                ids == self.blocks@,
                p == old(allocator)@,
                allocator.wf(),
                allocator@ == p.incref_each(ids.take(i as int)).0,
                p.incref_each(ids.take(i as int)).1 is None,
            decreases ids.len() - i,
        {
            proof {
                assert(ids.take(i + 1).drop_last() =~= ids.take(i as int));
                assert(ids.take(i + 1).last() == ids[i as int]);
            }
            match allocator.incref(self.blocks[i]) {
                Ok(_) => {},
                Err(e) => {
                    proof {
                        p.lemma_incref_each_stops(ids, i + 1);
                    }
                    return Err(e);
                },
            }
            i = i + 1;
        }
        assert(ids.take(i as int) =~= ids);
        let blocks = self.blocks.clone();
        assert(blocks@ =~= self.blocks@);
        let child = Self { blocks, num_tokens: self.num_tokens, block_size: self.block_size };
        assert(child@ =~= self@);
        Ok(child)
    }

    /// Release every block this table holds, in order, stopping at the first
    /// that has no owner. Must be called explicitly, since releasing needs the
    /// shared allocator; forgetting to call this leaks blocks.
    pub fn free(self, allocator: &mut BlockAllocator) -> (r: Result<(), CacheError>)
        requires
            old(allocator).wf(),
        ensures
            final(allocator).wf(),
            final(allocator)@ == old(allocator)@.decref_each(self@.blocks).0,
            match r {
                Ok(_) => old(allocator)@.decref_each(self@.blocks).1 is None,
                Err(e) => old(allocator)@.decref_each(self@.blocks).1 == Some(e),
            },
    {
        allocator.decref_many(self.blocks.as_slice())
    }
}

} // verus!
