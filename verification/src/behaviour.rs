//! What the operations of the pool, the tables and the cache do, in terms of the
//! numbers involved.

use vstd::prelude::*;

use crate::address::Cell;
use crate::block_table::CowCopy;
use crate::config::{self, CacheConfig};
use crate::error::CacheError;
use crate::pool::Pool;
use crate::store::{self, Store};
use crate::table::Table;
use crate::types::{BlockId, PhysicalSlot};

verus! {

/// How often `b` is among `ids`.
pub open spec fn times(ids: Seq<BlockId>, b: BlockId) -> nat {
    ids.to_multiset().count(b)
}

proof fn lemma_times(ids: Seq<BlockId>, b: BlockId)
    ensures
        ids.len() == 0 ==> times(ids, b) == 0,
        ids.len() > 0 ==> times(ids, b) == times(ids.drop_last(), b) + if ids.last() == b {
            1nat
        } else {
            0nat
        },
        ids.contains(b) <==> times(ids, b) > 0,
{
    broadcast use vstd::seq_lib::group_to_multiset_ensures;

    if ids.len() > 0 {
        assert(ids.drop_last().push(ids.last()) =~= ids);
    }
}

impl Pool {
    /// In a fresh pool every block is free and without owners, and blocks are
    /// handed out from the lowest id up.
    pub proof fn fresh_pool_counts_up(n: nat, i: int)
        requires
            n <= u32::MAX + 1,
            0 <= i < n,
        ensures
            Pool::fresh(n).num_blocks == n,
            Pool::fresh(n).total == 0,
            Pool::fresh(n).free.len() == n,
            Pool::fresh(n).counts.len() == n,
            Pool::fresh(n).counts[i] == 0,
            Pool::fresh(n).popped(n)[i].0 == i,
    {
    }

    /// An allocation hands the last free block to one owner; no other block is
    /// touched.
    pub proof fn allocating_takes_the_last_free_block(self)
        requires
            self.wf(),
            self.free.len() > 0,
        ensures
            ({
                let p = self.take_one();
                let top = self.free[self.free.len() - 1].0 as int;
                &&& p.num_blocks == self.num_blocks
                &&& p.total == self.total + 1
                &&& p.free == self.free.take(self.free.len() - 1)
                &&& p.counts.len() == self.counts.len()
                &&& self.counts[top] == 0
                &&& forall|i: int|
                    0 <= i < p.counts.len() ==> #[trigger] p.counts[i] == if i == top {
                        1
                    } else {
                        self.counts[i]
                    }
            }),
    {
        self.lemma_take_one_wf();
        assert(self.has(self.free[self.free.len() - 1]));
        assert(self.take_one().free =~= self.free.take(self.free.len() - 1));
    }

    /// Several allocations hand out the last free blocks, one after the other.
    pub proof fn allocating_many_takes_the_last_free_blocks(self, k: nat, i: int)
        requires
            self.wf(),
            k <= self.free.len(),
        ensures
            self.popped(k).len() == k,
            0 <= i < k ==> self.popped(k)[i] == self.free[self.free.len() - 1 - i],
            self.take(k).free == self.free.take(self.free.len() - k),
            self.take(k).total == self.total + k,
            self.take(k).num_blocks == self.num_blocks,
            0 <= i < self.num_blocks ==> self.take(k).counts[i] == if exists|j: int|
                0 <= j < k && (#[trigger] self.free[self.free.len() - 1 - j]).0 == i {
                1
            } else {
                self.counts[i]
            },
    {
        self.lemma_take(k);
        if 0 <= i < self.num_blocks {
            let b = BlockId(i as u32);
            assert(self.take(k).count(b) == self.take(k).counts[i]);
            if self.popped(k).contains(b) {
                let j = choose|j: int| 0 <= j < k && self.popped(k)[j] == b;
                assert(self.free[self.free.len() - 1 - j].0 == i);
            }
            if exists|j: int| 0 <= j < k && (#[trigger] self.free[self.free.len() - 1 - j]).0 == i {
                let j = choose|j: int|
                    0 <= j < k && (#[trigger] self.free[self.free.len() - 1 - j]).0 == i;
                assert(self.popped(k)[j] == b);
            }
        }
    }

    /// An owner can be added exactly to a block of the pool that has an owner
    /// and a counter below its maximum. Only that counter changes.
    pub proof fn adding_an_owner(self, id: BlockId)
        requires
            self.wf(),
        ensures
            self.incref_error(id) is None <==> id.0 < self.num_blocks && 1
                <= self.counts[id.0 as int] < 65535,
            id.0 >= self.num_blocks ==> self.incref_error(id) == Some(
                CacheError::InvalidBlock { id, num_blocks: self.num_blocks as usize },
            ),
            id.0 < self.num_blocks && self.counts[id.0 as int] == 0 ==> self.incref_error(id)
                == Some(CacheError::BlockNotAllocated { id }),
            id.0 < self.num_blocks && self.counts[id.0 as int] == 65535 ==> self.incref_error(id)
                == Some(CacheError::RefCountOverflow { id, max: 65535 }),
            id.0 < self.num_blocks ==> {
                let p = self.incref(id);
                &&& p.num_blocks == self.num_blocks
                &&& p.free == self.free
                &&& p.total == self.total
                &&& p.counts.len() == self.counts.len()
                &&& forall|i: int|
                    0 <= i < p.counts.len() ==> #[trigger] p.counts[i] == self.counts[i] + if i
                        == id.0 {
                        1int
                    } else {
                        0int
                    }
            },
    {
        if id.0 < self.num_blocks {
            assert(self.counts[id.0 as int] <= crate::pool::MAX_REFCOUNT);
        }
    }

    /// An owner can be dropped exactly from a block of the pool that has one.
    /// Only that counter changes, and the block joins the free list, as the
    /// next to be handed out, exactly if it was the last owner.
    pub proof fn dropping_an_owner(self, id: BlockId)
        requires
            self.wf(),
        ensures
            self.decref_error(id) is None <==> id.0 < self.num_blocks && self.counts[id.0 as int]
                >= 1,
            id.0 >= self.num_blocks ==> self.decref_error(id) == Some(
                CacheError::InvalidBlock { id, num_blocks: self.num_blocks as usize },
            ),
            id.0 < self.num_blocks && self.counts[id.0 as int] == 0 ==> self.decref_error(id)
                == Some(CacheError::BlockNotAllocated { id }),
            id.0 < self.num_blocks && self.counts[id.0 as int] >= 1 ==> {
                let p = self.decref(id);
                &&& p.num_blocks == self.num_blocks
                &&& p.total == self.total
                &&& p.counts.len() == self.counts.len()
                &&& forall|i: int|
                    0 <= i < p.counts.len() ==> #[trigger] p.counts[i] == self.counts[i] - if i
                        == id.0 {
                        1int
                    } else {
                        0int
                    }
                &&& self.counts[id.0 as int] > 1 ==> p.free == self.free
                &&& self.counts[id.0 as int] == 1 ==> p.free.len() == self.free.len() + 1
                    && p.free[self.free.len() as int] == id && p.free.take(self.free.len() as int)
                    == self.free
            },
    {
        if id.0 < self.num_blocks && self.counts[id.0 as int] == 1 {
            assert(self.decref(id).free.take(self.free.len() as int) =~= self.free);
        }
    }

    /// The blocks of a pool are those below their number, and each has as many
    /// owners as its counter says.
    pub proof fn counters_are_read_as_they_are(self, id: BlockId)
        ensures
            self.has(id) <==> id.0 < self.num_blocks,
            self.count(id) == self.counts[id.0 as int],
    {
    }

    /// Owners are dropped block by block, up to the first that has none: two
    /// lists one after the other are the lists joined.
    pub proof fn owners_are_dropped_in_order(self, a: Seq<BlockId>, b: Seq<BlockId>, id: BlockId)
        ensures
            self.decref_each(a).1 is None ==> self.decref_each(a + b) == self.decref_each(
                a,
            ).0.decref_each(b),
            self.decref_each(a).1 is Some ==> self.decref_each(a + b) == self.decref_each(a),
            self.decref_each(Seq::empty()) == (self, None::<CacheError>),
            self.decref_each(seq![id]) == if self.decref_error(id) is None {
                (self.decref(id), None)
            } else {
                (self, self.decref_error(id))
            },
        decreases b.len(),
    {
        let one = seq![id];
        assert(one.drop_last() =~= Seq::empty());
        assert(one.last() == id);
        assert(self.decref_each(one.drop_last()) == (self, None::<CacheError>));
        if b.len() == 0 {
            assert(a + b =~= a);
        } else {
            self.owners_are_dropped_in_order(a, b.drop_last(), id);
            assert((a + b).drop_last() =~= a + b.drop_last());
            assert((a + b).last() == b.last());
        }
    }

    /// Owners are added block by block, up to the first that cannot have one
    /// more: two lists one after the other are the lists joined.
    pub proof fn owners_are_added_in_order(self, a: Seq<BlockId>, b: Seq<BlockId>, id: BlockId)
        ensures
            self.incref_each(a).1 is None ==> self.incref_each(a + b) == self.incref_each(
                a,
            ).0.incref_each(b),
            self.incref_each(a).1 is Some ==> self.incref_each(a + b) == self.incref_each(a),
            self.incref_each(Seq::empty()) == (self, None::<CacheError>),
            self.incref_each(seq![id]) == if self.incref_error(id) is None {
                (self.incref(id), None)
            } else {
                (self, self.incref_error(id))
            },
        decreases b.len(),
    {
        let one = seq![id];
        assert(one.drop_last() =~= Seq::empty());
        assert(one.last() == id);
        assert(self.incref_each(one.drop_last()) == (self, None::<CacheError>));
        if b.len() == 0 {
            assert(a + b =~= a);
        } else {
            self.owners_are_added_in_order(a, b.drop_last(), id);
            assert((a + b).drop_last() =~= a + b.drop_last());
            assert((a + b).last() == b.last());
        }
    }

    /// Owners can be dropped from a list of blocks exactly if each has at least
    /// as many owners as it is listed, and each then has so many fewer.
    pub proof fn dropping_owners_of_a_list(self, ids: Seq<BlockId>)
        requires
            self.wf(),
        ensures
            self.decref_each(ids).1 is None <==> forall|b: BlockId|
                times(ids, b) > 0 ==> b.0 < self.num_blocks && #[trigger] times(ids, b)
                    <= self.counts[b.0 as int],
            self.decref_each(ids).0.wf(),
            self.decref_each(ids).0.num_blocks == self.num_blocks,
            self.decref_each(ids).0.total == self.total,
            self.decref_each(ids).1 is None ==> forall|b: BlockId|
                b.0 < self.num_blocks ==> self.decref_each(ids).0.counts[b.0 as int]
                    == self.counts[b.0 as int] - #[trigger] times(ids, b),
        decreases ids.len(),
    {
        if ids.len() == 0 {
            assert forall|b: BlockId| #[trigger] times(ids, b) == 0 by {
                lemma_times(ids, b);
            }
        } else {
            let front = ids.drop_last();
            let last = ids.last();
            self.dropping_owners_of_a_list(front);
            let p = self.decref_each(front).0;
            p.dropping_an_owner(last);
            assert forall|b: BlockId|
                #![trigger times(ids, b)]
                #![trigger times(front, b)]
                times(ids, b) == times(front, b) + if last == b {
                1nat
            } else {
                0nat
            } by {
                lemma_times(ids, b);
            }
            if self.decref_each(front).1 is None {
                assert(times(ids, last) == times(front, last) + 1);
                if p.decref_error(last) is None {
                    p.lemma_decref_wf(last);
                    assert forall|b: BlockId| times(ids, b) > 0 implies b.0 < self.num_blocks
                        && #[trigger] times(ids, b) <= self.counts[b.0 as int] by {
                        if b != last {
                            assert(times(front, b) == times(ids, b));
                        }
                    }
                    assert forall|b: BlockId| b.0 < self.num_blocks implies self.decref_each(
                        ids,
                    ).0.counts[b.0 as int] == self.counts[b.0 as int] - #[trigger] times(ids, b) by {
                        assert(p.counts[b.0 as int] == self.counts[b.0 as int] - times(front, b));
                    }
                }
            } else {
                let b = choose|b: BlockId|
                    times(front, b) > 0 && !(b.0 < self.num_blocks && #[trigger] times(front, b)
                        <= self.counts[b.0 as int]);
                assert(times(ids, b) >= times(front, b));
            }
        }
    }

    /// Owners can be added to a list of blocks exactly if each has an owner and
    /// a counter with room for as many as it is listed, and each then has so
    /// many more. No block changes hands.
    pub proof fn adding_owners_to_a_list(self, ids: Seq<BlockId>)
        requires
            self.wf(),
        ensures
            self.incref_each(ids).1 is None <==> forall|b: BlockId|
                times(ids, b) > 0 ==> b.0 < self.num_blocks && 1 <= self.counts[b.0 as int]
                    && self.counts[b.0 as int] + #[trigger] times(ids, b) <= 65535,
            self.incref_each(ids).0.wf(),
            self.incref_each(ids).0.num_blocks == self.num_blocks,
            self.incref_each(ids).0.total == self.total,
            self.incref_each(ids).0.free == self.free,
            self.incref_each(ids).1 is None ==> forall|b: BlockId|
                b.0 < self.num_blocks ==> self.incref_each(ids).0.counts[b.0 as int]
                    == self.counts[b.0 as int] + #[trigger] times(ids, b),
        decreases ids.len(),
    {
        if ids.len() == 0 {
            assert forall|b: BlockId| #[trigger] times(ids, b) == 0 by {
                lemma_times(ids, b);
            }
        } else {
            let front = ids.drop_last();
            let last = ids.last();
            self.adding_owners_to_a_list(front);
            let p = self.incref_each(front).0;
            p.adding_an_owner(last);
            assert forall|b: BlockId|
                #![trigger times(ids, b)]
                #![trigger times(front, b)]
                times(ids, b) == times(front, b) + if last == b {
                1nat
            } else {
                0nat
            } by {
                lemma_times(ids, b);
            }
            if self.incref_each(front).1 is None {
                assert(times(ids, last) == times(front, last) + 1);
                if p.incref_error(last) is None {
                    p.lemma_incref_wf(last);
                    assert(p.counts[last.0 as int] == self.counts[last.0 as int] + times(
                        front,
                        last,
                    ));
                    assert(self.counts[last.0 as int] >= 1) by {
                        if self.counts[last.0 as int] == 0 {
                            assert(times(front, last) == 0);
                        }
                    }
                    assert forall|b: BlockId| times(ids, b) > 0 implies b.0 < self.num_blocks && 1
                        <= self.counts[b.0 as int] && self.counts[b.0 as int] + #[trigger] times(
                        ids,
                        b,
                    ) <= 65535 by {
                        if b != last {
                            assert(times(front, b) == times(ids, b));
                        }
                    }
                    assert forall|b: BlockId| b.0 < self.num_blocks implies self.incref_each(
                        ids,
                    ).0.counts[b.0 as int] == self.counts[b.0 as int] + #[trigger] times(ids, b) by {
                        assert(p.counts[b.0 as int] == self.counts[b.0 as int] + times(front, b));
                    }
                } else if last.0 < self.num_blocks {
                    assert(p.counts[last.0 as int] == self.counts[last.0 as int] + times(
                        front,
                        last,
                    ));
                }
            } else {
                let b = choose|b: BlockId|
                    times(front, b) > 0 && !(b.0 < self.num_blocks && 1 <= self.counts[b.0 as int]
                        && self.counts[b.0 as int] + #[trigger] times(front, b) <= 65535);
                assert(times(ids, b) >= times(front, b));
            }
        }
    }
}

impl Table {
    /// Whether the last block has a free slot and other owners.
    pub open spec fn tail_is_shared(self, p: Pool) -> bool {
        &&& self.tokens < self.blocks.len() * self.block_size
        &&& p.counts[self.blocks[self.blocks.len() - 1].0 as int] > 1
    }

    /// Tokens can be placed exactly if the blocks of the table and the free ones
    /// together hold them, where a shared last block costs one free block.
    pub proof fn tokens_fit_exactly_if_blocks_do(self, p: Pool, n: nat)
        requires
            self.wf(),
            p.wf(),
            self.block_size > 0,
            self.tokens < self.blocks.len() * self.block_size ==> self.blocks[self.blocks.len()
                - 1].0 < p.num_blocks,
        ensures
            ({
                let copy = if self.tail_is_shared(p) {
                    1nat
                } else {
                    0nat
                };
                &&& self.append_error(p, n) is None <==> n == 0 || (copy <= p.free.len()
                    && self.tokens + n <= (self.blocks.len() + p.free.len() - copy)
                    * self.block_size)
                &&& self.append_error(p, n) is Some ==> self.append_error(p, n) == Some(
                    CacheError::OutOfBlocks { requested: 1, available: 0 },
                )
            }),
    {
        if n > 0 {
            let b = self.block_size;
            let m = self.blocks.len();
            let f = p.free.len();
            let q = config::ceil_div(self.tokens + n, b);
            let copy = if self.tail_is_shared(p) {
                1nat
            } else {
                0nat
            };
            config::lemma_ceil_div(self.tokens + n, b);
            self.lemma_grown_wf(p, n);
            self.lemma_room();
            assert(self.needs_copy(p) <==> self.tail_is_shared(p));
            assert(self.needed(p, n) == q - m + copy);
            let k = m + f - copy;
            if q <= k {
                assert(q * b <= k * b) by (nonlinear_arith)
                    requires
                        q <= k,
                        b > 0,
                ;
            } else if k >= 0 {
                let kk = k as nat;
                assert(!(kk * b >= self.tokens + n));
                assert(kk * b == k * b);
            }
            if m + f < copy {
                assert(m == 0);
                assert(0 * b == 0);
            }
        }
    }

    /// A table whose last block has room but is no block of the pool takes no
    /// token, and the pool stays as it is. Blocks without a size hold nothing,
    /// and with no free block there is nothing to try.
    pub proof fn table_of_another_pool_is_refused(self, p: Pool, n: nat)
        requires
            n > 0,
        ensures
            self.tokens < self.blocks.len() * self.block_size && self.blocks[self.blocks.len()
                - 1].0 >= p.num_blocks ==> self.append_error(p, n) == Some(
                CacheError::InvalidBlock {
                    id: self.blocks[self.blocks.len() - 1],
                    num_blocks: p.num_blocks as usize,
                },
            ) && self.pool_rolled_back(p, n) == p,
            self.block_size == 0 && p.free.len() == 0 ==> self.append_error(p, n) == Some(
                CacheError::OutOfBlocks { requested: 1, available: 0 },
            ),
    {
        assert(self.blocks.len() * 0 == 0);
    }

    /// A table that grows keeps its blocks in place, except that a shared last
    /// block with room is replaced, and takes the last free blocks in order.
    pub proof fn growing_takes_the_last_free_blocks(self, p: Pool, n: nat, x: int)
        requires
            self.wf(),
            p.wf(),
            self.block_size > 0,
            self.append_error(p, n) is None,
            n > 0,
        ensures
            ({
                let g = self.grown(p, n);
                let kept = self.blocks.len() - if self.tail_is_shared(p) {
                    1int
                } else {
                    0int
                };
                let taken = g.blocks.len() - kept;
                &&& g.tokens == self.tokens + n
                &&& g.block_size == self.block_size
                &&& (g.blocks.len() - 1) * g.block_size < g.tokens <= g.blocks.len() * g.block_size
                &&& 0 <= taken <= p.free.len()
                &&& 0 <= x < kept ==> g.blocks[x] == self.blocks[x]
                &&& kept <= x < g.blocks.len() ==> g.blocks[x] == p.free[p.free.len() - 1 - (x
                    - kept)]
                &&& self.pool_after(p, n).free == p.free.take(p.free.len() - taken)
                &&& self.pool_after(p, n).total == p.total + taken
                &&& kept <= x < g.blocks.len() ==> self.pool_after(
                    p,
                    n,
                ).counts[g.blocks[x].0 as int] == 1
                &&& forall|i: int|
                    0 <= i < p.num_blocks && !g.blocks.skip(kept).contains(BlockId(i as u32))
                        ==> #[trigger] self.pool_after(p, n).counts[i] == p.counts[i] - if kept
                        < self.blocks.len() && self.blocks[kept].0 == i {
                        1int
                    } else {
                        0int
                    }
            }),
    {
        self.lemma_grown_wf(p, n);
        self.lemma_pool_after(p, n);
        self.lemma_room();
        let g = self.grown(p, n);
        let after = self.pool_after(p, n);
        let taken = p.popped(self.needed(p, n));
        let kept = self.blocks.len() - if self.tail_is_shared(p) {
            1int
        } else {
            0int
        };
        assert(g.blocks.len() > 0) by {
            assert(0 * self.block_size == 0);
        }
        assert(g.blocks.skip(kept) =~= taken);
        if kept <= x < g.blocks.len() {
            let b = g.blocks[x];
            assert(b == taken[x - kept]);
            assert(taken.contains(b));
            assert(p.has(p.free[p.free.len() - 1 - (x - kept)]));
            assert(after.count(b) == after.counts[b.0 as int]);
        }
        assert forall|i: int|
            0 <= i < p.num_blocks && !g.blocks.skip(kept).contains(
                BlockId(i as u32),
            ) implies #[trigger] after.counts[i] == p.counts[i] - if kept < self.blocks.len()
            && self.blocks[kept].0 == i {
            1int
        } else {
            0int
        } by {
            let b = BlockId(i as u32);
            assert(p.has(b));
            assert(after.count(b) == after.counts[i]);
            assert(p.count(b) == p.counts[i]);
        }
    }

    /// A copy is owed exactly when the last block has a free slot and other
    /// owners: from that block to the next free one, once.
    pub proof fn copy_is_owed_exactly_for_a_shared_tail(self, p: Pool, n: nat)
        ensures
            self.copy_owed(p) is Some <==> self.tail_is_shared(p),
            self.tail_is_shared(p) ==> self.copy_owed(p) == Some(
                CowCopy {
                    src: self.blocks[self.blocks.len() - 1],
                    dst: p.free[p.free.len() - 1],
                },
            ),
            n > 0 && self.tail_is_shared(p) ==> self.copies(p, n).len() == 1 && Some(
                self.copies(p, n)[0],
            ) == self.copy_owed(p),
            n == 0 || !self.tail_is_shared(p) ==> self.copies(p, n).len() == 0,
    {
    }

    /// After a failed attempt for lack of blocks every free block was handed out
    /// and given back, so that the list is reversed.
    pub proof fn failed_append_reverses_the_free_list(self, p: Pool, n: nat, i: int)
        requires
            self.wf(),
            p.wf(),
            self.block_size > 0,
            self.append_error(p, n) == Some(CacheError::OutOfBlocks { requested: 1, available: 0 }),
        ensures
            ({
                let q = self.pool_rolled_back(p, n);
                &&& q.free.len() == p.free.len()
                &&& 0 <= i < p.free.len() ==> q.free[i] == p.free[p.free.len() - 1 - i]
                &&& q.counts == p.counts
                &&& q.num_blocks == p.num_blocks
                &&& q.total == p.total + p.free.len()
            }),
    {
    }

    /// The address of a token: the block at its position divided by the block
    /// size, and the slot that is the remainder.
    pub proof fn address_is_quotient_and_remainder(self, position: nat, block: int, slot: usize)
        requires
            self.block_size > 0,
            self.block_size <= usize::MAX,
            position == block * self.block_size + slot,
            slot < self.block_size,
            0 <= block,
        ensures
            self.slot_at(position).block == self.blocks[block],
            self.slot_at(position).slot == slot,
    {
        vstd::arithmetic::div_mod::lemma_fundamental_div_mod_converse(
            position as int,
            self.block_size as int,
            block,
            slot as int,
        );
    }

    /// The last block has room exactly if the tokens do not fill whole blocks.
    pub proof fn room_is_what_is_left_of_a_block(self)
        requires
            self.wf(),
            self.block_size > 0,
        ensures
            self.has_room() <==> self.tokens % self.block_size != 0,
    {
        self.lemma_room();
        if self.blocks.len() == 0 {
            assert(0 * self.block_size == 0);
            assert(self.tokens == 0);
            assert(0nat % self.block_size == 0) by (nonlinear_arith)
                requires
                    self.block_size > 0,
            ;
        }
    }

    /// New tokens get the addresses after those of the tokens that are there,
    /// one after the other.
    pub proof fn new_tokens_continue_the_table(
        self,
        p: Pool,
        n: nat,
        i: nat,
        block: int,
        slot: usize,
    )
        requires
            i < n,
            self.block_size > 0,
            self.block_size <= usize::MAX,
            self.tokens + i == block * self.block_size + slot,
            slot < self.block_size,
            0 <= block,
        ensures
            self.slots(p, n).len() == n,
            self.slots(p, n)[i as int].block == self.grown(p, n).blocks[block],
            self.slots(p, n)[i as int].slot == slot,
    {
        self.grown(p, n).address_is_quotient_and_remainder(self.tokens + i, block, slot);
    }

    /// An empty table holds nothing.
    pub proof fn empty_table_holds_nothing(block_size: nat)
        ensures
            Table::empty(block_size).blocks.len() == 0,
            Table::empty(block_size).tokens == 0,
            Table::empty(block_size).block_size == block_size,
    {
    }
}

impl CacheConfig {
    /// Sizes add up one by one: a head adds its dimension to an entry, a token
    /// an entry to a block, a block its length to a layer, a layer its length
    /// to a plane; K and V have a plane each, and every element its bytes. With
    /// none of them there is nothing.
    pub proof fn sizes_add_up(self)
        ensures
            self.num_kv_heads == 0 ==> self.entry_len() == 0,
            self.num_kv_heads < usize::MAX ==> (CacheConfig {
                num_kv_heads: (self.num_kv_heads + 1) as usize,
                ..self
            }).entry_len() == self.entry_len() + self.head_dim,
            self.block_size == 0 ==> self.block_len() == 0,
            self.block_size < usize::MAX ==> (CacheConfig {
                block_size: (self.block_size + 1) as usize,
                ..self
            }).block_len() == self.block_len() + self.entry_len(),
            self.num_blocks == 0 ==> self.layer_len() == 0,
            self.num_blocks < usize::MAX ==> (CacheConfig {
                num_blocks: (self.num_blocks + 1) as usize,
                ..self
            }).layer_len() == self.layer_len() + self.block_len(),
            self.num_layers == 0 ==> self.plane_len() == 0,
            self.num_layers < usize::MAX ==> (CacheConfig {
                num_layers: (self.num_layers + 1) as usize,
                ..self
            }).plane_len() == self.plane_len() + self.layer_len(),
            self.pool_len() == self.plane_len() + self.plane_len(),
            self.dtype_bytes == 0 ==> self.pool_bytes() == 0 && self.token_bytes() == 0,
            self.dtype_bytes < usize::MAX ==> (CacheConfig {
                dtype_bytes: (self.dtype_bytes + 1) as usize,
                ..self
            }).pool_bytes() == self.pool_bytes() + self.pool_len(),
            self.num_layers == 0 ==> self.token_bytes() == 0,
            self.num_layers < usize::MAX ==> (CacheConfig {
                num_layers: (self.num_layers + 1) as usize,
                ..self
            }).token_bytes() == self.token_bytes() + (self.entry_len() + self.entry_len())
                * self.dtype_bytes,
    {
        let h = self.num_kv_heads as int;
        let d = self.head_dim as int;
        let e = self.entry_len() as int;
        let b = self.block_size as int;
        let n = self.num_blocks as int;
        let l = self.num_layers as int;
        let y = self.dtype_bytes as int;
        let bl = self.block_len() as int;
        let ll = self.layer_len() as int;
        let pl = self.pool_len() as int;
        assert((h + 1) * d == h * d + d) by (nonlinear_arith);
        assert((b + 1) * e == b * e + e) by (nonlinear_arith);
        assert((n + 1) * bl == n * bl + bl) by (nonlinear_arith);
        assert((l + 1) * ll == l * ll + ll) by (nonlinear_arith);
        assert(pl * (y + 1) == pl * y + pl) by (nonlinear_arith);
        assert(2 * (l + 1) * e * y == 2 * l * e * y + (e + e) * y) by (nonlinear_arith);
        assert(0 * d == 0 && 0 * e == 0 && 0 * bl == 0 && 0 * ll == 0 && pl * 0 == 0 && 0 * e * y
            == 0 && 2 * l * e * 0 == 0);
    }

    /// Whatever the number of blocks, a token of Llama-3.2-1B has 8 heads of 64
    /// dimensions in each of 16 layers, takes 32 KiB, and shares a block with 15
    /// others; in the small shape it takes 128 bytes and shares a block with 3.
    pub proof fn preset_tokens_have_their_size(num_blocks: usize)
        ensures
            ({
                let c = CacheConfig::llama_shape(num_blocks);
                &&& c.num_blocks == num_blocks
                &&& c.num_kv_heads == 8 && c.head_dim == 64 && c.num_layers == 16
                &&& c.token_bytes() == 32 * 1024
                &&& c.block_len() == 16 * c.entry_len()
            }),
            ({
                let c = CacheConfig::tiny_shape(num_blocks);
                &&& c.num_blocks == num_blocks
                &&& c.num_kv_heads == 2 && c.head_dim == 4 && c.num_layers == 2
                &&& c.token_bytes() == 128
                &&& c.block_len() == 4 * c.entry_len()
            }),
    {
        assert(2 * 16nat * 512nat * 2nat == 32 * 1024) by (nonlinear_arith);
        assert(2 * 2nat * 8nat * 4nat == 128) by (nonlinear_arith);
    }

    /// A pool in which nothing is missing can be addressed exactly if one plane
    /// has no more elements than a machine word counts, and its bytes can be
    /// counted exactly if they are no more than that.
    pub proof fn addressable_exactly_if_a_plane_fits(self)
        requires
            self.num_blocks > 0,
            self.block_size > 0,
            self.num_kv_heads > 0,
            self.head_dim > 0,
            self.num_layers > 0,
            self.dtype_bytes > 0,
        ensures
            self.addressable() <==> self.num_layers * (self.num_blocks * (self.block_size * (
            self.num_kv_heads * self.head_dim))) <= usize::MAX,
            self.bytes_fit() <==> 2 * (self.num_layers * (self.num_blocks * (self.block_size * (
            self.num_kv_heads * self.head_dim)))) * self.dtype_bytes <= usize::MAX,
    {
        let h = self.num_kv_heads as int;
        let d = self.head_dim as int;
        let b = self.block_size as int;
        let n = self.num_blocks as int;
        let l = self.num_layers as int;
        let y = self.dtype_bytes as int;
        let e = h * d;
        let bl = b * e;
        let ll = n * bl;
        let pl = l * ll;
        assert(e >= 1) by (nonlinear_arith)
            requires
                e == h * d,
                h >= 1,
                d >= 1,
        ;
        assert(bl >= e && bl >= 1) by (nonlinear_arith)
            requires
                bl == b * e,
                b >= 1,
                e >= 1,
        ;
        assert(ll >= bl && ll >= n) by (nonlinear_arith)
            requires
                ll == n * bl,
                n >= 1,
                bl >= 1,
        ;
        assert(pl >= ll && pl >= l && pl >= l * n) by (nonlinear_arith)
            requires
                pl == l * ll,
                l >= 1,
                ll >= n,
                n >= 1,
        ;
        assert(2 * pl * y >= 2 * pl) by (nonlinear_arith)
            requires
                pl >= 1,
                y >= 1,
        ;
    }

    /// A block is refused exactly if its id is not below the number of blocks.
    pub proof fn every_block_of_the_pool_is_valid(self, block: BlockId)
        ensures
            self.block_error(block) is None <==> block.0 < self.num_blocks,
            block.0 >= self.num_blocks ==> self.block_error(block) == Some(
                CacheError::InvalidBlock { id: block, num_blocks: self.num_blocks },
            ),
    {
    }

    /// A slot of a layer is refused exactly if the layer, the block or the slot
    /// does not exist, and the first of these that does not is named.
    pub proof fn every_cell_is_valid(self, layer: usize, at: PhysicalSlot)
        ensures
            self.slot_error(layer, at) is None <==> layer < self.num_layers && at.block.0
                < self.num_blocks && at.slot < self.block_size,
            layer >= self.num_layers ==> self.slot_error(layer, at) == Some(
                CacheError::InvalidLayer { layer, num_layers: self.num_layers },
            ),
            layer < self.num_layers && at.block.0 >= self.num_blocks ==> self.slot_error(layer, at)
                == Some(
                CacheError::InvalidBlock { id: at.block, num_blocks: self.num_blocks },
            ),
            layer < self.num_layers && at.block.0 < self.num_blocks && at.slot >= self.block_size
                ==> self.slot_error(layer, at) == Some(
                CacheError::SlotOutOfRange { slot: at.slot, block_size: self.block_size },
            ),
    {
    }

    /// Writing and reading an entry are refused exactly if the cell does not
    /// exist or K or V has not one element per dimension of every head: no cell
    /// is refused an entry of the right shape.
    pub proof fn every_cell_takes_an_entry(
        self,
        layer: usize,
        at: PhysicalSlot,
        k_len: usize,
        v_len: usize,
    )
        requires
            self.num_kv_heads * self.head_dim <= usize::MAX,
        ensures
            ({
                let n = self.num_kv_heads * self.head_dim;
                let exists_cell = layer < self.num_layers && at.block.0 < self.num_blocks && at.slot
                    < self.block_size;
                let error = self.entry_error(layer, at, k_len as nat, v_len as nat);
                &&& error is None <==> exists_cell && k_len == n && v_len == n
                &&& !exists_cell ==> error == self.slot_error(layer, at)
                &&& exists_cell && k_len != n ==> error == Some(
                    CacheError::ShapeMismatch { expected: n as usize, actual: k_len },
                )
                &&& exists_cell && k_len == n && v_len != n ==> error == Some(
                    CacheError::ShapeMismatch { expected: n as usize, actual: v_len },
                )
            }),
    {
    }

    /// A block can be copied to another exactly if both exist; otherwise the
    /// first that does not is named.
    pub proof fn every_block_can_be_copied(self, src: BlockId, dst: BlockId)
        ensures
            self.copy_error(src, dst) is None <==> src.0 < self.num_blocks && dst.0
                < self.num_blocks,
            src.0 >= self.num_blocks ==> self.copy_error(src, dst) == Some(
                CacheError::InvalidBlock { id: src, num_blocks: self.num_blocks },
            ),
            src.0 < self.num_blocks && dst.0 >= self.num_blocks ==> self.copy_error(src, dst)
                == Some(CacheError::InvalidBlock { id: dst, num_blocks: self.num_blocks }),
    {
    }

    /// A batch of writes that names a slot that does not exist is refused for
    /// the first such slot, and for no other.
    pub proof fn batch_is_refused_for_its_first_missing_slot(
        self,
        layer: usize,
        dsts: Seq<PhysicalSlot>,
        i: int,
        e: CacheError,
    )
        requires
            0 <= i < dsts.len(),
            forall|j: int|
                0 <= j < i ==> layer < self.num_layers && (#[trigger] dsts[j]).block.0
                    < self.num_blocks && dsts[j].slot < self.block_size,
            layer >= self.num_layers || dsts[i].block.0 >= self.num_blocks || dsts[i].slot
                >= self.block_size,
        ensures
            self.is_first_slot_error(layer, dsts, e) <==> self.slot_error(layer, dsts[i]) == Some(
                e,
            ),
    {
        assert forall|j: int| 0 <= j < i implies self.slot_error(layer, #[trigger] dsts[j])
            is None by {
            self.every_cell_is_valid(layer, dsts[j]);
        }
        self.every_cell_is_valid(layer, dsts[i]);
        if self.is_first_slot_error(layer, dsts, e) {
            let k = choose|k: int|
                {
                    &&& 0 <= k < dsts.len()
                    &&& self.slot_error(layer, #[trigger] dsts[k]) == Some(e)
                    &&& forall|j: int|
                        0 <= j < k ==> self.slot_error(layer, #[trigger] dsts[j]) is None
                };
            if i < k {
                assert(self.slot_error(layer, dsts[i]) is None);
            }
            if k < i {
                assert(self.slot_error(layer, dsts[k]) is None);
            }
        }
    }

    /// A batch of copies that names a block that does not exist is refused for
    /// the first such block, and for no other.
    pub proof fn batch_is_refused_for_its_first_missing_block(
        self,
        pairs: Seq<(BlockId, BlockId)>,
        i: int,
        e: CacheError,
    )
        requires
            0 <= i < pairs.len(),
            forall|j: int| 0 <= j < i ==> in_pool(self.num_blocks, #[trigger] pairs[j]),
            !in_pool(self.num_blocks, pairs[i]),
        ensures
            self.is_first_copy_error(pairs, e) <==> missing(self.num_blocks, pairs[i]) == Some(e),
    {
        assert forall|j: int| 0 <= j < i implies self.copy_error(
            (#[trigger] pairs[j]).0,
            pairs[j].1,
        ) is None by {
            self.every_block_can_be_copied(pairs[j].0, pairs[j].1);
        }
        self.every_block_can_be_copied(pairs[i].0, pairs[i].1);
        if self.is_first_copy_error(pairs, e) {
            let k = choose|k: int|
                {
                    &&& 0 <= k < pairs.len()
                    &&& self.copy_error((#[trigger] pairs[k]).0, pairs[k].1) == Some(e)
                    &&& forall|j: int|
                        0 <= j < k ==> self.copy_error((#[trigger] pairs[j]).0, pairs[j].1) is None
                };
            if i < k {
                assert(self.copy_error(pairs[i].0, pairs[i].1) is None);
            }
            if k < i {
                assert(self.copy_error(pairs[k].0, pairs[k].1) is None);
            }
        }
    }

    /// Where an entry lies: cells follow each other slot by slot, block by
    /// block, layer by layer, each with one element per dimension of every head.
    pub proof fn entries_follow_each_other(self, layer: int, at: PhysicalSlot)
        ensures
            self.start(at.cell(layer)) == ((layer * self.num_blocks + at.block.0) * self.block_size
                + at.slot) * (self.num_kv_heads * self.head_dim),
            self.run_start(layer, at.block.0 as int) == (layer * self.num_blocks + at.block.0) * (
            self.block_size * (self.num_kv_heads * self.head_dim)),
            self.has_cell(at.cell(layer)) <==> 0 <= layer < self.num_layers && at.block.0
                < self.num_blocks && at.slot < self.block_size,
    {
        self.entries_lie_in_rank_order(at.cell(layer));
    }
}

/// Both blocks of a pair exist in a pool of `num_blocks`.
pub open spec fn in_pool(num_blocks: usize, pair: (BlockId, BlockId)) -> bool {
    pair.0.0 < num_blocks && pair.1.0 < num_blocks
}

/// The error that names the first block of a pair that does not exist in a pool
/// of `num_blocks`.
pub open spec fn missing(num_blocks: usize, pair: (BlockId, BlockId)) -> Option<CacheError> {
    if pair.0.0 >= num_blocks {
        Some(CacheError::InvalidBlock { id: pair.0, num_blocks })
    } else if pair.1.0 >= num_blocks {
        Some(CacheError::InvalidBlock { id: pair.1, num_blocks })
    } else {
        None
    }
}

impl<E> Store<E> {
    /// A batch of copies succeeds exactly if both blocks of every pair exist;
    /// otherwise the first block that does not is named.
    pub proof fn batch_succeeds_exactly_if_all_blocks_exist(self, pairs: Seq<(BlockId, BlockId)>)
        ensures
            self.copy_each(pairs).1 is None <==> forall|i: int|
                0 <= i < pairs.len() ==> in_pool(self.config.num_blocks, #[trigger] pairs[i]),
            self.copy_each(pairs).1 is Some ==> exists|i: int|
                {
                    &&& 0 <= i < pairs.len()
                    &&& forall|j: int|
                        0 <= j < i ==> in_pool(self.config.num_blocks, #[trigger] pairs[j])
                    &&& self.copy_each(pairs).1 == missing(
                        self.config.num_blocks,
                        #[trigger] pairs[i],
                    )
                },
        decreases pairs.len(),
    {
        let blocks = self.config.num_blocks;
        if pairs.len() > 0 {
            let front = pairs.drop_last();
            let n = pairs.len() - 1;
            self.batch_succeeds_exactly_if_all_blocks_exist(front);
            assert(pairs.last() == pairs[n]);
            self.config.every_block_can_be_copied(pairs[n].0, pairs[n].1);
            if self.copy_each(front).1 is Some {
                let i = choose|i: int|
                    {
                        &&& 0 <= i < front.len()
                        &&& forall|j: int| 0 <= j < i ==> in_pool(blocks, #[trigger] front[j])
                        &&& self.copy_each(front).1 == missing(blocks, #[trigger] front[i])
                    };
                assert forall|j: int| 0 <= j < i implies in_pool(blocks, #[trigger] pairs[j]) by {
                    assert(front[j] == pairs[j]);
                }
                assert(pairs[i] == front[i]);
            } else {
                assert forall|j: int| 0 <= j < n implies in_pool(blocks, #[trigger] pairs[j]) by {
                    assert(front[j] == pairs[j]);
                }
                assert(self.copy_each(pairs).1 == missing(blocks, pairs[n]));
            }
        }
    }

    /// Copying two batches one after the other is copying them as one, and a
    /// batch of one pair is one copy.
    pub proof fn batches_can_be_split(
        self,
        a: Seq<(BlockId, BlockId)>,
        b: Seq<(BlockId, BlockId)>,
        src: BlockId,
        dst: BlockId,
    )
        ensures
            self.copy_each(a).1 is None ==> self.copy_each(a + b) == self.copy_each(a).0.copy_each(
                b,
            ),
            self.copy_each(a).1 is Some ==> self.copy_each(a + b) == self.copy_each(a),
            src.0 < self.config.num_blocks && dst.0 < self.config.num_blocks ==> self.copy_each(
                seq![(src, dst)],
            ) == (self.copied(src, dst), None::<CacheError>),
            self.copy_each(Seq::empty()) == (self, None::<CacheError>),
        decreases b.len(),
    {
        self.lemma_copy_each_config(a);
        let one = seq![(src, dst)];
        assert(one.drop_last() =~= Seq::empty());
        assert(self.copy_each(one.drop_last()) == (self, None::<CacheError>));
        self.config.every_block_can_be_copied(src, dst);
        if b.len() == 0 {
            assert(a + b =~= a);
        } else {
            self.batches_can_be_split(a, b.drop_last(), src, dst);
            assert((a + b).drop_last() =~= a + b.drop_last());
            assert((a + b).last() == b.last());
        }
    }

    /// A batch with different destinations that are no pair's source copies
    /// every pair from what was there before, several pairs with one source
    /// included, and leaves every other block alone.
    pub proof fn batch_copies_every_pair(
        self,
        pairs: Seq<(BlockId, BlockId)>,
        layer: int,
        slot: usize,
        block: BlockId,
    )
        requires
            self.wf(),
            0 <= layer < self.config.num_layers,
            slot < self.config.block_size,
            block.0 < self.config.num_blocks,
            forall|i: int|
                0 <= i < pairs.len() ==> in_pool(self.config.num_blocks, #[trigger] pairs[i]),
            forall|i: int, j: int|
                #![trigger pairs[i], pairs[j]]
                0 <= i < pairs.len() && 0 <= j < pairs.len() ==> pairs[i].0 != pairs[j].1 && (i != j
                    ==> pairs[i].1 != pairs[j].1),
        ensures
            self.copy_each(pairs).1 is None,
            forall|i: int|
                #![trigger pairs[i]]
                0 <= i < pairs.len() ==> self.copy_each(pairs).0.entry(
                    layer,
                    PhysicalSlot { block: pairs[i].1, slot },
                ) == self.entry(layer, PhysicalSlot { block: pairs[i].0, slot }),
            (forall|i: int| 0 <= i < pairs.len() ==> (#[trigger] pairs[i]).1 != block)
                ==> self.copy_each(pairs).0.entry(layer, PhysicalSlot { block, slot })
                == self.entry(layer, PhysicalSlot { block, slot }),
    {
        self.batch_succeeds_exactly_if_all_blocks_exist(pairs);
        assert(store::independent(pairs));
        assert forall|i: int|
            #![trigger pairs[i]]
            0 <= i < pairs.len() implies self.copy_each(pairs).0.entry(
            layer,
            PhysicalSlot { block: pairs[i].1, slot },
        ) == self.entry(layer, PhysicalSlot { block: pairs[i].0, slot }) by {
            self.independent_copies_do_not_interfere(
                pairs,
                layer,
                PhysicalSlot { block: pairs[i].1, slot },
            );
        }
        self.independent_copies_do_not_interfere(pairs, layer, PhysicalSlot { block, slot });
    }

    /// Pairs are independent exactly if no destination is another pair's
    /// destination or source.
    pub proof fn independence_is_about_destinations(pairs: Seq<(BlockId, BlockId)>)
        ensures
            store::independent(pairs) <==> forall|i: int, j: int|
                #![trigger pairs[i], pairs[j]]
                0 <= i < pairs.len() && 0 <= j < pairs.len() && i != j ==> pairs[i].1 != pairs[j].1
                    && pairs[i].0 != pairs[j].1,
    {
        if store::independent(pairs) {
            assert forall|i: int, j: int|
                #![trigger pairs[i], pairs[j]]
                0 <= i < pairs.len() && 0 <= j < pairs.len() && i != j implies pairs[i].1
                != pairs[j].1 && pairs[i].0 != pairs[j].1 by {
                if j < i {
                    assert(pairs[j].1 != pairs[i].1);
                }
            }
        }
    }

    /// A fresh pool and a zeroed block read as zeros, one per dimension of every
    /// head, in K and in V.
    pub proof fn zeros_read_as_zeros(
        self,
        config: CacheConfig,
        zero: E,
        block: BlockId,
        layer: int,
        slot: usize,
        i: int,
    )
        requires
            self.wf(),
            0 <= layer < self.config.num_layers,
            block.0 < self.config.num_blocks,
            slot < self.config.block_size,
            0 <= i < self.config.num_kv_heads * self.config.head_dim,
        ensures
            ({
                let at = PhysicalSlot { block, slot };
                let a = Store::filled(self.config, zero).entry(layer, at);
                let b = self.zeroed(block, zero).entry(layer, at);
                let n = self.config.num_kv_heads * self.config.head_dim;
                &&& a.k.len() == n && a.v.len() == n && a.k[i] == zero && a.v[i] == zero
                &&& b.k.len() == n && b.v.len() == n && b.k[i] == zero && b.v[i] == zero
            }),
    {
        let at = PhysicalSlot { block, slot };
        Store::fresh_pool_is_blank(self.config, zero, layer, at);
        self.zeroing_clears_one_block(block, zero, layer, at);
    }
}

} // verus!
