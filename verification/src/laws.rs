//! What the pool, the tables and the scheduler promise as a whole.

use vstd::prelude::*;

use crate::block_table::CowCopy;
use crate::config::{self, CacheConfig};
use crate::error::CacheError;
use crate::pool::{Pool, MAX_REFCOUNT};
use crate::schedule::{Outcome, Pending, Running, Schedule};
use crate::soundness;
use crate::store::Store;
use crate::table::Table;
use crate::types::{BlockId, SeqId};

verus! {

impl CacheConfig {
    /// The pool is made of its blocks, and a block of its tokens: the bytes of
    /// the pool are the bytes of a token, times the tokens of a block, times
    /// the blocks.
    pub proof fn pool_bytes_are_block_bytes(self)
        ensures
            self.pool_bytes() == self.num_blocks * (self.block_size * self.token_bytes()),
    {
        let n = self.num_blocks as int;
        let b = self.block_size as int;
        let e = self.entry_len() as int;
        let l = self.num_layers as int;
        let d = self.dtype_bytes as int;
        assert((2 * (l * (n * (b * e)))) * d == n * (b * (2 * l * e * d))) by (nonlinear_arith);
    }

    /// Tokens fill blocks in order: a position is its block times the block
    /// size plus its slot, the first `tokens` positions all lie in the blocks
    /// that `tokens` tokens need, and none of those blocks is without one.
    pub proof fn positions_fill_blocks_in_order(self, position: nat, tokens: nat, block: nat)
        requires
            self.block_size > 0,
            position < tokens,
            block < config::ceil_div(tokens, self.block_size as nat),
        ensures
            position == (position / self.block_size as nat) * self.block_size + position
                % self.block_size as nat,
            position % (self.block_size as nat) < self.block_size,
            position / (self.block_size as nat) < config::ceil_div(tokens, self.block_size as nat),
            block * self.block_size < tokens,
    {
        let b = self.block_size as nat;
        let m = config::ceil_div(tokens, b);
        let q = position / b;
        config::lemma_ceil_div(tokens, b);
        vstd::arithmetic::div_mod::lemma_fundamental_div_mod(position as int, b as int);
        assert(q * b == b * q) by (nonlinear_arith);
        assert(q < m) by (nonlinear_arith)
            requires
                q * b <= position,
                position < tokens,
                m * b >= tokens,
                b > 0,
        ;
        assert(block * b <= m * b - b) by (nonlinear_arith)
            requires
                block < m,
                b > 0,
        ;
    }
}

impl Pool {
    /// Freeing a block that was just allocated undoes the allocation; only the
    /// count of allocations remembers it.
    pub proof fn freeing_undoes_allocating(self)
        requires
            self.wf(),
            self.free.len() > 0,
        ensures
            self.take_one().decref_error(self.free.last()) is None,
            self.take_one().decref(self.free.last()) == (Pool { total: self.total + 1, ..self }),
    {
        self.lemma_take_one_wf();
        let p = self.take_one().decref(self.free.last());
        assert(p.free =~= self.free);
        assert(p.counts =~= self.counts);
    }

    /// Dropping an owner that was just added undoes adding it.
    pub proof fn dropping_undoes_adding_an_owner(self, id: BlockId)
        requires
            self.wf(),
            self.incref_error(id) is None,
        ensures
            self.incref(id).decref_error(id) is None,
            self.incref(id).decref(id) == self,
    {
        assert(self.incref(id).decref(id).counts =~= self.counts);
    }

    /// The free list is last in, first out: the block whose last owner leaves
    /// is the next one handed out.
    pub proof fn freed_block_is_reused_first(self, id: BlockId)
        requires
            self.wf(),
            self.has(id),
            self.count(id) == 1,
        ensures
            self.decref(id).free.len() > 0,
            self.decref(id).popped(1)[0] == id,
    {
    }

    /// A double free is an error, and so is adding an owner to a free block.
    pub proof fn free_block_cannot_be_freed_or_shared(self, id: BlockId)
        requires
            self.wf(),
            self.has(id),
            self.count(id) == 1,
        ensures
            self.decref(id).decref_error(id) == Some(CacheError::BlockNotAllocated { id }),
            self.decref(id).incref_error(id) == Some(CacheError::BlockNotAllocated { id }),
    {
    }

    /// A shared block survives one owner leaving: it stays out of the free list
    /// and keeps its other owners.
    pub proof fn shared_block_survives_one_owner(self, id: BlockId)
        requires
            self.wf(),
            self.has(id),
            self.count(id) > 1,
        ensures
            self.decref_error(id) is None,
            self.decref(id).free == self.free,
            self.decref(id).count(id) == self.count(id) - 1,
    {
    }

    /// Blocks allocated together are distinct, were free, and have one owner
    /// each; every other block keeps its owners.
    pub proof fn allocated_blocks_are_private(self, k: nat)
        requires
            self.wf(),
            k <= self.free.len(),
        ensures
            self.popped(k).no_duplicates(),
            forall|i: int|
                0 <= i < k ==> self.has(#[trigger] self.popped(k)[i]) && self.count(
                    self.popped(k)[i],
                ) == 0 && self.take(k).count(self.popped(k)[i]) == 1,
            forall|b: BlockId|
                self.has(b) && !self.popped(k).contains(b) ==> #[trigger] self.take(k).count(b)
                    == self.count(b),
    {
        self.lemma_take(k);
        assert forall|i: int| 0 <= i < k implies self.has(#[trigger] self.popped(k)[i])
            && self.count(self.popped(k)[i]) == 0 && self.take(k).count(self.popped(k)[i])
            == 1 by {
            let b = self.popped(k)[i];
            assert(b == self.free[self.free.len() - 1 - i]);
            assert(self.has(b) && self.count(b) == 0);
            assert(self.popped(k).contains(b));
        }
    }

    /// Blocks with other owners do not become free.
    proof fn lemma_shared_stay(self, ids: Seq<BlockId>)
        requires
            self.wf(),
            ids.no_duplicates(),
            forall|x: int|
                0 <= x < ids.len() ==> self.has(#[trigger] ids[x]) && self.count(ids[x]) >= 2,
        ensures
            self.decref_each(ids).0.free == self.free,
        decreases ids.len(),
    {
        if ids.len() > 0 {
            let front = ids.drop_last();
            assert forall|x: int| 0 <= x < front.len() implies self.has(#[trigger] front[x])
                && self.count(front[x]) >= 2 by {
                assert(ids[x] == front[x]);
            }
            self.lemma_shared_stay(front);
            self.lemma_release(front);
            let last = ids[ids.len() - 1];
            assert(!front.contains(last)) by {
                if front.contains(last) {
                    let x = choose|x: int| 0 <= x < front.len() && front[x] == last;
                    assert(ids[x] == last);
                }
            }
            assert(self.decref_each(front).0.count(last) == self.count(last));
        }
    }

    /// Sharing blocks and letting go of them again leaves the pool as it was:
    /// a fork that is freed costs nothing.
    pub proof fn freeing_a_fork_restores_the_pool(self, ids: Seq<BlockId>)
        requires
            self.wf(),
            ids.no_duplicates(),
            forall|x: int|
                0 <= x < ids.len() ==> self.has(#[trigger] ids[x]) && 1 <= self.count(ids[x])
                    < MAX_REFCOUNT,
        ensures
            self.incref_each(ids).1 is None,
            self.incref_each(ids).0.free == self.free,
            self.incref_each(ids).0.decref_each(ids) == (self, None::<CacheError>),
    {
        self.lemma_acquire(ids);
        let p = self.incref_each(ids).0;
        assert forall|x: int| 0 <= x < ids.len() implies p.has(#[trigger] ids[x]) && p.count(ids[x])
            >= 2 by {
            assert(ids.contains(ids[x]));
            assert(p.count(ids[x]) == self.count(ids[x]) + 1);
        }
        p.lemma_release(ids);
        p.lemma_shared_stay(ids);
        let q = p.decref_each(ids).0;
        assert forall|i: int| 0 <= i < self.counts.len() implies #[trigger] q.counts[i]
            == self.counts[i] by {
            let b = BlockId(i as u32);
            assert(p.count(b) == self.count(b) + if ids.contains(b) {
                1nat
            } else {
                0nat
            });
            assert(q.count(b) == q.counts[i]);
        }
        assert(q =~= self);
    }

    /// Blocks with a single owner all return to the free list when it leaves,
    /// in order.
    pub proof fn freeing_returns_every_block(self, ids: Seq<BlockId>)
        requires
            self.wf(),
            ids.no_duplicates(),
            forall|x: int|
                0 <= x < ids.len() ==> self.has(#[trigger] ids[x]) && self.count(ids[x]) == 1,
        ensures
            self.decref_each(ids).1 is None,
            self.decref_each(ids).0.free == self.free + ids,
        decreases ids.len(),
    {
        self.lemma_release(ids);
        if ids.len() > 0 {
            let front = ids.drop_last();
            assert forall|x: int| 0 <= x < front.len() implies self.has(#[trigger] front[x])
                && self.count(front[x]) == 1 by {
                assert(ids[x] == front[x]);
            }
            self.freeing_returns_every_block(front);
            self.lemma_release(front);
            let last = ids[ids.len() - 1];
            assert(!front.contains(last)) by {
                if front.contains(last) {
                    let x = choose|x: int| 0 <= x < front.len() && front[x] == last;
                    assert(ids[x] == last);
                }
            }
            assert(self.decref_each(front).0.count(last) == self.count(last));
            assert((self.free + front).push(last) =~= self.free + ids);
        } else {
            assert(self.free + ids =~= self.free);
        }
    }
}

impl Table {
    /// The table and the pool after `n` appends of one token each.
    pub open spec fn one_by_one(self, p: Pool, n: nat) -> (Table, Pool)
        decreases n,
    {
        if n == 0 {
            (self, p)
        } else {
            let (t, q) = self.one_by_one(p, (n - 1) as nat);
            (t.grown(q, 1), t.pool_after(q, 1))
        }
    }

    /// Placing `n` tokens at once is placing them one by one.
    pub proof fn many_appends_are_one(self, p: Pool, n: nat)
        requires
            self.wf(),
            p.wf(),
            self.block_size > 0,
            self.append_error(p, n) is None,
        ensures
            self.one_by_one(p, n) == (self.grown(p, n), self.pool_after(p, n)),
        decreases n,
    {
        if n == 0 {
            assert(self.grown(p, 0) =~= self);
        } else {
            let k = (n - 1) as nat;
            if self.append_error(p, k) is Some {
                self.lemma_error_persists(p, k, n);
            }
            self.many_appends_are_one(p, k);
            self.lemma_one_more(p, k);
        }
    }

    /// A failed attempt to place tokens is all or nothing: every block has the
    /// owners it had, and the free blocks are the same, in another order.
    pub proof fn failed_append_gives_everything_back(self, p: Pool, n: nat)
        requires
            p.wf(),
            self.append_error(p, n) is Some,
        ensures
            self.pool_rolled_back(p, n).counts == p.counts,
            self.pool_rolled_back(p, n).free.to_multiset() == p.free.to_multiset(),
            self.pool_rolled_back(p, n).wf(),
    {
        p.lemma_unwound_end();
        p.free.lemma_reverse_to_multiset();
    }

    /// Every token has an address inside one of the table's blocks.
    pub proof fn tokens_have_addresses(self, position: nat)
        requires
            self.wf(),
            position < self.tokens,
        ensures
            0 <= position as int / self.block_size as int,
            position as int / (self.block_size as int) < self.blocks.len(),
            self.blocks.contains(self.slot_at(position).block),
            self.block_size <= usize::MAX ==> self.slot_at(position).slot < self.block_size,
    {
        let b = self.block_size as int;
        let n = self.blocks.len() as int;
        if b == 0 {
            assert(n * 0 == 0);
        }
        let q = position as int / b;
        assert(0 <= q < n && 0 <= position as int % b < b) by (nonlinear_arith)
            requires
                0 <= position < n * b,
                b > 0,
                q == position as int / b,
        ;
        assert(self.blocks[q] == self.slot_at(position).block);
    }

    /// No two tokens of a sequence share an address.
    pub proof fn addresses_are_distinct(self, i: nat, j: nat)
        requires
            self.wf(),
            self.block_size <= usize::MAX,
            self.blocks.no_duplicates(),
            i < self.tokens,
            j < self.tokens,
            i != j,
        ensures
            self.slot_at(i) != self.slot_at(j),
    {
        self.tokens_have_addresses(i);
        self.tokens_have_addresses(j);
        let b = self.block_size as int;
        if b == 0 {
            assert(self.blocks.len() * 0 == 0);
        }
        if self.slot_at(i) == self.slot_at(j) {
            let q = i as int / b;
            let r = j as int / b;
            assert(self.blocks[q] == self.blocks[r]);
            assert(i as int % b < b && j as int % b < b);
            assert(i % self.block_size == i as int % b);
            assert(j % self.block_size == j as int % b);
            vstd::arithmetic::div_mod::lemma_fundamental_div_mod(i as int, b);
            vstd::arithmetic::div_mod::lemma_fundamental_div_mod(j as int, b);
        }
    }

    /// Tokens already written keep their address, except for those of a shared
    /// last block that is replaced: these keep their slot in the new block,
    /// which is the destination of the copy that the append reports.
    pub proof fn written_tokens_stay(self, p: Pool, n: nat, position: nat)
        requires
            self.wf(),
            position < self.tokens,
        ensures
            ({
                let before = self.slot_at(position);
                let after = self.grown(p, n).slot_at(position);
                let tail = position as int / self.block_size as int == self.blocks.len() - 1;
                &&& after.slot == before.slot
                &&& if n > 0 && self.needs_copy(p) && tail {
                    &&& self.copies(p, n).len() == 1
                    &&& before.block == self.copies(p, n)[0].src
                    &&& after.block == self.copies(p, n)[0].dst
                } else {
                    after.block == before.block
                }
            }),
    {
        self.tokens_have_addresses(position);
    }

    /// A token is only ever written into a block that no one else owns.
    pub proof fn written_blocks_are_private(self, p: Pool, n: nat, i: nat)
        requires
            self.wf(),
            p.wf(),
            self.block_size > 0,
            self.append_error(p, n) is None,
            self.has_room() ==> p.count(self.blocks.last()) >= 1,
            i < n,
        ensures
            self.pool_after(p, n).count(self.slots(p, n)[i as int].block) == 1,
    {
        let t = self.grown(p, n);
        let q = self.pool_after(p, n);
        let b = self.block_size as int;
        let k = self.needed(p, n);
        let taken = p.popped(k);
        let at = (self.tokens + i) as int / b;
        self.lemma_grown_wf(p, n);
        self.lemma_pool_after(p, n);
        self.lemma_room();
        t.tokens_have_addresses(self.tokens + i);
        let block = t.blocks[at];
        assert(self.slots(p, n)[i as int].block == block);
        assert(at >= self.tokens as int / b) by (nonlinear_arith)
            requires
                at == (self.tokens + i) as int / b,
                i >= 0,
                b > 0,
        ;
        p.allocated_blocks_are_private(k);
        let m = self.blocks.len() as int;
        if self.needs_copy(p) {
            assert(block == taken[at - (m - 1)]);
            assert(taken.contains(block));
        } else if at >= m {
            assert(block == taken[at - m]);
            assert(taken.contains(block));
        } else {
            assert(self.has_room());
            assert(block == self.blocks.last());
            assert(!taken.contains(block)) by {
                if taken.contains(block) {
                    let x = choose|x: int| 0 <= x < taken.len() && taken[x] == block;
                    assert(p.count(taken[x]) == 0);
                }
            }
            assert(q.count(block) == p.count(block));
        }
    }

    /// Copy-on-write touches the last block only: every earlier block stays in
    /// its place and keeps its owners, shared or not.
    pub proof fn earlier_blocks_stay_shared(self, p: Pool, n: nat, x: int)
        requires
            self.wf(),
            p.wf(),
            self.append_error(p, n) is None,
            self.blocks.no_duplicates(),
            0 <= x < self.blocks.len() - 1,
            p.has(self.blocks[x]),
            p.count(self.blocks[x]) >= 1,
        ensures
            self.grown(p, n).blocks[x] == self.blocks[x],
            self.pool_after(p, n).count(self.blocks[x]) == p.count(self.blocks[x]),
    {
        let k = self.needed(p, n);
        let block = self.blocks[x];
        self.lemma_pool_after(p, n);
        p.allocated_blocks_are_private(k);
        assert(!p.popped(k).contains(block)) by {
            if p.popped(k).contains(block) {
                let y = choose|y: int| 0 <= y < k && p.popped(k)[y] == block;
                assert(p.count(p.popped(k)[y]) == 0);
            }
        }
        assert(block != self.blocks[self.blocks.len() - 1]);
        assert(self.pool_after(p, n).count(block) == p.count(block));
    }

    /// A sequence takes no more blocks than its tokens need.
    pub proof fn no_block_is_spare(self)
        requires
            self.wf(),
            self.block_size > 0,
        ensures
            self.blocks.len() == config::ceil_div(self.tokens, self.block_size),
    {
        self.lemma_room();
    }

    /// At most one copy is owed however many tokens are placed, and a sole
    /// owner owes none.
    pub proof fn sole_owner_owes_no_copy(self, p: Pool, n: nat)
        requires
            self.has_room() ==> p.count(self.blocks.last()) <= 1,
        ensures
            self.copies(p, n).len() == 0,
            self.copy_owed(p) is None,
    {
    }
}

impl Schedule {
    /// A request that is accepted and writes at least one token fits in the
    /// pool alone, so it will be finished.
    pub proof fn accepted_request_fits(self, id: SeqId, prompt_len: nat, max_new: nat)
        requires
            self.fits(),
            self.request_error(prompt_len, max_new) is None,
            max_new > 0 || prompt_len < self.capacity(),
        ensures
            self.with_request(id, prompt_len, max_new).fits(),
            self.with_request(id, prompt_len, max_new).line() == self.line().push(id),
    {
        let s = self.with_request(id, prompt_len, max_new);
        let w = Pending { id, context_len: prompt_len, max_new };
        assert(s.jobs() =~= self.jobs().push(w.job()));
        assert(s.line() =~= self.line().push(id));
        assert forall|i: int| 0 <= i < s.jobs().len() implies (#[trigger] s.jobs()[i]).tokens
            + s.jobs()[i].left <= s.capacity() by {
            if i < self.jobs().len() {
                assert(self.jobs()[i].tokens + self.jobs()[i].left <= self.capacity());
            }
        }
    }

    /// Forking copies nothing and takes no block: the child has the parent's
    /// table, and only owner counts change.
    pub proof fn fork_shares_everything(self, parent: SeqId, child: SeqId, max_new: nat)
        requires
            self.wf(),
            self.fork_error(parent) is None,
        ensures
            ({
                let s = self.with_fork(parent, child, max_new);
                let i = self.position(parent).unwrap();
                let blocks = self.running[i].table.blocks;
                &&& s.wf()
                &&& s.running.last().table == self.running[i].table
                &&& s.running.drop_last() == self.running
                &&& s.waiting == self.waiting
                &&& s.pool.num_blocks == self.pool.num_blocks
                &&& s.pool.free == self.pool.free
                &&& s.pool.total == self.pool.total
                &&& forall|b: BlockId|
                    self.pool.has(b) ==> #[trigger] s.pool.count(b) == self.pool.count(b)
                        + if blocks.contains(b) {
                        1nat
                    } else {
                        0nat
                    }
            }),
    {
        self.lemma_found(parent);
        let i = self.position(parent).unwrap();
        let blocks = self.running[i].table.blocks;
        let s = self.with_fork(parent, child, max_new);
        self.lemma_fork_blocks(i);
        self.lemma_table_blocks(i);
        self.pool.lemma_acquire(blocks);
        let r = Running { id: child, table: self.running[i].table, max_new, generated: 0 };
        self.lemma_fork_sound(i, r);
        assert(s.running.drop_last() =~= self.running);
        assert forall|j: int| 0 <= j < s.running.len() implies (
        #[trigger] s.running[j]).generated == 0 || !s.running[j].done() by {
            if j < self.running.len() {
                assert(s.running[j] == self.running[j]);
            }
        }
    }

    /// A fork for no more than the parent still has to write fits in the pool
    /// alone if the parent does.
    pub proof fn fork_fits_if_its_parent_does(self, parent: SeqId, child: SeqId, max_new: nat)
        requires
            self.wf(),
            self.fits(),
            self.fork_error(parent) is None,
            0 < max_new <= self.running[self.position(parent).unwrap()].left(),
        ensures
            self.with_fork(parent, child, max_new).fits(),
    {
        self.lemma_found(parent);
        self.fork_shares_everything(parent, child, max_new);
        let s = self.with_fork(parent, child, max_new);
        let p = self.position(parent).unwrap();
        let n = self.running.len() as int;
        assert(s.capacity() == self.capacity());
        assert(self.jobs()[p] == self.running[p].job());
        assert forall|i: int| 0 <= i < s.jobs().len() implies (#[trigger] s.jobs()[i]).tokens
            + s.jobs()[i].left <= s.capacity() by {
            if i < n {
                assert(s.jobs()[i] == self.jobs()[i]);
            } else if i > n {
                assert(s.jobs()[i] == self.jobs()[i - 1]);
            } else {
                assert(s.jobs()[i].tokens == self.jobs()[p].tokens);
            }
        }
    }

    /// Sequences never write over each other: once a sequence has written a
    /// token, no other sequence holds the block it was written to.
    pub proof fn no_write_reaches_another_sequence(self, i: int, j: int)
        requires
            self.sound(),
            self.block_size > 0,
            0 <= i < self.running.len(),
            0 <= j < self.running.len(),
            i != j,
            self.can_write(i),
        ensures
            self.write_token(i).running[j] == self.running[j],
            !self.running[j].table.blocks.contains(self.token(i).slot.block),
    {
        let t = self.running[i].table;
        let s = self.write_token(i);
        let b = self.token(i).slot.block;
        self.lemma_table_blocks(i);
        self.lemma_write_sound(i);
        if t.has_room() {
            t.lemma_room();
            assert(self.pool.has(t.blocks[t.blocks.len() - 1]));
        }
        t.lemma_grown_wf(self.pool, 1);
        t.written_blocks_are_private(self.pool, 1, 0);
        assert(b == t.slots(self.pool, 1)[0].block);
        t.grown(self.pool, 1).tokens_have_addresses(t.tokens);
        assert(s.running[i].table.blocks.contains(b));
        if self.running[j].table.blocks.contains(b) {
            let x = choose|x: int|
                0 <= x < s.running[j].table.blocks.len() && s.running[j].table.blocks[x] == b;
            assert(s.pool.has(s.running[j].table.blocks[x]));
            assert(s.pool.count(b) == crate::schedule::owners(s.running, b));
            soundness::lemma_two_owners(s.running, i, j, b);
        }
    }

    /// A preempted sequence loses its blocks but not its work: it waits at the
    /// head of the queue with the context it had, everyone keeps their place,
    /// and the schedule stays sound.
    pub proof fn preempted_sequence_keeps_its_place(self)
        requires
            self.wf(),
            self.running.len() > 0,
        ensures
            ({
                let r = self.running.last();
                let s = self.preempt(self.running.len() - 1);
                &&& s.sound()
                &&& s.waiting[0].id == r.id
                &&& s.waiting[0].context_len == r.table.tokens
                &&& s.waiting[0].max_new + r.generated == r.max_new
                &&& s.waiting.skip(1) == self.waiting
                &&& s.line() == self.line()
                &&& s.jobs() == self.jobs()
            }),
    {
        let v = self.running.len() - 1;
        let s = self.preempt(v);
        assert(self.running[v] == self.running.last());
        self.lemma_preempt_sound(v);
        self.lemma_preempt_line();
        self.lemma_preempt_jobs();
        assert(s.waiting.skip(1) =~= self.waiting);
    }

    /// A step keeps a scheduler ready for the next, as long as the allocation
    /// counter has room for both.
    pub proof fn step_keeps_ready(self)
        requires
            self.wf(),
            self.ready(),
            self.pool.total + 2 * (self.pool.num_blocks + self.running.len() + self.waiting.len())
                <= u64::MAX,
        ensures
            self.step().0.ready(),
            self.step().0.pool.total <= self.pool.total + self.pool.num_blocks + self.running.len()
                + self.waiting.len(),
    {
        let (s1, admitted) = self.admission();
        let o = Outcome { admitted, ..Outcome::nothing() };
        self.lemma_ready_is_safe();
        self.lemma_admission();
        self.pool.used_blocks_are_the_owned_ones();
        s1.lemma_decode(o, s1.running_ids());
        let s2 = s1.decode(o, s1.running_ids()).0;
        s2.lemma_retire();
        s2.lemma_retire_line();
        let live = |r: Running| !r.done();
        s2.running.lemma_filter_len(live);
        assert(s2.line().len() == self.line().len());
    }
}

/// The copies to hand to a backend, as pairs of source and destination.
pub open spec fn copy_pairs(copies: Seq<CowCopy>) -> Seq<(BlockId, BlockId)> {
    copies.map_values(|c: CowCopy| (c.src, c.dst))
}

/// Copy-on-write loses nothing: after the copies that an append reports, every
/// token written before reads the same through the new table, and through the
/// table of anyone else.
pub proof fn copy_on_write_loses_nothing<E>(
    store: Store<E>,
    t: Table,
    p: Pool,
    n: nat,
    other: Table,
    layer: int,
    position: nat,
)
    requires
        store.wf(),
        t.wf(),
        other.wf(),
        p.wf(),
        t.append_error(p, n) is None,
        store.config.num_blocks == p.num_blocks,
        store.config.block_size == t.block_size,
        store.config.block_size == other.block_size,
        0 <= layer < store.config.num_layers,
        forall|x: int|
            0 <= x < t.blocks.len() ==> p.has(#[trigger] t.blocks[x]) && p.count(t.blocks[x]) >= 1,
        forall|x: int|
            0 <= x < other.blocks.len() ==> p.has(#[trigger] other.blocks[x]) && p.count(
                other.blocks[x],
            ) >= 1,
    ensures
        store.copy_each(copy_pairs(t.copies(p, n))).1 is None,
        position < t.tokens ==> store.copy_each(copy_pairs(t.copies(p, n))).0.entry(
            layer,
            t.grown(p, n).slot_at(position),
        ) == store.entry(layer, t.slot_at(position)),
        position < other.tokens ==> store.copy_each(copy_pairs(t.copies(p, n))).0.entry(
            layer,
            other.slot_at(position),
        ) == store.entry(layer, other.slot_at(position)),
{
    let pairs = copy_pairs(t.copies(p, n));
    let after = store.copy_each(pairs).0;
    if position < t.tokens {
        t.tokens_have_addresses(position);
        t.written_tokens_stay(p, n, position);
        let q = position as int / t.block_size as int;
        assert(p.has(t.blocks[q]) && p.count(t.blocks[q]) >= 1);
    }
    if position < other.tokens {
        other.tokens_have_addresses(position);
        let q = position as int / other.block_size as int;
        assert(p.has(other.blocks[q]) && p.count(other.blocks[q]) >= 1);
    }
    if n > 0 && t.needs_copy(p) {
        let src = t.blocks.last();
        let dst = p.free.last();
        assert(p.has(t.blocks[t.blocks.len() - 1]));
        assert(p.free.len() > 0);
        assert(p.has(p.free[p.free.len() - 1]) && p.count(p.free[p.free.len() - 1]) == 0);
        assert(pairs =~= seq![(src, dst)]);
        assert(pairs.drop_last() =~= Seq::empty());
        assert(pairs.last() == (src, dst));
        assert(store.copy_each(pairs.drop_last()) == (store, None::<CacheError>));
        assert(after == store.copied(src, dst));
        if position < t.tokens {
            let at = t.slot_at(position);
            store.copy_duplicates_a_block(src, dst, layer, at);
            store.copy_duplicates_a_block(src, dst, layer, t.grown(p, n).slot_at(position));
        }
        if position < other.tokens {
            store.copy_duplicates_a_block(src, dst, layer, other.slot_at(position));
        }
    } else {
        assert(pairs =~= Seq::empty());
    }
}

} // verus!
