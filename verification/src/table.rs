//! A block table as a mathematical value, and how it grows over a pool.

use vstd::prelude::*;

use crate::block_table::CowCopy;
use crate::config;
use crate::error::CacheError;
use crate::pool::Pool;
use crate::types::{BlockId, PhysicalSlot};

verus! {

/// One sequence's map from logical token positions to physical blocks.
#[verifier::ext_equal]
pub struct Table {
    /// Physical block of each logical block, in order.
    pub blocks: Seq<BlockId>,
    /// Tokens written so far.
    pub tokens: nat,
    /// Tokens per block.
    pub block_size: nat,
}

impl Table {
    /// A table without tokens.
    pub open spec fn empty(block_size: nat) -> Table {
        Table { blocks: Seq::empty(), tokens: 0, block_size }
    }

    /// The blocks hold all tokens, and every block holds at least one.
    pub open spec fn wf(self) -> bool {
        &&& self.tokens <= self.blocks.len() * self.block_size
        &&& self.blocks.len() > 0 ==> (self.blocks.len() - 1) * self.block_size < self.tokens
    }

    /// The last block has a slot that no token uses.
    pub open spec fn has_room(self) -> bool {
        self.tokens < self.blocks.len() * self.block_size
    }

    /// Where the token at `position` lives.
    pub open spec fn slot_at(self, position: nat) -> PhysicalSlot {
        PhysicalSlot {
            block: self.blocks[position as int / self.block_size as int],
            slot: (position % self.block_size) as usize,
        }
    }

    /// The next token lands in a block that other owners still use.
    pub open spec fn needs_copy(self, p: Pool) -> bool {
        self.has_room() && p.count(self.blocks.last()) > 1
    }

    /// Logical blocks that `n` more tokens add.
    pub open spec fn growth(self, n: nat) -> nat {
        if self.block_size == 0 {
            n
        } else {
            (config::ceil_div(self.tokens + n, self.block_size) - self.blocks.len()) as nat
        }
    }

    /// Physical blocks that `n` more tokens take from the pool: the added ones,
    /// and one to replace a shared last block that has room.
    pub open spec fn needed(self, p: Pool, n: nat) -> nat {
        if n == 0 {
            0
        } else if self.needs_copy(p) {
            self.growth(n) + 1
        } else {
            self.growth(n)
        }
    }

    /// Why `n` more tokens cannot be placed, if they cannot.
    pub open spec fn append_error(self, p: Pool, n: nat) -> Option<CacheError> {
        if n == 0 {
            None
        } else if self.has_room() && !p.has(self.blocks.last()) {
            Some(
                CacheError::InvalidBlock {
                    id: self.blocks.last(),
                    num_blocks: p.num_blocks as usize,
                },
            )
        } else if self.needed(p, n) > p.free.len() {
            Some(CacheError::OutOfBlocks { requested: 1, available: 0 })
        } else {
            None
        }
    }

    /// The table after `n` more tokens: a shared last block with room is
    /// replaced by the first block taken, the others are added at the end.
    pub open spec fn grown(self, p: Pool, n: nat) -> Table {
        let taken = p.popped(self.needed(p, n));
        let blocks = if n > 0 && self.needs_copy(p) {
            self.blocks.drop_last() + taken
        } else {
            self.blocks + taken
        };
        Table { blocks, tokens: self.tokens + n, block_size: self.block_size }
    }

    /// The pool after `n` more tokens: a shared last block loses this owner,
    /// and the needed blocks are taken.
    pub open spec fn pool_after(self, p: Pool, n: nat) -> Pool {
        if n > 0 && self.needs_copy(p) {
            p.decref(self.blocks.last()).take(self.needed(p, n))
        } else {
            p.take(self.needed(p, n))
        }
    }

    /// The addresses of the next `n` tokens.
    pub open spec fn slots(self, p: Pool, n: nat) -> Seq<PhysicalSlot> {
        Seq::new(n, |i: int| self.grown(p, n).slot_at((self.tokens + i) as nat))
    }

    /// The copy that the next token owes, if any: from the shared last block to
    /// the block that takes its place.
    pub open spec fn copy_owed(self, p: Pool) -> Option<CowCopy> {
        if self.needs_copy(p) {
            Some(CowCopy { src: self.blocks.last(), dst: p.free.last() })
        } else {
            None
        }
    }

    /// The copies that the next `n` tokens owe: at most one, for the first.
    pub open spec fn copies(self, p: Pool, n: nat) -> Seq<CowCopy> {
        if n > 0 && self.needs_copy(p) {
            seq![self.copy_owed(p).unwrap()]
        } else {
            Seq::empty()
        }
    }

    /// Blocks handed out while trying to place `n` tokens.
    pub open spec fn allocations(self, p: Pool, n: nat) -> nat {
        match self.append_error(p, n) {
            None => self.needed(p, n),
            Some(CacheError::OutOfBlocks { .. }) => p.free.len(),
            Some(_) => 0,
        }
    }

    /// The pool after a failed attempt to place `n` tokens: every block that
    /// was handed out on the way is back, in the order it was taken.
    pub open spec fn pool_rolled_back(self, p: Pool, n: nat) -> Pool {
        match self.append_error(p, n) {
            Some(CacheError::OutOfBlocks { .. }) => p.churned(),
            _ => p,
        }
    }
}

impl Pool {
    /// The pool after every free block was handed out and given back in the
    /// same order.
    pub open spec fn churned(self) -> Pool {
        Pool { free: self.free.reverse(), total: self.total + self.free.len(), ..self }
    }

    /// The pool after every free block was handed out and the first `j` of them
    /// given back in the same order.
    pub open spec fn unwound(self, j: nat) -> Pool {
        let n = self.free.len();
        Pool {
            num_blocks: self.num_blocks,
            free: self.popped(n).take(j as int),
            counts: Seq::new(
                self.counts.len(),
                |i: int|
                    if self.popped(n).skip(j as int).contains(BlockId(i as u32)) {
                        1
                    } else {
                        self.counts[i]
                    },
            ),
            total: self.total + n,
        }
    }

    /// Handing out every free block leaves the pool before any is given back.
    pub proof fn lemma_unwound_start(self)
        requires
            self.wf(),
        ensures
            self.take(self.free.len()) == self.unwound(0),
    {
        let n = self.free.len();
        self.lemma_take(n);
        let a = self.take(n);
        let u = self.unwound(0);
        assert(self.popped(n).skip(0) =~= self.popped(n));
        assert forall|i: int| 0 <= i < a.counts.len() implies #[trigger] a.counts[i]
            == u.counts[i] by {
            assert(a.count(BlockId(i as u32)) == a.counts[i]);
        }
        assert(a =~= u);
    }

    /// Giving back the next block.
    pub proof fn lemma_unwound_step(self, j: nat)
        requires
            self.wf(),
            j < self.free.len(),
        ensures
            self.unwound(j).decref_error(self.popped(self.free.len())[j as int]) is None,
            self.unwound(j).decref(self.popped(self.free.len())[j as int]) == self.unwound(j + 1),
    {
        let n = self.free.len();
        let all = self.popped(n);
        let id = all[j as int];
        let u = self.unwound(j);
        let v = self.unwound(j + 1);
        assert(self.has(id) && self.count(id) == 0);
        assert(all.skip(j as int)[0] == id);
        assert(u.count(id) == 1);
        let rest = all.skip(j as int);
        let next = all.skip(j + 1int);
        assert forall|i: int| 0 <= i < v.counts.len() implies #[trigger] u.decref(id).counts[i]
            == v.counts[i] by {
            let b = BlockId(i as u32);
            if b == id {
                if next.contains(b) {
                    let k = choose|k: int| 0 <= k < next.len() && next[k] == b;
                    assert(all[j + 1 + k] == b);
                }
            } else {
                if rest.contains(b) {
                    let k = choose|k: int| 0 <= k < rest.len() && rest[k] == b;
                    assert(next[k - 1] == b);
                }
                if next.contains(b) {
                    let k = choose|k: int| 0 <= k < next.len() && next[k] == b;
                    assert(rest[k + 1] == b);
                }
            }
        }
        assert(all.take(j as int).push(id) =~= all.take(j + 1int));
        assert(u.decref(id) =~= v);
    }

    /// With every block given back, only the order and the total differ.
    pub proof fn lemma_unwound_end(self)
        requires
            self.wf(),
        ensures
            self.unwound(self.free.len()) == self.churned(),
            self.churned().wf(),
    {
        let n = self.free.len();
        let c = self.churned();
        assert(self.popped(n).skip(n as int) =~= Seq::empty());
        assert(self.popped(n).take(n as int) =~= self.free.reverse());
        assert(self.unwound(n) =~= c);
        assert forall|i: int| 0 <= i < c.free.len() implies c.has(#[trigger] c.free[i]) && c.count(
            c.free[i],
        ) == 0 by {
            assert(c.free[i] == self.free[n - 1 - i]);
            assert(self.has(self.free[n - 1 - i]) && self.count(self.free[n - 1 - i]) == 0);
        }
        assert forall|id: BlockId| c.has(id) && #[trigger] c.count(id) == 0 implies c.free.contains(
            id,
        ) by {
            assert(self.count(id) == 0);
            let k = choose|k: int| 0 <= k < n && self.free[k] == id;
            assert(c.free[n - 1 - k] == id);
        }
    }
}

/// Facts about growing tables.
impl Table {
    /// Whether there is room shows in the remainder.
    pub proof fn lemma_room(self)
        requires
            self.wf(),
            self.block_size > 0,
        ensures
            self.has_room() <==> self.blocks.len() > 0 && self.tokens % self.block_size != 0,
            self.blocks.len() == config::ceil_div(self.tokens, self.block_size),
            self.has_room() ==> self.tokens as int / self.block_size as int == self.blocks.len()
                - 1,
            !self.has_room() ==> self.tokens as int / self.block_size as int == self.blocks.len(),
    {
        let n = self.blocks.len() as int;
        let b = self.block_size as int;
        let t = self.tokens as int;
        if n > 0 {
            assert((n - 1) * b == n * b - b) by (nonlinear_arith);
        } else {
            assert(n * b == 0) by (nonlinear_arith)
                requires
                    n == 0,
            ;
        }
        config::lemma_ceil_div_unique(self.tokens, self.block_size, self.blocks.len());
        if t < n * b {
            vstd::arithmetic::div_mod::lemma_fundamental_div_mod_converse(
                t,
                b,
                n - 1,
                t - (n - 1) * b,
            );
        } else {
            vstd::arithmetic::div_mod::lemma_fundamental_div_mod_converse(t, b, n, 0);
        }
    }

    /// One token more adds a block exactly when there is no room.
    pub proof fn lemma_growth_one(self)
        requires
            self.wf(),
            self.block_size > 0,
        ensures
            self.growth(1) == if self.has_room() {
                0nat
            } else {
                1nat
            },
    {
        let n = self.blocks.len();
        let b = self.block_size;
        if n > 0 {
            assert((n - 1) * b == n * b - b) by (nonlinear_arith);
        } else {
            assert(n * b == 0) by (nonlinear_arith)
                requires
                    n == 0,
            ;
        }
        assert((n + 1) * b == n * b + b) by (nonlinear_arith);
        if self.has_room() {
            config::lemma_ceil_div_unique(self.tokens + 1, b, n);
        } else {
            config::lemma_ceil_div_unique(self.tokens + 1, b, n + 1);
        }
    }

    /// Growth never shrinks the table, and the grown table is well formed.
    pub proof fn lemma_grown_wf(self, p: Pool, n: nat)
        requires
            self.wf(),
            self.block_size > 0,
        ensures
            self.grown(p, n).wf(),
            config::ceil_div(self.tokens + n, self.block_size) >= self.blocks.len(),
            self.grown(p, n).blocks.len() == self.blocks.len() + self.growth(n),
    {
        let b = self.block_size;
        let m = self.blocks.len();
        let q = config::ceil_div(self.tokens + n, b);
        config::lemma_ceil_div(self.tokens + n, b);
        if m > 0 {
            assert(q >= m) by (nonlinear_arith)
                requires
                    q * b >= self.tokens + n,
                    (m - 1) * b < self.tokens,
                    b > 0,
                    n >= 0,
            ;
        }
        self.lemma_room();
        if q > 0 {
            assert((q - 1) * b == q * b - b) by (nonlinear_arith);
        }
    }

    /// The pool after growing satisfies the invariant.
    pub proof fn lemma_pool_after(self, p: Pool, n: nat)
        requires
            self.wf(),
            p.wf(),
            self.append_error(p, n) is None,
        ensures
            self.pool_after(p, n).wf(),
            self.pool_after(p, n).num_blocks == p.num_blocks,
            self.pool_after(p, n).total == p.total + self.needed(p, n),
            self.pool_after(p, n).free == p.free.take(p.free.len() - self.needed(p, n)),
            forall|id: BlockId|
                p.has(id) ==> #[trigger] self.pool_after(p, n).count(id) == if p.popped(
                    self.needed(p, n),
                ).contains(id) {
                    1
                } else if n > 0 && self.needs_copy(p) && id == self.blocks.last() {
                    (p.count(id) - 1) as nat
                } else {
                    p.count(id)
                },
    {
        let k = self.needed(p, n);
        if n > 0 && self.needs_copy(p) {
            let tail = self.blocks.last();
            let q = p.decref(tail);
            p.lemma_decref_wf(tail);
            assert(q.free == p.free);
            q.lemma_take(k);
            assert(q.popped(k) =~= p.popped(k));
        } else {
            p.lemma_take(k);
        }
    }

    /// Placing `n + 1` tokens is placing `n` and then one more.
    pub proof fn lemma_one_more(self, p: Pool, n: nat)
        requires
            self.wf(),
            p.wf(),
            self.block_size > 0,
            self.append_error(p, n) is None,
        ensures
            self.grown(p, n).append_error(self.pool_after(p, n), 1) == self.append_error(p, n + 1),
            self.needed(p, n + 1) == self.needed(p, n) + self.grown(p, n).needed(
                self.pool_after(p, n),
                1,
            ),
            self.append_error(p, n + 1) is None ==> {
                let t = self.grown(p, n);
                let q = self.pool_after(p, n);
                &&& t.grown(q, 1) == self.grown(p, n + 1)
                &&& t.pool_after(q, 1) == self.pool_after(p, n + 1)
                &&& self.slots(p, n + 1) == self.slots(p, n).push(
                    t.grown(q, 1).slot_at(t.tokens),
                )
                &&& self.copies(p, n + 1) == if t.copy_owed(q) is Some {
                    self.copies(p, n).push(t.copy_owed(q).unwrap())
                } else {
                    self.copies(p, n)
                }
            },
            self.append_error(p, n + 1) is Some && n > 0 ==> self.needed(p, n) == p.free.len(),
    {
        let t = self.grown(p, n);
        let q = self.pool_after(p, n);
        if n == 0 {
            assert(t.blocks =~= self.blocks);
            assert(t =~= self);
            assert(q == p);
            assert(self.slots(p, 1) =~= self.slots(p, 0).push(t.grown(q, 1).slot_at(t.tokens)));
            assert(self.copies(p, 1) =~= if t.copy_owed(q) is Some {
                self.copies(p, 0).push(t.copy_owed(q).unwrap())
            } else {
                self.copies(p, 0)
            });
        } else {
            self.lemma_grown_wf(p, n);
            self.lemma_grown_wf(p, n + 1);
            self.lemma_pool_after(p, n);
            t.lemma_growth_one();
            t.lemma_grown_wf(q, 1);
            t.lemma_room();
            let k = self.needed(p, n);
            // The last block of `t` has one owner: it was just taken, or it was
            // not shared to begin with.
            assert(t.has_room() ==> q.has(t.blocks.last()) && q.count(t.blocks.last()) <= 1) by {
                if t.has_room() {
                    if k > 0 {
                        let top = p.popped(k)[k - 1];
                        assert(t.blocks.last() == top);
                        assert(p.popped(k).contains(top));
                        assert(p.has(top));
                        assert(q.count(top) == 1);
                    } else {
                        assert(t.blocks =~= self.blocks);
                        let tail = self.blocks.last();
                        assert(self.growth(n) == 0);
                        assert(self.blocks.len() > 0);
                        self.lemma_room();
                        assert(self.has_room()) by {
                            assert(self.tokens + n <= t.blocks.len() * self.block_size);
                        }
                        assert(p.has(tail));
                        assert(p.popped(0) =~= Seq::empty());
                        assert(q.count(tail) == p.count(tail));
                    }
                }
            }
            assert(!t.needs_copy(q));
            assert(self.growth(n + 1) == self.growth(n) + t.growth(1));
            assert(self.needed(p, n + 1) == k + t.growth(1));
            assert(t.needed(q, 1) == t.growth(1));
            assert(q.free.len() == p.free.len() - k);
            if self.append_error(p, n + 1) is None {
                let g = t.growth(1);
                assert(p.popped(k + g) =~= p.popped(k) + q.popped(g));
                assert(t.grown(q, 1).blocks =~= self.grown(p, n + 1).blocks);
                if g == 1 {
                    assert(q.take(1) == q.take(0).take_one());
                }
                assert(t.pool_after(q, 1) == self.pool_after(p, n + 1));
                self.lemma_slots_step(p, n);
            }
        }
    }

    /// What one step of placing `n` tokens may rely on.
    pub proof fn lemma_step_fits(self, p: Pool, k: nat, n: nat)
        requires
            self.wf(),
            p.wf(),
            k < n,
            self.block_size > 0 || p.free.len() == 0,
            self.append_error(p, k) is None,
        ensures
            self.block_size > 0 || self.pool_after(p, k).free.len() == 0,
            self.pool_after(p, k).total + self.grown(p, k).allocations(self.pool_after(p, k), 1)
                <= p.total + self.allocations(p, n),
            self.grown(p, k).append_error(self.pool_after(p, k), 1) == self.append_error(p, k + 1),
            self.append_error(p, k + 1) is None ==> {
                let t = self.grown(p, k);
                let q = self.pool_after(p, k);
                &&& t.grown(q, 1) == self.grown(p, k + 1)
                &&& t.pool_after(q, 1) == self.pool_after(p, k + 1)
                &&& self.slots(p, k + 1) == self.slots(p, k).push(
                    t.grown(q, 1).slot_at(t.tokens),
                )
                &&& self.copies(p, k + 1) == if t.copy_owed(q) is Some {
                    self.copies(p, k).push(t.copy_owed(q).unwrap())
                } else {
                    self.copies(p, k)
                }
            },
            self.append_error(p, k + 1) is Some && k > 0 ==> self.needed(p, k) == p.free.len(),
            self.append_error(p, 1) is Some && self.append_error(p, 1)->0 is OutOfBlocks
                ==> p.free.len() == 0 && p.churned() == p,
    {
        let t = self.grown(p, k);
        let q = self.pool_after(p, k);
        assert(p.free.len() == 0 ==> p.churned() =~= p);
        if self.block_size == 0 {
            assert(self.blocks.len() * 0 == 0);
            assert(t.blocks =~= self.blocks);
            assert(t =~= self);
        } else {
            self.lemma_growth_one();
            self.lemma_one_more(p, k);
            self.lemma_pool_after(p, k);
            self.lemma_needed_mono(p, k + 1, n);
            if self.append_error(p, k + 1) is Some {
                self.lemma_error_persists(p, k + 1, n);
            }
        }
    }

    /// More tokens need no fewer blocks.
    pub proof fn lemma_needed_mono(self, p: Pool, k: nat, n: nat)
        requires
            self.wf(),
            k <= n,
            self.block_size > 0,
        ensures
            self.needed(p, k) <= self.needed(p, n),
    {
        let b = self.block_size;
        let x = config::ceil_div(self.tokens + k, b);
        let y = config::ceil_div(self.tokens + n, b);
        config::lemma_ceil_div(self.tokens + k, b);
        config::lemma_ceil_div(self.tokens + n, b);
        assert(y * b >= self.tokens + k);
        self.lemma_grown_wf(p, k);
        self.lemma_grown_wf(p, n);
    }

    /// If `k` tokens cannot be placed, neither can more.
    pub proof fn lemma_error_persists(self, p: Pool, k: nat, n: nat)
        requires
            self.wf(),
            p.wf(),
            k <= n,
            self.block_size > 0 || p.free.len() == 0,
            self.append_error(p, k) is Some,
        ensures
            self.append_error(p, n) == self.append_error(p, k),
    {
        if self.block_size > 0 {
            self.lemma_needed_mono(p, k, n);
        } else {
            assert(self.blocks.len() * 0 == 0);
        }
    }

    /// Undoing the replacement of a shared last block, once the pool is empty.
    pub proof fn lemma_unwind_copy(self, p: Pool, k: nat)
        requires
            self.wf(),
            p.wf(),
            k > 0,
            self.needs_copy(p),
            self.append_error(p, k) is None,
            self.needed(p, k) == p.free.len(),
        ensures
            ({
                let q = self.pool_after(p, k);
                let dst = p.free.last();
                let src = self.blocks.last();
                &&& q.decref_error(dst) is None
                &&& q.decref(dst).incref_error(src) is None
                &&& q.decref(dst).incref(src) == p.unwound(1)
            }),
    {
        let q = self.pool_after(p, k);
        let dst = p.free.last();
        let src = self.blocks.last();
        let m = p.free.len();
        let all = p.popped(m);
        self.lemma_pool_after(p, k);
        assert(all[0] == dst);
        assert(all.contains(dst));
        assert(p.has(dst) && p.count(dst) == 0);
        assert(q.count(dst) == 1);
        assert(!all.contains(src)) by {
            if all.contains(src) {
                let i = choose|i: int| 0 <= i < m && all[i] == src;
                assert(p.count(p.free[m - 1 - i]) == 0);
            }
        }
        assert(q.count(src) == p.count(src) - 1);
        p.lemma_unwound_start();
        p.lemma_unwound_step(0);
        p.lemma_take(m);
        let r = q.decref(dst).incref(src);
        let u = p.unwound(1);
        assert forall|i: int| 0 <= i < u.counts.len() implies #[trigger] r.counts[i]
            == u.counts[i] by {
            let b = BlockId(i as u32);
            assert(q.count(b) == q.counts[i]);
            assert(p.take(m).count(b) == p.take(m).counts[i]);
            assert(p.unwound(0).decref(dst).counts[i] == u.counts[i]);
        }
        assert(q.free =~= Seq::empty());
        assert(r.free =~= u.free);
        assert(r =~= u);
    }

    /// Later tokens do not move earlier ones.
    proof fn lemma_slots_step(self, p: Pool, n: nat)
        requires
            self.wf(),
            self.block_size > 0,
            n > 0,
        ensures
            self.slots(p, n + 1) == self.slots(p, n).push(
                self.grown(p, n + 1).slot_at(self.tokens + n),
            ),
    {
        self.lemma_grown_wf(p, n);
        self.lemma_grown_wf(p, n + 1);
        let a = self.grown(p, n);
        let c = self.grown(p, n + 1);
        let b = self.block_size;
        config::lemma_ceil_div(self.tokens + n, b);
        config::lemma_ceil_div(self.tokens + n + 1, b);
        assert(c.blocks.len() >= a.blocks.len()) by (nonlinear_arith)
            requires
                (a.blocks.len() - 1) * b < self.tokens + n,
                c.blocks.len() * b >= self.tokens + n + 1,
                b > 0,
        ;
        assert forall|i: int| 0 <= i < n implies #[trigger] self.slots(p, n + 1)[i] == self.slots(
            p,
            n,
        )[i] by {
            let pos = self.tokens + i;
            let j = pos / b as int;
            assert(0 <= j < a.blocks.len()) by (nonlinear_arith)
                requires
                    j == pos / b as int,
                    0 <= pos < a.blocks.len() * b,
                    b > 0,
            ;
            assert(a.blocks[j] == c.blocks[j]);
        }
        assert(self.slots(p, n + 1) =~= self.slots(p, n).push(c.slot_at(self.tokens + n)));
    }
}

} // verus!
