//! What the operations of the scheduler and of the demo do, in terms of the
//! lists and numbers involved.

use vstd::prelude::*;

use crate::config;
use crate::error::CacheError;
use crate::schedule::{Outcome, Pending, Running, Schedule};
use crate::scheduler::DecodedToken;
use crate::table::Table;
use crate::types::{BlockId, SeqId};

verus! {

/// Requests and forks.
impl Schedule {
    /// A request is accepted exactly if the whole pool could hold all its
    /// tokens. The error names the least number of blocks that would, and the
    /// size of the pool.
    pub proof fn request_is_accepted_exactly_if_the_pool_could_hold_it(
        self,
        prompt_len: usize,
        max_new: usize,
        least: usize,
    )
        requires
            self.pool.num_blocks <= usize::MAX,
        ensures
            ({
                let error = self.request_error(prompt_len as nat, max_new as nat);
                let tokens = prompt_len + max_new;
                &&& error is None <==> tokens <= self.pool.num_blocks * self.block_size
                &&& error is Some && least * self.block_size >= tokens && (least - 1)
                    * self.block_size < tokens ==> error == Some(
                    CacheError::OutOfBlocks {
                        requested: least,
                        available: self.pool.num_blocks as usize,
                    },
                )
                &&& error is Some && self.block_size > 0 && usize::MAX * self.block_size < tokens
                    ==> error == Some(
                    CacheError::OutOfBlocks {
                        requested: usize::MAX,
                        available: self.pool.num_blocks as usize,
                    },
                )
            }),
    {
        let tokens = (prompt_len + max_new) as nat;
        let b = self.block_size;
        if self.request_error(prompt_len as nat, max_new as nat) is Some && b > 0 {
            config::lemma_ceil_div(tokens, b);
            let q = config::ceil_div(tokens, b);
            if least * b >= tokens && (least - 1) * b < tokens {
                assert((least - 1) * b == least * b - b) by (nonlinear_arith);
                config::lemma_ceil_div_unique(tokens, b, least as nat);
            }
            if usize::MAX * b < tokens {
                assert(q >= usize::MAX) by (nonlinear_arith)
                    requires
                        q * b >= tokens,
                        usize::MAX * b < tokens,
                        b > 0,
                ;
            }
        }
        if b == 0 {
            assert(least * b == 0 && (least - 1) * b == 0);
            assert(self.pool.num_blocks * b == 0);
        }
    }

    /// A request joins the end of the queue, with its prompt as context and its
    /// whole budget, and nothing else changes.
    pub proof fn request_joins_the_queue(self, id: SeqId, prompt_len: nat, max_new: nat)
        ensures
            ({
                let s = self.with_request(id, prompt_len, max_new);
                let n = self.waiting.len() as int;
                &&& s.waiting.len() == n + 1
                &&& s.waiting.take(n) == self.waiting
                &&& s.waiting[n].id == id
                &&& s.waiting[n].context_len == prompt_len
                &&& s.waiting[n].max_new == max_new
                &&& s.running == self.running
                &&& s.pool == self.pool
                &&& s.block_size == self.block_size
                &&& s.max_batch == self.max_batch
            }),
    {
        let s = self.with_request(id, prompt_len, max_new);
        assert(s.waiting.take(self.waiting.len() as int) =~= self.waiting);
    }

    /// Forking fails exactly if no running sequence has the id, or a block of
    /// the sequence has as many owners as can be counted, however few blocks
    /// are free.
    pub proof fn fork_fails_exactly_if_unknown_or_uncountable(self, parent: SeqId, i: int)
        requires
            self.wf(),
            0 <= i <= self.running.len(),
            forall|j: int| 0 <= j < i ==> (#[trigger] self.running[j]).id != parent,
            i < self.running.len() ==> self.running[i].id == parent,
        ensures
            i == self.running.len() ==> self.fork_error(parent) == Some(
                CacheError::UnknownSequence { id: parent },
            ),
            i < self.running.len() ==> {
                let blocks = self.running[i].table.blocks;
                &&& self.fork_error(parent) is None <==> forall|x: int|
                    0 <= x < blocks.len() ==> self.pool.counts[(#[trigger] blocks[x]).0 as int]
                        < 65535
                &&& self.fork_error(parent) is Some ==> {
                    &&& blocks.len() > 0
                    &&& self.pool.counts[blocks[0].0 as int] == 65535
                    &&& self.fork_error(parent) == Some(
                        CacheError::RefCountOverflow { id: blocks[0], max: 65535 },
                    )
                }
            },
    {
        self.lemma_found(parent);
        if i < self.running.len() {
            let blocks = self.running[i].table.blocks;
            assert(self.is_first(parent, i));
            self.lemma_position(parent, i);
            self.lemma_table_blocks(i);
            self.lemma_fork_blocks(i);
            assert forall|x: int| 0 <= x < blocks.len() implies self.pool.has(
                #[trigger] blocks[x],
            ) && self.pool.counts[blocks[x].0 as int] == self.pool.count(blocks[x]) by {
                assert(self.pool.has(self.running[i].table.blocks[x]));
            }
            if blocks.len() > 0 {
                self.pool.adding_an_owner(blocks[0]);
            }
        } else if let Some(k) = self.position(parent) {
            assert(self.running[k].id != parent);
        }
    }

    /// The child of a fork runs last, with its parent's tokens in its parent's
    /// blocks, nothing generated and a budget of its own. Each of the blocks has
    /// one owner more, and nothing else changes.
    pub proof fn fork_adds_a_child(
        self,
        parent: SeqId,
        child: SeqId,
        max_new: nat,
        i: int,
    )
        requires
            self.wf(),
            0 <= i < self.running.len(),
            forall|j: int| 0 <= j < i ==> (#[trigger] self.running[j]).id != parent,
            self.running[i].id == parent,
            self.fork_error(parent) is None,
        ensures
            ({
                let s = self.with_fork(parent, child, max_new);
                let n = self.running.len() as int;
                let blocks = self.running[i].table.blocks;
                &&& s.running.len() == n + 1
                &&& s.running.take(n) == self.running
                &&& s.running[n].id == child
                &&& s.running[n].table.blocks == blocks
                &&& s.running[n].table.tokens == self.running[i].table.tokens
                &&& s.running[n].table.block_size == self.running[i].table.block_size
                &&& s.running[n].max_new == max_new
                &&& s.running[n].generated == 0
                &&& s.waiting == self.waiting
                &&& s.block_size == self.block_size
                &&& s.max_batch == self.max_batch
                &&& s.pool.free == self.pool.free
                &&& s.pool.total == self.pool.total
                &&& s.pool.num_blocks == self.pool.num_blocks
                &&& forall|b: BlockId|
                    b.0 < self.pool.num_blocks ==> #[trigger] s.pool.counts[b.0 as int]
                        == self.pool.counts[b.0 as int] + if blocks.contains(b) {
                        1int
                    } else {
                        0int
                    }
            }),
    {
        assert(self.is_first(parent, i));
        self.lemma_position(parent, i);
        self.fork_shares_everything(parent, child, max_new);
        let s = self.with_fork(parent, child, max_new);
        assert(s.running.take(self.running.len() as int) =~= self.running);
        assert forall|b: BlockId|
            b.0 < self.pool.num_blocks implies #[trigger] s.pool.counts[b.0 as int]
            == self.pool.counts[b.0 as int] + if self.running[i].table.blocks.contains(b) {
            1int
        } else {
            0int
        } by {
            assert(self.pool.has(b));
            assert(s.pool.count(b) == s.pool.counts[b.0 as int]);
            assert(self.pool.count(b) == self.pool.counts[b.0 as int]);
        }
    }

    /// A scheduler starts with every block free, nobody running and nobody
    /// waiting; it is idle exactly while nobody runs or waits.
    pub proof fn fresh_scheduler_is_idle(self, num_blocks: nat, block_size: nat, max_batch: nat)
        ensures
            ({
                let s = Schedule::fresh(num_blocks, block_size, max_batch);
                &&& s.pool.num_blocks == num_blocks
                &&& s.pool.free.len() == num_blocks
                &&& s.block_size == block_size
                &&& s.max_batch == max_batch
                &&& s.waiting.len() == 0
                &&& s.running.len() == 0
            }),
            self.idle() <==> self.running.len() + self.waiting.len() == 0,
    {
    }
}

/// Admission.
impl Schedule {
    /// Admission lets in the longest run of requests from the head of the queue
    /// for which there is room in the batch and in the pool. Each gets exactly
    /// the blocks of its context, and starts with nothing generated and its
    /// whole budget.
    pub proof fn admission_takes_as_many_as_fit(self)
        requires
            self.sound(),
            self.block_size > 0,
        ensures
            ({
                let (s, admitted) = self.admission();
                let n = self.running.len() as int;
                let k = admitted.len() as int;
                &&& k <= self.waiting.len()
                &&& forall|j: int| 0 <= j < k ==> #[trigger] admitted[j] == self.waiting[j].id
                &&& s.waiting == self.waiting.skip(k)
                &&& s.running.len() == n + k
                &&& s.running.take(n) == self.running
                &&& forall|j: int|
                    n <= j < n + k ==> started(#[trigger] s.running[j], self.waiting[j - n])
                &&& k > 0 ==> s.running.len() <= self.max_batch
                &&& k < self.waiting.len() && s.running.len() < self.max_batch
                    ==> self.waiting[k].context_len > s.pool.free.len() * self.block_size
            }),
        decreases self.waiting.len(),
    {
        let (s, admitted) = self.admission();
        let n = self.running.len() as int;
        let k = admitted.len() as int;
        if self.may_admit() {
            let w = self.waiting[0];
            let t = Table::empty(self.block_size);
            assert(0 * t.block_size == 0);
            t.tokens_fit_exactly_if_blocks_do(self.pool, w.context_len);
            if self.front_error() is None {
                let a = self.admit_front();
                self.lemma_admit_front_sound();
                a.admission_takes_as_many_as_fit();
                t.lemma_grown_wf(self.pool, w.context_len);
                assert(started(a.running[n], w));
                assert(s.waiting =~= self.waiting.skip(k));
                assert(s.running.take(n) =~= self.running) by {
                    assert forall|j: int| 0 <= j < n implies s.running[j] == self.running[j] by {
                        assert(s.running.take(n + 1)[j] == a.running[j]);
                    }
                }
                assert forall|j: int| n <= j < n + k implies started(
                    #[trigger] s.running[j],
                    self.waiting[j - n],
                ) by {
                    if j == n {
                        assert(s.running.take(n + 1)[n] == a.running[n]);
                    } else {
                        assert(a.waiting[j - (n + 1)] == self.waiting[j - n]);
                    }
                }
                assert forall|j: int| 0 <= j < k implies #[trigger] admitted[j]
                    == self.waiting[j].id by {
                    if j > 0 {
                        assert(admitted[j] == a.admission().1[j - 1]);
                        assert(a.waiting[j - 1] == self.waiting[j]);
                    }
                }
                if k < self.waiting.len() {
                    assert(a.waiting[k - 1] == self.waiting[k]);
                }
            } else {
                assert(s.pool.free.len() == self.pool.free.len());
                assert(s.running.take(n) =~= self.running);
                assert(self.waiting.skip(0) =~= self.waiting);
            }
        } else {
            assert(s.running.take(n) =~= self.running);
            assert(self.waiting.skip(0) =~= self.waiting);
        }
    }
}

impl Schedule {
    /// Admission goes one by one. The first in the queue is let in exactly if
    /// the batch has room for one more and the free blocks hold its context; it
    /// gets the last free blocks in order, and the next has its turn. If the
    /// free blocks do not hold it, all of them were handed out and given back.
    pub proof fn admission_goes_one_by_one(self, x: int)
        requires
            self.sound(),
            self.block_size > 0,
        ensures
            ({
                let (s, admitted) = self.admission();
                let free = self.pool.free;
                let w = self.waiting[0];
                let turn = self.running.len() < self.max_batch && self.waiting.len() > 0;
                &&& !turn ==> s == self && admitted.len() == 0
                &&& turn && w.context_len > free.len() * self.block_size ==> {
                    &&& admitted.len() == 0
                    &&& s.running == self.running
                    &&& s.waiting == self.waiting
                    &&& s.pool.counts == self.pool.counts
                    &&& s.pool.total == self.pool.total + free.len()
                    &&& s.pool.free == free.reverse()
                }
                &&& turn && w.context_len <= free.len() * self.block_size ==> {
                    let a = self.admit_front();
                    let blocks = a.running.last().table.blocks;
                    &&& admitted == seq![w.id] + a.admission().1
                    &&& s == a.admission().0
                    &&& a.waiting == self.waiting.skip(1)
                    &&& a.running.drop_last() == self.running
                    &&& started(a.running.last(), w)
                    &&& blocks.len() <= free.len()
                    &&& 0 <= x < blocks.len() ==> blocks[x] == free[free.len() - 1 - x]
                    &&& a.pool.free == free.take(free.len() - blocks.len())
                    &&& a.pool.total == self.pool.total + blocks.len()
                }
            }),
    {
        if self.may_admit() {
            let t = Table::empty(self.block_size);
            let n = self.waiting[0].context_len;
            assert(0 * t.block_size == 0);
            t.tokens_fit_exactly_if_blocks_do(self.pool, n);
            t.lemma_grown_wf(self.pool, n);
            let a = self.admit_front();
            assert(a.running.drop_last() =~= self.running);
            if self.front_error() is None {
                t.lemma_pool_after(self.pool, n);
                if n > 0 {
                    t.growing_takes_the_last_free_blocks(self.pool, n, x);
                }
            } else {
                assert(self.admission().0.pool.free =~= self.pool.free.reverse());
            }
        }
    }
}

/// The running sequence that a request starts as: its context in as few blocks
/// as hold it, nothing generated, and its whole budget.
pub open spec fn started(r: Running, w: Pending) -> bool {
    &&& r.id == w.id
    &&& r.table.tokens == w.context_len
    &&& r.table.tokens <= r.table.blocks.len() * r.table.block_size
    &&& r.table.blocks.len() > 0 ==> (r.table.blocks.len() - 1) * r.table.block_size
        < r.table.tokens
    &&& r.generated == 0
    &&& r.max_new == w.max_new
}

/// Turns.
impl Schedule {
    /// There is a slot for the next token of sequence `i`: a free block, or room
    /// in a last block of its own.
    pub open spec fn has_place(self, i: int) -> bool {
        let t = self.running[i].table;
        ||| self.pool.free.len() > 0
        ||| t.tokens < t.blocks.len() * t.block_size && self.pool.counts[t.blocks[t.blocks.len()
            - 1].0 as int] <= 1
    }

    /// The schedule after the newest sequences were preempted, one by one, until
    /// only `l` run.
    pub open spec fn cut(self, l: nat) -> Schedule
        decreases self.running.len(),
    {
        if self.running.len() <= l {
            self
        } else {
            self.preempt(self.running.len() - 1).cut(l)
        }
    }

    /// The last block of a table is in the pool.
    proof fn lemma_tail(self, i: int)
        requires
            self.sound(),
            0 <= i < self.running.len(),
        ensures
            ({
                let t = self.running[i].table;
                t.tokens < t.blocks.len() * t.block_size ==> t.blocks.len() > 0
                    && t.blocks[t.blocks.len() - 1].0 < self.pool.num_blocks
            }),
    {
        let t = self.running[i].table;
        if t.tokens < t.blocks.len() * t.block_size {
            assert(t.blocks.len() > 0) by {
                assert(0 * t.block_size == 0);
            }
            assert(self.pool.has(self.running[i].table.blocks[t.blocks.len() - 1]));
        }
    }

    /// The next token of a sequence can be written exactly if there is a slot.
    pub proof fn token_can_be_written_exactly_if_there_is_a_place(self, i: int)
        requires
            self.sound(),
            self.block_size > 0,
            0 <= i < self.running.len(),
        ensures
            self.can_write(i) <==> self.has_place(i),
    {
        let t = self.running[i].table;
        let m = t.blocks.len() as int;
        let f = self.pool.free.len() as int;
        self.lemma_tail(i);
        t.tokens_fit_exactly_if_blocks_do(self.pool, 1);
        let b = t.block_size as int;
        let copy = if t.tail_is_shared(self.pool) {
            1int
        } else {
            0int
        };
        let k = m + f - copy;
        if f > 0 {
            if copy == 0 {
                assert(k * b >= m * b + b) by (nonlinear_arith)
                    requires
                        k >= m + 1,
                        b > 0,
                ;
            } else {
                assert(k * b >= m * b) by (nonlinear_arith)
                    requires
                        k >= m,
                        b > 0,
                ;
            }
        }
    }

    /// A token that is written is counted once, as generated and in the table,
    /// and reported with the slot that is next in order. A copy is reported
    /// exactly if the last block had room and other owners: from that block to
    /// the one the token goes to. A block is taken exactly if the last one is
    /// full or shared, and no other sequence changes.
    pub proof fn written_token_is_the_next(self, i: int, j: int)
        requires
            self.sound(),
            self.block_size > 0,
            self.block_size <= usize::MAX,
            0 <= i < self.running.len(),
            self.has_place(i),
        ensures
            ({
                let s = self.write_token(i);
                let d = self.token(i);
                let t = self.running[i].table;
                let r = s.running[i];
                let full = t.tokens == t.blocks.len() * t.block_size;
                let shared = !full && self.pool.counts[t.blocks[t.blocks.len() - 1].0 as int] > 1;
                &&& s.waiting == self.waiting
                &&& s.running.len() == self.running.len()
                &&& 0 <= j < self.running.len() && j != i ==> s.running[j] == self.running[j]
                &&& r.id == self.running[i].id
                &&& r.max_new == self.running[i].max_new
                &&& r.generated == self.running[i].generated + 1
                &&& r.table.tokens == t.tokens + 1
                &&& d.id == r.id
                &&& r.table.blocks.len() == t.blocks.len() + if full {
                    1int
                } else {
                    0int
                }
                &&& d.slot.block == r.table.blocks[r.table.blocks.len() - 1]
                &&& d.slot.slot == t.tokens % t.block_size
                &&& d.cow is Some <==> shared
                &&& shared ==> d.cow->0.src == t.blocks[t.blocks.len() - 1] && d.cow->0.dst
                    == d.slot.block
                &&& s.pool.free.len() == self.pool.free.len() - if full || shared {
                    1int
                } else {
                    0int
                }
                &&& full || shared ==> d.slot.block == self.pool.free[self.pool.free.len() - 1]
                &&& !full && !shared ==> d.slot.block == t.blocks[t.blocks.len() - 1]
                &&& forall|x: int|
                    0 <= x < r.table.blocks.len() - 1 ==> #[trigger] r.table.blocks[x]
                        == t.blocks[x]
                &&& s.pool.num_blocks == self.pool.num_blocks
                &&& s.pool.total + s.pool.free.len() == self.pool.total + self.pool.free.len()
                &&& forall|b: BlockId|
                    b.0 < self.pool.num_blocks ==> #[trigger] s.pool.counts[b.0 as int] == if (full
                        || shared) && b == d.slot.block {
                        1
                    } else if shared && b == t.blocks[t.blocks.len() - 1] {
                        self.pool.counts[b.0 as int] - 1
                    } else {
                        self.pool.counts[b.0 as int] as int
                    }
            }),
    {
        let t = self.running[i].table;
        self.token_can_be_written_exactly_if_there_is_a_place(i);
        self.lemma_tail(i);
        t.lemma_grown_wf(self.pool, 1);
        t.lemma_growth_one();
        t.lemma_room();
        t.lemma_pool_after(self.pool, 1);
        t.growing_takes_the_last_free_blocks(
            self.pool,
            1,
            self.write_token(i).running[i].table.blocks.len() - 1,
        );
        let m = t.blocks.len() as int;
        let s = self.write_token(i);
        let k = t.needed(self.pool, 1);
        assert(k <= 1);
        let taken = self.pool.popped(k);
        assert(k == 1 ==> taken =~= seq![self.pool.free.last()]);
        assert forall|b: BlockId| #[trigger] taken.contains(b) <==> k == 1 && b
            == self.pool.free.last() by {
            if k == 1 {
                assert(taken[0] == self.pool.free.last());
            }
        }
        assert forall|b: BlockId| b.0 < self.pool.num_blocks implies s.pool.count(b)
            == #[trigger] s.pool.counts[b.0 as int] && self.pool.count(b)
            == self.pool.counts[b.0 as int] && self.pool.has(b) by {}
        vstd::arithmetic::div_mod::lemma_fundamental_div_mod(t.tokens as int, t.block_size as int);
        assert(t.tokens % t.block_size < t.block_size) by (nonlinear_arith)
            requires
                t.block_size > 0,
        ;
    }

    /// A sequence that is preempted loses its blocks and waits at the head of
    /// the queue, with all its tokens as context and the rest of its budget.
    /// Every block that it held has one owner less.
    pub proof fn preemption_gives_the_blocks_back(self, i: int)
        requires
            self.sound(),
            0 <= i < self.running.len(),
            self.running[i].generated <= self.running[i].max_new,
        ensures
            ({
                let s = self.preempt(i);
                let r = self.running[i];
                &&& s.running == self.running.take(i) + self.running.skip(i + 1)
                &&& s.waiting.len() == self.waiting.len() + 1
                &&& s.waiting[0].id == r.id
                &&& s.waiting[0].context_len == r.table.tokens
                &&& s.waiting[0].max_new + r.generated == r.max_new
                &&& s.waiting.skip(1) == self.waiting
                &&& s.block_size == self.block_size
                &&& s.max_batch == self.max_batch
                &&& s.pool.total == self.pool.total
                &&& s.pool == self.pool.decref_each(r.table.blocks).0
                &&& forall|b: BlockId|
                    b.0 < self.pool.num_blocks ==> #[trigger] s.pool.counts[b.0 as int]
                        == self.pool.counts[b.0 as int] - if r.table.blocks.contains(b) {
                        1int
                    } else {
                        0int
                    }
            }),
    {
        let s = self.preempt(i);
        let blocks = self.running[i].table.blocks;
        self.lemma_preempt_sound(i);
        self.lemma_table_blocks(i);
        self.pool.lemma_release(blocks);
        assert(s.running =~= self.running.take(i) + self.running.skip(i + 1));
        assert(s.waiting.skip(1) =~= self.waiting);
        assert forall|b: BlockId|
            b.0 < self.pool.num_blocks implies #[trigger] s.pool.counts[b.0 as int]
            == self.pool.counts[b.0 as int] - if blocks.contains(b) {
            1int
        } else {
            0int
        } by {
            assert(self.pool.has(b));
            assert(s.pool.count(b) == s.pool.counts[b.0 as int]);
            assert(self.pool.count(b) == self.pool.counts[b.0 as int]);
        }
    }

    /// In the turn of a sequence the newest ones are preempted only as long as
    /// there is no slot for its next token. Then the token is written; if all
    /// newer ones have gone in vain, the sequence itself goes last.
    pub proof fn turn_preempts_only_for_want_of_a_slot(
        self,
        o: Outcome,
        id: SeqId,
        i: int,
        l: nat,
    )
        requires
            self.sound(),
            self.block_size > 0,
            0 <= i < self.running.len(),
            self.running[i].id == id,
            forall|j: int| 0 <= j < i ==> (#[trigger] self.running[j]).id != id,
        ensures
            ({
                let (s, p) = self.advance(o, id);
                let m = s.running.len();
                &&& i <= m <= self.running.len()
                &&& m < l <= self.running.len() ==> !self.cut(l).has_place(i)
                &&& i < m ==> {
                    &&& self.cut(m).has_place(i)
                    &&& s == self.cut(m).write_token(i)
                    &&& p.decoded.len() > 0
                    &&& p.decoded.last() == self.cut(m).token(i)
                }
                &&& m == i ==> s == self.cut(m)
                &&& p.preempted.len() == o.preempted.len() + self.running.len() - m
                &&& p.preempted.take(o.preempted.len() as int) == o.preempted
                &&& forall|x: int|
                    0 <= x < self.running.len() - m
                        ==> #[trigger] p.preempted[o.preempted.len() + x]
                        == self.running[self.running.len() - 1 - x].id
                &&& p.admitted == o.admitted
                &&& p.finished == o.finished
                &&& ({
                    let yielded = self.running.skip(m as int).map_values(|r: Running| r.id);
                    let kept = o.decoded.filter(|d: DecodedToken| !yielded.contains(d.id));
                    p.decoded == if i < m {
                        kept.push(self.cut(m).token(i))
                    } else {
                        kept
                    }
                })
            }),
        decreases self.running.len(),
    {
        assert(self.is_first(id, i));
        self.lemma_position(id, i);
        self.token_can_be_written_exactly_if_there_is_a_place(i);
        let n = self.running.len();
        let (s, p) = self.advance(o, id);
        let all = |from: int| self.running.skip(from).map_values(|r: Running| r.id);
        let keep = |from: int| |d: DecodedToken| !all(from).contains(d.id);
        if self.can_write(i) {
            assert(all(n as int) =~= Seq::empty());
            crate::drain::lemma_filter_all(o.decoded, keep(n as int));
            assert(p.preempted.take(o.preempted.len() as int) =~= o.preempted);
        } else {
            let v = n - 1;
            let a = self.preempt(v);
            let q = o.with_preempted(self.running[v].id);
            self.lemma_preempt_sound(v);
            assert(a.running =~= self.running.drop_last());
            if i < v {
                a.turn_preempts_only_for_want_of_a_slot(q, id, i, l);
                let m = s.running.len();
                assert(self.cut(m) == a.cut(m));
                let rest = a.running.skip(m as int).map_values(|r: Running| r.id);
                let newest = |d: DecodedToken| d.id != self.running[v].id;
                let others = |d: DecodedToken| !rest.contains(d.id);
                assert(all(m as int) =~= rest.push(self.running[v].id));
                lemma_filter_both(o.decoded, newest, others);
                assert forall|d: DecodedToken| #[trigger] keep(m as int)(d) == (newest(d)
                    && others(d)) by {
                    if rest.contains(d.id) {
                        let x = choose|x: int| 0 <= x < rest.len() && rest[x] == d.id;
                        assert(all(m as int)[x] == d.id);
                    }
                    assert(all(m as int)[rest.len() as int] == self.running[v].id);
                }
                assert(keep(m as int) =~= (|d: DecodedToken| newest(d) && others(d)));
                assert(p.preempted.take(o.preempted.len() as int) =~= o.preempted) by {
                    assert forall|x: int| 0 <= x < o.preempted.len() implies p.preempted[x]
                        == o.preempted[x] by {
                        assert(p.preempted.take(q.preempted.len() as int)[x] == q.preempted[x]);
                    }
                }
                assert forall|x: int| 0 <= x < n - m implies #[trigger] p.preempted[o.preempted.len()
                    + x] == self.running[n - 1 - x].id by {
                    if x == 0 {
                        assert(p.preempted.take(q.preempted.len() as int)[o.preempted.len() as int]
                            == q.preempted[o.preempted.len() as int]);
                    } else {
                        assert(p.preempted[q.preempted.len() + (x - 1)] == a.running[v - 1 - (x
                            - 1)].id);
                    }
                }
            } else {
                a.lemma_found(id);
                assert(a.position(id) is None) by {
                    if let Some(k) = a.position(id) {
                        assert(a.running[k] == self.running[k]);
                    }
                }
                assert(a.advance(q, id) == (a, q));
                let newest = |d: DecodedToken| d.id != self.running[v].id;
                assert(all(v) =~= seq![self.running[v].id]);
                assert(all(v)[0] == self.running[v].id);
                assert(keep(v) =~= newest);
                assert(self.cut(v as nat) == a.cut(v as nat));
                assert(p.preempted.take(o.preempted.len() as int) =~= o.preempted);
            }
        }
    }

    /// While there are at least as many free blocks as turns, every turn of a
    /// sequence that runs writes a token and nobody is preempted.
    pub proof fn nobody_yields_while_blocks_last(self, o: Outcome, ids: Seq<SeqId>)
        requires
            self.sound(),
            self.block_size > 0,
            self.pool.free.len() >= ids.len(),
            forall|x: int|
                0 <= x < ids.len() ==> self.running_ids().contains(#[trigger] ids[x]),
        ensures
            ({
                let (s, p) = self.decode(o, ids);
                &&& p.preempted == o.preempted
                &&& p.decoded.len() == o.decoded.len() + ids.len()
                &&& p.decoded.take(o.decoded.len() as int) == o.decoded
                &&& forall|x: int|
                    0 <= x < ids.len() ==> (#[trigger] p.decoded[o.decoded.len() + x]).id == ids[x]
                &&& s.waiting == self.waiting
                &&& s.running_ids() == self.running_ids()
            }),
        decreases ids.len(),
    {
        let (s, p) = self.decode(o, ids);
        if ids.len() == 0 {
            assert(p.decoded.take(o.decoded.len() as int) =~= o.decoded);
        } else {
            let id = ids[0];
            let k = choose|k: int|
                0 <= k < self.running_ids().len() && self.running_ids()[k] == id;
            assert(self.running_ids().contains(ids[0]));
            self.lemma_running_has_position(k);
            self.lemma_found(id);
            let i = self.position(id).unwrap();
            self.token_can_be_written_exactly_if_there_is_a_place(i);
            self.lemma_write_sound(i);
            let t = self.running[i].table;
            t.lemma_pool_after(self.pool, 1);
            let a = self.write_token(i);
            let q = Outcome { decoded: o.decoded.push(self.token(i)), ..o };
            assert(self.advance(o, id) == (a, q));
            assert(a.running_ids() =~= self.running_ids());
            let rest = ids.skip(1);
            assert forall|x: int| 0 <= x < rest.len() implies a.running_ids().contains(
                #[trigger] rest[x],
            ) by {
                assert(rest[x] == ids[x + 1]);
            }
            a.nobody_yields_while_blocks_last(q, rest);
            assert(p.decoded.take(o.decoded.len() as int) =~= o.decoded) by {
                assert forall|x: int| 0 <= x < o.decoded.len() implies p.decoded[x]
                    == o.decoded[x] by {
                    assert(p.decoded.take(q.decoded.len() as int)[x] == q.decoded[x]);
                }
            }
            assert forall|x: int| 0 <= x < ids.len() implies (
            #[trigger] p.decoded[o.decoded.len() + x]).id == ids[x] by {
                if x == 0 {
                    assert(p.decoded.take(q.decoded.len() as int)[o.decoded.len() as int]
                        == q.decoded[o.decoded.len() as int]);
                } else {
                    assert(p.decoded[q.decoded.len() + (x - 1)].id == rest[x - 1]);
                }
            }
        }
    }

    /// Turns come one after the other: those of two lists are those of the
    /// lists joined, and the turn of an id that does not run changes nothing.
    pub proof fn turns_come_in_order(self, o: Outcome, a: Seq<SeqId>, b: Seq<SeqId>, id: SeqId)
        ensures
            self.decode(o, a + b) == ({
                let (s, p) = self.decode(o, a);
                s.decode(p, b)
            }),
            self.decode(o, seq![id]) == self.advance(o, id),
            self.decode(o, Seq::empty()) == (self, o),
            (forall|i: int| 0 <= i < self.running.len() ==> (#[trigger] self.running[i]).id != id)
                ==> self.advance(o, id) == (self, o),
        decreases a.len(),
    {
        self.lemma_found(id);
        let one = seq![id];
        assert(one.skip(1) =~= Seq::empty());
        assert(self.decode(o, one) == self.advance(o, id)) by {
            let (s, p) = self.advance(o, id);
            assert(one[0] == id);
            assert(s.decode(p, one.skip(1)) == (s, p));
        }
        if a.len() == 0 {
            assert(a + b =~= b);
        } else {
            let (s, p) = self.advance(o, a[0]);
            s.turns_come_in_order(p, a.skip(1), b, id);
            assert((a + b).skip(1) =~= a.skip(1) + b);
            assert((a + b)[0] == a[0]);
        }
    }

    /// A sequence that is preempted has decoded nothing this step; what others
    /// decoded stays.
    pub proof fn preemption_voids_the_tokens_of_the_step(o: Outcome, id: SeqId, other: SeqId)
        ensures
            ({
                let p = o.with_preempted(id);
                let of = |i: SeqId| |d: DecodedToken| d.id == i;
                &&& p.decoded.filter(of(id)).len() == 0
                &&& other != id ==> p.decoded.filter(of(other)) == o.decoded.filter(of(other))
                &&& p.preempted == o.preempted + seq![id]
                &&& p.admitted == o.admitted
                &&& p.finished == o.finished
            }),
    {
        let of = |i: SeqId| |d: DecodedToken| d.id == i;
        lemma_filter_twice(o.decoded, |d: DecodedToken| d.id != id, of(id));
        lemma_filter_twice(o.decoded, |d: DecodedToken| d.id != id, of(other));
        assert(o.with_preempted(id).preempted =~= o.preempted + seq![id]);
    }

    /// Exactly those who have generated their budget leave, in order, each giving
    /// its blocks back in order, and the others stay as they are, with the owners
    /// of every block counted again.
    pub proof fn exactly_the_finished_leave(self, b: BlockId)
        requires
            self.sound(),
        ensures
            ({
                let s = self.retire();
                &&& s.running == self.running.filter(|r: Running| r.generated < r.max_new)
                &&& self.finished() == self.running.filter(|r: Running| r.generated >= r.max_new)
                &&& s.pool == self.pool.decref_each(
                    self.finished().map_values(|r: Running| r.table.blocks).flatten(),
                ).0
                &&& s.waiting == self.waiting
                &&& s.block_size == self.block_size
                &&& s.max_batch == self.max_batch
                &&& s.pool.total == self.pool.total
                &&& s.pool.num_blocks == self.pool.num_blocks
                &&& b.0 < self.pool.num_blocks ==> s.pool.counts[b.0 as int]
                    == s.running.filter(|r: Running| r.table.blocks.contains(b)).len()
            }),
    {
        let s = self.retire();
        self.lemma_retire();
        assert((|r: Running| !r.done()) =~= (|r: Running| r.generated < r.max_new));
        assert((|r: Running| r.done()) =~= (|r: Running| r.generated >= r.max_new));
        lemma_owners_are_counted(s.running, b);
        lemma_all_blocks(self.finished());
        if b.0 < self.pool.num_blocks {
            assert(s.pool.has(b));
            assert(s.pool.count(b) == s.pool.counts[b.0 as int]);
        }
    }

    /// A step is admission, one turn for everyone who then runs, oldest first,
    /// and the departure of those who have finished; and it reports the three.
    pub proof fn step_is_three_phases(self)
        ensures
            ({
                let (s1, admitted) = self.admission();
                let none = Outcome {
                    admitted,
                    decoded: Seq::empty(),
                    preempted: Seq::empty(),
                    finished: Seq::empty(),
                };
                let ids = Seq::new(s1.running.len(), |i: int| s1.running[i].id);
                let (s2, o) = s1.decode(none, ids);
                let gone = s2.running.filter(|r: Running| r.generated >= r.max_new);
                &&& self.step().0 == s2.retire()
                &&& self.step().1.admitted == o.admitted
                &&& self.step().1.decoded == o.decoded
                &&& self.step().1.preempted == o.preempted
                &&& self.step().1.finished == Seq::new(gone.len(), |i: int| gone[i].id)
            }),
    {
        let s1 = self.admission().0;
        assert(s1.running_ids() =~= Seq::new(s1.running.len(), |i: int| s1.running[i].id));
        assert((|r: Running| r.done()) =~= (|r: Running| r.generated >= r.max_new));
    }
}

/// Filtering twice is filtering by both.
proof fn lemma_filter_both<A>(s: Seq<A>, keep: spec_fn(A) -> bool, pick: spec_fn(A) -> bool)
    ensures
        s.filter(keep).filter(pick) == s.filter(|a: A| keep(a) && pick(a)),
    decreases s.len(),
{
    reveal(Seq::filter);
    if s.len() > 0 {
        lemma_filter_both(s.drop_last(), keep, pick);
        let f = s.drop_last().filter(keep);
        if keep(s.last()) {
            assert(f.push(s.last()).drop_last() =~= f);
            assert(f.push(s.last()).last() == s.last());
        }
    }
}

/// Filtering what was filtered.
proof fn lemma_filter_twice<A>(s: Seq<A>, keep: spec_fn(A) -> bool, pick: spec_fn(A) -> bool)
    ensures
        (forall|a: A| #[trigger] pick(a) ==> keep(a)) ==> s.filter(keep).filter(pick) == s.filter(
            pick,
        ),
        (forall|a: A| #[trigger] pick(a) ==> !keep(a)) ==> s.filter(keep).filter(pick).len() == 0,
    decreases s.len(),
{
    reveal(Seq::filter);
    if s.len() > 0 {
        lemma_filter_twice(s.drop_last(), keep, pick);
        let f = s.drop_last().filter(keep);
        if keep(s.last()) {
            assert(f.push(s.last()).drop_last() =~= f);
            assert(f.push(s.last()).last() == s.last());
        }
    }
}

/// The blocks of all tables are the lists of their blocks joined.
proof fn lemma_all_blocks(running: Seq<Running>)
    ensures
        crate::schedule::all_blocks(running) == running.map_values(
            |r: Running| r.table.blocks,
        ).flatten(),
    decreases running.len(),
{
    let lists = running.map_values(|r: Running| r.table.blocks);
    if running.len() == 0 {
        assert(lists.flatten() =~= Seq::empty());
    } else {
        lemma_all_blocks(running.drop_last());
        let front = running.drop_last().map_values(|r: Running| r.table.blocks);
        assert(lists =~= front.push(running.last().table.blocks));
        front.lemma_flatten_push(running.last().table.blocks);
    }
}

/// The owners of a block are the sequences whose table holds it.
proof fn lemma_owners_are_counted(running: Seq<Running>, b: BlockId)
    ensures
        crate::schedule::owners(running, b) == running.filter(
            |r: Running| r.table.blocks.contains(b),
        ).len(),
    decreases running.len(),
{
    reveal(Seq::filter);
    if running.len() > 0 {
        lemma_owners_are_counted(running.drop_last(), b);
    }
}

} // verus!
