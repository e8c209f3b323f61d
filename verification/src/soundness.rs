//! Every move of the scheduler keeps the pool and the tables in agreement.

use vstd::prelude::*;
use vstd::set_lib::*;

use crate::pool::{Pool, MAX_REFCOUNT};
use crate::schedule::{self, Pending, Running, Schedule};
use crate::table::Table;
use crate::types::BlockId;

verus! {

/// Owners after one more sequence.
pub proof fn lemma_owners_push(running: Seq<Running>, r: Running, b: BlockId)
    ensures
        schedule::owners(running.push(r), b) == schedule::owners(running, b)
            + if r.table.blocks.contains(b) {
            1nat
        } else {
            0nat
        },
{
    assert(running.push(r).drop_last() =~= running);
}

/// Owners after one sequence left.
pub proof fn lemma_owners_remove(running: Seq<Running>, i: int, b: BlockId)
    requires
        0 <= i < running.len(),
    ensures
        schedule::owners(running.remove(i), b) + if running[i].table.blocks.contains(b) {
            1nat
        } else {
            0nat
        } == schedule::owners(running, b),
    decreases running.len(),
{
    if i == running.len() - 1 {
        assert(running.remove(i) =~= running.drop_last());
    } else {
        lemma_owners_remove(running.drop_last(), i, b);
        assert(running.remove(i).drop_last() =~= running.drop_last().remove(i));
        assert(running.remove(i).last() == running.last());
    }
}

/// Owners after one sequence changed.
pub proof fn lemma_owners_update(running: Seq<Running>, i: int, r: Running, b: BlockId)
    requires
        0 <= i < running.len(),
    ensures
        schedule::owners(running.update(i, r), b) + if running[i].table.blocks.contains(b) {
            1nat
        } else {
            0nat
        } == schedule::owners(running, b) + if r.table.blocks.contains(b) {
            1nat
        } else {
            0nat
        },
    decreases running.len(),
{
    if i == running.len() - 1 {
        assert(running.update(i, r).drop_last() =~= running.drop_last());
    } else {
        lemma_owners_update(running.drop_last(), i, r, b);
        assert(running.update(i, r).drop_last() =~= running.drop_last().update(i, r));
    }
}

/// A block in some table has an owner.
pub proof fn lemma_owners_positive(running: Seq<Running>, i: int, b: BlockId)
    requires
        0 <= i < running.len(),
        running[i].table.blocks.contains(b),
    ensures
        schedule::owners(running, b) >= 1,
{
    lemma_owners_remove(running, i, b);
}

/// A block in two tables has two owners.
pub proof fn lemma_two_owners(running: Seq<Running>, i: int, j: int, b: BlockId)
    requires
        0 <= i < running.len(),
        0 <= j < running.len(),
        i != j,
        running[i].table.blocks.contains(b),
        running[j].table.blocks.contains(b),
    ensures
        schedule::owners(running, b) >= 2,
{
    let rest = running.remove(i);
    let k = if j < i {
        j
    } else {
        j - 1
    };
    assert(rest[k] == running[j]);
    lemma_owners_remove(running, i, b);
    lemma_owners_positive(rest, k, b);
}

/// A block whose holders all hold another block too has no more owners than it.
pub proof fn lemma_owners_le(running: Seq<Running>, b: BlockId, c: BlockId)
    requires
        forall|i: int|
            0 <= i < running.len() && (#[trigger] running[i]).table.blocks.contains(b)
                ==> running[i].table.blocks.contains(c),
    ensures
        schedule::owners(running, b) <= schedule::owners(running, c),
    decreases running.len(),
{
    if running.len() > 0 {
        let front = running.drop_last();
        assert forall|i: int|
            0 <= i < front.len() && (#[trigger] front[i]).table.blocks.contains(
                b,
            ) implies front[i].table.blocks.contains(c) by {
            assert(running[i] == front[i]);
        }
        lemma_owners_le(front, b, c);
        assert(running[running.len() - 1] == running.last());
    }
}

/// Without sequences nothing is owned.
pub proof fn lemma_owners_none(running: Seq<Running>, b: BlockId)
    requires
        forall|i: int|
            0 <= i < running.len() ==> !(#[trigger] running[i]).table.blocks.contains(b),
    ensures
        schedule::owners(running, b) == 0,
    decreases running.len(),
{
    if running.len() > 0 {
        let front = running.drop_last();
        assert forall|i: int| 0 <= i < front.len() implies !(
        #[trigger] front[i]).table.blocks.contains(b) by {
            assert(running[i] == front[i]);
        }
        lemma_owners_none(front, b);
        assert(running[running.len() - 1] == running.last());
    }
}

impl Pool {
    /// Dropping an owner of each of several distinct owned blocks succeeds.
    pub proof fn lemma_release(self, ids: Seq<BlockId>)
        requires
            self.wf(),
            ids.no_duplicates(),
            forall|x: int|
                0 <= x < ids.len() ==> self.has(#[trigger] ids[x]) && self.count(ids[x]) >= 1,
        ensures
            self.decref_each(ids).1 is None,
            self.decref_each(ids).0.wf(),
            self.decref_each(ids).0.num_blocks == self.num_blocks,
            self.decref_each(ids).0.total == self.total,
            forall|b: BlockId|
                self.has(b) ==> #[trigger] self.decref_each(ids).0.count(b) == self.count(b)
                    - if ids.contains(b) {
                    1int
                } else {
                    0int
                },
        decreases ids.len(),
    {
        if ids.len() > 0 {
            let front = ids.drop_last();
            let last = ids.last();
            assert forall|x: int| 0 <= x < front.len() implies self.has(#[trigger] front[x])
                && self.count(front[x]) >= 1 by {
                assert(ids[x] == front[x]);
            }
            self.lemma_release(front);
            let p = self.decref_each(front).0;
            assert(!front.contains(last)) by {
                if front.contains(last) {
                    let x = choose|x: int| 0 <= x < front.len() && front[x] == last;
                    assert(ids[x] == ids[ids.len() - 1]);
                }
            }
            assert(ids[ids.len() - 1] == last);
            assert(p.count(last) == self.count(last));
            p.lemma_decref_wf(last);
            assert forall|b: BlockId| self.has(b) implies #[trigger] self.decref_each(ids).0.count(
                b,
            ) == self.count(b) - if ids.contains(b) {
                1int
            } else {
                0int
            } by {
                assert(p.count(b) == self.count(b) - if front.contains(b) {
                    1int
                } else {
                    0int
                });
                lemma_contains_push(front, last, b);
                assert(front.push(last) =~= ids);
            }
        }
    }

    /// Adding an owner to each of several distinct owned blocks succeeds while
    /// the counters have room.
    pub proof fn lemma_acquire(self, ids: Seq<BlockId>)
        requires
            self.wf(),
            ids.no_duplicates(),
            forall|x: int|
                0 <= x < ids.len() ==> self.has(#[trigger] ids[x]) && 1 <= self.count(ids[x])
                    < MAX_REFCOUNT,
        ensures
            self.incref_each(ids).1 is None,
            self.incref_each(ids).0.wf(),
            self.incref_each(ids).0.num_blocks == self.num_blocks,
            self.incref_each(ids).0.total == self.total,
            self.incref_each(ids).0.free == self.free,
            forall|b: BlockId|
                self.has(b) ==> #[trigger] self.incref_each(ids).0.count(b) == self.count(b)
                    + if ids.contains(b) {
                    1nat
                } else {
                    0nat
                },
        decreases ids.len(),
    {
        if ids.len() > 0 {
            let front = ids.drop_last();
            let last = ids.last();
            assert forall|x: int| 0 <= x < front.len() implies self.has(#[trigger] front[x]) && 1
                <= self.count(front[x]) < MAX_REFCOUNT by {
                assert(ids[x] == front[x]);
            }
            self.lemma_acquire(front);
            let p = self.incref_each(front).0;
            assert(!front.contains(last)) by {
                if front.contains(last) {
                    let x = choose|x: int| 0 <= x < front.len() && front[x] == last;
                    assert(ids[x] == ids[ids.len() - 1]);
                }
            }
            assert(ids[ids.len() - 1] == last);
            assert(p.count(last) == self.count(last));
            p.lemma_incref_wf(last);
            assert forall|b: BlockId| self.has(b) implies #[trigger] self.incref_each(ids).0.count(
                b,
            ) == self.count(b) + if ids.contains(b) {
                1nat
            } else {
                0nat
            } by {
                assert(p.count(b) == self.count(b) + if front.contains(b) {
                    1nat
                } else {
                    0nat
                });
                lemma_contains_push(front, last, b);
                assert(front.push(last) =~= ids);
            }
        }
    }

    /// Dropping owners of `a` and then of `b`.
    pub proof fn lemma_decref_each_concat(self, a: Seq<BlockId>, b: Seq<BlockId>)
        requires
            self.decref_each(a).1 is None,
        ensures
            self.decref_each(a + b) == self.decref_each(a).0.decref_each(b),
        decreases b.len(),
    {
        if b.len() == 0 {
            assert(a + b =~= a);
        } else {
            self.lemma_decref_each_concat(a, b.drop_last());
            assert((a + b).drop_last() =~= a + b.drop_last());
            assert((a + b).last() == b.last());
        }
    }

    /// The free list of a pool without owners is the whole pool.
    pub proof fn lemma_all_free(self)
        requires
            self.wf(),
            forall|b: BlockId| self.has(b) ==> #[trigger] self.count(b) == 0,
        ensures
            self.free.len() == self.num_blocks,
    {
        self.used_blocks_are_the_owned_ones();
        assert forall|i: int| !self.owned().contains(i) by {
            if 0 <= i < self.num_blocks {
                assert(self.count(BlockId(i as u32)) == 0);
            }
        }
        assert(self.owned() =~= Set::empty());
    }
}

/// Membership after a push.
proof fn lemma_contains_push(s: Seq<BlockId>, a: BlockId, b: BlockId)
    ensures
        s.push(a).contains(b) <==> s.contains(b) || a == b,
{
    if s.contains(b) {
        let x = choose|x: int| 0 <= x < s.len() && s[x] == b;
        assert(s.push(a)[x] == b);
    }
    if a == b {
        assert(s.push(a)[s.len() as int] == b);
    }
    if s.push(a).contains(b) {
        let x = choose|x: int| 0 <= x < s.push(a).len() && s.push(a)[x] == b;
        if x < s.len() {
            assert(s[x] == b);
        }
    }
}

/// Facts about sound schedules.
impl Schedule {
    /// A table holds no block twice, and each of its blocks has an owner.
    pub proof fn lemma_table_blocks(self, i: int)
        requires
            self.tables_sound(),
            0 <= i < self.running.len(),
        ensures
            self.running[i].table.blocks.no_duplicates(),
            forall|x: int|
                0 <= x < self.running[i].table.blocks.len() ==> self.pool.has(
                    #[trigger] self.running[i].table.blocks[x],
                ) && self.pool.count(self.running[i].table.blocks[x]) >= 1,
    {
        let blocks = self.running[i].table.blocks;
        assert forall|x: int| 0 <= x < blocks.len() implies self.pool.has(#[trigger] blocks[x])
            && self.pool.count(blocks[x]) >= 1 by {
            assert(self.running[i].table.blocks[x] == blocks[x]);
            assert(blocks.contains(blocks[x]));
            lemma_owners_positive(self.running, i, blocks[x]);
        }
        assert forall|x: int, y: int|
            0 <= x < blocks.len() && 0 <= y < blocks.len() && x != y implies blocks[x]
            != blocks[y] by {
            assert(self.running[i].table.blocks[x] == blocks[x]);
            assert(self.running[i].table.blocks[y] == blocks[y]);
        }
    }

    /// A block without owners is in no table.
    pub proof fn lemma_unowned(self, b: BlockId)
        requires
            self.tables_sound(),
            self.pool.has(b),
            self.pool.count(b) == 0,
        ensures
            forall|i: int|
                0 <= i < self.running.len() ==> !(#[trigger] self.running[i]).table.blocks.contains(
                    b,
                ),
            forall|i: int, x: int|
                #![trigger self.running[i].table.blocks[x]]
                0 <= i < self.running.len() && 0 <= x < self.running[i].table.blocks.len()
                    ==> self.running[i].table.blocks[x] != b,
    {
        assert forall|i: int| 0 <= i < self.running.len() implies !(
        #[trigger] self.running[i]).table.blocks.contains(b) by {
            if self.running[i].table.blocks.contains(b) {
                lemma_owners_positive(self.running, i, b);
            }
        }
    }

    /// A running sequence fits in the pool.
    pub proof fn lemma_tokens_fit(self, i: int)
        requires
            self.tables_sound(),
            0 <= i < self.running.len(),
        ensures
            self.running[i].table.blocks.len() <= self.pool.num_blocks,
            self.running[i].table.tokens <= self.capacity(),
    {
        self.lemma_table_blocks(i);
        let t = self.running[i].table;
        let ids = t.blocks.map_values(|b: BlockId| b.0 as int);
        assert(ids.no_duplicates());
        ids.unique_seq_to_set();
        let all = set_int_range(0, self.pool.num_blocks as int);
        lemma_int_range(0, self.pool.num_blocks as int);
        assert forall|v: int| ids.to_set().contains(v) implies all.contains(v) by {
            let x = choose|x: int| 0 <= x < ids.len() && ids[x] == v;
            assert(self.pool.has(t.blocks[x]));
        }
        lemma_len_subset(ids.to_set(), all);
        let n = t.blocks.len();
        let m = self.pool.num_blocks;
        let b = self.block_size;
        assert(n * b <= m * b) by (nonlinear_arith)
            requires
                n <= m,
        ;
    }

    /// The schedule without sequence `i`, whose blocks are released.
    pub open spec fn without(self, i: int) -> Schedule {
        Schedule {
            pool: self.pool.decref_each(self.running[i].table.blocks).0,
            running: self.running.remove(i),
            ..self
        }
    }

    /// Releasing a sequence keeps the schedule sound.
    pub proof fn lemma_without_sound(self, i: int)
        requires
            self.tables_sound(),
            0 <= i < self.running.len(),
        ensures
            self.without(i).tables_sound(),
            self.sound() ==> self.without(i).sound(),
            self.pool.decref_each(self.running[i].table.blocks).1 is None,
            self.without(i).pool.total == self.pool.total,
            self.without(i).pool.num_blocks == self.pool.num_blocks,
    {
        let blocks = self.running[i].table.blocks;
        self.lemma_table_blocks(i);
        self.pool.lemma_release(blocks);
        let s = self.without(i);
        assert forall|j: int| 0 <= j < s.running.len() implies #[trigger] s.running[j]
            == self.running[if j < i {
            j
        } else {
            j + 1
        }] by {}
        assert forall|b: BlockId| s.pool.has(b) implies #[trigger] s.pool.count(b)
            == schedule::owners(s.running, b) by {
            lemma_owners_remove(self.running, i, b);
            assert(self.pool.count(b) == schedule::owners(self.running, b));
        }
    }

    /// Preempting a sequence keeps the schedule sound.
    pub proof fn lemma_preempt_sound(self, i: int)
        requires
            self.sound(),
            0 <= i < self.running.len(),
        ensures
            self.preempt(i).sound(),
            self.pool.decref_each(self.running[i].table.blocks).1 is None,
            self.preempt(i).pool.total == self.pool.total,
            self.preempt(i).pool.num_blocks == self.pool.num_blocks,
    {
        self.lemma_without_sound(i);
        self.lemma_tokens_fit(i);
        let s = self.preempt(i);
        let w = self.without(i);
        assert(s.running == w.running);
        assert(s.pool == w.pool);
        assert forall|j: int| 0 <= j < s.waiting.len() implies (#[trigger] s.waiting[j]).context_len
            <= s.capacity() by {
            if j > 0 {
                assert(s.waiting[j] == self.waiting[j - 1]);
            }
        }
        assert(s.tables_ok()) by {
            assert forall|j: int| 0 <= j < s.running.len() implies {
                &&& (#[trigger] s.running[j]).table.wf()
                &&& s.running[j].table.block_size == s.block_size
                &&& s.running[j].generated <= s.running[j].table.tokens
            } by {
                assert(w.running[j] == s.running[j]);
            }
        }
        assert(s.balanced()) by {
            assert forall|j: int, x: int|
                #![trigger s.running[j].table.blocks[x]]
                0 <= j < s.running.len() && 0 <= x
                    < s.running[j].table.blocks.len() implies s.pool.has(
                s.running[j].table.blocks[x],
            ) by {
                assert(w.running[j].table.blocks[x] == s.running[j].table.blocks[x]);
            }
        }
        assert(s.shares_prefixes()) by {
            assert forall|a: int, j: int, x: int, y: int|
                #![trigger s.running[a].table.blocks[x], s.running[j].table.blocks[y]]
                0 <= a < s.running.len() && 0 <= j < s.running.len() && 0 <= x
                    < s.running[a].table.blocks.len() && 0 <= y < s.running[j].table.blocks.len()
                    && s.running[a].table.blocks[x] == s.running[j].table.blocks[y] implies x == y
                && s.running[a].table.blocks.take(x) == s.running[j].table.blocks.take(x) by {
                assert(w.running[a].table.blocks[x] == w.running[j].table.blocks[y]);
            }
        }
    }

    /// A schedule that differs only in the pool, with the same counts, is sound.
    pub proof fn lemma_same_counts_sound(self, p: Pool)
        requires
            self.tables_sound(),
            p.wf(),
            p.num_blocks == self.pool.num_blocks,
            p.counts == self.pool.counts,
        ensures
            (Schedule { pool: p, ..self }).tables_sound(),
            self.sound() ==> (Schedule { pool: p, ..self }).sound(),
    {
        let s = Schedule { pool: p, ..self };
        assert(s.capacity() == self.capacity());
        assert(s.balanced()) by {
            assert forall|b: BlockId| s.pool.has(b) implies #[trigger] s.pool.count(b)
                == schedule::owners(s.running, b) by {
                assert(self.pool.count(b) == schedule::owners(self.running, b));
            }
            assert forall|j: int, x: int|
                #![trigger s.running[j].table.blocks[x]]
                0 <= j < s.running.len() && 0 <= x
                    < s.running[j].table.blocks.len() implies s.pool.has(
                s.running[j].table.blocks[x],
            ) by {
                assert(self.pool.has(self.running[j].table.blocks[x]));
            }
        }
        self.lemma_same_running(s);
    }

    /// Prefix sharing and the tables depend on the running sequences alone.
    proof fn lemma_same_running(self, s: Schedule)
        requires
            s.running == self.running,
            s.block_size == self.block_size,
            self.tables_ok(),
            self.shares_prefixes(),
        ensures
            s.tables_ok(),
            s.shares_prefixes(),
    {
        assert forall|j: int| 0 <= j < s.running.len() implies {
            &&& (#[trigger] s.running[j]).table.wf()
            &&& s.running[j].table.block_size == s.block_size
            &&& s.running[j].generated <= s.running[j].table.tokens
        } by {
            assert(self.running[j] == s.running[j]);
        }
        assert forall|a: int, j: int, x: int, y: int|
            #![trigger s.running[a].table.blocks[x], s.running[j].table.blocks[y]]
            0 <= a < s.running.len() && 0 <= j < s.running.len() && 0 <= x
                < s.running[a].table.blocks.len() && 0 <= y < s.running[j].table.blocks.len()
                && s.running[a].table.blocks[x] == s.running[j].table.blocks[y] implies x == y
            && s.running[a].table.blocks.take(x) == s.running[j].table.blocks.take(x) by {
            assert(self.running[a].table.blocks[x] == self.running[j].table.blocks[y]);
        }
    }

    /// Queueing a request that fits keeps the schedule sound.
    pub proof fn lemma_request_sound(self, w: Pending)
        requires
            self.sound(),
            w.context_len <= self.capacity() <= usize::MAX,
        ensures
            (Schedule { waiting: self.waiting.push(w), ..self }).sound(),
    {
        let s = Schedule { waiting: self.waiting.push(w), ..self };
        self.lemma_same_running(s);
        assert forall|j: int| 0 <= j < s.waiting.len() implies (#[trigger] s.waiting[j]).context_len
            <= s.capacity() by {
            if j < self.waiting.len() {
                assert(s.waiting[j] == self.waiting[j]);
            }
        }
        assert(s.balanced()) by {
            assert forall|j: int, x: int|
                #![trigger s.running[j].table.blocks[x]]
                0 <= j < s.running.len() && 0 <= x
                    < s.running[j].table.blocks.len() implies s.pool.has(
                s.running[j].table.blocks[x],
            ) by {
                assert(self.pool.has(self.running[j].table.blocks[x]));
            }
        }
    }

    /// A new sequence whose blocks nobody owned, each owned once now, keeps the
    /// schedule sound.
    pub proof fn lemma_new_sequence_sound(self, p: Pool, r: Running)
        requires
            self.tables_sound(),
            p.wf(),
            p.num_blocks == self.pool.num_blocks,
            r.table.wf(),
            r.table.block_size == self.block_size,
            r.generated == 0,
            r.table.blocks.no_duplicates(),
            forall|x: int|
                0 <= x < r.table.blocks.len() ==> self.pool.has(#[trigger] r.table.blocks[x])
                    && self.pool.count(r.table.blocks[x]) == 0,
            forall|b: BlockId|
                self.pool.has(b) ==> #[trigger] p.count(b) == if r.table.blocks.contains(b) {
                    1
                } else {
                    self.pool.count(b)
                },
        ensures
            ({
                let s = Schedule { pool: p, running: self.running.push(r), ..self };
                s.tables_sound() && (self.sound() && self.capacity() <= usize::MAX ==> s.sound())
            }),
    {
        let s = Schedule { pool: p, running: self.running.push(r), ..self };
        let n = self.running.len() as int;
        assert forall|j: int| 0 <= j < s.running.len() implies #[trigger] s.running[j] == if j
            < n {
            self.running[j]
        } else {
            r
        } by {}
        assert(s.capacity() == self.capacity());
        assert forall|b: BlockId| s.pool.has(b) implies #[trigger] s.pool.count(b)
            == schedule::owners(s.running, b) by {
            lemma_owners_push(self.running, r, b);
            assert(self.pool.count(b) == schedule::owners(self.running, b));
            if r.table.blocks.contains(b) {
                let x = choose|x: int| 0 <= x < r.table.blocks.len() && r.table.blocks[x] == b;
                assert(self.pool.count(r.table.blocks[x]) == 0);
            }
        }
        assert forall|a: int, j: int, x: int, y: int|
            #![trigger s.running[a].table.blocks[x], s.running[j].table.blocks[y]]
            0 <= a < s.running.len() && 0 <= j < s.running.len() && 0 <= x
                < s.running[a].table.blocks.len() && 0 <= y < s.running[j].table.blocks.len()
                && s.running[a].table.blocks[x] == s.running[j].table.blocks[y] implies x == y
            && s.running[a].table.blocks.take(x) == s.running[j].table.blocks.take(x) by {
            if a < n && j < n {
                assert(self.running[a].table.blocks[x] == self.running[j].table.blocks[y]);
            } else if a < n {
                let b = r.table.blocks[y];
                assert(self.pool.has(b) && self.pool.count(b) == 0);
                self.lemma_unowned(b);
                assert(self.running[a].table.blocks[x] != b);
            } else if j < n {
                let b = r.table.blocks[x];
                assert(self.pool.has(b) && self.pool.count(b) == 0);
                self.lemma_unowned(b);
                assert(self.running[j].table.blocks[y] != b);
            }
        }
    }

    /// Admitting the first request keeps the schedule sound.
    pub proof fn lemma_admit_front_sound(self)
        requires
            self.sound(),
            self.waiting.len() > 0,
            self.front_error() is None,
        ensures
            self.admit_front().sound(),
            self.admit_front().pool.num_blocks == self.pool.num_blocks,
            self.admit_front().pool.total == self.pool.total + Table::empty(
                self.block_size,
            ).needed(self.pool, self.waiting[0].context_len),
            self.admit_front().pool.total + self.admit_front().pool.free.len() == self.pool.total
                + self.pool.free.len(),
    {
        let w = self.waiting[0];
        let n = w.context_len;
        let t = Table::empty(self.block_size);
        let p = t.pool_after(self.pool, n);
        let k = t.needed(self.pool, n);
        assert(w.context_len <= self.capacity());
        t.lemma_pool_after(self.pool, n);
        let g = t.grown(self.pool, n);
        if self.block_size > 0 {
            t.lemma_grown_wf(self.pool, n);
        } else {
            assert(self.pool.num_blocks * 0 == 0);
        }
        assert(!t.has_room()) by {
            assert(0 * t.block_size == 0);
        }
        assert(g.blocks =~= self.pool.popped(k));
        assert(g.wf());
        assert forall|x: int| 0 <= x < g.blocks.len() implies self.pool.has(#[trigger] g.blocks[x])
            && self.pool.count(g.blocks[x]) == 0 by {
            assert(g.blocks[x] == self.pool.free[self.pool.free.len() - 1 - x]);
        }
        let r = Running { id: w.id, table: g, max_new: w.max_new, generated: 0 };
        self.lemma_new_sequence_sound(p, r);
        let s = Schedule { pool: p, running: self.running.push(r), ..self };
        let f = self.admit_front();
        s.lemma_same_running(f);
        assert forall|j: int| 0 <= j < f.waiting.len() implies (#[trigger] f.waiting[j]).context_len
            <= f.capacity() by {
            assert(f.waiting[j] == self.waiting[j + 1]);
        }
        assert(f.balanced()) by {
            assert forall|j: int, x: int|
                #![trigger f.running[j].table.blocks[x]]
                0 <= j < f.running.len() && 0 <= x
                    < f.running[j].table.blocks.len() implies f.pool.has(
                f.running[j].table.blocks[x],
            ) by {
                assert(s.pool.has(s.running[j].table.blocks[x]));
            }
        }
    }

    /// A failed admission keeps the schedule sound.
    pub proof fn lemma_blocked_sound(self)
        requires
            self.sound(),
            self.waiting.len() > 0,
            self.front_error() is Some,
        ensures
            (Schedule {
                pool: Table::empty(self.block_size).pool_rolled_back(
                    self.pool,
                    self.waiting[0].context_len,
                ),
                ..self
            }).sound(),
            self.front_error()->0 is OutOfBlocks,
    {
        let t = Table::empty(self.block_size);
        assert(!t.has_room()) by {
            assert(0 * t.block_size == 0);
        }
        self.pool.lemma_unwound_end();
        self.lemma_same_counts_sound(self.pool.churned());
    }

    /// Replacing the blocks of sequence `i` from place `m` on by one block that
    /// nobody owned keeps prefix sharing.
    proof fn lemma_changed_prefixes(self, i: int, m: int, f: BlockId, s: Schedule)
        requires
            self.tables_sound(),
            0 <= i < self.running.len(),
            0 <= m <= self.running[i].table.blocks.len(),
            self.pool.has(f),
            self.pool.count(f) == 0,
            s.running.len() == self.running.len(),
            forall|j: int|
                0 <= j < s.running.len() && j != i ==> #[trigger] s.running[j] == self.running[j],
            s.running[i].table.blocks == self.running[i].table.blocks.take(m).push(f),
        ensures
            s.shares_prefixes(),
    {
        self.lemma_unowned(f);
        let old_blocks = self.running[i].table.blocks;
        let new_blocks = s.running[i].table.blocks;
        assert forall|a: int, j: int, x: int, y: int|
            #![trigger s.running[a].table.blocks[x], s.running[j].table.blocks[y]]
            0 <= a < s.running.len() && 0 <= j < s.running.len() && 0 <= x
                < s.running[a].table.blocks.len() && 0 <= y < s.running[j].table.blocks.len()
                && s.running[a].table.blocks[x] == s.running[j].table.blocks[y] implies x == y
            && s.running[a].table.blocks.take(x) == s.running[j].table.blocks.take(x) by {
            if a != i && j != i {
                assert(self.running[a].table.blocks[x] == self.running[j].table.blocks[y]);
            } else if a == i && j == i {
                if x < m && y < m {
                    assert(self.running[i].table.blocks[x] == self.running[i].table.blocks[y]);
                } else if x < m {
                    assert(self.running[i].table.blocks[x] != f);
                } else if y < m {
                    assert(self.running[i].table.blocks[y] != f);
                }
            } else if a == i {
                assert(s.running[j] == self.running[j]);
                if x < m {
                    assert(self.running[i].table.blocks[x] == self.running[j].table.blocks[y]);
                    assert(new_blocks.take(x) =~= old_blocks.take(x));
                } else {
                    assert(self.running[j].table.blocks[y] != f);
                }
            } else {
                assert(s.running[a] == self.running[a]);
                if y < m {
                    assert(self.running[a].table.blocks[x] == self.running[i].table.blocks[y]);
                    assert(new_blocks.take(x) =~= old_blocks.take(x));
                } else {
                    assert(self.running[a].table.blocks[x] != f);
                }
            }
        }
    }

    /// Writing a token keeps the schedule sound.
    pub proof fn lemma_write_sound(self, i: int)
        requires
            self.tables_sound(),
            0 <= i < self.running.len(),
            self.can_write(i),
            self.block_size > 0,
        ensures
            self.write_token(i).tables_sound(),
            self.sound() ==> self.write_token(i).sound(),
            self.write_token(i).pool.num_blocks == self.pool.num_blocks,
            self.write_token(i).pool.total == self.pool.total + self.running[i].table.needed(
                self.pool,
                1,
            ),
            self.running[i].table.needed(self.pool, 1) <= 1,
            self.running[i].table.tokens < self.capacity(),
    {
        let t = self.running[i].table;
        let p = self.pool;
        let s = self.write_token(i);
        let g = t.grown(p, 1);
        let r = s.running[i];
        self.lemma_table_blocks(i);
        t.lemma_growth_one();
        t.lemma_room();
        t.lemma_grown_wf(p, 1);
        t.lemma_pool_after(p, 1);
        assert(s.capacity() == self.capacity());
        assert(s.tables_ok()) by {
            assert forall|j: int| 0 <= j < s.running.len() implies {
                &&& (#[trigger] s.running[j]).table.wf()
                &&& s.running[j].table.block_size == s.block_size
                &&& s.running[j].generated <= s.running[j].table.tokens
            } by {
                assert(self.running[j].table.wf());
            }
        }
        if t.needed(p, 1) == 0 {
            assert(p.popped(0) =~= Seq::empty());
            assert(g.blocks =~= t.blocks);
            assert forall|j: int| 0 <= j < s.running.len() implies #[trigger] s.running[j].table.blocks
                == self.running[j].table.blocks by {}
            assert forall|a: int, j: int, x: int, y: int|
                #![trigger s.running[a].table.blocks[x], s.running[j].table.blocks[y]]
                0 <= a < s.running.len() && 0 <= j < s.running.len() && 0 <= x
                    < s.running[a].table.blocks.len() && 0 <= y < s.running[j].table.blocks.len()
                    && s.running[a].table.blocks[x] == s.running[j].table.blocks[y] implies x == y
                && s.running[a].table.blocks.take(x) == s.running[j].table.blocks.take(x) by {
                assert(self.running[a].table.blocks[x] == self.running[j].table.blocks[y]);
            }
            assert forall|b: BlockId| s.pool.has(b) implies #[trigger] s.pool.count(b)
                == schedule::owners(s.running, b) by {
                lemma_owners_update(self.running, i, r, b);
                assert(self.pool.count(b) == schedule::owners(self.running, b));
            }
            assert forall|j: int, x: int|
                #![trigger s.running[j].table.blocks[x]]
                0 <= j < s.running.len() && 0 <= x
                    < s.running[j].table.blocks.len() implies s.pool.has(
                s.running[j].table.blocks[x],
            ) by {
                assert(self.pool.has(self.running[j].table.blocks[x]));
            }
        } else {
            let f = p.free.last();
            let m = if t.needs_copy(p) {
                t.blocks.len() - 1
            } else {
                t.blocks.len() as int
            };
            assert(p.has(p.free[p.free.len() - 1]) && p.count(p.free[p.free.len() - 1]) == 0);
            assert(p.popped(1) =~= seq![f]);
            assert(g.blocks =~= t.blocks.take(m).push(f));
            self.lemma_changed_prefixes(i, m, f, s);
            self.lemma_unowned(f);
            assert forall|b: BlockId| s.pool.has(b) implies #[trigger] s.pool.count(b)
                == schedule::owners(s.running, b) by {
                lemma_owners_update(self.running, i, r, b);
                assert(self.pool.count(b) == schedule::owners(self.running, b));
                lemma_contains_push(t.blocks.take(m), f, b);
                assert(p.popped(1).contains(b) <==> b == f) by {
                    assert(p.popped(1)[0] == f);
                }
                if m < t.blocks.len() {
                    let tail = t.blocks.last();
                    assert(t.blocks.take(m).push(tail) =~= t.blocks);
                    lemma_contains_push(t.blocks.take(m), tail, b);
                    assert(!t.blocks.take(m).contains(tail)) by {
                        if t.blocks.take(m).contains(tail) {
                            let x = choose|x: int|
                                0 <= x < m && t.blocks.take(m)[x] == tail;
                            assert(t.blocks[x] == t.blocks[m]);
                        }
                    }
                } else {
                    assert(t.blocks.take(m) =~= t.blocks);
                }
            }
            assert forall|j: int, x: int|
                #![trigger s.running[j].table.blocks[x]]
                0 <= j < s.running.len() && 0 <= x
                    < s.running[j].table.blocks.len() implies s.pool.has(
                s.running[j].table.blocks[x],
            ) by {
                if j != i {
                    assert(self.pool.has(self.running[j].table.blocks[x]));
                } else if x < m {
                    assert(self.pool.has(self.running[i].table.blocks[x]));
                }
            }
        }
        assert(s.tables_sound());
        s.lemma_tokens_fit(i);
    }

    /// The first block of a table has at least as many owners as the others.
    pub proof fn lemma_first_block_leads(self, i: int, x: int)
        requires
            self.tables_sound(),
            0 <= i < self.running.len(),
            0 <= x < self.running[i].table.blocks.len(),
        ensures
            self.pool.count(self.running[i].table.blocks[x]) <= self.pool.count(
                self.running[i].table.blocks[0],
            ),
    {
        let blocks = self.running[i].table.blocks;
        let b = blocks[x];
        let c = blocks[0];
        assert forall|j: int|
            0 <= j < self.running.len() && (#[trigger] self.running[j]).table.blocks.contains(
                b,
            ) implies self.running[j].table.blocks.contains(c) by {
            let other = self.running[j].table.blocks;
            let y = choose|y: int| 0 <= y < other.len() && other[y] == b;
            assert(self.running[j].table.blocks[y] == self.running[i].table.blocks[x]);
            if x > 0 {
                assert(other.take(x)[0] == blocks.take(x)[0]);
            }
            assert(other[0] == c);
        }
        lemma_owners_le(self.running, b, c);
        assert(self.pool.has(self.running[i].table.blocks[x]));
        assert(self.pool.has(self.running[i].table.blocks[0]));
        assert(self.pool.count(b) == schedule::owners(self.running, b));
        assert(self.pool.count(c) == schedule::owners(self.running, c));
    }

    /// Adding an owner to every block of a table fails at the first block or
    /// not at all.
    pub proof fn lemma_fork_blocks(self, i: int)
        requires
            self.tables_sound(),
            0 <= i < self.running.len(),
        ensures
            ({
                let blocks = self.running[i].table.blocks;
                let error = if blocks.len() > 0 {
                    self.pool.incref_error(blocks[0])
                } else {
                    None
                };
                &&& self.pool.incref_each(blocks).1 == error
                &&& error is Some ==> self.pool.incref_each(blocks).0 == self.pool
                &&& error is None ==> forall|x: int|
                    0 <= x < blocks.len() ==> 1 <= self.pool.count(#[trigger] blocks[x])
                        < MAX_REFCOUNT
            }),
    {
        let blocks = self.running[i].table.blocks;
        self.lemma_table_blocks(i);
        if blocks.len() > 0 && self.pool.incref_error(blocks[0]) is Some {
            let one = blocks.take(1);
            assert(one.drop_last() =~= Seq::empty());
            assert(one.last() == blocks[0]);
            assert(self.pool.incref_each(one.drop_last()) == (
                self.pool,
                None::<crate::error::CacheError>,
            ));
            assert(self.pool.incref_each(one) == (
                self.pool,
                self.pool.incref_error(blocks[0]),
            ));
            self.pool.lemma_incref_each_stops(blocks, 1);
        } else {
            assert forall|x: int| 0 <= x < blocks.len() implies self.pool.has(
                #[trigger] blocks[x],
            ) && 1 <= self.pool.count(blocks[x]) < MAX_REFCOUNT by {
                assert(self.pool.has(blocks[0]));
                self.lemma_first_block_leads(i, x);
                assert(self.pool.counts[blocks[0].0 as int] <= MAX_REFCOUNT);
            }
            self.pool.lemma_acquire(blocks);
        }
    }

    /// Forking keeps the schedule sound.
    pub proof fn lemma_fork_sound(self, i: int, r: Running)
        requires
            self.tables_sound(),
            0 <= i < self.running.len(),
            r.table == self.running[i].table,
            r.generated == 0,
            self.pool.incref_each(r.table.blocks).1 is None,
        ensures
            ({
                let s = Schedule {
                    pool: self.pool.incref_each(r.table.blocks).0,
                    running: self.running.push(r),
                    ..self
                };
                s.tables_sound() && (self.sound() ==> s.sound())
            }),
    {
        let blocks = r.table.blocks;
        self.lemma_table_blocks(i);
        self.lemma_fork_blocks(i);
        self.pool.lemma_acquire(blocks);
        let s = Schedule {
            pool: self.pool.incref_each(blocks).0,
            running: self.running.push(r),
            ..self
        };
        let n = self.running.len() as int;
        assert(s.capacity() == self.capacity());
        assert forall|j: int| 0 <= j < s.running.len() implies #[trigger] s.running[j] == if j
            < n {
            self.running[j]
        } else {
            r
        } by {}
        assert forall|b: BlockId| s.pool.has(b) implies #[trigger] s.pool.count(b)
            == schedule::owners(s.running, b) by {
            lemma_owners_push(self.running, r, b);
            assert(self.pool.count(b) == schedule::owners(self.running, b));
        }
        assert forall|j: int, x: int|
            #![trigger s.running[j].table.blocks[x]]
            0 <= j < s.running.len() && 0 <= x < s.running[j].table.blocks.len() implies s.pool.has(
            s.running[j].table.blocks[x],
        ) by {
            if j < n {
                assert(self.pool.has(self.running[j].table.blocks[x]));
            } else {
                assert(self.pool.has(self.running[i].table.blocks[x]));
            }
        }
        assert forall|a: int, j: int, x: int, y: int|
            #![trigger s.running[a].table.blocks[x], s.running[j].table.blocks[y]]
            0 <= a < s.running.len() && 0 <= j < s.running.len() && 0 <= x
                < s.running[a].table.blocks.len() && 0 <= y < s.running[j].table.blocks.len()
                && s.running[a].table.blocks[x] == s.running[j].table.blocks[y] implies x == y
            && s.running[a].table.blocks.take(x) == s.running[j].table.blocks.take(x) by {
            let c = if a < n {
                a
            } else {
                i
            };
            let d = if j < n {
                j
            } else {
                i
            };
            assert(self.running[c].table.blocks[x] == self.running[d].table.blocks[y]);
        }
    }

    /// The schedule once the first `k` sequences were looked at and the
    /// finished ones among them retired.
    pub open spec fn retired(self, k: int) -> Schedule {
        let seen = self.running.take(k);
        Schedule {
            pool: self.pool.decref_each(
                schedule::all_blocks(seen.filter(|r: Running| r.done())),
            ).0,
            running: seen.filter(|r: Running| !r.done()) + self.running.skip(k),
            ..self
        }
    }

    /// One more sequence looked at.
    pub proof fn lemma_retired_step(self, k: int)
        requires
            self.sound(),
            0 <= k < self.running.len(),
            self.retired(k).sound(),
            self.pool.decref_each(
                schedule::all_blocks(self.running.take(k).filter(|r: Running| r.done())),
            ).1 is None,
        ensures
            ({
                let r = self.running[k];
                let seen = self.running.take(k);
                let next = self.running.take(k + 1);
                let at = seen.filter(|r: Running| !r.done()).len() as int;
                let now = self.retired(k);
                &&& 0 <= at < now.running.len()
                &&& now.running[at] == r
                &&& next.filter(|r: Running| r.done()) == if r.done() {
                    seen.filter(|r: Running| r.done()).push(r)
                } else {
                    seen.filter(|r: Running| r.done())
                }
                &&& next.filter(|r: Running| !r.done()).len() == at + if r.done() {
                    0int
                } else {
                    1int
                }
                &&& r.done() ==> self.retired(k + 1) == now.without(at)
                &&& !r.done() ==> self.retired(k + 1) == now
            }),
            self.retired(k + 1).sound(),
            self.retired(k + 1).pool.total == self.retired(k).pool.total,
            self.retired(k + 1).pool.num_blocks == self.retired(k).pool.num_blocks,
            self.pool.decref_each(
                schedule::all_blocks(self.running.take(k + 1).filter(|r: Running| r.done())),
            ).1 is None,
    {
        let r = self.running[k];
        let seen = self.running.take(k);
        let next = self.running.take(k + 1);
        let done = |r: Running| r.done();
        let live = |r: Running| !r.done();
        assert(next.drop_last() =~= seen);
        assert(next.last() == r);
        reveal_with_fuel(Seq::filter, 2);
        let at = seen.filter(live).len() as int;
        let now = self.retired(k);
        assert(now.running[at] == r);
        if r.done() {
            assert(next.filter(done) =~= seen.filter(done).push(r));
            assert(next.filter(live) =~= seen.filter(live));
            assert(seen.filter(done).push(r).drop_last() =~= seen.filter(done));
            assert(schedule::all_blocks(next.filter(done)) == schedule::all_blocks(
                seen.filter(done),
            ) + r.table.blocks);
            self.pool.lemma_decref_each_concat(
                schedule::all_blocks(seen.filter(done)),
                r.table.blocks,
            );
            now.lemma_without_sound(at);
            assert(self.retired(k + 1).running =~= now.running.remove(at));
            assert(self.retired(k + 1) =~= now.without(at));
        } else {
            assert(next.filter(done) =~= seen.filter(done));
            assert(next.filter(live) =~= seen.filter(live).push(r));
            assert(self.retired(k + 1).running =~= now.running);
            assert(self.retired(k + 1) =~= now);
        }
    }

    /// Before any sequence was looked at nothing has changed.
    pub proof fn lemma_retired_start(self)
        ensures
            self.retired(0) == self,
            self.running.take(0).filter(|r: Running| r.done()) == Seq::<Running>::empty(),
            self.running.take(0).filter(|r: Running| !r.done()) == Seq::<Running>::empty(),
            self.pool.decref_each(
                schedule::all_blocks(self.running.take(0).filter(|r: Running| r.done())),
            ).1 is None,
    {
        reveal_with_fuel(Seq::filter, 1);
        assert(self.running.take(0) =~= Seq::empty());
        assert(self.retired(0).running =~= self.running);
        assert(self.retired(0) =~= self);
    }

    /// Once every sequence was looked at the finished ones are retired.
    pub proof fn lemma_retired_end(self)
        ensures
            self.retired(self.running.len() as int) == self.retire(),
            self.running.take(self.running.len() as int) == self.running,
    {
        let n = self.running.len() as int;
        assert(self.running.take(n) =~= self.running);
        assert(self.retired(n).running =~= self.retire().running);
        assert(self.retired(n) =~= self.retire());
    }

    /// Budgets depend on the running sequences alone.
    pub proof fn lemma_budgets_kept(self, s: Schedule)
        requires
            self.budgets_ok(),
            s.running == self.running,
        ensures
            s.budgets_ok(),
    {
        assert forall|j: int| 0 <= j < s.running.len() implies (
        #[trigger] s.running[j]).generated == 0 || !s.running[j].done() by {
            assert(self.running[j] == s.running[j]);
        }
    }
}

} // verus!
