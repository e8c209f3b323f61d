//! A pool and all the tables that hold its blocks, with or without a scheduler.

use vstd::prelude::*;

use crate::config;
use crate::pool::Pool;
use crate::schedule::{self, Running, Schedule};
use crate::soundness;
use crate::table::Table;
use crate::types::{BlockId, SeqId};

verus! {

/// Number of tables that hold `b`.
pub open spec fn holders(tables: Seq<Table>, b: BlockId) -> nat
    decreases tables.len(),
{
    if tables.len() == 0 {
        0
    } else {
        holders(tables.drop_last(), b) + if tables.last().blocks.contains(b) {
            1nat
        } else {
            0nat
        }
    }
}

/// Something done to the tables of a pool.
pub enum TableOp {
    /// A new table, at the end.
    New,
    /// The table at this place takes `n` tokens, or fails to.
    Append { place: int, n: nat },
    /// The table at this place is forked; the child is at the end.
    Fork { place: int },
    /// The table at this place gives its blocks back and is gone.
    Free { place: int },
}

/// A pool and the tables that use it.
#[verifier::ext_equal]
pub struct Ledger {
    pub pool: Pool,
    /// Tokens per block, the same for every table.
    pub block_size: nat,
    /// The tables not yet freed.
    pub tables: Seq<Table>,
}

impl Ledger {
    /// A fresh pool that nobody uses.
    pub open spec fn fresh(num_blocks: nat, block_size: nat) -> Ledger {
        Ledger { pool: Pool::fresh(num_blocks), block_size, tables: Seq::empty() }
    }

    /// The tables are well formed, their blocks are blocks of the pool, each
    /// block has as many owners as there are tables that hold it, and tables
    /// that share a block share everything before it.
    pub open spec fn wf(self) -> bool {
        &&& self.pool.wf()
        &&& self.block_size > 0
        &&& forall|i: int|
            0 <= i < self.tables.len() ==> (#[trigger] self.tables[i]).wf()
                && self.tables[i].block_size == self.block_size
        &&& forall|i: int, x: int|
            #![trigger self.tables[i].blocks[x]]
            0 <= i < self.tables.len() && 0 <= x < self.tables[i].blocks.len() ==> self.pool.has(
                self.tables[i].blocks[x],
            )
        &&& forall|b: BlockId|
            self.pool.has(b) ==> #[trigger] self.pool.count(b) == holders(self.tables, b)
        &&& forall|i: int, j: int, x: int, y: int|
            #![trigger self.tables[i].blocks[x], self.tables[j].blocks[y]]
            0 <= i < self.tables.len() && 0 <= j < self.tables.len() && 0 <= x
                < self.tables[i].blocks.len() && 0 <= y < self.tables[j].blocks.len()
                && self.tables[i].blocks[x] == self.tables[j].blocks[y] ==> x == y
                && self.tables[i].blocks.take(x) == self.tables[j].blocks.take(x)
    }

    /// The operation names a table that is there.
    pub open spec fn possible(self, op: TableOp) -> bool {
        match op {
            TableOp::New => true,
            TableOp::Append { place, .. } => 0 <= place < self.tables.len(),
            TableOp::Fork { place } => 0 <= place < self.tables.len(),
            TableOp::Free { place } => 0 <= place < self.tables.len(),
        }
    }

    /// The pool and the tables afterwards, as the table's own functions leave
    /// them.
    pub open spec fn after(self, op: TableOp) -> Ledger {
        match op {
            TableOp::New => Ledger {
                tables: self.tables.push(Table::empty(self.block_size)),
                ..self
            },
            TableOp::Append { place, n } => {
                let t = self.tables[place];
                if t.append_error(self.pool, n) is None {
                    Ledger {
                        pool: t.pool_after(self.pool, n),
                        tables: self.tables.update(place, t.grown(self.pool, n)),
                        ..self
                    }
                } else {
                    Ledger { pool: t.pool_rolled_back(self.pool, n), ..self }
                }
            },
            TableOp::Fork { place } => {
                let t = self.tables[place];
                let (pool, error) = self.pool.incref_each(t.blocks);
                Ledger {
                    pool,
                    tables: if error is None {
                        self.tables.push(t)
                    } else {
                        self.tables
                    },
                    ..self
                }
            },
            TableOp::Free { place } => Ledger {
                pool: self.pool.decref_each(self.tables[place].blocks).0,
                tables: self.tables.remove(place),
                ..self
            },
        }
    }

    /// Every operation names a table that is there when its turn comes.
    pub open spec fn playable(self, ops: Seq<TableOp>) -> bool
        decreases ops.len(),
    {
        ops.len() > 0 ==> self.possible(ops[0]) && self.after(ops[0]).playable(ops.skip(1))
    }

    /// The pool and the tables after all of `ops`.
    pub open spec fn run(self, ops: Seq<TableOp>) -> Ledger
        decreases ops.len(),
    {
        if ops.len() == 0 {
            self
        } else {
            self.after(ops[0]).run(ops.skip(1))
        }
    }

    /// No other table holds a block of the table at `i`.
    pub open spec fn unshared(self, i: int) -> bool {
        forall|x: int|
            0 <= x < self.tables[i].blocks.len() ==> self.pool.count(
                #[trigger] self.tables[i].blocks[x],
            ) == 1
    }

    /// Where the table at `i` is afterwards.
    pub open spec fn place_after(op: TableOp, i: int) -> int {
        match op {
            TableOp::Free { place } => if place < i {
                i - 1
            } else {
                i
            },
            _ => i,
        }
    }

    /// Where the table at `i` is after all of `ops`.
    pub open spec fn place_after_all(ops: Seq<TableOp>, i: int) -> int
        decreases ops.len(),
    {
        if ops.len() == 0 {
            i
        } else {
            Ledger::place_after_all(ops.skip(1), Ledger::place_after(ops[0], i))
        }
    }

    /// The table at `i` is neither forked nor freed by `ops`.
    pub open spec fn left_whole(ops: Seq<TableOp>, i: int) -> bool
        decreases ops.len(),
    {
        ops.len() > 0 ==> {
            &&& ops[0] != TableOp::Fork { place: i }
            &&& ops[0] != TableOp::Free { place: i }
            &&& Ledger::left_whole(ops.skip(1), Ledger::place_after(ops[0], i))
        }
    }

    /// The tables as those of running sequences.
    spec fn as_schedule(self) -> Schedule {
        Schedule {
            pool: self.pool,
            block_size: self.block_size,
            max_batch: 0,
            waiting: Seq::empty(),
            running: self.tables.map_values(
                |t: Table| Running { id: SeqId(0), table: t, max_new: 0, generated: 0 },
            ),
        }
    }

    /// Holders are owners.
    proof fn lemma_holders(tables: Seq<Table>, running: Seq<Running>, b: BlockId)
        requires
            running.len() == tables.len(),
            forall|j: int| 0 <= j < tables.len() ==> (#[trigger] running[j]).table == tables[j],
        ensures
            holders(tables, b) == schedule::owners(running, b),
        decreases tables.len(),
    {
        if tables.len() > 0 {
            let front = running.drop_last();
            assert forall|j: int| 0 <= j < tables.len() - 1 implies (#[trigger] front[j]).table
                == tables.drop_last()[j] by {
                assert(running[j].table == tables[j]);
            }
            Ledger::lemma_holders(tables.drop_last(), front, b);
            assert(running[tables.len() - 1].table == tables[tables.len() - 1]);
        }
    }

    /// A ledger as a schedule.
    proof fn lemma_as_schedule(self)
        requires
            self.wf(),
        ensures
            self.as_schedule().tables_sound(),
            self.as_schedule().running.len() == self.tables.len(),
            forall|j: int|
                0 <= j < self.tables.len() ==> (#[trigger] self.as_schedule().running[j]).table
                    == self.tables[j],
    {
        let s = self.as_schedule();
        assert forall|b: BlockId| s.pool.has(b) implies #[trigger] s.pool.count(b)
            == schedule::owners(s.running, b) by {
            Ledger::lemma_holders(self.tables, s.running, b);
            assert(self.pool.count(b) == holders(self.tables, b));
        }
        assert forall|i: int| 0 <= i < s.running.len() implies {
            &&& (#[trigger] s.running[i]).table.wf()
            &&& s.running[i].table.block_size == s.block_size
            &&& s.running[i].generated <= s.running[i].table.tokens
        } by {
            assert(self.tables[i].wf());
        }
        assert forall|i: int, x: int|
            #![trigger s.running[i].table.blocks[x]]
            0 <= i < s.running.len() && 0 <= x < s.running[i].table.blocks.len() implies s.pool.has(
            s.running[i].table.blocks[x],
        ) by {
            assert(self.pool.has(self.tables[i].blocks[x]));
        }
        assert forall|i: int, j: int, x: int, y: int|
            #![trigger s.running[i].table.blocks[x], s.running[j].table.blocks[y]]
            0 <= i < s.running.len() && 0 <= j < s.running.len() && 0 <= x
                < s.running[i].table.blocks.len() && 0 <= y < s.running[j].table.blocks.len()
                && s.running[i].table.blocks[x] == s.running[j].table.blocks[y] implies x == y
            && s.running[i].table.blocks.take(x) == s.running[j].table.blocks.take(x) by {
            assert(self.tables[i].blocks[x] == self.tables[j].blocks[y]);
        }
    }

    /// A schedule as a ledger.
    proof fn lemma_from_schedule(self, s: Schedule)
        requires
            s.tables_sound(),
            s.pool == self.pool,
            s.block_size == self.block_size,
            self.block_size > 0,
            s.running.len() == self.tables.len(),
            forall|j: int|
                0 <= j < self.tables.len() ==> (#[trigger] s.running[j]).table == self.tables[j],
        ensures
            self.wf(),
    {
        assert forall|b: BlockId| self.pool.has(b) implies #[trigger] self.pool.count(b) == holders(
            self.tables,
            b,
        ) by {
            Ledger::lemma_holders(self.tables, s.running, b);
            assert(s.pool.count(b) == schedule::owners(s.running, b));
        }
        assert forall|i: int| 0 <= i < self.tables.len() implies (#[trigger] self.tables[i]).wf()
            && self.tables[i].block_size == self.block_size by {
            assert(s.running[i].table.wf());
        }
        assert forall|i: int, x: int|
            #![trigger self.tables[i].blocks[x]]
            0 <= i < self.tables.len() && 0 <= x < self.tables[i].blocks.len() implies self.pool.has(
            self.tables[i].blocks[x],
        ) by {
            assert(s.running[i].table == self.tables[i]);
            assert(s.pool.has(s.running[i].table.blocks[x]));
        }
        assert forall|i: int, j: int, x: int, y: int|
            #![trigger self.tables[i].blocks[x], self.tables[j].blocks[y]]
            0 <= i < self.tables.len() && 0 <= j < self.tables.len() && 0 <= x
                < self.tables[i].blocks.len() && 0 <= y < self.tables[j].blocks.len()
                && self.tables[i].blocks[x] == self.tables[j].blocks[y] implies x == y
            && self.tables[i].blocks.take(x) == self.tables[j].blocks.take(x) by {
            assert(s.running[i].table == self.tables[i]);
            assert(s.running[j].table == self.tables[j]);
            assert(s.running[i].table.blocks[x] == s.running[j].table.blocks[y]);
        }
    }

    /// A new table keeps the books.
    proof fn lemma_new_keeps(self)
        requires
            self.wf(),
        ensures
            self.after(TableOp::New).wf(),
    {
        let s = self.as_schedule();
        self.lemma_as_schedule();
        let t = Table::empty(self.block_size);
        assert(0 * self.block_size == 0);
        let r = Running { id: SeqId(0), table: t, max_new: 0, generated: 0 };
        s.lemma_new_sequence_sound(self.pool, r);
        let l = self.after(TableOp::New);
        let u = Schedule { pool: self.pool, running: s.running.push(r), ..s };
        assert forall|j: int| 0 <= j < l.tables.len() implies (#[trigger] u.running[j]).table
            == l.tables[j] by {
            if j < self.tables.len() {
                assert(s.running[j].table == self.tables[j]);
            }
        }
        l.lemma_from_schedule(u);
    }

    /// Appending tokens that have room keeps the books.
    proof fn lemma_append_keeps(self, i: int, n: nat)
        requires
            self.wf(),
            0 <= i < self.tables.len(),
            self.tables[i].append_error(self.pool, n) is None,
        ensures
            self.after(TableOp::Append { place: i, n }).wf(),
        decreases n,
    {
        let t = self.tables[i];
        let p = self.pool;
        let l = self.after(TableOp::Append { place: i, n });
        if n == 0 {
            assert(t.grown(p, 0) =~= t);
            assert(l.tables =~= self.tables);
            assert(l =~= self);
        } else {
            let k = (n - 1) as nat;
            if t.append_error(p, k) is Some {
                t.lemma_error_persists(p, k, n);
            }
            self.lemma_append_keeps(i, k);
            t.lemma_one_more(p, k);
            let before = self.after(TableOp::Append { place: i, n: k });
            let s = before.as_schedule();
            before.lemma_as_schedule();
            assert(s.running[i].table == before.tables[i]);
            s.lemma_write_sound(i);
            let u = s.write_token(i);
            assert forall|j: int| 0 <= j < l.tables.len() implies (#[trigger] u.running[j]).table
                == l.tables[j] by {
                assert(s.running[j].table == before.tables[j]);
            }
            l.lemma_from_schedule(u);
        }
    }

    /// A block of a table has an owner, and no table holds a block twice.
    proof fn lemma_blocks(self, i: int)
        requires
            self.wf(),
            0 <= i < self.tables.len(),
        ensures
            self.tables[i].blocks.no_duplicates(),
            forall|x: int|
                0 <= x < self.tables[i].blocks.len() ==> self.pool.has(
                    #[trigger] self.tables[i].blocks[x],
                ) && self.pool.count(self.tables[i].blocks[x]) >= 1,
    {
        self.lemma_as_schedule();
        let s = self.as_schedule();
        assert(s.running[i].table == self.tables[i]);
        s.lemma_table_blocks(i);
    }

    /// A failed append keeps the books.
    proof fn lemma_failed_append_keeps(self, i: int, n: nat)
        requires
            self.wf(),
            0 <= i < self.tables.len(),
            self.tables[i].append_error(self.pool, n) is Some,
        ensures
            self.after(TableOp::Append { place: i, n }).wf(),
            self.after(TableOp::Append { place: i, n }).pool.counts == self.pool.counts,
    {
        let t = self.tables[i];
        let s = self.as_schedule();
        let l = self.after(TableOp::Append { place: i, n });
        self.lemma_as_schedule();
        t.failed_append_gives_everything_back(self.pool, n);
        s.lemma_same_counts_sound(l.pool);
        l.lemma_from_schedule(Schedule { pool: l.pool, ..s });
    }

    /// A single token that cannot be placed leaves no trace.
    pub proof fn failed_append_of_one_changes_nothing(self, i: int)
        requires
            self.wf(),
            0 <= i < self.tables.len(),
            self.tables[i].append_error(self.pool, 1) is Some,
        ensures
            self.after(TableOp::Append { place: i, n: 1 }) == self,
    {
        let t = self.tables[i];
        self.lemma_blocks(i);
        t.lemma_growth_one();
        if t.has_room() {
            t.lemma_room();
            assert(self.pool.has(t.blocks[t.blocks.len() - 1]));
        }
        assert(self.pool.churned() =~= self.pool);
    }

    /// Whatever is done to the tables, the books are kept: the owner counts of
    /// the pool stay the numbers of tables that hold each block. A fork that
    /// fails changes nothing, and giving blocks back never fails.
    pub proof fn every_operation_keeps_the_books(self, op: TableOp)
        requires
            self.wf(),
            self.possible(op),
        ensures
            self.after(op).wf(),
            op matches TableOp::Fork { place } ==> {
                ||| self.pool.incref_each(self.tables[place].blocks).1 is None
                ||| self.after(op) == self
            },
            op matches TableOp::Free { place } ==> self.pool.decref_each(
                self.tables[place].blocks,
            ).1 is None,
    {
        let s = self.as_schedule();
        let l = self.after(op);
        self.lemma_as_schedule();
        match op {
            TableOp::New => {
                self.lemma_new_keeps();
            },
            TableOp::Append { place, n } => {
                if self.tables[place].append_error(self.pool, n) is None {
                    self.lemma_append_keeps(place, n);
                } else {
                    self.lemma_failed_append_keeps(place, n);
                }
            },
            TableOp::Fork { place } => {
                let t = self.tables[place];
                assert(s.running[place].table == t);
                s.lemma_fork_blocks(place);
                if self.pool.incref_each(t.blocks).1 is None {
                    let r = Running { id: SeqId(0), table: t, max_new: 0, generated: 0 };
                    s.lemma_fork_sound(place, r);
                    let u = Schedule {
                        pool: s.pool.incref_each(r.table.blocks).0,
                        running: s.running.push(r),
                        ..s
                    };
                    assert forall|j: int| 0 <= j < l.tables.len() implies (
                    #[trigger] u.running[j]).table == l.tables[j] by {
                        if j < self.tables.len() {
                            assert(s.running[j].table == self.tables[j]);
                        }
                    }
                    l.lemma_from_schedule(u);
                } else {
                    assert(l =~= self);
                }
            },
            TableOp::Free { place } => {
                assert(s.running[place].table == self.tables[place]);
                s.lemma_without_sound(place);
                let u = s.without(place);
                assert forall|j: int| 0 <= j < l.tables.len() implies (
                #[trigger] u.running[j]).table == l.tables[j] by {
                    let k = if j < place {
                        j
                    } else {
                        j + 1
                    };
                    assert(s.running[k].table == self.tables[k]);
                }
                l.lemma_from_schedule(u);
            },
        }
    }

    /// The books are kept over any history of a pool that is used only through
    /// its tables.
    pub proof fn every_history_keeps_the_books(self, ops: Seq<TableOp>)
        requires
            self.wf(),
            self.playable(ops),
        ensures
            self.run(ops).wf(),
        decreases ops.len(),
    {
        if ops.len() > 0 {
            self.every_operation_keeps_the_books(ops[0]);
            self.after(ops[0]).every_history_keeps_the_books(ops.skip(1));
        }
    }

    /// The books of a fresh pool are in order.
    pub proof fn fresh_books_are_in_order(num_blocks: nat, block_size: nat)
        requires
            num_blocks <= u32::MAX + 1,
            block_size > 0,
        ensures
            Ledger::fresh(num_blocks, block_size).wf(),
    {
        Pool::lemma_fresh_wf(num_blocks);
    }

    /// What the books say of a table: it has exactly the blocks its tokens
    /// need, all of them different, each with as many owners as there are
    /// tables that hold it, and its tokens have addresses of their own.
    pub proof fn tables_own_what_they_hold(self, i: int, p: nat, q: nat)
        requires
            self.wf(),
            self.block_size <= usize::MAX,
            0 <= i < self.tables.len(),
        ensures
            self.tables[i].blocks.len() == config::ceil_div(
                self.tables[i].tokens,
                self.block_size,
            ),
            self.tables[i].blocks.no_duplicates(),
            forall|b: BlockId|
                self.tables[i].blocks.contains(b) ==> self.pool.has(b) && #[trigger] self.pool.count(
                    b,
                ) == holders(self.tables, b) && self.pool.count(b) >= 1,
            p < self.tables[i].tokens ==> {
                let at = self.tables[i].slot_at(p);
                &&& at.block == self.tables[i].blocks[p as int / self.block_size as int]
                &&& self.tables[i].blocks.contains(at.block)
                &&& at.slot == p % self.block_size
                &&& at.slot < self.block_size
            },
            p < self.tables[i].tokens && q < self.tables[i].tokens && p != q
                ==> self.tables[i].slot_at(p) != self.tables[i].slot_at(q),
    {
        let t = self.tables[i];
        self.lemma_blocks(i);
        t.lemma_room();
        assert forall|b: BlockId| t.blocks.contains(b) implies self.pool.has(b)
            && #[trigger] self.pool.count(b) == holders(self.tables, b) && self.pool.count(b)
            >= 1 by {
            let x = choose|x: int| 0 <= x < t.blocks.len() && t.blocks[x] == b;
            assert(self.pool.has(self.tables[i].blocks[x]));
        }
        if p < t.tokens {
            t.tokens_have_addresses(p);
            if q < t.tokens && p != q {
                t.addresses_are_distinct(p, q);
            }
        }
    }

    /// A block with one owner is in no second table.
    proof fn lemma_private(self, i: int, j: int, b: BlockId)
        requires
            self.wf(),
            0 <= i < self.tables.len(),
            0 <= j < self.tables.len(),
            i != j,
            self.tables[i].blocks.contains(b),
            self.pool.has(b),
            self.pool.count(b) == 1,
        ensures
            !self.tables[j].blocks.contains(b),
    {
        if self.tables[j].blocks.contains(b) {
            self.lemma_as_schedule();
            let s = self.as_schedule();
            assert(s.running[i].table == self.tables[i]);
            assert(s.running[j].table == self.tables[j]);
            soundness::lemma_two_owners(s.running, i, j, b);
            assert(s.pool.count(b) == schedule::owners(s.running, b));
        }
    }

    /// A write never lands in a block that someone else can read: the block of
    /// every token just placed has one owner, the table it was placed for, and
    /// no other table holds it, neither parent nor fork. The token resolves to
    /// the slot that was handed out.
    pub proof fn appended_tokens_are_private(self, i: int, n: nat, k: nat, j: int)
        requires
            self.wf(),
            self.block_size <= usize::MAX,
            0 <= i < self.tables.len(),
            self.tables[i].append_error(self.pool, n) is None,
            k < n,
        ensures
            ({
                let after = self.after(TableOp::Append { place: i, n });
                let at = self.tables[i].slots(self.pool, n)[k as int];
                &&& after.pool.has(at.block)
                &&& after.pool.count(at.block) == 1
                &&& at.slot == (self.tables[i].tokens + k) % self.block_size
                &&& after.tables[i].slot_at(self.tables[i].tokens + k) == at
                &&& after.tables[i].blocks.contains(at.block)
                &&& 0 <= j < self.tables.len() && j != i ==> !after.tables[j].blocks.contains(
                    at.block,
                )
            }),
    {
        let t = self.tables[i];
        let after = self.after(TableOp::Append { place: i, n });
        let at = t.slots(self.pool, n)[k as int];
        self.lemma_append_keeps(i, n);
        self.lemma_blocks(i);
        t.lemma_room();
        if t.has_room() {
            assert(self.pool.has(t.blocks[t.blocks.len() - 1]));
        }
        t.written_blocks_are_private(self.pool, n, k);
        assert(after.tables[i].wf());
        after.tables[i].tokens_have_addresses(t.tokens + k);
        let x = choose|x: int|
            0 <= x < after.tables[i].blocks.len() && after.tables[i].blocks[x] == at.block;
        assert(after.pool.has(after.tables[i].blocks[x]));
        if 0 <= j < self.tables.len() && j != i {
            after.lemma_private(i, j, at.block);
        }
    }

    /// A new table shares nothing.
    pub proof fn new_table_is_unshared(self)
        ensures
            self.after(TableOp::New).unshared(self.tables.len() as int),
            self.after(TableOp::New).tables[self.tables.len() as int].tokens == 0,
    {
    }

    /// As long as a table is not forked, it shares nothing and its tokens stay
    /// where they were put, whatever is done to it or to others.
    proof fn lemma_unforked_stays(self, op: TableOp, i: int, p: nat)
        requires
            self.wf(),
            self.possible(op),
            0 <= i < self.tables.len(),
            self.unshared(i),
            op != (TableOp::Fork { place: i }),
            op != (TableOp::Free { place: i }),
        ensures
            ({
                let after = self.after(op);
                let k = Ledger::place_after(op, i);
                &&& 0 <= k < after.tables.len()
                &&& after.unshared(k)
                &&& after.tables[k].tokens >= self.tables[i].tokens
                &&& p < self.tables[i].tokens ==> after.tables[k].slot_at(p)
                    == self.tables[i].slot_at(p)
            }),
    {
        let t = self.tables[i];
        let after = self.after(op);
        let k = Ledger::place_after(op, i);
        self.lemma_blocks(i);
        match op {
            TableOp::New => {},
            TableOp::Append { place, n } => {
                let u = self.tables[place];
                self.lemma_blocks(place);
                if u.append_error(self.pool, n) is None {
                    u.lemma_pool_after(self.pool, n);
                    u.lemma_room();
                    let taken = self.pool.popped(u.needed(self.pool, n));
                    self.pool.allocated_blocks_are_private(u.needed(self.pool, n));
                    assert forall|b: BlockId| t.blocks.contains(b) implies #[trigger] after.pool.count(
                        b,
                    ) == 1 by {
                        let x = choose|x: int| 0 <= x < t.blocks.len() && t.blocks[x] == b;
                        assert(self.pool.has(b) && self.pool.count(self.tables[i].blocks[x]) == 1);
                        if taken.contains(b) {
                            let y = choose|y: int| 0 <= y < taken.len() && taken[y] == b;
                            assert(self.pool.count(taken[y]) == 0);
                        }
                    }
                    if place == i {
                        if t.has_room() {
                            assert(self.pool.count(self.tables[i].blocks[t.blocks.len() - 1]) == 1);
                        }
                        assert(!t.needs_copy(self.pool));
                        assert forall|x: int| 0 <= x < after.tables[i].blocks.len() implies
                            after.pool.count(#[trigger] after.tables[i].blocks[x]) == 1 by {
                            if x < t.blocks.len() {
                                assert(t.blocks.contains(t.blocks[x]));
                            } else {
                                let y = x - t.blocks.len();
                                assert(after.tables[i].blocks[x] == taken[y]);
                                assert(taken.contains(taken[y]));
                                assert(self.pool.has(taken[y]));
                            }
                        }
                        if p < t.tokens {
                            t.written_tokens_stay(self.pool, n, p);
                        }
                    } else {
                        assert forall|x: int| 0 <= x < after.tables[i].blocks.len() implies
                            after.pool.count(#[trigger] after.tables[i].blocks[x]) == 1 by {
                            assert(t.blocks.contains(t.blocks[x]));
                        }
                    }
                } else {
                    self.lemma_failed_append_keeps(place, n);
                    assert forall|x: int| 0 <= x < after.tables[i].blocks.len() implies
                        after.pool.count(#[trigger] after.tables[i].blocks[x]) == 1 by {
                        assert(self.pool.count(self.tables[i].blocks[x]) == 1);
                    }
                }
            },
            TableOp::Fork { place } => {
                let u = self.tables[place];
                self.every_operation_keeps_the_books(op);
                if self.pool.incref_each(u.blocks).1 is None {
                    self.lemma_as_schedule();
                    let s = self.as_schedule();
                    assert(s.running[place].table == u);
                    self.lemma_blocks(place);
                    s.lemma_fork_blocks(place);
                    self.pool.lemma_acquire(u.blocks);
                    assert forall|x: int| 0 <= x < after.tables[i].blocks.len() implies
                        after.pool.count(#[trigger] after.tables[i].blocks[x]) == 1 by {
                        let b = t.blocks[x];
                        assert(self.pool.count(self.tables[i].blocks[x]) == 1);
                        assert(t.blocks.contains(b));
                        self.lemma_private(i, place, b);
                        assert(after.pool.count(b) == self.pool.count(b));
                    }
                }
            },
            TableOp::Free { place } => {
                let u = self.tables[place];
                self.lemma_blocks(place);
                self.pool.lemma_release(u.blocks);
                assert(after.tables[k] == t);
                assert forall|x: int| 0 <= x < after.tables[k].blocks.len() implies
                    after.pool.count(#[trigger] after.tables[k].blocks[x]) == 1 by {
                    let b = t.blocks[x];
                    assert(self.pool.count(self.tables[i].blocks[x]) == 1);
                    assert(t.blocks.contains(b));
                    self.lemma_private(i, place, b);
                    assert(after.pool.count(b) == self.pool.count(b));
                }
            },
        }
    }

    /// The tokens of a table that is never forked stay where they were put, over
    /// any history of it and of the other tables of the pool.
    pub proof fn tokens_of_an_unforked_table_stay(self, ops: Seq<TableOp>, i: int, p: nat)
        requires
            self.wf(),
            self.playable(ops),
            0 <= i < self.tables.len(),
            self.unshared(i),
            Ledger::left_whole(ops, i),
        ensures
            ({
                let after = self.run(ops);
                let k = Ledger::place_after_all(ops, i);
                &&& 0 <= k < after.tables.len()
                &&& after.unshared(k)
                &&& after.tables[k].tokens >= self.tables[i].tokens
                &&& p < self.tables[i].tokens ==> after.tables[k].slot_at(p)
                    == self.tables[i].slot_at(p)
            }),
        decreases ops.len(),
    {
        if ops.len() > 0 {
            let k = Ledger::place_after(ops[0], i);
            self.lemma_unforked_stays(ops[0], i, p);
            self.every_operation_keeps_the_books(ops[0]);
            self.after(ops[0]).tokens_of_an_unforked_table_stay(ops.skip(1), k, p);
        }
    }
}

} // verus!
