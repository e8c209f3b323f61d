//! The scheduler as a mathematical state machine.

use vstd::prelude::*;

use crate::error::CacheError;
use crate::pool::Pool;
use crate::scheduler::DecodedToken;
use crate::table::Table;
use crate::types::{BlockId, SeqId};

verus! {

/// A request that holds no blocks.
#[verifier::ext_equal]
pub struct Pending {
    pub id: SeqId,
    /// Tokens that need slots before generation can start or resume.
    pub context_len: nat,
    /// Tokens still to generate.
    pub max_new: nat,
}

/// A sequence that owns blocks and is being decoded.
#[verifier::ext_equal]
pub struct Running {
    pub id: SeqId,
    pub table: Table,
    /// Token budget.
    pub max_new: nat,
    /// Tokens generated so far.
    pub generated: nat,
}

/// What one scheduling step reports.
#[verifier::ext_equal]
pub struct Outcome {
    pub admitted: Seq<SeqId>,
    pub decoded: Seq<DecodedToken>,
    pub preempted: Seq<SeqId>,
    pub finished: Seq<SeqId>,
}

/// The state of a scheduler.
#[verifier::ext_equal]
pub struct Schedule {
    pub pool: Pool,
    pub block_size: nat,
    pub max_batch: nat,
    /// Requests in the order in which they will be admitted.
    pub waiting: Seq<Pending>,
    /// Sequences in the order of their admission.
    pub running: Seq<Running>,
}

impl Running {
    /// The sequence has used up its token budget.
    pub open spec fn done(self) -> bool {
        self.generated >= self.max_new
    }

    /// The request that stands for this sequence once its blocks are gone.
    pub open spec fn requeued(self) -> Pending {
        Pending {
            id: self.id,
            context_len: self.table.tokens,
            max_new: (self.max_new - self.generated) as nat,
        }
    }

    /// What a snapshot shows: id, tokens, tokens generated, budget and blocks.
    pub open spec fn info(self) -> (SeqId, nat, nat, nat, Seq<BlockId>) {
        (self.id, self.table.tokens, self.generated, self.max_new, self.table.blocks)
    }
}

impl Outcome {
    /// Nothing happened.
    pub open spec fn nothing() -> Outcome {
        Outcome {
            admitted: Seq::empty(),
            decoded: Seq::empty(),
            preempted: Seq::empty(),
            finished: Seq::empty(),
        }
    }

    /// `id` loses its blocks: tokens decoded for it this step never happened.
    pub open spec fn with_preempted(self, id: SeqId) -> Outcome {
        Outcome {
            decoded: self.decoded.filter(|d: DecodedToken| d.id != id),
            preempted: self.preempted.push(id),
            ..self
        }
    }
}

/// Number of sequences whose table contains `b`.
pub open spec fn owners(running: Seq<Running>, b: BlockId) -> nat
    decreases running.len(),
{
    if running.len() == 0 {
        0
    } else {
        owners(running.drop_last(), b) + if running.last().table.blocks.contains(b) {
            1nat
        } else {
            0nat
        }
    }
}

/// Blocks of all the tables, one table after the other.
pub open spec fn all_blocks(running: Seq<Running>) -> Seq<BlockId>
    decreases running.len(),
{
    if running.len() == 0 {
        Seq::empty()
    } else {
        all_blocks(running.drop_last()) + running.last().table.blocks
    }
}

impl Schedule {
    /// A scheduler with nothing to do over a fresh pool.
    pub open spec fn fresh(num_blocks: nat, block_size: nat, max_batch: nat) -> Schedule {
        Schedule {
            pool: Pool::fresh(num_blocks),
            block_size,
            max_batch,
            waiting: Seq::empty(),
            running: Seq::empty(),
        }
    }

    /// Tokens that the whole pool can hold.
    pub open spec fn capacity(self) -> nat {
        self.pool.num_blocks * self.block_size
    }

    /// Nothing runs and nothing waits.
    pub open spec fn idle(self) -> bool {
        self.waiting.len() == 0 && self.running.len() == 0
    }

    /// The ids in the line: the running ones, then the waiting ones.
    pub open spec fn line(self) -> Seq<SeqId> {
        self.running.map_values(|r: Running| r.id) + self.waiting.map_values(|w: Pending| w.id)
    }

    /// Two tables that share a block share everything before it, at the same
    /// places. In particular no table holds a block twice.
    pub open spec fn shares_prefixes(self) -> bool {
        forall|i: int, j: int, x: int, y: int|
            #![trigger self.running[i].table.blocks[x], self.running[j].table.blocks[y]]
            0 <= i < self.running.len() && 0 <= j < self.running.len() && 0 <= x
                < self.running[i].table.blocks.len() && 0 <= y < self.running[j].table.blocks.len()
                && self.running[i].table.blocks[x] == self.running[j].table.blocks[y] ==> x == y
                && self.running[i].table.blocks.take(x) == self.running[j].table.blocks.take(x)
    }

    /// Every block of every table is in the pool, and the owner counts of the
    /// pool are the numbers of tables that hold each block: nothing is leaked
    /// and nothing is freed too early.
    pub open spec fn balanced(self) -> bool {
        &&& forall|i: int, x: int|
            #![trigger self.running[i].table.blocks[x]]
            0 <= i < self.running.len() && 0 <= x < self.running[i].table.blocks.len()
                ==> self.pool.has(self.running[i].table.blocks[x])
        &&& forall|b: BlockId|
            self.pool.has(b) ==> #[trigger] self.pool.count(b) == owners(self.running, b)
    }

    /// The tables are well formed and none has generated more than it holds.
    pub open spec fn tables_ok(self) -> bool {
        forall|i: int|
            0 <= i < self.running.len() ==> {
                &&& (#[trigger] self.running[i]).table.wf()
                &&& self.running[i].table.block_size == self.block_size
                &&& self.running[i].generated <= self.running[i].table.tokens
            }
    }

    /// The pool and the tables agree.
    pub open spec fn tables_sound(self) -> bool {
        &&& self.pool.wf()
        &&& self.tables_ok()
        &&& self.balanced()
        &&& self.shares_prefixes()
    }

    /// What holds even in the middle of a step.
    pub open spec fn sound(self) -> bool {
        &&& self.tables_sound()
        &&& forall|i: int|
            0 <= i < self.waiting.len() ==> (#[trigger] self.waiting[i]).context_len
                <= self.capacity()
        &&& self.capacity() <= usize::MAX || self.idle()
    }

    /// A sequence that has started has budget left.
    pub open spec fn budgets_ok(self) -> bool {
        forall|i: int|
            0 <= i < self.running.len() ==> (#[trigger] self.running[i]).generated == 0
                || !self.running[i].done()
    }

    /// The invariant of a scheduler between calls.
    pub open spec fn wf(self) -> bool {
        self.sound() && self.budgets_ok()
    }

    /// Index of the first running sequence called `id`.
    pub open spec fn is_first(self, id: SeqId, i: int) -> bool {
        &&& 0 <= i < self.running.len()
        &&& self.running[i].id == id
        &&& forall|j: int| 0 <= j < i ==> (#[trigger] self.running[j]).id != id
    }

    /// Index of the first running sequence called `id`, if there is one.
    pub open spec fn position(self, id: SeqId) -> Option<int> {
        if exists|i: int| self.is_first(id, i) {
            Some(choose|i: int| self.is_first(id, i))
        } else {
            None
        }
    }

    /// Why a request cannot be queued, if it cannot: it would not fit in the
    /// pool even alone. The error names the blocks it would need, or the
    /// greatest number there is if they are more than that.
    pub open spec fn request_error(self, prompt_len: nat, max_new: nat) -> Option<CacheError> {
        let blocks = crate::config::ceil_div(prompt_len + max_new, self.block_size);
        if prompt_len + max_new > self.capacity() {
            Some(
                CacheError::OutOfBlocks {
                    requested: if blocks <= usize::MAX {
                        blocks as usize
                    } else {
                        usize::MAX
                    },
                    available: self.pool.num_blocks as usize,
                },
            )
        } else {
            None
        }
    }

    /// The scheduler with one more request at the end of the line.
    pub open spec fn with_request(self, id: SeqId, prompt_len: nat, max_new: nat) -> Schedule {
        Schedule {
            waiting: self.waiting.push(Pending { id, context_len: prompt_len, max_new }),
            ..self
        }
    }

    /// Why `parent` cannot be forked, if it cannot: it is not running, or its
    /// first block has as many owners as the counter can count.
    pub open spec fn fork_error(self, parent: SeqId) -> Option<CacheError> {
        match self.position(parent) {
            None => Some(CacheError::UnknownSequence { id: parent }),
            Some(i) => {
                let blocks = self.running[i].table.blocks;
                if blocks.len() > 0 {
                    self.pool.incref_error(blocks[0])
                } else {
                    None
                }
            },
        }
    }

    /// The scheduler after `parent` was forked: the child runs with the same
    /// blocks, each of which has one owner more.
    pub open spec fn with_fork(self, parent: SeqId, child: SeqId, max_new: nat) -> Schedule {
        let r = self.running[self.position(parent).unwrap()];
        Schedule {
            pool: self.pool.incref_each(r.table.blocks).0,
            running: self.running.push(
                Running { id: child, table: r.table, max_new, generated: 0 },
            ),
            ..self
        }
    }

    /// There is a request and room in the batch for it.
    pub open spec fn may_admit(self) -> bool {
        self.running.len() < self.max_batch && self.waiting.len() > 0
    }

    /// Why the first request in the queue does not fit right now, if so.
    pub open spec fn front_error(self) -> Option<CacheError> {
        Table::empty(self.block_size).append_error(self.pool, self.waiting[0].context_len)
    }

    /// The first request in the queue gets blocks for its context and runs.
    pub open spec fn admit_front(self) -> Schedule {
        let w = self.waiting[0];
        let t = Table::empty(self.block_size);
        Schedule {
            pool: t.pool_after(self.pool, w.context_len),
            waiting: self.waiting.skip(1),
            running: self.running.push(
                Running {
                    id: w.id,
                    table: t.grown(self.pool, w.context_len),
                    max_new: w.max_new,
                    generated: 0,
                },
            ),
            ..self
        }
    }

    /// Admission: requests enter strictly in order, up to the batch size, until
    /// one does not fit.
    pub open spec fn admission(self) -> (Schedule, Seq<SeqId>)
        decreases self.waiting.len(),
    {
        if !self.may_admit() {
            (self, Seq::empty())
        } else if self.front_error() is None {
            let (s, ids) = self.admit_front().admission();
            (s, seq![self.waiting[0].id] + ids)
        } else {
            let t = Table::empty(self.block_size);
            (
                Schedule {
                    pool: t.pool_rolled_back(self.pool, self.waiting[0].context_len),
                    ..self
                },
                Seq::empty(),
            )
        }
    }

    /// Sequence `i` gives its blocks back and waits at the front of the queue.
    pub open spec fn preempt(self, i: int) -> Schedule {
        let r = self.running[i];
        Schedule {
            pool: self.pool.decref_each(r.table.blocks).0,
            running: self.running.remove(i),
            waiting: seq![r.requeued()] + self.waiting,
            ..self
        }
    }

    /// Sequence `i` writes one token.
    pub open spec fn write_token(self, i: int) -> Schedule {
        let r = self.running[i];
        Schedule {
            pool: r.table.pool_after(self.pool, 1),
            running: self.running.update(
                i,
                Running {
                    table: r.table.grown(self.pool, 1),
                    generated: r.generated + 1,
                    ..r
                },
            ),
            ..self
        }
    }

    /// What writing one token of sequence `i` reports.
    pub open spec fn token(self, i: int) -> DecodedToken {
        let r = self.running[i];
        DecodedToken {
            id: r.id,
            slot: r.table.grown(self.pool, 1).slot_at(r.table.tokens),
            cow: r.table.copy_owed(self.pool),
        }
    }

    /// The next token of sequence `i` can be placed.
    pub open spec fn can_write(self, i: int) -> bool {
        self.running[i].table.append_error(self.pool, 1) is None
    }

    /// Advance `id` by one token. As long as there is no block for it, the
    /// newest running sequence is preempted, `id` itself last of all.
    pub open spec fn advance(self, o: Outcome, id: SeqId) -> (Schedule, Outcome)
        decreases self.running.len(),
    {
        match self.position(id) {
            None => (self, o),
            Some(i) => if self.can_write(i) {
                (
                    self.write_token(i),
                    Outcome { decoded: o.decoded.push(self.token(i)), ..o },
                )
            } else if self.running.len() == 0 {
                (self, o)
            } else {
                let v = self.running.len() - 1;
                self.preempt(v).advance(o.with_preempted(self.running[v].id), id)
            },
        }
    }

    /// Advance each of `ids` in turn.
    pub open spec fn decode(self, o: Outcome, ids: Seq<SeqId>) -> (Schedule, Outcome)
        decreases ids.len(),
    {
        if ids.len() == 0 {
            (self, o)
        } else {
            let (s, p) = self.advance(o, ids[0]);
            s.decode(p, ids.skip(1))
        }
    }

    /// Sequences that have used up their budget.
    pub open spec fn finished(self) -> Seq<Running> {
        self.running.filter(|r: Running| r.done())
    }

    /// Sequences that have used up their budget leave and give their blocks back.
    pub open spec fn retire(self) -> Schedule {
        Schedule {
            pool: self.pool.decref_each(all_blocks(self.finished())).0,
            running: self.running.filter(|r: Running| !r.done()),
            ..self
        }
    }

    /// Ids of the running sequences, oldest first.
    pub open spec fn running_ids(self) -> Seq<SeqId> {
        self.running.map_values(|r: Running| r.id)
    }

    /// One scheduling step: let in what fits, advance every running sequence by
    /// one token, and let go of those that have finished.
    pub open spec fn step(self) -> (Schedule, Outcome) {
        let (s1, admitted) = self.admission();
        let (s2, o) = s1.decode(Outcome { admitted, ..Outcome::nothing() }, s1.running_ids());
        (
            s2.retire(),
            Outcome { finished: s2.finished().map_values(|r: Running| r.id), ..o },
        )
    }

    /// Advancing `id` divides by no zero block size and preempts no sequence
    /// that has generated more than its budget.
    pub open spec fn advance_safe(self, id: SeqId) -> bool
        decreases self.running.len(),
    {
        match self.position(id) {
            None => true,
            Some(i) => {
                &&& self.block_size > 0 || self.pool.free.len() == 0
                &&& self.can_write(i) || self.running.len() == 0 || {
                    let v = self.running.len() - 1;
                    &&& self.running[v].generated <= self.running[v].max_new
                    &&& self.preempt(v).advance_safe(id)
                }
            },
        }
    }

    /// Advancing each of `ids` is safe.
    pub open spec fn decode_safe(self, ids: Seq<SeqId>) -> bool
        decreases ids.len(),
    {
        ids.len() > 0 ==> {
            &&& self.advance_safe(ids[0])
            &&& self.advance(Outcome::nothing(), ids[0]).0.decode_safe(ids.skip(1))
        }
    }

    /// A step computes nothing out of range.
    pub open spec fn step_safe(self) -> bool {
        let s1 = self.admission().0;
        &&& s1.decode_safe(s1.running_ids())
        &&& self.step().0.pool.total <= u64::MAX
    }

    /// The usual case, which makes a step safe: ids are distinct, blocks have a
    /// size, and the allocation counter is far from its end.
    pub open spec fn ready(self) -> bool {
        &&& self.line().no_duplicates()
        &&& self.block_size > 0 || self.pool.num_blocks == 0
        &&& self.pool.total + self.pool.num_blocks + self.running.len() + self.waiting.len()
            <= u64::MAX
    }
}

} // verus!
