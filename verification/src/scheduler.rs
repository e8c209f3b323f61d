//! The continuous-batching scheduler.

use std::collections::VecDeque;

use vstd::prelude::*;

use crate::allocator::BlockAllocator;
use crate::block_table::{BlockTable, CowCopy};
use crate::config::CacheConfig;
use crate::error::CacheError;
use crate::schedule::{Outcome, Pending, Running, Schedule};
use crate::types::{BlockId, PhysicalSlot, SeqId};

verus! {

/// A request that has not yet been given any physical blocks.
///
/// `context_len` is not called `prompt_len`: after a preemption, a request
/// re-enters the queue with a *recomputed* context (original prompt plus
/// whatever had already been generated). Both are just tokens of context that
/// need slots before generation can continue.
struct PendingSeq {
    id: SeqId,
    context_len: usize,
    max_new_tokens: usize,
}

/// A request that currently owns physical blocks and is being decoded.
struct RunningSeq {
    id: SeqId,
    table: BlockTable,
    max_new_tokens: usize,
    generated: usize,
}

impl View for PendingSeq {
    type V = Pending;

    closed spec fn view(&self) -> Pending {
        Pending {
            id: self.id,
            context_len: self.context_len as nat,
            max_new: self.max_new_tokens as nat,
        }
    }
}

impl View for RunningSeq {
    type V = Running;

    closed spec fn view(&self) -> Running {
        Running {
            id: self.id,
            table: self.table@,
            max_new: self.max_new_tokens as nat,
            generated: self.generated as nat,
        }
    }
}

/// One token written during a [`Scheduler::step`] call.
///
/// `cow` mirrors [`BlockTable::append`]'s return value: `Some` means this write
/// landed on a block that was shared with another sequence, and the caller must
/// replicate `cow.src`'s bytes into `cow.dst` before trusting anything written
/// to `slot`.
#[derive(Debug, Clone, PartialEq, Eq, Structural)]
pub struct DecodedToken {
    pub id: SeqId,
    pub slot: PhysicalSlot,
    pub cow: Option<CowCopy>,
}

/// Everything that happened during one [`Scheduler::step`] call.
#[derive(Debug, Clone)]
pub struct StepOutcome {
    /// Sequences newly moved from waiting to running this step.
    pub admitted: Vec<SeqId>,
    /// One entry per sequence that successfully advanced by a token.
    pub decoded: Vec<DecodedToken>,
    /// Sequences forced back to the waiting queue for lack of blocks. Any
    /// decode already recorded for a preempted sequence *this same step* is
    /// removed from `decoded`.
    pub preempted: Vec<SeqId>,
    /// Sequences that reached their token budget and were freed this step.
    pub finished: Vec<SeqId>,
}

impl View for StepOutcome {
    type V = Outcome;

    open spec fn view(&self) -> Outcome {
        Outcome {
            admitted: self.admitted@,
            decoded: self.decoded@,
            preempted: self.preempted@,
            finished: self.finished@,
        }
    }
}

impl Default for StepOutcome {
    fn default() -> (o: Self)
        ensures
            o@ == Outcome::nothing(),
    {
        let o = Self {
            admitted: Vec::new(),
            decoded: Vec::new(),
            preempted: Vec::new(),
            finished: Vec::new(),
        };
        assert(o@ =~= Outcome::nothing());
        o
    }
}

/// One block of the pool, as a snapshot shows it.
#[derive(Debug, Clone, Copy, PartialEq, Eq, Structural)]
pub struct BlockInfo {
    pub id: BlockId,
    pub ref_count: u32,
}

/// One running sequence, as a snapshot shows it.
#[derive(Debug, Clone, PartialEq, Eq)]
pub struct RunningInfo {
    pub id: SeqId,
    /// Tokens in the sequence's context.
    pub tokens: usize,
    pub generated: usize,
    pub max_new_tokens: usize,
    /// Physical blocks in logical order.
    pub blocks: Vec<BlockId>,
}

impl View for RunningInfo {
    type V = (SeqId, nat, nat, nat, Seq<BlockId>);

    open spec fn view(&self) -> (SeqId, nat, nat, nat, Seq<BlockId>) {
        (
            self.id,
            self.tokens as nat,
            self.generated as nat,
            self.max_new_tokens as nat,
            self.blocks@,
        )
    }
}

/// Continuous-batching scheduler over a shared [`BlockAllocator`].
///
/// This owns the admission, decoding and eviction policy. It never touches a
/// backend: `step` returns *where* each token landed and whether a copy is
/// owed, and leaves moving bytes to the caller.
///
/// ## Preemption policy
///
/// When a running sequence can't get the block it needs, the scheduler frees
/// the **most recently admitted** running sequence, which may be the very
/// sequence that just failed. A preempted sequence doesn't lose its place in
/// line: it is requeued at the *front* of the waiting queue, representing its
/// context up to that point, and resumes as soon as blocks free up.
///
/// ## Admission ordering
///
/// Admission is strict FIFO: if the request at the front of the waiting queue
/// doesn't currently fit, the scheduler does not skip ahead to try smaller
/// requests behind it. This avoids starving large requests behind a stream of
/// small ones, at the cost of occasionally leaving blocks idle.
pub struct Scheduler {
    allocator: BlockAllocator,
    block_size: usize,
    max_batch_size: usize,
    waiting: VecDeque<PendingSeq>,
    running: Vec<RunningSeq>,
}

impl View for Scheduler {
    type V = Schedule;

    closed spec fn view(&self) -> Schedule {
        Schedule {
            pool: self.allocator@,
            block_size: self.block_size as nat,
            max_batch: self.max_batch_size as nat,
            waiting: Seq::new(self.waiting@.len(), |i: int| self.waiting@[i]@),
            running: Seq::new(self.running@.len(), |i: int| self.running@[i]@),
        }
    }
}

impl Scheduler {
    /// The invariant of a scheduler between calls.
    pub open spec fn wf(self) -> bool {
        self@.wf()
    }

    /// Build a scheduler over a fresh pool sized by `cache_config`, admitting
    /// at most `max_batch_size` sequences concurrently.
    pub fn new(cache_config: &CacheConfig, max_batch_size: usize) -> (s: Self)
        requires
            cache_config.num_blocks <= u32::MAX + 1,
        ensures
            s@ == Schedule::fresh(
                cache_config.num_blocks as nat,
                cache_config.block_size as nat,
                max_batch_size as nat,
            ),
            s.wf(),
    {
        let s = Self {
            allocator: BlockAllocator::new(cache_config.num_blocks),
            block_size: cache_config.block_size,
            max_batch_size,
            waiting: VecDeque::new(),
            running: Vec::new(),
        };
        assert(s@ =~= Schedule::fresh(
            cache_config.num_blocks as nat,
            cache_config.block_size as nat,
            max_batch_size as nat,
        ));
        s
    }

    /// Requests that hold no blocks.
    pub fn num_waiting(&self) -> (n: usize)
        ensures
            n == self@.waiting.len(),
    {
        self.waiting.len()
    }

    /// Sequences that are being decoded.
    pub fn num_running(&self) -> (n: usize)
        ensures
            n == self@.running.len(),
    {
        self.running.len()
    }

    /// Whether there is nothing to do.
    pub fn is_idle(&self) -> (b: bool)
        ensures
            b == self@.idle(),
    {
        self.waiting.len() == 0 && self.running.len() == 0
    }

    /// Blocks in the pool.
    pub fn num_blocks(&self) -> (n: usize)
        ensures
            n == self@.pool.num_blocks,
    {
        self.allocator.num_blocks()
    }

    /// Allocations served since construction.
    pub fn total_allocated(&self) -> (n: u64)
        ensures
            n == self@.pool.total,
    {
        self.allocator.total_allocated()
    }

    /// Fraction of the pool in use, as numerator and denominator.
    pub fn pool_utilization(&self) -> (ratio: (usize, usize))
        requires
            self.wf(),
        ensures
            self@.pool.num_blocks == 0 ==> ratio == (0usize, 1usize),
            self@.pool.num_blocks > 0 ==> ratio.0 == self@.pool.num_blocks - self@.pool.free.len()
                && ratio.1 == self@.pool.num_blocks,
    {
        self.allocator.utilization()
    }

    /// Queue a new request. Rejected immediately, before ever touching the
    /// waiting queue, if `prompt_len + max_new_tokens` could not fit in the
    /// pool even with every other sequence evicted, a sum beyond the range of
    /// `usize` included.
    pub fn add_request(&mut self, id: SeqId, prompt_len: usize, max_new_tokens: usize) -> (r: Result<
        (),
        CacheError,
    >)
        requires
            old(self).wf(),
            old(self)@.capacity() <= usize::MAX,
            prompt_len + max_new_tokens > 0 ==> old(self)@.block_size > 0,
        ensures
            final(self).wf(),
            match r {
                Ok(_) => old(self)@.request_error(prompt_len as nat, max_new_tokens as nat) is None
                    && final(self)@ == old(self)@.with_request(
                    id,
                    prompt_len as nat,
                    max_new_tokens as nat,
                ),
                Err(e) => old(self)@.request_error(prompt_len as nat, max_new_tokens as nat)
                    == Some(e) && final(self)@ == old(self)@,
            },
    {
        let total_capacity: usize = self.allocator.num_blocks() * self.block_size;
        // The sum may exceed a machine word: such a request cannot fit either.
        let final_context_len: u128 = prompt_len as u128 + max_new_tokens as u128;
        if final_context_len > total_capacity as u128 {
            let blocks: u128 = (final_context_len + (self.block_size as u128 - 1))
                / self.block_size as u128;
            let requested: usize = if blocks <= usize::MAX as u128 {
                blocks as usize
            } else {
                usize::MAX
            };
            return Err(
                CacheError::OutOfBlocks { requested, available: self.allocator.num_blocks() },
            );
        }
        let ghost w = Pending {
            id,
            context_len: prompt_len as nat,
            max_new: max_new_tokens as nat,
        };
        proof {
            self@.lemma_request_sound(w);
        }
        self.waiting.push_back(PendingSeq { id, context_len: prompt_len, max_new_tokens });
        proof {
            assert(self@.waiting =~= old(self)@.waiting.push(w));
            assert(self@ =~= old(self)@.with_request(
                id,
                prompt_len as nat,
                max_new_tokens as nat,
            ));
            old(self)@.lemma_budgets_kept(self@);
        }
        Ok(())
    }

    /// Index of the first running sequence called `id`.
    fn position(&self, id: SeqId) -> (r: Option<usize>)
        ensures
            match r {
                Some(i) => self@.position(id) == Some(i as int) && self@.is_first(id, i as int),
                None => self@.position(id) is None,
            },
    {
        let mut i: usize = 0;
        while i < self.running.len()
            invariant
                i <= self.running@.len(),
                forall|j: int| 0 <= j < i ==> (#[trigger] self@.running[j]).id != id,
            decreases self.running@.len() - i,
        {
            if self.running[i].id == id {
                proof {
                    assert(self@.running[i as int].id == id);
                    self@.lemma_position(id, i as int);
                }
                return Some(i);
            }
            assert(self@.running[i as int].id != id);
            i = i + 1;
        }
        proof {
            self@.lemma_found(id);
        }
        None
    }

    /// Let requests in, strictly in order, until the batch is full or one does
    /// not fit.
    fn admit_waiting(&mut self, outcome: &mut StepOutcome) -> (r: Result<(), CacheError>)
        requires
            old(self)@.sound(),
            old(self)@.admission().0.pool.total <= u64::MAX,
        ensures
            r is Ok,
            final(self)@ == old(self)@.admission().0,
            final(self)@.sound(),
            final(outcome)@ == (Outcome {
                admitted: old(outcome)@.admitted + old(self)@.admission().1,
                ..old(outcome)@
            }),
    {
        let ghost s0 = self@;
        let ghost o0 = outcome@;
        assert(outcome@.admitted + s0.admission().1 == o0.admitted + s0.admission().1);
        while self.running.len() < self.max_batch_size && self.waiting.len() > 0
            invariant
                s0 == old(self)@,
                o0 == old(outcome)@,
                s0.admission().0.pool.total <= u64::MAX,
                self@.sound(),
                self@.admission().0 == s0.admission().0,
                outcome@ == (Outcome { admitted: outcome@.admitted, ..o0 }),
                outcome@.admitted + self@.admission().1 == o0.admitted + s0.admission().1,
            decreases self.waiting@.len(),
        {
            let ghost s = self@;
            let ghost o = outcome@;
            let mut table = BlockTable::new(self.block_size);
            let n: usize = self.waiting[0].context_len;
            proof {
                assert(s.waiting[0].context_len == n);
                assert(n <= s.capacity());
                if s.block_size == 0 {
                    assert(s.pool.num_blocks * 0 == 0);
                }
                if s.front_error() is None {
                    s.lemma_admit_front_sound();
                    s.admit_front().lemma_admission();
                } else {
                    s.lemma_blocked_sound();
                }
            }
            match table.append_many(&mut self.allocator, n) {
                Ok(_) => {
                    let pending = match self.waiting.pop_front() {
                        Some(w) => w,
                        None => {
                            return Ok(());
                        },
                    };
                    outcome.admitted.push(pending.id);
                    self.running.push(
                        RunningSeq {
                            id: pending.id,
                            table,
                            max_new_tokens: pending.max_new_tokens,
                            generated: 0,
                        },
                    );
                    proof {
                        let f = s.admit_front();
                        assert(pending@ == s.waiting[0]);
                        assert(self@.waiting =~= f.waiting);
                        assert(self@.running =~= f.running);
                        assert(self@ =~= f);
                        assert(outcome@.admitted + f.admission().1 =~= o.admitted
                            + s.admission().1);
                    }
                },
                // It does not fit right now: leave it queued and stop.
                Err(CacheError::OutOfBlocks { .. }) => {
                    proof {
                        assert(self@.waiting =~= s.waiting);
                        assert(self@.running =~= s.running);
                        assert(self@ =~= s.admission().0);
                        assert(s.admission().1 =~= Seq::empty());
                        assert(outcome@.admitted + s.admission().1 =~= outcome@.admitted);
                    }
                    return Ok(());
                },
                Err(e) => {
                    return Err(e);
                },
            }
        }
        proof {
            assert(outcome@.admitted + self@.admission().1 =~= outcome@.admitted);
        }
        Ok(())
    }

    /// Take the blocks of running sequence `idx` away and queue it again at the
    /// front. Any token decoded for it earlier in this step is void.
    fn preempt(&mut self, idx: usize, outcome: &mut StepOutcome) -> (r: Result<(), CacheError>)
        requires
            old(self)@.sound(),
            idx < old(self)@.running.len(),
            old(self)@.running[idx as int].generated <= old(self)@.running[idx as int].max_new,
        ensures
            r is Ok,
            final(self)@ == old(self)@.preempt(idx as int),
            final(self)@.sound(),
            final(outcome)@ == old(outcome)@.with_preempted(old(self)@.running[idx as int].id),
    {
        let ghost s = self@;
        let ghost o = outcome@;
        proof {
            s.lemma_preempt_sound(idx as int);
        }
        let seq = self.running.remove(idx);
        assert(seq@ == s.running[idx as int]);

        let ghost keep = |d: DecodedToken| d.id != seq.id;
        let mut kept: Vec<DecodedToken> = Vec::new();
        let mut i: usize = 0;
        proof {
            reveal_with_fuel(Seq::filter, 1);
            assert(outcome.decoded@.take(0).filter(keep) =~= Seq::empty());
        }
        while i < outcome.decoded.len()
            invariant
                i <= outcome.decoded@.len(),
                keep == (|d: DecodedToken| d.id != seq.id),
                kept@ == outcome.decoded@.take(i as int).filter(keep),
            decreases outcome.decoded@.len() - i,
        {
            let d = &outcome.decoded[i];
            proof {
                let next = outcome.decoded@.take(i + 1);
                assert(next.drop_last() =~= outcome.decoded@.take(i as int));
                assert(next.last() == outcome.decoded@[i as int]);
                reveal_with_fuel(Seq::filter, 2);
            }
            if d.id != seq.id {
                kept.push(DecodedToken { id: d.id, slot: d.slot, cow: d.cow });
            }
            i = i + 1;
        }
        assert(outcome.decoded@.take(i as int) =~= outcome.decoded@);
        outcome.decoded = kept;
        outcome.preempted.push(seq.id);

        let id = seq.id;
        let context_len: usize = seq.table.num_tokens();
        let remaining_new_tokens: usize = seq.max_new_tokens - seq.generated;
        match seq.table.free(&mut self.allocator) {
            Ok(_) => {},
            Err(e) => {
                return Err(e);
            },
        }
        self.waiting.push_front(
            PendingSeq { id, context_len, max_new_tokens: remaining_new_tokens },
        );
        proof {
            let p = s.preempt(idx as int);
            assert(self@.running =~= p.running);
            assert(self@.waiting =~= p.waiting);
            assert(self@ =~= p);
            assert(outcome@ =~= o.with_preempted(id));
        }
        Ok(())
    }

    /// Advance every running sequence by one token, preempting the newest
    /// whenever there is no block.
    fn decode(&mut self, outcome: &mut StepOutcome) -> (r: Result<(), CacheError>)
        requires
            old(self)@.sound(),
            old(self)@.decode_safe(old(self)@.running_ids()),
            old(self)@.decode(old(outcome)@, old(self)@.running_ids()).0.pool.total <= u64::MAX,
        ensures
            r is Ok,
            final(self)@ == old(self)@.decode(old(outcome)@, old(self)@.running_ids()).0,
            final(outcome)@ == old(self)@.decode(old(outcome)@, old(self)@.running_ids()).1,
            final(self)@.sound(),
    {
        let ghost s0 = self@;
        let ghost o0 = outcome@;
        // Snapshot who is running before this phase starts. Sequences preempted
        // partway through are skipped when their turn comes.
        let mut ids_to_decode: Vec<SeqId> = Vec::new();
        let mut i: usize = 0;
        while i < self.running.len()
            invariant
                i <= self.running@.len(),
                self@ == s0,
                ids_to_decode@ == s0.running_ids().take(i as int),
            decreases self.running@.len() - i,
        {
            ids_to_decode.push(self.running[i].id);
            i = i + 1;
            proof {
                assert(self@.running[i - 1].id == self.running@[i - 1].id);
                assert(ids_to_decode@ =~= s0.running_ids().take(i as int));
            }
        }
        let ghost ids = s0.running_ids();
        assert(ids.take(i as int) =~= ids);
        assert(ids.skip(0) =~= ids);

        let mut k: usize = 0;
        while k < ids_to_decode.len()
            invariant
                k <= ids.len(),
                ids_to_decode@ == ids,
                s0 == old(self)@,
                o0 == old(outcome)@,
                ids == s0.running_ids(),
                self@.sound(),
                self@.decode_safe(ids.skip(k as int)),
                self@.decode(outcome@, ids.skip(k as int)) == s0.decode(o0, ids),
                s0.decode(o0, ids).0.pool.total <= u64::MAX,
            decreases ids.len() - k,
        {
            let id = ids_to_decode[k];
            let ghost s = self@;
            let ghost o = outcome@;
            proof {
                let rest = ids.skip(k as int);
                assert(rest[0] == id);
                assert(rest.skip(1) =~= ids.skip(k + 1));
                s.lemma_advance_outcome(o, Outcome::nothing(), id);
                s.lemma_advance(o, id);
                s.advance(o, id).0.lemma_decode(s.advance(o, id).1, ids.skip(k + 1));
            }
            let mut at = self.position(id);
            while at.is_some()
                invariant
                    s.advance(o, id).0.pool.total <= u64::MAX,
                    self@.sound(),
                    match at {
                        Some(i) => {
                            &&& self@.position(id) == Some(i as int)
                            &&& self@.is_first(id, i as int)
                            &&& self@.advance_safe(id)
                            &&& self@.advance(outcome@, id) == s.advance(o, id)
                        },
                        None => self@ == s.advance(o, id).0 && outcome@ == s.advance(o, id).1,
                    },
                decreases self.running@.len() + if at is Some {
                    1int
                } else {
                    0int
                },
            {
                let idx: usize = at.unwrap();
                let ghost t = self@;
                let ghost q = outcome@;
                proof {
                    t.lemma_advance(q, id);
                    if t.can_write(idx as int) {
                        t.lemma_writable(idx as int);
                        t.lemma_write_sound(idx as int);
                    } else {
                        t.lemma_unwritable(idx as int);
                        let v = t.running.len() - 1;
                        t.lemma_preempt_sound(v);
                        t.lemma_preempt_line();
                    }
                    assert(t.running[idx as int].table.wf());
                    assert(self.running@[idx as int].table@ == t.running[idx as int].table);
                    assert(t.capacity() <= usize::MAX);
                }
                match self.running[idx].table.append(&mut self.allocator) {
                    Ok((slot, cow)) => {
                        outcome.decoded.push(DecodedToken { id, slot, cow });
                        let g: usize = self.running[idx].generated;
                        self.running[idx].generated = g + 1;
                        proof {
                            let w = t.write_token(idx as int);
                            assert(self@.running =~= w.running);
                            assert(self@.waiting =~= w.waiting);
                            assert(self@ =~= w);
                            assert(outcome@ =~= t.advance(q, id).1);
                        }
                        at = None;
                    },
                    Err(CacheError::OutOfBlocks { .. }) => {
                        proof {
                            assert(self@.running =~= t.running);
                            assert(self@.waiting =~= t.waiting);
                            assert(self@ =~= t);
                        }
                        // Preempt the newest arrival, which may be `id` itself,
                        // and retry unless that was the victim.
                        let victim_idx: usize = self.running.len() - 1;
                        match self.preempt(victim_idx, outcome) {
                            Ok(_) => {},
                            Err(e) => {
                                return Err(e);
                            },
                        }
                        proof {
                            let v = t.running.len() - 1;
                            assert(self@ == t.preempt(v));
                            assert(self@.advance(outcome@, id) == t.advance(q, id));
                            assert(self@.advance_safe(id));
                        }
                        at = self.position(id);
                    },
                    Err(e) => {
                        return Err(e);
                    },
                }
            }
            k = k + 1;
        }
        assert(ids.skip(k as int) =~= Seq::empty());
        Ok(())
    }

    /// Free every sequence that has reached its token budget.
    fn retire_finished(&mut self, outcome: &mut StepOutcome) -> (r: Result<(), CacheError>)
        requires
            old(self)@.sound(),
        ensures
            r is Ok,
            final(self)@ == old(self)@.retire(),
            final(self)@.wf(),
            final(outcome)@ == (Outcome {
                finished: old(outcome)@.finished + old(self)@.finished().map_values(
                    |r: Running| r.id,
                ),
                ..old(outcome)@
            }),
    {
        let ghost s0 = self@;
        let ghost o0 = outcome@;
        let ghost done = |r: Running| r.done();
        let ghost live = |r: Running| !r.done();
        let ghost name = |r: Running| r.id;
        let ghost mut k: int = 0;
        let mut i: usize = 0;
        proof {
            s0.lemma_retired_start();
            assert(outcome@.finished =~= o0.finished + s0.running.take(0).filter(done).map_values(
                name,
            ));
        }
        while i < self.running.len()
            invariant
                s0 == old(self)@,
                o0 == old(outcome)@,
                s0.sound(),
                done == (|r: Running| r.done()),
                live == (|r: Running| !r.done()),
                name == (|r: Running| r.id),
                0 <= k <= s0.running.len(),
                i == s0.running.take(k).filter(live).len(),
                self@ == s0.retired(k),
                self@.sound(),
                outcome@ == (Outcome { finished: outcome@.finished, ..o0 }),
                outcome@.finished == o0.finished + s0.running.take(k).filter(done).map_values(
                    name,
                ),
            decreases s0.running.len() - k,
        {
            let ghost s = self@;
            proof {
                assert(s.running.len() == self.running@.len());
                assert(k < s0.running.len());
                s0.lemma_retired(k);
                s0.lemma_retired_step(k);
                assert(s.running[i as int] == self.running@[i as int]@);
            }
            if self.running[i].generated >= self.running[i].max_new_tokens {
                let seq = self.running.remove(i);
                proof {
                    s.lemma_without_sound(i as int);
                    assert(seq@ == s.running[i as int]);
                }
                outcome.finished.push(seq.id);
                match seq.table.free(&mut self.allocator) {
                    Ok(_) => {},
                    Err(e) => {
                        return Err(e);
                    },
                }
                proof {
                    let w = s.without(i as int);
                    assert(self@.running =~= w.running);
                    assert(self@.waiting =~= w.waiting);
                    assert(self@ =~= w);
                    assert(outcome@.finished =~= o0.finished + s0.running.take(k + 1).filter(
                        done,
                    ).map_values(name));
                }
            } else {
                i = i + 1;
            }
            proof {
                k = k + 1;
            }
        }
        proof {
            if k < s0.running.len() {
                assert(s0.retired(k).running.len() == s0.running.take(k).filter(live).len()
                    + s0.running.len() - k);
            }
            s0.lemma_retired_end();
            s0.lemma_retire();
        }
        Ok(())
    }

    /// Run one scheduling iteration: let in what fits, advance every running
    /// sequence by one token, preempt whoever must yield to make that
    /// possible, and free anyone who just finished.
    pub fn step(&mut self) -> (r: Result<StepOutcome, CacheError>)
        requires
            old(self).wf(),
            old(self)@.ready() || old(self)@.step_safe(),
        ensures
            final(self).wf(),
            final(self)@ == old(self)@.step().0,
            r matches Ok(o) && o@ == old(self)@.step().1,
    {
        let mut outcome = StepOutcome::default();
        let ghost s0 = self@;
        proof {
            if s0.ready() {
                s0.lemma_ready_is_safe();
            }
            s0.lemma_admission();
            let (s1, a) = s0.admission();
            let o1 = Outcome { admitted: a, ..Outcome::nothing() };
            s1.lemma_decode(o1, s1.running_ids());
            let s2 = s1.decode(o1, s1.running_ids()).0;
            s2.lemma_retire();
        }
        match self.admit_waiting(&mut outcome) {
            Ok(_) => {},
            Err(e) => {
                return Err(e);
            },
        }
        proof {
            let a = s0.admission().1;
            assert(outcome@.admitted =~= a);
            assert(outcome@ =~= (Outcome { admitted: a, ..Outcome::nothing() }));
        }
        match self.decode(&mut outcome) {
            Ok(_) => {},
            Err(e) => {
                return Err(e);
            },
        }
        let ghost o2 = outcome@;
        let ghost s2 = self@;
        match self.retire_finished(&mut outcome) {
            Ok(_) => {},
            Err(e) => {
                return Err(e);
            },
        }
        proof {
            s0.lemma_nothing_finished_early();
            assert(outcome@.finished =~= s2.finished().map_values(|r: Running| r.id));
            assert(outcome@ =~= s0.step().1);
        }
        Ok(outcome)
    }

    /// Fork a *currently running* sequence into a new one sharing its blocks.
    /// Costs zero block copies up front: every block the parent owns gets an
    /// extra reference, and [`step`](Self::step) will pay the copy for exactly
    /// the one block that diverges, the first time either side writes to a
    /// still-shared tail.
    ///
    /// `child` should be a fresh id: the scheduler does not check for
    /// collisions with existing running or waiting sequences.
    pub fn fork_sequence(&mut self, parent: SeqId, child: SeqId, max_new_tokens: usize) -> (r: Result<
        (),
        CacheError,
    >)
        requires
            old(self).wf(),
        ensures
            final(self).wf(),
            match r {
                Ok(_) => old(self)@.fork_error(parent) is None && final(self)@ == old(
                    self,
                )@.with_fork(parent, child, max_new_tokens as nat),
                Err(e) => old(self)@.fork_error(parent) == Some(e) && final(self)@ == old(self)@,
            },
    {
        let ghost s = self@;
        let idx = match self.position(parent) {
            Some(i) => i,
            None => {
                return Err(CacheError::UnknownSequence { id: parent });
            },
        };
        proof {
            s.lemma_fork_blocks(idx as int);
            assert(s.running[idx as int].table.wf());
            assert(self.running@[idx as int].table@ == s.running[idx as int].table);
        }
        let child_table = match self.running[idx].table.fork(&mut self.allocator) {
            Ok(t) => t,
            Err(e) => {
                assert(self@.running =~= s.running);
                assert(self@.waiting =~= s.waiting);
                assert(self@ =~= s);
                return Err(e);
            },
        };
        self.running.push(
            RunningSeq { id: child, table: child_table, max_new_tokens, generated: 0 },
        );
        proof {
            let r = Running {
                id: child,
                table: s.running[idx as int].table,
                max_new: max_new_tokens as nat,
                generated: 0,
            };
            s.lemma_fork_sound(idx as int, r);
            let f = s.with_fork(parent, child, max_new_tokens as nat);
            assert(self@.running =~= f.running);
            assert(self@.waiting =~= f.waiting);
            assert(self@ =~= f);
            assert forall|j: int| 0 <= j < f.running.len() implies (
            #[trigger] f.running[j]).generated == 0 || !f.running[j].done() by {
                if j < s.running.len() {
                    assert(f.running[j] == s.running[j]);
                }
            }
        }
        Ok(())
    }

    /// Every block of the pool with its number of owners, in id order.
    pub fn block_snapshot(&self) -> (blocks: Vec<BlockInfo>)
        requires
            self.wf(),
        ensures
            blocks@.len() == self@.pool.num_blocks,
            forall|i: int|
                0 <= i < blocks@.len() ==> {
                    &&& (#[trigger] blocks@[i]).id == BlockId(i as u32)
                    &&& blocks@[i].ref_count == self@.pool.count(BlockId(i as u32))
                },
    {
        let n: usize = self.allocator.num_blocks();
        let mut blocks: Vec<BlockInfo> = Vec::new();
        let mut i: usize = 0;
        while i < n
            invariant
                self.wf(),
                n == self@.pool.num_blocks,
                i <= n,
                blocks@.len() == i,
                forall|j: int|
                    0 <= j < i ==> {
                        &&& (#[trigger] blocks@[j]).id == BlockId(j as u32)
                        &&& blocks@[j].ref_count == self@.pool.count(BlockId(j as u32))
                    },
            decreases n - i,
        {
            let id = BlockId(i as u32);
            let ref_count: u32 = match self.allocator.ref_count(id) {
                Ok(c) => c,
                Err(_) => 0,
            };
            blocks.push(BlockInfo { id, ref_count });
            i = i + 1;
        }
        blocks
    }

    /// Every running sequence, in the order of admission.
    pub fn running_snapshot(&self) -> (running: Vec<RunningInfo>)
        ensures
            running@.len() == self@.running.len(),
            forall|i: int|
                0 <= i < running@.len() ==> #[trigger] running@[i]@ == self@.running[i].info(),
            forall|i: int|
                0 <= i < running@.len() ==> {
                    let r = #[trigger] self@.running[i];
                    &&& running@[i].id == r.id
                    &&& running@[i].tokens == r.table.tokens
                    &&& running@[i].generated == r.generated
                    &&& running@[i].max_new_tokens == r.max_new
                    &&& running@[i].blocks@ == r.table.blocks
                },
    {
        let mut running: Vec<RunningInfo> = Vec::new();
        let mut i: usize = 0;
        while i < self.running.len()
            invariant
                i <= self.running@.len(),
                running@.len() == i,
                forall|j: int|
                    0 <= j < i ==> #[trigger] running@[j]@ == self@.running[j].info(),
            decreases self.running@.len() - i,
        {
            let seq = &self.running[i];
            let owned = seq.table.physical_blocks();
            let mut blocks: Vec<BlockId> = Vec::new();
            let mut k: usize = 0;
            while k < owned.len()
                invariant
                    k <= owned@.len(),
                    blocks@ == owned@.take(k as int),
                decreases owned@.len() - k,
            {
                blocks.push(owned[k]);
                k = k + 1;
                assert(blocks@ =~= owned@.take(k as int));
            }
            assert(owned@.take(k as int) =~= owned@);
            let info = RunningInfo {
                id: seq.id,
                tokens: seq.table.num_tokens(),
                generated: seq.generated,
                max_new_tokens: seq.max_new_tokens,
                blocks,
            };
            assert(self@.running[i as int] == self.running@[i as int]@);
            running.push(info);
            i = i + 1;
        }
        assert forall|j: int| 0 <= j < running@.len() implies {
            let r = #[trigger] self@.running[j];
            &&& running@[j].id == r.id
            &&& running@[j].tokens == r.table.tokens
            &&& running@[j].generated == r.generated
            &&& running@[j].max_new_tokens == r.max_new
            &&& running@[j].blocks@ == r.table.blocks
        } by {
            assert(running@[j]@ == self@.running[j].info());
        }
        running
    }
}

} // verus!
