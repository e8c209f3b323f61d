//! The demo: a scheduler under synthetic load, and the log of what it does.
//!
//! Every tick runs one scheduling step. Every few ticks a small random request
//! arrives on its own, and every few ticks a random running sequence is forked,
//! so that sharing and copy-on-write show up too.

use std::collections::VecDeque;

use vstd::prelude::*;

use crate::config::CacheConfig;
use crate::error::CacheError;
use crate::schedule::{Outcome, Pending, Schedule};
use crate::scheduler::{BlockInfo, DecodedToken, RunningInfo, Scheduler, StepOutcome};
use crate::types::SeqId;

verus! {

/// Blocks in the demo's pool.
pub const NUM_BLOCKS: usize = 64;

/// Tokens per block.
pub const BLOCK_SIZE: usize = 8;

/// Sequences that run at a time.
pub const MAX_BATCH_SIZE: usize = 6;

/// Events that the log keeps.
pub const MAX_EVENTS: usize = 200;

/// A request arrives whenever the tick is a multiple of this.
pub const REQUEST_EVERY: u64 = 3;

/// A sequence is forked whenever the tick is a multiple of this.
pub const FORK_EVERY: u64 = 5;

/// Shortest synthetic prompt.
pub const MIN_PROMPT: usize = 4;

/// Synthetic prompts are shorter than this.
pub const PROMPT_LIMIT: usize = 48;

/// Smallest synthetic token budget.
pub const MIN_NEW: usize = 4;

/// Synthetic token budgets are smaller than this.
pub const NEW_LIMIT: usize = 32;

/// What happened to a sequence.
#[derive(Debug, Clone, Copy, PartialEq, Eq, Structural)]
pub enum EventKind {
    Admitted,
    Preempted,
    Finished,
    Cow { src_block: u32, dst_block: u32 },
}

/// One line of the log.
#[derive(Debug, Clone, Copy, PartialEq, Eq, Structural)]
pub struct Event {
    pub seq_id: u64,
    pub tick: u64,
    pub kind: EventKind,
}

/// The same event for each of `ids`.
pub open spec fn events_for(ids: Seq<SeqId>, tick: u64, kind: EventKind) -> Seq<Event> {
    ids.map_values(|id: SeqId| Event { seq_id: id.0, tick, kind })
}

/// An event for each token that owes a copy.
pub open spec fn copy_events(decoded: Seq<DecodedToken>, tick: u64) -> Seq<Event>
    decreases decoded.len(),
{
    if decoded.len() == 0 {
        Seq::empty()
    } else {
        let front = copy_events(decoded.drop_last(), tick);
        let d = decoded.last();
        match d.cow {
            Some(cow) => front.push(
                Event {
                    seq_id: d.id.0,
                    tick,
                    kind: EventKind::Cow { src_block: cow.src.0, dst_block: cow.dst.0 },
                },
            ),
            None => front,
        }
    }
}

/// The events of one step: admissions, copies, preemptions and completions, in
/// this order.
pub open spec fn step_events(o: Outcome, tick: u64) -> Seq<Event> {
    events_for(o.admitted, tick, EventKind::Admitted) + copy_events(o.decoded, tick) + events_for(
        o.preempted,
        tick,
        EventKind::Preempted,
    ) + events_for(o.finished, tick, EventKind::Finished)
}

/// The last events of `log`, as many as the log keeps.
pub open spec fn recent(log: Seq<Event>) -> Seq<Event> {
    if log.len() > MAX_EVENTS {
        log.skip(log.len() - MAX_EVENTS)
    } else {
        log
    }
}

/// Append an event of this kind for each of `ids`.
fn push_events(events: &mut Vec<Event>, ids: &Vec<SeqId>, tick: u64, kind: EventKind)
    ensures
        final(events)@ == old(events)@ + events_for(ids@, tick, kind),
{
    let mut i: usize = 0;
    let ghost start = events@;
    let ghost all = events_for(ids@, tick, kind);
    assert(start + all.take(0) =~= start);
    while i < ids.len()
        invariant
            i <= ids@.len(),
            all == events_for(ids@, tick, kind),
            events@ == start + all.take(i as int),
        decreases ids@.len() - i,
    {
        events.push(Event { seq_id: ids[i].0, tick, kind });
        i = i + 1;
        assert(events@ =~= start + all.take(i as int));
    }
    assert(all.take(i as int) =~= all);
}

/// The events of one step.
pub fn events_of(outcome: &StepOutcome, tick: u64) -> (events: Vec<Event>)
    ensures
        events@ == step_events(outcome@, tick),
{
    let mut events: Vec<Event> = Vec::new();
    push_events(&mut events, &outcome.admitted, tick, EventKind::Admitted);
    let ghost start = events@;
    assert(start =~= events_for(outcome@.admitted, tick, EventKind::Admitted));
    let mut i: usize = 0;
    assert(start + copy_events(outcome.decoded@.take(0), tick) =~= start);
    while i < outcome.decoded.len()
        invariant
            i <= outcome.decoded@.len(),
            events@ == start + copy_events(outcome.decoded@.take(i as int), tick),
        decreases outcome.decoded@.len() - i,
    {
        let d = &outcome.decoded[i];
        proof {
            let next = outcome.decoded@.take(i + 1);
            assert(next.drop_last() =~= outcome.decoded@.take(i as int));
            assert(next.last() == *d);
        }
        if let Some(cow) = d.cow {
            events.push(
                Event {
                    seq_id: d.id.0,
                    tick,
                    kind: EventKind::Cow { src_block: cow.src.0, dst_block: cow.dst.0 },
                },
            );
        }
        i = i + 1;
        assert(events@ =~= start + copy_events(outcome.decoded@.take(i as int), tick));
    }
    assert(outcome.decoded@.take(i as int) =~= outcome.decoded@);
    push_events(&mut events, &outcome.preempted, tick, EventKind::Preempted);
    push_events(&mut events, &outcome.finished, tick, EventKind::Finished);
    events
}

/// Add events to the log and drop the oldest beyond its size.
pub fn append_events(log: &mut VecDeque<Event>, new: &Vec<Event>)
    ensures
        final(log)@ == recent(old(log)@ + new@),
{
    let ghost all = log@ + new@;
    let mut i: usize = 0;
    assert(log@ + new@.take(0) =~= log@);
    while i < new.len()
        invariant
            i <= new@.len(),
            log@ == old(log)@ + new@.take(i as int),
        decreases new@.len() - i,
    {
        log.push_back(new[i]);
        i = i + 1;
        assert(log@ =~= old(log)@ + new@.take(i as int));
    }
    assert(new@.take(i as int) =~= new@);
    let ghost mut dropped: int = 0;
    assert(all.skip(0) =~= all);
    while log.len() > MAX_EVENTS
        invariant
            0 <= dropped <= all.len(),
            log@ == all.skip(dropped),
            dropped == 0 || log@.len() >= MAX_EVENTS,
        decreases log@.len(),
    {
        let _ = log.pop_front();
        proof {
            dropped = dropped + 1;
            assert(log@ =~= all.skip(dropped));
        }
    }
    assert(all.skip(0) =~= all);
}

/// The state of the demo.
#[verifier::ext_equal]
pub struct DemoState {
    pub schedule: Schedule,
    /// Recent events, oldest first.
    pub log: Seq<Event>,
    /// Ticks so far.
    pub tick: nat,
    /// The id of the next sequence.
    pub next_id: nat,
}

impl DemoState {
    /// A request came in: it takes an id, whether or not it is accepted.
    pub open spec fn submitted(self, prompt_len: nat, max_new: nat) -> DemoState {
        DemoState {
            schedule: if self.schedule.request_error(prompt_len, max_new) is None {
                self.schedule.with_request(SeqId(self.next_id as u64), prompt_len, max_new)
            } else {
                self.schedule
            },
            next_id: self.next_id + 1,
            ..self
        }
    }

    /// Running sequence `i` is forked for the rest of its budget. If nothing is
    /// left of that, nothing happens; otherwise the child takes an id, whether
    /// or not the fork succeeds.
    pub open spec fn forked(self, i: int) -> DemoState {
        let r = self.schedule.running[i];
        if r.generated >= r.max_new {
            self
        } else {
            DemoState {
                schedule: if self.schedule.fork_error(r.id) is None {
                    self.schedule.with_fork(
                        r.id,
                        SeqId(self.next_id as u64),
                        (r.max_new - r.generated) as nat,
                    )
                } else {
                    self.schedule
                },
                next_id: self.next_id + 1,
                ..self
            }
        }
    }

    /// One scheduling step, and its events in the log.
    pub open spec fn stepped(self) -> DemoState {
        let (s, o) = self.schedule.step();
        DemoState { schedule: s, log: recent(self.log + step_events(o, self.tick as u64)), ..self }
    }

    /// The next tick has begun.
    pub open spec fn ticked(self) -> DemoState {
        DemoState { tick: self.tick + 1, ..self }
    }

    /// A request arrives at this tick.
    pub open spec fn request_due(self) -> bool {
        self.tick % (REQUEST_EVERY as nat) == 0
    }

    /// A sequence is forked at this tick.
    pub open spec fn fork_due(self) -> bool {
        self.tick % (FORK_EVERY as nat) == 0 && self.schedule.running.len() > 0
    }

    /// One tick, in which the request is for `prompt_len` and `max_new` tokens
    /// if one arrives, and sequence `pick` is forked if one is.
    pub open spec fn advanced(self, prompt_len: nat, max_new: nat, pick: int) -> DemoState {
        let a = self.ticked();
        let b = if a.request_due() {
            a.submitted(prompt_len, max_new)
        } else {
            a
        };
        let c = if b.fork_due() {
            b.forked(pick)
        } else {
            b
        };
        c.stepped()
    }

    /// The geometry is the demo's, ids are given out in order, and the log is
    /// no longer than it may be.
    pub open spec fn wf(self) -> bool {
        &&& self.schedule.wf()
        &&& self.schedule.block_size == BLOCK_SIZE
        &&& self.schedule.pool.num_blocks == NUM_BLOCKS
        &&& self.schedule.max_batch == MAX_BATCH_SIZE
        &&& self.schedule.line().no_duplicates()
        &&& forall|i: int|
            0 <= i < self.schedule.line().len() ==> (#[trigger] self.schedule.line()[i]).0
                < self.next_id
        &&& self.log.len() <= MAX_EVENTS
        &&& self.next_id <= u64::MAX
        &&& self.tick <= u64::MAX
    }

    /// No counter is about to run over.
    pub open spec fn has_headroom(self) -> bool {
        &&& self.tick < u64::MAX
        &&& self.next_id + 2 <= u64::MAX
        &&& self.schedule.pool.total + self.schedule.pool.num_blocks + self.schedule.running.len()
            + self.schedule.waiting.len() + 2 <= u64::MAX
    }
}

/// What the demo keeps.
impl DemoState {
    /// A new id in the line.
    proof fn lemma_new_id(self, s: Schedule, at: int)
        requires
            self.wf(),
            self.next_id < u64::MAX,
            0 <= at <= self.schedule.line().len(),
            s.line() == self.schedule.line().insert(at, SeqId(self.next_id as u64)),
        ensures
            s.line().no_duplicates(),
            forall|i: int|
                0 <= i < s.line().len() ==> (#[trigger] s.line()[i]).0 < self.next_id + 1,
    {
        let line = self.schedule.line();
        assert forall|i: int| 0 <= i < s.line().len() implies (#[trigger] s.line()[i]).0
            < self.next_id + 1 by {
            if i < at {
                assert(s.line()[i] == line[i]);
            } else if i > at {
                assert(s.line()[i] == line[i - 1]);
            }
        }
        assert forall|i: int, j: int|
            0 <= i < s.line().len() && 0 <= j < s.line().len() && i != j implies s.line()[i]
            != s.line()[j] by {
            let x = if i < at {
                i
            } else {
                i - 1
            };
            let y = if j < at {
                j
            } else {
                j - 1
            };
            if i != at {
                assert(s.line()[i] == line[x]);
            }
            if j != at {
                assert(s.line()[j] == line[y]);
            }
        }
    }

    /// A request keeps the demo's invariant.
    proof fn lemma_submitted(self, prompt_len: nat, max_new: nat)
        requires
            self.wf(),
            self.next_id < u64::MAX,
            self.submitted(prompt_len, max_new).schedule.wf(),
        ensures
            self.submitted(prompt_len, max_new).wf(),
    {
        let d = self.submitted(prompt_len, max_new);
        if self.schedule.request_error(prompt_len, max_new) is None {
            let n = self.schedule.line().len() as int;
            assert(d.schedule.line() =~= self.schedule.line().insert(
                n,
                SeqId(self.next_id as u64),
            ));
            self.lemma_new_id(d.schedule, n);
        } else {
            assert forall|i: int| 0 <= i < d.schedule.line().len() implies (
            #[trigger] d.schedule.line()[i]).0 < d.next_id by {
                assert(self.schedule.line()[i].0 < self.next_id);
            }
        }
    }

    /// A fork keeps the demo's invariant.
    proof fn lemma_forked(self, i: int)
        requires
            self.wf(),
            self.next_id < u64::MAX,
            0 <= i < self.schedule.running.len(),
            self.forked(i).schedule.wf(),
            self.schedule.fork_error(self.schedule.running[i].id) is None
                ==> self.forked(i).schedule.pool.num_blocks == NUM_BLOCKS,
        ensures
            self.forked(i).wf(),
    {
        let d = self.forked(i);
        let r = self.schedule.running[i];
        if r.generated < r.max_new {
            if self.schedule.fork_error(r.id) is None {
                let n = self.schedule.running.len() as int;
                assert(d.schedule.line() =~= self.schedule.line().insert(
                    n,
                    SeqId(self.next_id as u64),
                ));
                self.lemma_new_id(d.schedule, n);
            } else {
                assert forall|j: int| 0 <= j < d.schedule.line().len() implies (
                #[trigger] d.schedule.line()[j]).0 < d.next_id by {
                    assert(self.schedule.line()[j].0 < self.next_id);
                }
            }
        }
    }

    /// A step keeps the demo's invariant.
    proof fn lemma_stepped(self)
        requires
            self.wf(),
        ensures
            self.stepped().wf(),
    {
        let s = self.schedule;
        let (t, o) = s.step();
        s.lemma_step_keeps();
        let before = s.line().to_multiset();
        let after = t.line().to_multiset();
        assert forall|i: int| 0 <= i < t.line().len() implies (#[trigger] t.line()[i]).0
            < self.next_id by {
            broadcast use vstd::seq_lib::group_to_multiset_ensures;

            let id = t.line()[i];
            assert(t.line().contains(id));
            assert(before.count(id) == after.count(id) + o.finished.to_multiset().count(id));
            assert(s.line().contains(id));
        }
    }

    /// The numbers that chance may draw for the next tick.
    pub open spec fn may_draw(self, prompt_len: nat, max_new: nat, pick: int) -> bool {
        let a = self.ticked();
        &&& a.request_due() ==> MIN_PROMPT <= prompt_len < PROMPT_LIMIT && MIN_NEW <= max_new
            < NEW_LIMIT
        &&& a.fork_due() ==> 0 <= pick < self.schedule.running.len()
    }
}

/// What the demo promises as a whole.
impl DemoState {
    /// The synthetic load is never turned away, and it can always be finished:
    /// a request drawn by chance is accepted, and if everyone in the line fits
    /// in the pool before a tick, everyone does after it, forks included.
    pub proof fn synthetic_load_always_fits(self, prompt_len: nat, max_new: nat, pick: int)
        requires
            self.wf(),
            self.has_headroom(),
            self.may_draw(prompt_len, max_new, pick),
            self.schedule.fits(),
        ensures
            self.ticked().request_due() ==> self.schedule.request_error(prompt_len, max_new)
                is None,
            self.advanced(prompt_len, max_new, pick).schedule.fits(),
            self.advanced(prompt_len, max_new, pick).wf(),
    {
        let s = self.schedule;
        let a = self.ticked();
        let b = if a.request_due() {
            a.submitted(prompt_len, max_new)
        } else {
            a
        };
        if a.request_due() {
            let w = Pending { id: SeqId(a.next_id as u64), context_len: prompt_len, max_new };
            s.accepted_request_fits(w.id, prompt_len, max_new);
            s.lemma_request_sound(w);
            s.lemma_budgets_kept(b.schedule);
            a.lemma_submitted(prompt_len, max_new);
        }
        if b.fork_due() {
            let r = b.schedule.running[pick];
            let left = (r.max_new - r.generated) as nat;
            if r.generated < r.max_new && b.schedule.fork_error(r.id) is None {
                b.schedule.fork_shares_everything(r.id, SeqId(b.next_id as u64), left);
                assert(b.schedule.line()[pick] == r.id);
                assert(b.schedule.is_first(r.id, pick)) by {
                    assert forall|j: int| 0 <= j < pick implies (
                    #[trigger] b.schedule.running[j]).id != r.id by {
                        assert(b.schedule.line()[j] == b.schedule.running[j].id);
                    }
                }
                b.schedule.lemma_position(r.id, pick);
                b.schedule.fork_fits_if_its_parent_does(r.id, SeqId(b.next_id as u64), left);
            }
            b.lemma_forked(pick);
        }
        let c = if b.fork_due() {
            b.forked(pick)
        } else {
            b
        };
        c.schedule.lemma_step_keeps();
        c.lemma_stepped();
    }
}

/// A scheduler under synthetic load.
pub struct Demo {
    scheduler: Scheduler,
    log: VecDeque<Event>,
    tick: u64,
    next_seq_id: u64,
}

impl View for Demo {
    type V = DemoState;

    closed spec fn view(&self) -> DemoState {
        DemoState {
            schedule: self.scheduler@,
            log: self.log@,
            tick: self.tick as nat,
            next_id: self.next_seq_id as nat,
        }
    }
}

/// What an observer sees of the demo.
#[derive(Debug)]
pub struct Snapshot {
    pub tick: u64,
    pub num_blocks: usize,
    pub block_size: usize,
    /// Fraction of the pool in use, as numerator and denominator.
    pub pool_utilization: (usize, usize),
    pub num_waiting: usize,
    pub num_running: usize,
    pub blocks: Vec<BlockInfo>,
    pub running: Vec<RunningInfo>,
    pub events: Vec<Event>,
}

impl Demo {
    /// The invariant of the demo.
    pub open spec fn wf(self) -> bool {
        self@.wf()
    }

    /// An idle demo.
    pub fn new() -> (d: Self)
        ensures
            d.wf(),
            d@ == (DemoState {
                schedule: Schedule::fresh(
                    NUM_BLOCKS as nat,
                    BLOCK_SIZE as nat,
                    MAX_BATCH_SIZE as nat,
                ),
                log: Seq::empty(),
                tick: 0,
                next_id: 1,
            }),
    {
        // Only the number and the size of the blocks matter: no backend is ever
        // touched.
        let config = CacheConfig {
            num_blocks: NUM_BLOCKS,
            block_size: BLOCK_SIZE,
            num_kv_heads: 1,
            head_dim: 1,
            num_layers: 1,
            dtype_bytes: 4,
        };
        let scheduler = Scheduler::new(&config, MAX_BATCH_SIZE);
        let d = Self { scheduler, log: VecDeque::new(), tick: 0, next_seq_id: 1 };
        assert(d@.schedule.line() =~= Seq::empty());
        d
    }

    /// Whether the next tick can be counted: no counter is about to run over.
    pub fn has_headroom(&self) -> (b: bool)
        requires
            self.wf(),
        ensures
            b == self@.has_headroom(),
    {
        let sum: u128 = self.scheduler.total_allocated() as u128 + self.scheduler.num_blocks()
            as u128 + self.scheduler.num_running() as u128 + self.scheduler.num_waiting() as u128
            + 2;
        self.tick < u64::MAX && self.next_seq_id <= u64::MAX - 2 && sum <= u64::MAX as u128
    }

    /// Whether there is an id for one more request.
    pub fn has_id(&self) -> (b: bool)
        ensures
            b == (self@.next_id < u64::MAX),
    {
        self.next_seq_id < u64::MAX
    }

    /// Submit a synthetic request, and learn its id if it is accepted.
    pub fn submit(&mut self, prompt_len: usize, max_new_tokens: usize) -> (r: Result<
        u64,
        CacheError,
    >)
        requires
            old(self).wf(),
            old(self)@.next_id < u64::MAX,
        ensures
            final(self).wf(),
            final(self)@ == old(self)@.submitted(prompt_len as nat, max_new_tokens as nat),
            match r {
                Ok(id) => id == old(self)@.next_id && old(self)@.schedule.request_error(
                    prompt_len as nat,
                    max_new_tokens as nat,
                ) is None,
                Err(e) => old(self)@.schedule.request_error(
                    prompt_len as nat,
                    max_new_tokens as nat,
                ) == Some(e),
            },
    {
        let id = SeqId(self.next_seq_id);
        self.next_seq_id = self.next_seq_id + 1;
        let r = self.scheduler.add_request(id, prompt_len, max_new_tokens);
        proof {
            let d = old(self)@;
            assert(self@ =~= d.submitted(prompt_len as nat, max_new_tokens as nat));
            d.lemma_submitted(prompt_len as nat, max_new_tokens as nat);
        }
        match r {
            Ok(_) => Ok(id.0),
            Err(e) => Err(e),
        }
    }

    /// Fork the running sequence at `pick` for the rest of its budget.
    fn fork(&mut self, pick: usize)
        requires
            old(self).wf(),
            old(self)@.next_id < u64::MAX,
            pick < old(self)@.schedule.running.len(),
        ensures
            final(self).wf(),
            final(self)@ == old(self)@.forked(pick as int),
    {
        let ghost d = self@;
        let running = self.scheduler.running_snapshot();
        let parent = &running[pick];
        assert(running@[pick as int]@ == d.schedule.running[pick as int].info());
        let remaining: usize = parent.max_new_tokens.saturating_sub(parent.generated);
        if remaining > 0 {
            let child = SeqId(self.next_seq_id);
            self.next_seq_id = self.next_seq_id + 1;
            let _ = self.scheduler.fork_sequence(parent.id, child, remaining);
            proof {
                let r = d.schedule.running[pick as int];
                if d.schedule.fork_error(r.id) is None {
                    d.schedule.fork_shares_everything(r.id, child, remaining as nat);
                }
                assert(self@ =~= d.forked(pick as int));
                d.lemma_forked(pick as int);
            }
        }
    }

    /// Run one tick in which the request, if one arrives, is for these numbers
    /// of tokens, and the running sequence at `pick` is forked, if one is.
    pub fn advance_with(&mut self, prompt_len: usize, max_new_tokens: usize, pick: usize)
        requires
            old(self).wf(),
            old(self)@.has_headroom(),
            old(self)@.ticked().fork_due() ==> pick < old(self)@.schedule.running.len(),
        ensures
            final(self).wf(),
            final(self)@ == old(self)@.advanced(
                prompt_len as nat,
                max_new_tokens as nat,
                pick as int,
            ),
    {
        let ghost d = self@;
        self.tick = self.tick + 1;
        let tick: u64 = self.tick;
        assert(self@ =~= d.ticked());
        if tick % REQUEST_EVERY == 0 {
            let _ = self.submit(prompt_len, max_new_tokens);
        }
        let ghost b = self@;
        if tick % FORK_EVERY == 0 && self.scheduler.num_running() > 0 {
            self.fork(pick);
        }
        let ghost c = self@;
        proof {
            if b.fork_due() {
                let r = b.schedule.running[pick as int];
                if r.generated < r.max_new && b.schedule.fork_error(r.id) is None {
                    b.schedule.fork_shares_everything(
                        r.id,
                        SeqId(b.next_id as u64),
                        (r.max_new - r.generated) as nat,
                    );
                }
            }
            c.lemma_stepped();
        }
        let outcome = match self.scheduler.step() {
            Ok(o) => o,
            Err(_) => {
                return ;
            },
        };
        let events = events_of(&outcome, tick);
        append_events(&mut self.log, &events);
        assert(self@ =~= c.stepped());
    }

    /// Run one tick, with the request and the fork left to chance.
    pub fn advance(&mut self)
        requires
            old(self).wf(),
            old(self)@.has_headroom(),
        ensures
            final(self).wf(),
            exists|prompt_len: nat, max_new: nat, pick: int|
                {
                    &&& old(self)@.may_draw(prompt_len, max_new, pick)
                    &&& final(self)@ == #[trigger] old(self)@.advanced(prompt_len, max_new, pick)
                },
    {
        let tick: u64 = self.tick + 1;
        let mut prompt_len: usize = MIN_PROMPT;
        let mut max_new_tokens: usize = MIN_NEW;
        if tick % REQUEST_EVERY == 0 {
            prompt_len = random_in(MIN_PROMPT, PROMPT_LIMIT);
            max_new_tokens = random_in(MIN_NEW, NEW_LIMIT);
        }
        let running: usize = self.scheduler.num_running();
        let mut pick: usize = 0;
        if tick % FORK_EVERY == 0 && running > 0 {
            pick = random_in(0, running);
        }
        let ghost d = self@;
        self.advance_with(prompt_len, max_new_tokens, pick);
        assert(d.may_draw(prompt_len as nat, max_new_tokens as nat, pick as int));
        assert(self@ == d.advanced(prompt_len as nat, max_new_tokens as nat, pick as int));
    }

    /// Everything an observer sees: the pool, the running sequences and the
    /// recent events.
    pub fn snapshot(&self) -> (s: Snapshot)
        requires
            self.wf(),
        ensures
            s.tick == self@.tick,
            s.num_blocks == NUM_BLOCKS,
            s.block_size == BLOCK_SIZE,
            s.pool_utilization.0 == NUM_BLOCKS - self@.schedule.pool.free.len(),
            s.pool_utilization.1 == NUM_BLOCKS,
            s.num_waiting == self@.schedule.waiting.len(),
            s.num_running == self@.schedule.running.len(),
            s.blocks@.len() == NUM_BLOCKS,
            forall|i: int|
                0 <= i < NUM_BLOCKS ==> (#[trigger] s.blocks@[i]).id.0 == i
                    && s.blocks@[i].ref_count == self@.schedule.pool.counts[i],
            s.running@.len() == self@.schedule.running.len(),
            forall|i: int|
                0 <= i < s.running@.len() ==> #[trigger] s.running@[i]@
                    == self@.schedule.running[i].info(),
            forall|i: int|
                0 <= i < s.running@.len() ==> {
                    let r = #[trigger] self@.schedule.running[i];
                    &&& s.running@[i].id == r.id
                    &&& s.running@[i].tokens == r.table.tokens
                    &&& s.running@[i].generated == r.generated
                    &&& s.running@[i].max_new_tokens == r.max_new
                    &&& s.running@[i].blocks@ == r.table.blocks
                },
            s.events@ == self@.log,
    {
        let mut events: Vec<Event> = Vec::new();
        let mut i: usize = 0;
        while i < self.log.len()
            invariant
                i <= self.log@.len(),
                events@ == self.log@.take(i as int),
            decreases self.log@.len() - i,
        {
            events.push(self.log[i]);
            i = i + 1;
            assert(events@ =~= self.log@.take(i as int));
        }
        assert(self.log@.take(i as int) =~= self.log@);
        Snapshot {
            tick: self.tick,
            num_blocks: self.scheduler.num_blocks(),
            block_size: BLOCK_SIZE,
            pool_utilization: self.scheduler.pool_utilization(),
            num_waiting: self.scheduler.num_waiting(),
            num_running: self.scheduler.num_running(),
            blocks: self.scheduler.block_snapshot(),
            running: self.scheduler.running_snapshot(),
            events,
        }
    }
}

/// A number from `lo` up to but not including `hi`.
///
/// Calls `rand::Rng::gen_range` on `rand::thread_rng()`, which returns some
/// element of a range that is not empty. Which one is chance, and nothing is
/// claimed of it. Seeding the generator panics if the operating system has no
/// randomness to give.
#[verifier::external_body]
fn random_in(lo: usize, hi: usize) -> (n: usize)
    requires
        lo < hi,
    ensures
        lo <= n < hi,
{
    rand::Rng::gen_range(&mut rand::thread_rng(), lo..hi)
}

} // verus!
