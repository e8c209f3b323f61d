//! What the demo logs, and what one tick does.

use vstd::prelude::*;

use crate::block_table::CowCopy;
use crate::demo::{self, DemoState, Event, EventKind};
use crate::schedule::Outcome;
use crate::scheduler::DecodedToken;
use crate::types::{BlockId, SeqId};

verus! {

/// How often `id` is among `ids`.
pub open spec fn mentions(ids: Seq<SeqId>, id: u64) -> nat {
    ids.to_multiset().count(SeqId(id))
}

/// How often the events say that `kind` happened to `id` at `tick`.
pub open spec fn logged(events: Seq<Event>, id: u64, tick: u64, kind: EventKind) -> nat {
    events.to_multiset().count(Event { seq_id: id, tick, kind })
}

/// The tokens of `id` that owe a copy from block `src` to block `dst`.
pub open spec fn copied_tokens(decoded: Seq<DecodedToken>, id: u64, src: u32, dst: u32) -> Seq<
    DecodedToken,
> {
    decoded.filter(
        |d: DecodedToken|
            d.id.0 == id && d.cow == Some(CowCopy { src: BlockId(src), dst: BlockId(dst) }),
    )
}

proof fn lemma_events_for(ids: Seq<SeqId>, tick: u64, kind: EventKind, e: Event)
    ensures
        demo::events_for(ids, tick, kind).to_multiset().count(e) == if e.tick == tick && e.kind
            == kind {
            mentions(ids, e.seq_id)
        } else {
            0
        },
    decreases ids.len(),
{
    broadcast use vstd::seq_lib::group_to_multiset_ensures;

    let all = demo::events_for(ids, tick, kind);
    if ids.len() > 0 {
        let front = demo::events_for(ids.drop_last(), tick, kind);
        lemma_events_for(ids.drop_last(), tick, kind, e);
        assert(all =~= front.push(Event { seq_id: ids.last().0, tick, kind }));
        assert(ids =~= ids.drop_last().push(ids.last()));
    }
}

proof fn lemma_copy_events(decoded: Seq<DecodedToken>, tick: u64, e: Event)
    ensures
        demo::copy_events(decoded, tick).to_multiset().count(e) == match e.kind {
            EventKind::Cow { src_block, dst_block } => if e.tick == tick {
                copied_tokens(decoded, e.seq_id, src_block, dst_block).len()
            } else {
                0
            },
            _ => 0,
        },
        forall|i: int|
            0 <= i < demo::copy_events(decoded, tick).len() ==> (#[trigger] demo::copy_events(
                decoded,
                tick,
            )[i]).tick == tick,
        demo::copy_events(decoded, tick).len() == decoded.filter(
            |d: DecodedToken| d.cow is Some,
        ).len(),
        forall|i: int|
            0 <= i < demo::copy_events(decoded, tick).len() ==> #[trigger] demo::copy_events(
                decoded,
                tick,
            )[i] == copy_entry(decoded.filter(|d: DecodedToken| d.cow is Some)[i], tick),
    decreases decoded.len(),
{
    broadcast use vstd::seq_lib::group_to_multiset_ensures;

    reveal(Seq::filter);
    if decoded.len() > 0 {
        lemma_copy_events(decoded.drop_last(), tick, e);
    }
}

/// The entry for a token that owes a copy.
pub open spec fn copy_entry(d: DecodedToken, tick: u64) -> Event {
    Event {
        seq_id: d.id.0,
        tick,
        kind: EventKind::Cow { src_block: d.cow->0.src.0, dst_block: d.cow->0.dst.0 },
    }
}

/// A step is logged once for everything that happened to everyone: each id is
/// logged as admitted, preempted or finished as often as the step lists it so,
/// and as copying between two blocks as often as a token of it owes that copy,
/// all at the tick of the step.
pub proof fn everything_is_logged_once(
    o: Outcome,
    tick: u64,
    id: u64,
    at: u64,
    src_block: u32,
    dst_block: u32,
)
    ensures
        ({
            let events = demo::step_events(o, tick);
            &&& logged(events, id, tick, EventKind::Admitted) == mentions(o.admitted, id)
            &&& logged(events, id, tick, EventKind::Preempted) == mentions(o.preempted, id)
            &&& logged(events, id, tick, EventKind::Finished) == mentions(o.finished, id)
            &&& logged(events, id, tick, EventKind::Cow { src_block, dst_block })
                == copied_tokens(o.decoded, id, src_block, dst_block).len()
            &&& at != tick ==> forall|kind: EventKind| #[trigger] logged(events, id, at, kind) == 0
        }),
{
    let events = demo::step_events(o, tick);
    assert forall|e: Event| #[trigger] events.to_multiset().count(e) == demo::events_for(
        o.admitted,
        tick,
        EventKind::Admitted,
    ).to_multiset().count(e) + demo::copy_events(o.decoded, tick).to_multiset().count(e)
        + demo::events_for(o.preempted, tick, EventKind::Preempted).to_multiset().count(e)
        + demo::events_for(o.finished, tick, EventKind::Finished).to_multiset().count(e) by {
        let a = demo::events_for(o.admitted, tick, EventKind::Admitted);
        let c = demo::copy_events(o.decoded, tick);
        let p = demo::events_for(o.preempted, tick, EventKind::Preempted);
        let f = demo::events_for(o.finished, tick, EventKind::Finished);
        vstd::seq_lib::lemma_multiset_commutative(a, c);
        vstd::seq_lib::lemma_multiset_commutative(a + c, p);
        vstd::seq_lib::lemma_multiset_commutative(a + c + p, f);
    }
    assert forall|kind: EventKind, t: u64| #[trigger] logged(events, id, t, kind) == if t == tick {
        match kind {
            EventKind::Admitted => mentions(o.admitted, id),
            EventKind::Preempted => mentions(o.preempted, id),
            EventKind::Finished => mentions(o.finished, id),
            EventKind::Cow { src_block, dst_block } => copied_tokens(
                o.decoded,
                id,
                src_block,
                dst_block,
            ).len(),
        }
    } else {
        0
    } by {
        let e = Event { seq_id: id, tick: t, kind };
        lemma_events_for(o.admitted, tick, EventKind::Admitted, e);
        lemma_events_for(o.preempted, tick, EventKind::Preempted, e);
        lemma_events_for(o.finished, tick, EventKind::Finished, e);
        lemma_copy_events(o.decoded, tick, e);
    }
}

/// The log of a step has the admissions first, followed by the copies, the
/// preemptions and the completions, each in the order of the step.
pub proof fn steps_are_logged_in_order(o: Outcome, tick: u64, i: int)
    ensures
        ({
            let events = demo::step_events(o, tick);
            let copies = o.decoded.filter(|d: DecodedToken| d.cow is Some);
            let a = o.admitted.len() as int;
            let c = a + copies.len();
            let p = c + o.preempted.len();
            let f = p + o.finished.len();
            &&& events.len() == f
            &&& 0 <= i < a ==> events[i] == (Event {
                seq_id: o.admitted[i].0,
                tick,
                kind: EventKind::Admitted,
            })
            &&& a <= i < c ==> events[i] == copy_entry(copies[i - a], tick)
            &&& c <= i < p ==> events[i] == (Event {
                seq_id: o.preempted[i - c].0,
                tick,
                kind: EventKind::Preempted,
            })
            &&& p <= i < f ==> events[i] == (Event {
                seq_id: o.finished[i - p].0,
                tick,
                kind: EventKind::Finished,
            })
        }),
{
    let e = Event { seq_id: 0, tick, kind: EventKind::Admitted };
    lemma_copy_events(o.decoded, tick, e);
    let copies = o.decoded.filter(|d: DecodedToken| d.cow is Some);
    let a = o.admitted.len() as int;
    if a <= i < a + copies.len() {
        assert(demo::step_events(o, tick)[i] == demo::copy_events(o.decoded, tick)[i - a]);
        assert(demo::copy_events(o.decoded, tick)[i - a] == copy_entry(copies[i - a], tick));
    }
}

/// The log keeps the last two hundred events of all that ever happened, in
/// order: what it forgets does not depend on when the events came in.
pub proof fn log_keeps_the_latest(a: Seq<Event>, b: Seq<Event>, i: int)
    ensures
        a.len() <= 200 ==> demo::recent(a) == a,
        a.len() > 200 ==> demo::recent(a).len() == 200,
        0 <= i < demo::recent(a).len() ==> demo::recent(a)[i] == a[a.len() - demo::recent(a).len()
            + i],
        demo::recent(demo::recent(a) + b) == demo::recent(a + b),
{
    assert(demo::recent(demo::recent(a) + b) =~= demo::recent(a + b));
}

/// Ticks.
impl DemoState {
    /// A request is accepted exactly if the pool of 64 blocks of 8 tokens could
    /// hold it. It takes the next id either way, and joins the end of the queue
    /// if it is accepted.
    pub proof fn request_takes_the_next_id(self, prompt_len: nat, max_new: nat)
        requires
            self.wf(),
        ensures
            ({
                let d = self.submitted(prompt_len, max_new);
                let n = self.schedule.waiting.len() as int;
                &&& d.next_id == self.next_id + 1
                &&& d.tick == self.tick
                &&& d.log == self.log
                &&& prompt_len + max_new > 512 ==> d.schedule == self.schedule
                &&& prompt_len + max_new <= 512 ==> {
                    &&& d.schedule.waiting.len() == n + 1
                    &&& d.schedule.waiting.take(n) == self.schedule.waiting
                    &&& d.schedule.waiting[n].id.0 == self.next_id
                    &&& d.schedule.waiting[n].context_len == prompt_len
                    &&& d.schedule.waiting[n].max_new == max_new
                    &&& d.schedule.running == self.schedule.running
                    &&& d.schedule.pool == self.schedule.pool
                }
            }),
    {
        let s = self.schedule;
        assert(s.pool.num_blocks * s.block_size == 512) by (nonlinear_arith)
            requires
                s.pool.num_blocks == 64,
                s.block_size == 8,
        ;
        s.request_joins_the_queue(SeqId(self.next_id as u64), prompt_len, max_new);
    }

    /// A fork is for the rest of its parent's budget. With nothing left of that
    /// nothing happens; otherwise the next id is taken, and unless an owner
    /// counter is at its end the child runs last in its parent's blocks.
    pub proof fn fork_is_for_the_rest_of_the_budget(self, i: int)
        requires
            self.wf(),
            self.next_id < u64::MAX,
            0 <= i < self.schedule.running.len(),
        ensures
            ({
                let d = self.forked(i);
                let r = self.schedule.running[i];
                let n = self.schedule.running.len() as int;
                let countable = forall|x: int|
                    0 <= x < r.table.blocks.len()
                        ==> self.schedule.pool.counts[(#[trigger] r.table.blocks[x]).0 as int]
                        < 65535;
                &&& r.generated >= r.max_new ==> d == self
                &&& r.generated < r.max_new ==> d.next_id == self.next_id + 1 && d.tick == self.tick
                    && d.log == self.log
                &&& r.generated < r.max_new && !countable ==> d.schedule == self.schedule
                &&& r.generated < r.max_new && countable ==> {
                    &&& d.schedule.running.len() == n + 1
                    &&& d.schedule.running.take(n) == self.schedule.running
                    &&& d.schedule.running[n].id.0 == self.next_id
                    &&& d.schedule.running[n].table == r.table
                    &&& d.schedule.running[n].generated == 0
                    &&& d.schedule.running[n].max_new + r.generated == r.max_new
                    &&& d.schedule.waiting == self.schedule.waiting
                    &&& d.schedule.pool.free == self.schedule.pool.free
                }
            }),
    {
        let s = self.schedule;
        let r = s.running[i];
        assert(s.line()[i] == r.id);
        assert forall|j: int| 0 <= j < i implies (#[trigger] s.running[j]).id != r.id by {
            assert(s.line()[j] == s.running[j].id);
        }
        s.fork_fails_exactly_if_unknown_or_uncountable(r.id, i);
        if r.generated < r.max_new && s.fork_error(r.id) is None {
            let left = (r.max_new - r.generated) as nat;
            s.fork_adds_a_child(r.id, SeqId(self.next_id as u64), left, i);
        }
    }

    /// A tick counts one up, takes in a request at every third tick, forks at
    /// every fifth if anyone runs, and ends with one scheduling step, whose
    /// events are added to the log under the new tick.
    pub proof fn tick_asks_forks_and_steps(self, prompt_len: nat, max_new: nat, pick: int)
        requires
            self.tick < u64::MAX,
        ensures
            ({
                let d = self.advanced(prompt_len, max_new, pick);
                let a = DemoState { tick: self.tick + 1, ..self };
                let b = if (self.tick + 1) % 3 == 0 {
                    a.submitted(prompt_len, max_new)
                } else {
                    a
                };
                let c = if (self.tick + 1) % 5 == 0 && b.schedule.running.len() > 0 {
                    b.forked(pick)
                } else {
                    b
                };
                let (s, o) = c.schedule.step();
                let events = demo::step_events(o, (self.tick + 1) as u64);
                &&& d.tick == self.tick + 1
                &&& d.schedule == s
                &&& d.next_id == c.next_id
                &&& d.log == demo::recent(c.log + events)
            }),
    {
    }

    /// Whether a tick can be run, and what it may draw: the counters stay in
    /// range, and a request has 4 to 47 tokens of prompt and 4 to 31 of budget.
    pub proof fn draws_are_in_range(self, prompt_len: nat, max_new: nat, pick: int)
        requires
            self.wf(),
        ensures
            self.may_draw(prompt_len, max_new, pick) <==> {
                &&& (self.tick + 1) % 3 == 0 ==> 4 <= prompt_len <= 47 && 4 <= max_new <= 31
                &&& (self.tick + 1) % 5 == 0 && self.schedule.running.len() > 0 ==> 0 <= pick
                    < self.schedule.running.len()
            },
            self.has_headroom() <==> {
                &&& self.tick < u64::MAX
                &&& self.next_id <= u64::MAX - 2
                &&& self.schedule.pool.total + 64 + self.schedule.running.len()
                    + self.schedule.waiting.len() <= u64::MAX - 2
            },
    {
    }
}

} // verus!
