//! A whole step, turn by turn: what it leaves in the tables, in the queue and in
//! the cache.

use vstd::prelude::*;

use crate::schedule::{Outcome, Pending, Running, Schedule};
use crate::scheduler::DecodedToken;
use crate::soundness;
use crate::store::{Entry, Store};
use crate::types::{PhysicalSlot, SeqId};

verus! {

/// The smaller of two numbers.
pub open spec fn least(a: nat, b: nat) -> nat {
    if a < b {
        a
    } else {
        b
    }
}

impl Schedule {
    /// In the middle of decoding, `k` sequences having had their turn since the
    /// schedule was `base`: those of them that still run have each written one
    /// token, into a block of their own, those whose turn is to come are as they
    /// were, and the others are at the head of the queue, oldest first.
    pub open spec fn turned(self, base: Schedule, o: Outcome, k: nat) -> bool {
        &&& self.midway(base.running_ids(), k as int)
        &&& self.reported(o, base.running_ids(), k)
        &&& self.block_size == base.block_size
        &&& self.pool.num_blocks == base.pool.num_blocks
        &&& self.running.len() <= base.running.len()
        &&& self.waiting == base.running.skip(self.running.len() as int).map_values(
            |r: Running| r.requeued(),
        ) + base.waiting
        &&& forall|j: int|
            k <= j < self.running.len() ==> #[trigger] self.running[j] == base.running[j]
        &&& forall|j: int|
            0 <= j < least(k, self.running.len()) ==> {
                let r = #[trigger] self.running[j];
                let b = base.running[j];
                &&& r.id == b.id
                &&& r.max_new == b.max_new
                &&& r.generated == b.generated + 1
                &&& r.table.tokens == b.table.tokens + 1
            }
        &&& forall|j: int|
            0 <= j < o.decoded.len() ==> {
                let d = #[trigger] o.decoded[j];
                &&& self.running[j].table.blocks.contains(d.slot.block)
                &&& self.pool.count(d.slot.block) == 1
                &&& d.cow is Some ==> d.cow.unwrap().dst == d.slot.block && d.cow.unwrap().src
                    != d.cow.unwrap().dst
            }
    }

    /// A block that only one sequence holds.
    proof fn lemma_sole_holder(self, i: int, j: int)
        requires
            self.sound(),
            0 <= i < self.running.len(),
            0 <= j < self.running.len(),
            i != j,
        ensures
            forall|x: int|
                0 <= x < self.running[i].table.blocks.len() && self.pool.count(
                    #[trigger] self.running[i].table.blocks[x],
                ) == 1 ==> !self.running[j].table.blocks.contains(self.running[i].table.blocks[x]),
    {
        assert forall|x: int|
            0 <= x < self.running[i].table.blocks.len() && self.pool.count(
                #[trigger] self.running[i].table.blocks[x],
            ) == 1 implies !self.running[j].table.blocks.contains(
            self.running[i].table.blocks[x],
        ) by {
            let b = self.running[i].table.blocks[x];
            assert(self.pool.has(self.running[i].table.blocks[x]));
            assert(self.running[i].table.blocks.contains(b));
            assert(self.pool.count(b) == crate::schedule::owners(self.running, b));
            if self.running[j].table.blocks.contains(b) {
                soundness::lemma_two_owners(self.running, i, j, b);
            }
        }
    }

    /// Writing keeps the private blocks of others private.
    proof fn lemma_write_keeps_private(self, i: int, j: int)
        requires
            self.sound(),
            self.block_size > 0,
            0 <= i < self.running.len(),
            0 <= j < self.running.len(),
            i != j,
            self.can_write(i),
        ensures
            forall|x: int|
                0 <= x < self.running[j].table.blocks.len() && self.pool.count(
                    #[trigger] self.running[j].table.blocks[x],
                ) == 1 ==> self.write_token(i).pool.count(self.running[j].table.blocks[x]) == 1,
    {
        let t = self.running[i].table;
        let p = self.pool;
        self.lemma_table_blocks(i);
        self.lemma_table_blocks(j);
        t.lemma_pool_after(p, 1);
        let taken = p.popped(t.needed(p, 1));
        p.allocated_blocks_are_private(t.needed(p, 1));
        assert forall|x: int|
            0 <= x < self.running[j].table.blocks.len() && p.count(
                #[trigger] self.running[j].table.blocks[x],
            ) == 1 implies self.write_token(i).pool.count(self.running[j].table.blocks[x]) == 1 by {
            let b = self.running[j].table.blocks[x];
            assert(p.has(b));
            if taken.contains(b) {
                let y = choose|y: int| 0 <= y < taken.len() && taken[y] == b;
                assert(p.count(taken[y]) == 0);
            }
            assert(t.pool_after(p, 1).count(b) == 1);
        }
    }

    /// What a written token reports.
    proof fn lemma_token(self, i: int)
        requires
            self.sound(),
            self.block_size > 0,
            0 <= i < self.running.len(),
            self.can_write(i),
        ensures
            ({
                let d = self.token(i);
                let s = self.write_token(i);
                &&& s.running[i].table.blocks.contains(d.slot.block)
                &&& s.pool.has(d.slot.block)
                &&& s.pool.count(d.slot.block) == 1
                &&& d.cow is Some ==> {
                    &&& d.cow.unwrap().dst == d.slot.block
                    &&& d.cow.unwrap().src == self.running[i].table.blocks.last()
                    &&& self.pool.has(d.cow.unwrap().src)
                    &&& self.pool.has(d.cow.unwrap().dst)
                    &&& self.pool.count(d.cow.unwrap().dst) == 0
                    &&& self.pool.count(d.cow.unwrap().src) >= 1
                    &&& d.cow.unwrap().src != d.cow.unwrap().dst
                }
            }),
    {
        let t = self.running[i].table;
        let p = self.pool;
        let d = self.token(i);
        let s = self.write_token(i);
        let g = t.grown(p, 1);
        self.lemma_table_blocks(i);
        self.lemma_write_sound(i);
        t.lemma_room();
        t.lemma_growth_one();
        t.lemma_grown_wf(p, 1);
        if t.has_room() {
            assert(p.has(t.blocks[t.blocks.len() - 1]));
        }
        t.written_blocks_are_private(p, 1, 0);
        assert(t.slots(p, 1)[0].block == d.slot.block);
        g.tokens_have_addresses(t.tokens);
        assert(s.running[i].table == g);
        let x = choose|x: int| 0 <= x < g.blocks.len() && g.blocks[x] == d.slot.block;
        assert(s.pool.has(s.running[i].table.blocks[x]));
        if d.cow is Some {
            assert(t.needs_copy(p));
            assert(t.needed(p, 1) == 1);
            assert(g.blocks.last() == p.popped(1)[0]);
            assert(p.has(p.free[p.free.len() - 1]) && p.count(p.free[p.free.len() - 1]) == 0);
        }
    }

    /// Preempting the newest sequence in the middle of decoding.
    proof fn lemma_turned_preempt(self, base: Schedule, o: Outcome, k: nat)
        requires
            self.sound(),
            self.turned(base, o, k),
            k < self.running.len(),
        ensures
            ({
                let v = self.running.len() - 1;
                let s = self.preempt(v);
                let q = o.with_preempted(self.running[v].id);
                &&& s.sound()
                &&& s.turned(base, q, k)
                &&& q.decoded == o.decoded
                &&& s.running == self.running.drop_last()
            }),
    {
        let ids = base.running_ids();
        let v = self.running.len() - 1;
        let s = self.preempt(v);
        let q = o.with_preempted(self.running[v].id);
        let keep = |d: DecodedToken| d.id != self.running[v].id;
        assert(self.running[v].id == ids[v]);
        assert forall|j: int| 0 <= j < o.decoded.len() implies keep(#[trigger] o.decoded[j]) by {
            assert(o.decoded[j].id == ids[j]);
        }
        crate::drain::lemma_filter_all(o.decoded, keep);
        self.lemma_preempt_sound(v);
        self.lemma_preempt_line();
        assert forall|j: int| 0 <= j < s.running.len() implies #[trigger] s.running[j]
            == self.running[j] by {}
        assert(ids.skip(v).reverse() =~= ids.skip(v + 1).reverse().push(ids[v]));
        let again = |r: Running| r.requeued();
        assert(self.running[v] == base.running[v]);
        assert(s.waiting =~= base.running.skip(v).map_values(again) + base.waiting);
        let blocks = self.running[v].table.blocks;
        self.lemma_table_blocks(v);
        self.pool.lemma_release(blocks);
        assert forall|j: int| 0 <= j < q.decoded.len() implies {
            let d = #[trigger] q.decoded[j];
            &&& s.running[j].table.blocks.contains(d.slot.block)
            &&& s.pool.count(d.slot.block) == 1
            &&& d.cow is Some ==> d.cow.unwrap().dst == d.slot.block && d.cow.unwrap().src
                != d.cow.unwrap().dst
        } by {
            let d = o.decoded[j];
            let b = d.slot.block;
            assert(self.running[j].table.blocks.contains(b));
            let x = choose|x: int|
                0 <= x < self.running[j].table.blocks.len() && self.running[j].table.blocks[x] == b;
            self.lemma_sole_holder(j, v);
            assert(self.pool.has(self.running[j].table.blocks[x]));
            assert(!blocks.contains(self.running[j].table.blocks[x]));
            assert(s.pool.count(b) == self.pool.count(b));
        }
        assert forall|j: int|
            k <= j < s.running.len() implies #[trigger] s.running[j] == base.running[j] by {
            assert(self.running[j] == base.running[j]);
        }
        assert forall|j: int| 0 <= j < least(k, s.running.len()) implies {
            let r = #[trigger] s.running[j];
            let b = base.running[j];
            &&& r.id == b.id
            &&& r.max_new == b.max_new
            &&& r.generated == b.generated + 1
            &&& r.table.tokens == b.table.tokens + 1
        } by {
            assert(self.running[j].id == base.running[j].id);
        }
    }

    /// Writing a token in the middle of decoding.
    proof fn lemma_turned_write(self, base: Schedule, o: Outcome, k: nat)
        requires
            self.sound(),
            self.block_size > 0,
            self.turned(base, o, k),
            k < self.running.len(),
            self.can_write(k as int),
        ensures
            self.write_token(k as int).sound(),
            self.write_token(k as int).turned(
                base,
                Outcome { decoded: o.decoded.push(self.token(k as int)), ..o },
                k + 1,
            ),
    {
        let i = k as int;
        let ids = base.running_ids();
        let s = self.write_token(i);
        let p = Outcome { decoded: o.decoded.push(self.token(i)), ..o };
        self.lemma_write_sound(i);
        self.lemma_token(i);
        assert(self.running[i] == base.running[i]);
        assert forall|j: int| 0 <= j < s.running.len() && j != i implies #[trigger] s.running[j]
            == self.running[j] by {}
        assert forall|j: int| 0 <= j < s.running.len() implies (#[trigger] s.running[j]).id
            == ids[j] by {
            assert(self.running[j].id == ids[j]);
        }
        assert forall|j: int| 0 <= j < p.decoded.len() implies {
            let d = #[trigger] p.decoded[j];
            &&& s.running[j].table.blocks.contains(d.slot.block)
            &&& s.pool.count(d.slot.block) == 1
            &&& d.cow is Some ==> d.cow.unwrap().dst == d.slot.block && d.cow.unwrap().src
                != d.cow.unwrap().dst
        } by {
            if j < k {
                let d = o.decoded[j];
                let b = d.slot.block;
                assert(self.running[j].table.blocks.contains(b));
                let x = choose|x: int|
                    0 <= x < self.running[j].table.blocks.len() && self.running[j].table.blocks[x]
                        == b;
                self.lemma_write_keeps_private(i, j);
                assert(s.pool.count(self.running[j].table.blocks[x]) == 1);
            }
        }
        assert forall|j: int| 0 <= j < k + 1 implies (#[trigger] p.decoded[j]).id == ids[j]
            && p.decoded[j].slot == s.running[j].table.slot_at(
            (s.running[j].table.tokens - 1) as nat,
        ) by {
            if j < k {
                assert(p.decoded[j] == o.decoded[j]);
            } else {
                assert(self.running[i].id == ids[i]);
            }
        }
        assert forall|j: int|
            k + 1 <= j < s.running.len() implies #[trigger] s.running[j] == base.running[j] by {
            assert(self.running[j] == base.running[j]);
        }
        assert forall|j: int| 0 <= j < least(k + 1, s.running.len()) implies {
            let r = #[trigger] s.running[j];
            let b = base.running[j];
            &&& r.id == b.id
            &&& r.max_new == b.max_new
            &&& r.generated == b.generated + 1
            &&& r.table.tokens == b.table.tokens + 1
        } by {
            if j < k {
                assert(self.running[j].id == base.running[j].id);
            }
        }
        assert forall|j: int| k + 1 <= j < s.running.len() implies (
        #[trigger] s.running[j]).generated <= s.running[j].max_new by {
            assert(self.running[j].generated <= self.running[j].max_new);
        }
    }

    /// The next turn.
    proof fn lemma_turn(self, base: Schedule, o: Outcome, k: nat)
        requires
            self.sound(),
            self.turned(base, o, k),
            k < base.running.len(),
        ensures
            ({
                let (s, p) = self.advance(o, base.running_ids()[k as int]);
                s.sound() && s.turned(base, p, k + 1)
            }),
        decreases self.running.len(),
    {
        let ids = base.running_ids();
        let id = ids[k as int];
        self.lemma_found(id);
        match self.position(id) {
            None => {
                if k < self.running.len() {
                    self.lemma_running_has_position(k as int);
                }
            },
            Some(i) => {
                assert(self.running[i].id == ids[i]);
                assert(i == k);
                if self.can_write(i) {
                    self.pool.used_blocks_are_the_owned_ones();
                    self.lemma_writable(i);
                    self.lemma_turned_write(base, o, k);
                } else {
                    let v = self.running.len() - 1;
                    self.lemma_turned_preempt(base, o, k);
                    self.preempt(v).lemma_turn(base, o.with_preempted(self.running[v].id), k);
                }
            },
        }
    }

    /// All turns from the middle on.
    proof fn lemma_turns(self, base: Schedule, o: Outcome, k: nat)
        requires
            self.sound(),
            self.turned(base, o, k),
            k <= base.running.len(),
        ensures
            ({
                let (s, p) = self.decode(o, base.running_ids().skip(k as int));
                s.sound() && s.turned(base, p, base.running.len())
            }),
        decreases base.running.len() - k,
    {
        let ids = base.running_ids();
        if k < base.running.len() {
            self.lemma_turn(base, o, k);
            assert(ids.skip(k as int)[0] == ids[k as int]);
            assert(ids.skip(k as int).skip(1) =~= ids.skip(k + 1int));
            let (s, p) = self.advance(o, ids[k as int]);
            s.lemma_turns(base, p, k + 1);
        }
    }

    /// Before the first turn.
    proof fn lemma_turns_start(self)
        requires
            self.wf(),
            self.line().no_duplicates(),
            self.block_size > 0 || self.pool.num_blocks == 0,
        ensures
            ({
                let (s1, admitted) = self.admission();
                &&& s1.sound()
                &&& s1.budgets_ok()
                &&& s1.turned(s1, Outcome { admitted, ..Outcome::nothing() }, 0)
                &&& s1.running_ids().skip(0) == s1.running_ids()
                &&& s1.line() == self.line()
                &&& s1.block_size == self.block_size
                &&& s1.pool.num_blocks == self.pool.num_blocks
            }),
    {
        self.lemma_admission();
        self.lemma_midway_start();
        let (s1, admitted) = self.admission();
        let ids = s1.running_ids();
        let n = s1.running.len() as int;
        assert(ids.skip(0) =~= ids);
        assert(ids.skip(n).reverse() =~= Seq::<SeqId>::empty());
        assert(s1.waiting =~= s1.running.skip(n).map_values(|r: Running| r.requeued())
            + s1.waiting);
    }

    /// The schedule and the report after all turns of a step, before finished
    /// sequences leave.
    pub open spec fn decoded_step(self) -> (Schedule, Outcome) {
        let (s1, admitted) = self.admission();
        s1.decode(Outcome { admitted, ..Outcome::nothing() }, s1.running_ids())
    }

    /// All turns of a step.
    pub proof fn lemma_decoded_step(self)
        requires
            self.wf(),
            self.line().no_duplicates(),
            self.block_size > 0 || self.pool.num_blocks == 0,
        ensures
            ({
                let s1 = self.admission().0;
                let (s2, o) = self.decoded_step();
                &&& s1.sound()
                &&& s1.budgets_ok()
                &&& s1.line() == self.line()
                &&& s2.sound()
                &&& s2.turned(s1, o, s1.running.len())
            }),
    {
        self.lemma_turns_start();
        let (s1, admitted) = self.admission();
        s1.lemma_turns(s1, Outcome { admitted, ..Outcome::nothing() }, 0);
    }

    /// The queue after a step: those who were preempted, oldest first, each with
    /// the context it had and the rest of its budget, followed by those whom
    /// admission left waiting, untouched.
    pub proof fn queue_after_a_step(self)
        requires
            self.wf(),
            self.line().no_duplicates(),
            self.block_size > 0 || self.pool.num_blocks == 0,
        ensures
            ({
                let s1 = self.admission().0;
                let m = self.decoded_step().0.running.len() as int;
                let k = self.admission().1.len() as int;
                let preempted = s1.running.skip(m);
                &&& m <= s1.running.len()
                &&& self.step().1.preempted == preempted.map_values(|r: Running| r.id).reverse()
                &&& self.step().0.waiting == preempted.map_values(
                    |r: Running|
                        Pending {
                            id: r.id,
                            context_len: r.table.tokens,
                            max_new: (r.max_new - r.generated) as nat,
                        },
                ) + self.waiting.skip(k)
            }),
    {
        self.lemma_decoded_step();
        self.admission_is_first_come_first_served();
        let s1 = self.admission().0;
        let m = self.decoded_step().0.running.len() as int;
        assert(s1.running_ids().skip(m) =~= s1.running.skip(m).map_values(|r: Running| r.id));
        assert(s1.running.skip(m).map_values(|r: Running| r.requeued())
            =~= s1.running.skip(m).map_values(
            |r: Running|
                Pending {
                    id: r.id,
                    context_len: r.table.tokens,
                    max_new: (r.max_new - r.generated) as nat,
                },
        ));
    }

    /// The tokens of one step lie in different blocks, each in a block that no
    /// one but its sequence holds, and a copy's destination is the block that
    /// the token is written to.
    pub proof fn tokens_of_a_step_lie_apart(self, i: int, j: int)
        requires
            self.wf(),
            self.line().no_duplicates(),
            self.block_size > 0 || self.pool.num_blocks == 0,
            0 <= i < self.step().1.decoded.len(),
        ensures
            ({
                let s2 = self.decoded_step().0;
                let d = self.step().1.decoded[i];
                let e = self.step().1.decoded[j];
                &&& d.cow is Some ==> d.cow.unwrap().dst == d.slot.block && d.cow.unwrap().src
                    != d.slot.block
                &&& s2.pool.count(d.slot.block) == 1
                &&& s2.running[i].id == d.id
                &&& s2.running[i].table.blocks.contains(d.slot.block)
                &&& 0 <= j < self.step().1.decoded.len() && j != i ==> {
                    &&& d.slot.block != e.slot.block
                    &&& !s2.running[j].table.blocks.contains(d.slot.block)
                }
            }),
    {
        self.lemma_decoded_step();
        let (s2, o) = self.decoded_step();
        let d = o.decoded[i];
        assert(self.step().1.decoded == o.decoded);
        assert(s2.running[i].table.blocks.contains(d.slot.block));
        let x = choose|x: int|
            0 <= x < s2.running[i].table.blocks.len() && s2.running[i].table.blocks[x]
                == d.slot.block;
        if 0 <= j < o.decoded.len() && j != i {
            s2.lemma_sole_holder(i, j);
            assert(!s2.running[j].table.blocks.contains(s2.running[i].table.blocks[x]));
            assert(s2.running[j].table.blocks.contains(o.decoded[j].slot.block));
        }
        assert(o.decoded[i].id == self.admission().0.running_ids()[i]);
    }

    /// What the token at `position` of the sequence at `j` reads in `layer`.
    pub open spec fn read<E>(self, store: Store<E>, j: int, position: nat, layer: int) -> Entry<
        E,
    > {
        store.entry(layer, self.running[j].table.slot_at(position))
    }

    /// In the middle of decoding, after every token decoded so far was dealt
    /// with: every token written before reads the same through the tables that
    /// still run, and the new ones read what was written for them.
    pub open spec fn reads_kept<E>(
        self,
        base: Schedule,
        start: Store<E>,
        o: Outcome,
        values: spec_fn(SeqId, int) -> Entry<E>,
    ) -> bool {
        let now = start.step_applied(o.decoded, values);
        &&& now.wf()
        &&& now.config == start.config
        &&& forall|j: int, p: nat, layer: int|
            0 <= j < self.running.len() && p < base.running[j].table.tokens && 0 <= layer
                < start.config.num_layers ==> #[trigger] self.read(now, j, p, layer) == base.read(
                start,
                j,
                p,
                layer,
            )
        &&& forall|j: int, layer: int|
            0 <= j < o.decoded.len() && 0 <= layer < start.config.num_layers
                ==> #[trigger] now.entry(layer, o.decoded[j].slot) == values(
                o.decoded[j].id,
                layer,
            )
    }

    /// The store and the values suit the schedule.
    pub open spec fn suits<E>(
        self,
        store: Store<E>,
        values: spec_fn(SeqId, int) -> Entry<E>,
    ) -> bool {
        &&& store.wf()
        &&& store.config.num_blocks == self.pool.num_blocks
        &&& store.config.block_size == self.block_size
        &&& forall|id: SeqId, layer: int|
            (#[trigger] values(id, layer)).k.len() == store.config.entry_len() && values(
                id,
                layer,
            ).v.len() == store.config.entry_len()
    }

    /// A token's address is a cell of the store.
    proof fn lemma_token_cell<E>(self, store: Store<E>, j: int, p: nat, layer: int)
        requires
            self.sound(),
            store.config.num_blocks == self.pool.num_blocks,
            store.config.block_size == self.block_size,
            0 <= j < self.running.len(),
            p < self.running[j].table.tokens,
            0 <= layer < store.config.num_layers,
        ensures
            store.config.has_cell(self.running[j].table.slot_at(p).cell(layer)),
            self.running[j].table.blocks.contains(self.running[j].table.slot_at(p).block),
    {
        let t = self.running[j].table;
        assert(t.wf());
        t.tokens_have_addresses(p);
        let x = choose|x: int| 0 <= x < t.blocks.len() && t.blocks[x] == t.slot_at(p).block;
        assert(self.pool.has(self.running[j].table.blocks[x]));
    }

    /// Writing a token keeps what the others read.
    proof fn lemma_write_keeps_reads<E>(
        self,
        base: Schedule,
        start: Store<E>,
        o: Outcome,
        values: spec_fn(SeqId, int) -> Entry<E>,
        k: nat,
    )
        requires
            self.sound(),
            self.block_size > 0,
            self.turned(base, o, k),
            self.reads_kept(base, start, o, values),
            self.suits(start, values),
            k < self.running.len(),
            self.can_write(k as int),
        ensures
            self.write_token(k as int).reads_kept(
                base,
                start,
                Outcome { decoded: o.decoded.push(self.token(k as int)), ..o },
                values,
            ),
    {
        let i = k as int;
        let d = self.token(i);
        let s = self.write_token(i);
        let q = Outcome { decoded: o.decoded.push(d), ..o };
        let now = start.step_applied(o.decoded, values);
        let next = start.step_applied(q.decoded, values);
        let mine = |layer: int| values(d.id, layer);
        let t = self.running[i].table;
        let g = s.running[i].table;
        assert(q.decoded.drop_last() =~= o.decoded);
        assert(q.decoded.last() == d);
        assert(next == now.token_applied(d, mine));
        self.lemma_token(i);
        self.lemma_write_sound(i);
        s.lemma_table_blocks(i);
        self.lemma_table_blocks(i);
        assert(g == t.grown(self.pool, 1));
        if start.config.num_layers > 0 {
            s.lemma_token_cell(start, i, t.tokens, 0);
        }
        assert forall|layer: int, at: PhysicalSlot|
            now.config.has_cell(at.cell(layer)) implies #[trigger] next.entry(layer, at) == if at
            == d.slot {
            values(d.id, layer)
        } else if d.cow is Some && at.block == d.slot.block {
            now.entry(
                layer,
                PhysicalSlot { block: d.cow.unwrap().src, slot: at.slot },
            )
        } else {
            now.entry(layer, at)
        } by {
            now.lemma_token_applied(d, mine, layer, at);
        }
        assert(next.wf() && next.config == now.config) by {
            if start.config.num_layers > 0 {
                now.lemma_token_applied(d, mine, 0, d.slot);
            } else {
                let c = match d.cow {
                    Some(c) => now.copied(c.src, c.dst),
                    None => now,
                };
                if d.cow is Some {
                    now.lemma_copied_wf(d.cow.unwrap().src, d.cow.unwrap().dst);
                }
                assert(next == c);
            }
        }
        assert forall|j: int, p: nat, layer: int|
            0 <= j < s.running.len() && p < base.running[j].table.tokens && 0 <= layer
                < start.config.num_layers implies #[trigger] s.read(next, j, p, layer) == base.read(
            start,
            j,
            p,
            layer,
        ) by {
            assert(self.read(now, j, p, layer) == base.read(start, j, p, layer));
            assert(p < self.running[j].table.tokens) by {
                if j < k {
                    assert(self.running[j].id == base.running[j].id);
                } else {
                    assert(self.running[j] == base.running[j]);
                }
            }
            self.lemma_token_cell(start, j, p, layer);
            if j != i {
                self.no_write_reaches_another_sequence(i, j);
                assert(next.entry(layer, self.running[j].table.slot_at(p)) == now.entry(
                    layer,
                    self.running[j].table.slot_at(p),
                ));
            } else {
                let before = t.slot_at(p);
                let after = g.slot_at(p);
                s.lemma_token_cell(start, i, p, layer);
                t.written_tokens_stay(self.pool, 1, p);
                t.tokens_have_addresses(p);
                assert(self.block_size == start.config.block_size);
                g.addresses_are_distinct(p, t.tokens);
                assert(after != d.slot);
                if t.needs_copy(self.pool) {
                    if before.block == after.block {
                        let x = choose|x: int|
                            0 <= x < t.blocks.len() && t.blocks[x] == before.block;
                        assert(self.pool.count(self.running[i].table.blocks[x]) >= 1);
                        assert(after.block != d.slot.block);
                    }
                }
                assert(next.entry(layer, after) == now.entry(layer, before));
            }
        }
        assert forall|j: int, layer: int|
            0 <= j < q.decoded.len() && 0 <= layer
                < start.config.num_layers implies #[trigger] next.entry(layer, q.decoded[j].slot)
            == values(q.decoded[j].id, layer) by {
            if j < k {
                let at = o.decoded[j].slot;
                assert(q.decoded[j] == o.decoded[j]);
                assert(now.entry(layer, o.decoded[j].slot) == values(o.decoded[j].id, layer));
                assert(self.running[j].id == base.running[j].id);
                let p = (self.running[j].table.tokens - 1) as nat;
                assert(at == self.running[j].table.slot_at(p));
                self.lemma_token_cell(start, j, p, layer);
                self.no_write_reaches_another_sequence(i, j);
            } else {
                s.lemma_token_cell(start, i, t.tokens, layer);
            }
        }
    }

    /// The next turn keeps what is read.
    proof fn lemma_turn_keeps_reads<E>(
        self,
        base: Schedule,
        start: Store<E>,
        o: Outcome,
        values: spec_fn(SeqId, int) -> Entry<E>,
        k: nat,
    )
        requires
            self.sound(),
            self.turned(base, o, k),
            self.reads_kept(base, start, o, values),
            self.suits(start, values),
            k < base.running.len(),
        ensures
            ({
                let (s, p) = self.advance(o, base.running_ids()[k as int]);
                s.reads_kept(base, start, p, values)
            }),
        decreases self.running.len(),
    {
        let ids = base.running_ids();
        let id = ids[k as int];
        self.lemma_found(id);
        match self.position(id) {
            None => {},
            Some(i) => {
                assert(self.running[i].id == ids[i]);
                assert(i == k);
                if self.can_write(i) {
                    self.pool.used_blocks_are_the_owned_ones();
                    self.lemma_writable(i);
                    self.lemma_write_keeps_reads(base, start, o, values, k);
                } else {
                    let v = self.running.len() - 1;
                    let s = self.preempt(v);
                    let q = o.with_preempted(self.running[v].id);
                    self.lemma_turned_preempt(base, o, k);
                    let now = start.step_applied(o.decoded, values);
                    assert forall|j: int, p: nat, layer: int|
                        0 <= j < s.running.len() && p < base.running[j].table.tokens && 0 <= layer
                            < start.config.num_layers implies #[trigger] s.read(now, j, p, layer)
                        == base.read(start, j, p, layer) by {
                        assert(s.running[j] == self.running[j]);
                        assert(self.read(now, j, p, layer) == base.read(start, j, p, layer));
                    }
                    s.lemma_turn_keeps_reads(base, start, q, values, k);
                }
            },
        }
    }

    /// All turns from the middle on keep what is read.
    proof fn lemma_turns_keep_reads<E>(
        self,
        base: Schedule,
        start: Store<E>,
        o: Outcome,
        values: spec_fn(SeqId, int) -> Entry<E>,
        k: nat,
    )
        requires
            self.sound(),
            self.turned(base, o, k),
            self.reads_kept(base, start, o, values),
            self.suits(start, values),
            k <= base.running.len(),
        ensures
            ({
                let (s, p) = self.decode(o, base.running_ids().skip(k as int));
                s.reads_kept(base, start, p, values)
            }),
        decreases base.running.len() - k,
    {
        let ids = base.running_ids();
        if k < base.running.len() {
            self.lemma_turn(base, o, k);
            self.lemma_turn_keeps_reads(base, start, o, values, k);
            assert(ids.skip(k as int)[0] == ids[k as int]);
            assert(ids.skip(k as int).skip(1) =~= ids.skip(k + 1int));
            let (s, p) = self.advance(o, ids[k as int]);
            s.lemma_turns_keep_reads(base, start, p, values, k + 1);
        }
    }

    /// Copy-on-write loses nothing over a whole step: once each decoded token was
    /// dealt with in order, its copy first and then its entries, every token
    /// written before the step's tokens reads the same through the table of
    /// every sequence that still runs, and every new token reads what was
    /// written for it.
    pub proof fn step_loses_nothing<E>(
        self,
        store: Store<E>,
        values: spec_fn(SeqId, int) -> Entry<E>,
        j: int,
        position: nat,
        layer: int,
    )
        requires
            self.wf(),
            self.line().no_duplicates(),
            self.block_size > 0 || self.pool.num_blocks == 0,
            self.suits(store, values),
            0 <= j < self.decoded_step().0.running.len(),
            0 <= layer < store.config.num_layers,
        ensures
            ({
                let s1 = self.admission().0;
                let s2 = self.decoded_step().0;
                let after = store.step_applied(self.step().1.decoded, values);
                let tokens = s1.running[j].table.tokens;
                &&& self.step().0.running == s2.running.filter(|r: Running| !r.done())
                &&& s2.running[j].id == s1.running[j].id
                &&& s2.running[j].table.tokens == tokens + 1
                &&& j < self.running.len() ==> s1.running[j] == self.running[j]
                &&& position < tokens ==> s2.read(after, j, position, layer) == s1.read(
                    store,
                    j,
                    position,
                    layer,
                )
                &&& s2.read(after, j, tokens, layer) == values(s2.running[j].id, layer)
            }),
    {
        self.lemma_turns_start();
        self.lemma_decoded_step();
        self.lemma_admission_running();
        let (s1, admitted) = self.admission();
        let o1 = Outcome { admitted, ..Outcome::nothing() };
        let (s2, o) = self.decoded_step();
        s1.lemma_turns_keep_reads(s1, store, o1, values, 0);
        let after = store.step_applied(o.decoded, values);
        assert(self.step().1.decoded == o.decoded);
        assert(s2.running[j].id == s1.running[j].id);
        if position < s1.running[j].table.tokens {
            assert(s2.read(after, j, position, layer) == s1.read(store, j, position, layer));
        }
        assert(o.decoded[j].id == s1.running_ids()[j]);
        assert(after.entry(layer, o.decoded[j].slot) == values(o.decoded[j].id, layer));
    }

    /// Admission leaves those who run as they are.
    proof fn lemma_admission_running(self)
        ensures
            self.admission().0.running.len() >= self.running.len(),
            forall|j: int|
                0 <= j < self.running.len() ==> #[trigger] self.admission().0.running[j]
                    == self.running[j],
        decreases self.waiting.len(),
    {
        if self.may_admit() && self.front_error() is None {
            let s = self.admit_front();
            s.lemma_admission_running();
            assert forall|j: int| 0 <= j < self.running.len() implies
                #[trigger] self.admission().0.running[j] == self.running[j] by {
                assert(s.running[j] == self.running[j]);
            }
        }
    }
}

} // verus!
