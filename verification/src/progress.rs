//! What one scheduling step does to the schedule as a whole.

use vstd::prelude::*;

use crate::schedule::{Outcome, Running, Schedule};
use crate::table::Table;
use crate::types::SeqId;

verus! {

/// Facts about the phases of a step.
impl Schedule {
    /// The position is unique.
    pub proof fn lemma_position(self, id: SeqId, i: int)
        requires
            self.is_first(id, i),
        ensures
            self.position(id) == Some(i),
    {
        let k = choose|k: int| self.is_first(id, k);
        assert(self.is_first(id, k));
        if k < i {
            assert(self.running[k].id != id);
        }
        if i < k {
            assert(self.running[i].id != id);
        }
    }

    /// A found position is the first.
    pub proof fn lemma_found(self, id: SeqId)
        ensures
            self.position(id) is Some ==> self.is_first(id, self.position(id).unwrap()),
    {
        if exists|i: int| self.is_first(id, i) {
            let k = choose|k: int| self.is_first(id, k);
            assert(self.is_first(id, k));
        }
    }

    /// A sequence that is running has a position.
    pub proof fn lemma_running_has_position(self, i: int)
        requires
            0 <= i < self.running.len(),
        ensures
            self.position(self.running[i].id) is Some,
        decreases i,
    {
        let id = self.running[i].id;
        if exists|j: int| 0 <= j < i && (#[trigger] self.running[j]).id == id {
            let j = choose|j: int| 0 <= j < i && (#[trigger] self.running[j]).id == id;
            self.lemma_running_has_position(j);
        } else {
            assert(self.is_first(id, i));
        }
    }

    /// What admission keeps.
    pub proof fn lemma_admission(self)
        requires
            self.sound(),
        ensures
            self.admission().0.sound(),
            self.admission().0.pool.num_blocks == self.pool.num_blocks,
            self.admission().0.block_size == self.block_size,
            self.admission().0.max_batch == self.max_batch,
            self.pool.total <= self.admission().0.pool.total <= self.pool.total
                + self.pool.free.len(),
            self.budgets_ok() ==> self.admission().0.budgets_ok(),
            self.admission().0.line() == self.line(),
            self.admission().0.running.len() + self.admission().0.waiting.len()
                == self.running.len() + self.waiting.len(),
        decreases self.waiting.len(),
    {
        if self.may_admit() {
            if self.front_error() is None {
                let s = self.admit_front();
                self.lemma_admit_front_sound();
                s.lemma_admission();
                if self.budgets_ok() {
                    assert forall|j: int| 0 <= j < s.running.len() implies (
                    #[trigger] s.running[j]).generated == 0 || !s.running[j].done() by {
                        if j < self.running.len() {
                            assert(s.running[j] == self.running[j]);
                        }
                    }
                }
                assert(s.line() =~= self.line());
            } else {
                self.lemma_blocked_sound();
                let t = Table::empty(self.block_size);
                let s = self.admission().0;
                if self.budgets_ok() {
                    self.lemma_budgets_kept(s);
                }
            }
        }
    }

    /// Preempting the newest sequence keeps the line.
    pub proof fn lemma_preempt_line(self)
        requires
            self.running.len() > 0,
        ensures
            self.preempt(self.running.len() - 1).line() == self.line(),
            self.preempt(self.running.len() - 1).running == self.running.drop_last(),
    {
        let v = self.running.len() - 1;
        let s = self.preempt(v);
        assert(s.running =~= self.running.drop_last());
        assert(s.line() =~= self.line());
    }

    /// Writing a token keeps the line.
    pub proof fn lemma_write_line(self, i: int)
        requires
            0 <= i < self.running.len(),
        ensures
            self.write_token(i).line() == self.line(),
    {
        assert(self.write_token(i).line() =~= self.line());
    }

    /// The report does not influence the schedule.
    pub proof fn lemma_advance_outcome(self, o: Outcome, p: Outcome, id: SeqId)
        ensures
            self.advance(o, id).0 == self.advance(p, id).0,
        decreases self.running.len(),
    {
        if let Some(i) = self.position(id) {
            if !self.can_write(i) && self.running.len() > 0 {
                let v = self.running.len() - 1;
                let s = self.preempt(v);
                s.lemma_advance_outcome(
                    o.with_preempted(self.running[v].id),
                    p.with_preempted(self.running[v].id),
                    id,
                );
            }
        }
    }

    /// What advancing one sequence keeps.
    pub proof fn lemma_advance(self, o: Outcome, id: SeqId)
        requires
            self.sound(),
            self.advance_safe(id),
        ensures
            ({
                let s = self.advance(o, id).0;
                &&& s.sound()
                &&& s.pool.num_blocks == self.pool.num_blocks
                &&& s.block_size == self.block_size
                &&& s.max_batch == self.max_batch
                &&& self.pool.total <= s.pool.total <= self.pool.total + 1
                &&& s.line() == self.line()
                &&& s.running.len() <= self.running.len()
            }),
        decreases self.running.len(),
    {
        if let Some(i) = self.position(id) {
            self.lemma_found(id);
            if self.can_write(i) {
                self.lemma_writable(i);
                self.lemma_write_sound(i);
                self.lemma_write_line(i);
            } else if self.running.len() > 0 {
                let v = self.running.len() - 1;
                self.lemma_preempt_sound(v);
                self.lemma_preempt_line();
                self.preempt(v).lemma_advance(o.with_preempted(self.running[v].id), id);
            }
        }
    }

    /// A token can be written only into blocks that have a size.
    pub proof fn lemma_writable(self, i: int)
        requires
            self.sound(),
            0 <= i < self.running.len(),
            self.can_write(i),
            self.block_size > 0 || self.pool.free.len() == 0,
        ensures
            self.block_size > 0,
    {
        if self.block_size == 0 {
            let t = self.running[i].table;
            assert(t.block_size == 0);
            assert(t.blocks.len() * 0 == 0);
        }
    }

    /// What goes wrong when a token cannot be written is a lack of blocks.
    pub proof fn lemma_unwritable(self, i: int)
        requires
            self.sound(),
            0 <= i < self.running.len(),
            !self.can_write(i),
            self.block_size > 0 || self.pool.free.len() == 0,
        ensures
            self.running[i].table.append_error(self.pool, 1)->0 is OutOfBlocks,
            self.pool.free.len() == 0,
    {
        let t = self.running[i].table;
        self.lemma_table_blocks(i);
        assert(t.grown(self.pool, 0).blocks =~= t.blocks);
        t.lemma_step_fits(self.pool, 0, 1);
        if t.has_room() {
            assert(t.blocks.len() > 0) by {
                assert(0 * t.block_size == 0);
            }
            assert(self.pool.has(t.blocks[t.blocks.len() - 1]));
        }
    }

    /// What decoding keeps.
    pub proof fn lemma_decode(self, o: Outcome, ids: Seq<SeqId>)
        requires
            self.sound(),
            self.decode_safe(ids),
        ensures
            ({
                let s = self.decode(o, ids).0;
                &&& s.sound()
                &&& s.pool.num_blocks == self.pool.num_blocks
                &&& s.block_size == self.block_size
                &&& s.max_batch == self.max_batch
                &&& self.pool.total <= s.pool.total <= self.pool.total + ids.len()
                &&& s.line() == self.line()
                &&& s.running.len() <= self.running.len()
            }),
        decreases ids.len(),
    {
        if ids.len() > 0 {
            self.lemma_advance(o, ids[0]);
            self.lemma_advance_outcome(o, Outcome::nothing(), ids[0]);
            let (s, p) = self.advance(o, ids[0]);
            s.lemma_decode(p, ids.skip(1));
        }
    }

    /// What retiring keeps.
    #[verifier::rlimit(30)]
    pub proof fn lemma_retired(self, k: int)
        requires
            self.sound(),
            0 <= k <= self.running.len(),
        ensures
            self.retired(k).sound(),
            self.retired(k).pool.total == self.pool.total,
            self.retired(k).pool.num_blocks == self.pool.num_blocks,
            self.pool.decref_each(
                crate::schedule::all_blocks(
                    self.running.take(k).filter(|r: Running| r.done()),
                ),
            ).1 is None,
        decreases k,
    {
        self.lemma_retired_start();
        if k > 0 {
            self.lemma_retired(k - 1);
            self.lemma_retired_step(k - 1);
        }
    }

    /// Retired schedules are sound, and what still runs has budget left.
    pub proof fn lemma_retire(self)
        requires
            self.sound(),
        ensures
            self.retire().wf(),
            self.retire().pool.total == self.pool.total,
            self.retire().pool.num_blocks == self.pool.num_blocks,
    {
        self.lemma_retired(self.running.len() as int);
        self.lemma_retired_end();
        let live = |r: Running| !r.done();
        let s = self.retire();
        assert forall|j: int| 0 <= j < s.running.len() implies (
        #[trigger] s.running[j]).generated == 0 || !s.running[j].done() by {
            self.running.lemma_filter_pred(live, j);
        }
    }

    /// Only retiring reports finished sequences.
    pub proof fn lemma_advance_finished(self, o: Outcome, id: SeqId)
        ensures
            self.advance(o, id).1.finished == o.finished,
            self.advance(o, id).1.admitted == o.admitted,
        decreases self.running.len(),
    {
        if let Some(i) = self.position(id) {
            if !self.can_write(i) && self.running.len() > 0 {
                let v = self.running.len() - 1;
                self.preempt(v).lemma_advance_finished(
                    o.with_preempted(self.running[v].id),
                    id,
                );
            }
        }
    }

    /// Only retiring reports finished sequences, and only admission admitted ones.
    pub proof fn lemma_decode_finished(self, o: Outcome, ids: Seq<SeqId>)
        ensures
            self.decode(o, ids).1.finished == o.finished,
            self.decode(o, ids).1.admitted == o.admitted,
        decreases ids.len(),
    {
        if ids.len() > 0 {
            self.lemma_advance_finished(o, ids[0]);
            let (s, p) = self.advance(o, ids[0]);
            s.lemma_decode_finished(p, ids.skip(1));
        }
    }

    /// Before retiring no sequence is reported as finished.
    pub proof fn lemma_nothing_finished_early(self)
        ensures
            ({
                let (s1, admitted) = self.admission();
                let o = Outcome { admitted, ..Outcome::nothing() };
                s1.decode(o, s1.running_ids()).1.finished == Seq::<SeqId>::empty()
            }),
    {
        let (s1, admitted) = self.admission();
        s1.lemma_decode_finished(
            Outcome { admitted, ..Outcome::nothing() },
            s1.running_ids(),
        );
    }

    /// In the middle of decoding a line of distinct ids: those that run are the
    /// first of `ids`, and from `k` on they have not been advanced yet.
    pub open spec fn midway(self, ids: Seq<SeqId>, k: int) -> bool {
        &&& ids.no_duplicates()
        &&& self.running.len() <= ids.len()
        &&& forall|j: int|
            0 <= j < self.running.len() ==> (#[trigger] self.running[j]).id == ids[j]
        &&& forall|j: int|
            k <= j < self.running.len() ==> (#[trigger] self.running[j]).generated
                <= self.running[j].max_new
        &&& self.block_size > 0 || self.pool.num_blocks == 0
    }

    /// Advancing the next id midway is safe.
    pub proof fn lemma_midway_step(self, ids: Seq<SeqId>, k: int)
        requires
            self.sound(),
            self.midway(ids, k),
            0 <= k < ids.len(),
        ensures
            self.advance_safe(ids[k]),
            self.advance(Outcome::nothing(), ids[k]).0.midway(ids, k + 1),
        decreases self.running.len(),
    {
        let id = ids[k];
        let o = Outcome::nothing();
        self.lemma_found(id);
        if self.pool.num_blocks == 0 {
            self.pool.used_blocks_are_the_owned_ones();
        }
        match self.position(id) {
            None => {
                if k < self.running.len() {
                    self.lemma_running_has_position(k);
                }
            },
            Some(i) => {
                assert(self.running[i].id == ids[i]);
                assert(i == k);
                if self.can_write(i) {
                    self.lemma_writable(i);
                    let s = self.write_token(i);
                    assert forall|j: int| 0 <= j < s.running.len() implies (
                    #[trigger] s.running[j]).id == ids[j] by {
                        assert(self.running[j].id == ids[j]);
                    }
                    assert forall|j: int| k + 1 <= j < s.running.len() implies (
                    #[trigger] s.running[j]).generated <= s.running[j].max_new by {
                        assert(s.running[j] == self.running[j]);
                    }
                } else {
                    let v = self.running.len() - 1;
                    assert(self.running[v].generated <= self.running[v].max_new);
                    let s = self.preempt(v);
                    self.lemma_preempt_sound(v);
                    self.lemma_preempt_line();
                    assert forall|j: int| 0 <= j < s.running.len() implies #[trigger] s.running[j]
                        == self.running[j] by {}
                    s.lemma_midway_step(ids, k);
                    s.lemma_advance_outcome(o, o.with_preempted(self.running[v].id), id);
                }
            },
        }
    }

    /// Decoding from midway is safe.
    pub proof fn lemma_midway_safe(self, ids: Seq<SeqId>, k: int)
        requires
            self.sound(),
            self.midway(ids, k),
            0 <= k <= ids.len(),
        ensures
            self.decode_safe(ids.skip(k)),
        decreases ids.len() - k,
    {
        if k < ids.len() {
            self.lemma_midway_step(ids, k);
            self.lemma_advance(Outcome::nothing(), ids[k]);
            assert(ids.skip(k)[0] == ids[k]);
            assert(ids.skip(k).skip(1) =~= ids.skip(k + 1));
            self.advance(Outcome::nothing(), ids[k]).0.lemma_midway_safe(ids, k + 1);
        }
    }

    /// After admission decoding can start.
    pub proof fn lemma_midway_start(self)
        requires
            self.wf(),
            self.line().no_duplicates(),
            self.block_size > 0 || self.pool.num_blocks == 0,
        ensures
            self.admission().0.midway(self.admission().0.running_ids(), 0),
    {
        self.lemma_admission();
        let s1 = self.admission().0;
        let ids = s1.running_ids();
        assert(ids.no_duplicates()) by {
            assert forall|i: int, j: int|
                0 <= i < ids.len() && 0 <= j < ids.len() && i != j implies ids[i] != ids[j] by {
                assert(s1.line()[i] == ids[i]);
                assert(s1.line()[j] == ids[j]);
            }
        }
    }

    /// The usual case is safe.
    pub proof fn lemma_ready_is_safe(self)
        requires
            self.wf(),
            self.ready(),
        ensures
            self.step_safe(),
    {
        self.lemma_admission();
        self.lemma_midway_start();
        self.pool.used_blocks_are_the_owned_ones();
        let (s1, admitted) = self.admission();
        let ids = s1.running_ids();
        s1.lemma_midway_safe(ids, 0);
        assert(ids.skip(0) =~= ids);
        let o = Outcome { admitted, ..Outcome::nothing() };
        s1.lemma_decode(o, ids);
        s1.decode(o, ids).0.lemma_retire();
    }
}

} // verus!
