//! Every request that fits is finished: the scheduler makes progress.

use vstd::prelude::*;
use vstd::set_lib::*;

use crate::schedule::{Outcome, Pending, Running, Schedule};
use crate::soundness;
use crate::table::Table;
use crate::types::{BlockId, SeqId};

verus! {

/// What a sequence still has to do, whether it runs or waits.
pub struct Job {
    pub id: SeqId,
    /// Tokens of context.
    pub tokens: nat,
    /// Tokens to write before it is let go.
    pub left: nat,
}

impl Job {
    /// One token later.
    pub open spec fn ticked(self) -> Job {
        Job { id: self.id, tokens: self.tokens + 1, left: (self.left - 1) as nat }
    }
}

impl Running {
    /// Tokens to write before the sequence is let go: a sequence writes at
    /// least one token, even on a budget of none.
    pub open spec fn left(self) -> nat {
        if self.generated < self.max_new {
            (self.max_new - self.generated) as nat
        } else if self.generated == 0 {
            1
        } else {
            0
        }
    }

    pub open spec fn job(self) -> Job {
        Job { id: self.id, tokens: self.table.tokens, left: self.left() }
    }
}

impl Pending {
    pub open spec fn job(self) -> Job {
        Job {
            id: self.id,
            tokens: self.context_len,
            left: if self.max_new > 0 {
                self.max_new
            } else {
                1
            },
        }
    }
}

/// Tokens to write over all of `jobs`.
pub open spec fn total_left(jobs: Seq<Job>) -> nat
    decreases jobs.len(),
{
    if jobs.len() == 0 {
        0
    } else {
        total_left(jobs.drop_last()) + jobs.last().left
    }
}

/// `jobs` after the first `m` of them wrote a token.
pub open spec fn ticked(jobs: Seq<Job>, m: nat) -> Seq<Job> {
    Seq::new(
        jobs.len(),
        |i: int|
            if i < m {
                jobs[i].ticked()
            } else {
                jobs[i]
            },
    )
}

/// Totals add up.
pub proof fn lemma_total_add(a: Seq<Job>, b: Seq<Job>)
    ensures
        total_left(a + b) == total_left(a) + total_left(b),
    decreases b.len(),
{
    if b.len() == 0 {
        assert(a + b =~= a);
    } else {
        lemma_total_add(a, b.drop_last());
        assert((a + b).drop_last() =~= a + b.drop_last());
        assert((a + b).last() == b.last());
    }
}

/// Each token written takes one from the total.
pub proof fn lemma_total_ticked(jobs: Seq<Job>, m: nat)
    requires
        m <= jobs.len(),
        forall|i: int| 0 <= i < m ==> (#[trigger] jobs[i]).left >= 1,
    ensures
        total_left(ticked(jobs, m)) + m == total_left(jobs),
    decreases jobs.len(),
{
    if jobs.len() > 0 {
        let front = jobs.drop_last();
        let k = if m < jobs.len() {
            m
        } else {
            (m - 1) as nat
        };
        assert forall|i: int| 0 <= i < k implies (#[trigger] front[i]).left >= 1 by {
            assert(front[i] == jobs[i]);
        }
        lemma_total_ticked(front, k);
        assert(ticked(jobs, m).drop_last() =~= ticked(front, k));
        assert(jobs[jobs.len() - 1].left == jobs.last().left);
        assert(ticked(jobs, m).last() == ticked(jobs, m)[jobs.len() - 1]);
    }
}

/// Leaving some out does not raise the total.
pub proof fn lemma_total_filter(running: Seq<Running>, keep: spec_fn(Running) -> bool)
    ensures
        total_left(running.filter(keep).map_values(|r: Running| r.job())) <= total_left(
            running.map_values(|r: Running| r.job()),
        ),
    decreases running.len(),
{
    reveal_with_fuel(Seq::filter, 2);
    let job = |r: Running| r.job();
    if running.len() > 0 {
        let front = running.drop_last();
        lemma_total_filter(front, keep);
        let all = running.map_values(job);
        let kept = front.filter(keep);
        assert(all.drop_last() =~= front.map_values(job));
        assert(all.last() == running.last().job());
        if keep(running.last()) {
            let more = kept.push(running.last());
            assert(more.map_values(job).drop_last() =~= kept.map_values(job));
            assert(more.map_values(job).last() == running.last().job());
        }
    } else {
        assert(running.filter(keep) =~= running);
    }
}

/// The live and the done together are all.
proof fn lemma_split(running: Seq<Running>)
    ensures
        running.filter(|r: Running| !r.done()).map_values(|r: Running| r.id).to_multiset().add(
            running.filter(|r: Running| r.done()).map_values(|r: Running| r.id).to_multiset(),
        ) == running.map_values(|r: Running| r.id).to_multiset(),
    decreases running.len(),
{
    broadcast use vstd::seq_lib::group_to_multiset_ensures;

    reveal_with_fuel(Seq::filter, 2);
    let name = |r: Running| r.id;
    let live = |r: Running| !r.done();
    let done = |r: Running| r.done();
    if running.len() > 0 {
        let front = running.drop_last();
        let last = running.last();
        lemma_split(front);
        assert(running.map_values(name) =~= front.map_values(name).push(last.id));
        if last.done() {
            assert(running.filter(done).map_values(name) =~= front.filter(done).map_values(
                name,
            ).push(last.id));
            assert(running.filter(live) == front.filter(live));
        } else {
            assert(running.filter(live).map_values(name) =~= front.filter(live).map_values(
                name,
            ).push(last.id));
            assert(running.filter(done) == front.filter(done));
        }
        assert(running.filter(live).map_values(name).to_multiset().add(
            running.filter(done).map_values(name).to_multiset(),
        ) =~= running.map_values(name).to_multiset());
    } else {
        assert(running.filter(live).map_values(name) =~= Seq::empty());
        assert(running.filter(done).map_values(name) =~= Seq::empty());
        assert(running.map_values(name) =~= Seq::empty());
        assert(Seq::<SeqId>::empty().to_multiset().add(Seq::<SeqId>::empty().to_multiset())
            =~= Seq::<SeqId>::empty().to_multiset());
    }
}

/// A filter that everyone passes.
pub proof fn lemma_filter_all<A>(s: Seq<A>, keep: spec_fn(A) -> bool)
    requires
        forall|i: int| 0 <= i < s.len() ==> keep(#[trigger] s[i]),
    ensures
        s.filter(keep) == s,
    decreases s.len(),
{
    reveal_with_fuel(Seq::filter, 1);
    if s.len() > 0 {
        let front = s.drop_last();
        assert forall|i: int| 0 <= i < front.len() implies keep(#[trigger] front[i]) by {
            assert(front[i] == s[i]);
        }
        lemma_filter_all(front, keep);
        assert(keep(s[s.len() - 1]));
        assert(front.push(s.last()) =~= s);
    } else {
        assert(s.filter(keep) =~= s);
    }
}

/// Filtering by name.
pub proof fn lemma_filter_by_name(
    running: Seq<Running>,
    keep: spec_fn(SeqId) -> bool,
    pick: spec_fn(Running) -> bool,
)
    requires
        forall|x: int|
            0 <= x < running.len() ==> (keep((#[trigger] running[x]).id) <==> pick(running[x])),
    ensures
        running.map_values(|r: Running| r.id).filter(keep) == running.filter(pick).map_values(
            |r: Running| r.id,
        ),
    decreases running.len(),
{
    reveal_with_fuel(Seq::filter, 1);
    let name = |r: Running| r.id;
    let ids = running.map_values(name);
    if running.len() > 0 {
        let front = running.drop_last();
        let last = running[running.len() - 1];
        assert forall|x: int| 0 <= x < front.len() implies (keep((#[trigger] front[x]).id)
            <==> pick(front[x])) by {
            assert(front[x] == running[x]);
        }
        lemma_filter_by_name(front, keep, pick);
        assert(ids.drop_last() =~= front.map_values(name));
        assert(keep(last.id) <==> pick(last));
        if pick(last) {
            assert(front.filter(pick).push(last).map_values(name) =~= front.filter(
                pick,
            ).map_values(name).push(last.id));
        }
    } else {
        assert(ids.filter(keep) =~= running.filter(pick).map_values(name));
    }
}

impl Schedule {
    /// What everyone in the line still has to do, in the order of the line.
    pub open spec fn jobs(self) -> Seq<Job> {
        self.running.map_values(|r: Running| r.job()) + self.waiting.map_values(
            |w: Pending| w.job(),
        )
    }

    /// Tokens to write until the scheduler is idle.
    pub open spec fn work(self) -> nat {
        total_left(self.jobs())
    }

    /// Everyone in the line can be finished if left alone with the pool.
    pub open spec fn fits(self) -> bool {
        forall|i: int|
            0 <= i < self.jobs().len() ==> (#[trigger] self.jobs()[i]).tokens + self.jobs()[i].left
                <= self.capacity()
    }

    /// Letting sequences in changes nobody's job.
    pub proof fn lemma_admission_jobs(self)
        ensures
            self.admission().0.jobs() == self.jobs(),
            self.admission().0.running.len() >= self.running.len(),
        decreases self.waiting.len(),
    {
        if self.may_admit() {
            if self.front_error() is None {
                let s = self.admit_front();
                s.lemma_admission_jobs();
                assert(s.running[self.running.len() as int].job() == self.waiting[0].job());
                assert(s.jobs() =~= self.jobs());
            } else {
                assert(self.admission().0.jobs() =~= self.jobs());
            }
        }
    }

    /// Preempting a sequence that has something left changes nobody's job.
    pub proof fn lemma_preempt_jobs(self)
        requires
            self.running.len() > 0,
            self.running.last().left() >= 1,
        ensures
            self.preempt(self.running.len() - 1).jobs() == self.jobs(),
    {
        let v = self.running.len() - 1;
        let s = self.preempt(v);
        assert(self.running[v] == self.running.last());
        assert(s.waiting[0].job() == self.running[v].job());
        assert(s.jobs() =~= self.jobs());
    }

    /// In the middle of decoding: of the running sequences, the first `k` have
    /// written a token since the jobs were `jobs`, and the others have not.
    pub open spec fn ticking(self, ids: Seq<SeqId>, k: nat, jobs: Seq<Job>) -> bool {
        &&& self.midway(ids, k as int)
        &&& self.block_size > 0
        &&& forall|j: int| k <= j < self.running.len() ==> (#[trigger] self.running[j]).left() >= 1
        &&& self.jobs() == ticked(
            jobs,
            if k < self.running.len() {
                k
            } else {
                self.running.len()
            },
        )
    }

    /// A sequence that has the pool for itself and fits can write.
    pub proof fn lemma_alone_can_write(self)
        requires
            self.sound(),
            self.block_size > 0,
            self.running.len() == 1,
            self.running[0].table.tokens < self.capacity(),
        ensures
            self.can_write(0),
    {
        if !self.can_write(0) {
            self.lemma_unwritable(0);
            self.lemma_table_blocks(0);
            let t = self.running[0].table;
            let n = self.pool.num_blocks;
            let ids = t.blocks.map_values(|b: BlockId| b.0 as int);
            let all = set_int_range(0, n as int);
            lemma_int_range(0, n as int);
            assert forall|i: int| all.contains(i) implies ids.to_set().contains(i) by {
                let b = BlockId(i as u32);
                if self.pool.count(b) == 0 {
                    assert(self.pool.free.contains(b));
                }
                if !t.blocks.contains(b) {
                    soundness::lemma_owners_none(self.running, b);
                }
                let x = choose|x: int| 0 <= x < t.blocks.len() && t.blocks[x] == b;
                assert(ids[x] == i);
            }
            assert(ids.no_duplicates());
            ids.unique_seq_to_set();
            lemma_len_subset(all, ids.to_set());
            assert(t.blocks.len() >= n);
            let m = t.blocks.len();
            let b = self.block_size;
            assert(n * b <= m * b) by (nonlinear_arith)
                requires
                    n <= m,
            ;
            assert(t.has_room());
            let last = t.blocks.last();
            assert(self.pool.has(t.blocks[m - 1]));
            assert(self.running.drop_last() =~= Seq::empty());
            assert(self.pool.count(last) == crate::schedule::owners(self.running, last));
            reveal_with_fuel(crate::schedule::owners, 2);
            assert(self.pool.count(last) <= 1);
            t.lemma_growth_one();
        }
    }

    /// Advancing the next sequence: it writes a token, or yields its place.
    pub proof fn lemma_ticking_step(self, ids: Seq<SeqId>, k: nat, jobs: Seq<Job>)
        requires
            self.sound(),
            self.ticking(ids, k, jobs),
            k < ids.len(),
            ids.len() <= jobs.len(),
        ensures
            ({
                let s = self.advance(Outcome::nothing(), ids[k as int]).0;
                &&& s.ticking(ids, k + 1, jobs)
                &&& k >= 1 && self.running.len() >= 1 ==> s.running.len() >= 1
                &&& self.running.len() >= 1 && self.running[0].table.tokens < self.capacity()
                    ==> s.running.len() >= 1
            }),
        decreases self.running.len(),
    {
        let id = ids[k as int];
        let o = Outcome::nothing();
        self.lemma_midway_step(ids, k as int);
        self.lemma_found(id);
        match self.position(id) {
            None => {
                if k < self.running.len() {
                    self.lemma_running_has_position(k as int);
                }
            },
            Some(i) => {
                assert(self.running[i].id == ids[i]);
                assert(i == k);
                if self.can_write(i) {
                    let s = self.write_token(i);
                    assert(s.running[i].left() == self.running[i].left() - 1);
                    assert forall|j: int| k + 1 <= j < s.running.len() implies (
                    #[trigger] s.running[j]).left() >= 1 by {
                        assert(s.running[j] == self.running[j]);
                    }
                    assert(self.jobs()[i] == jobs[i]);
                    assert(s.jobs() =~= self.jobs().update(i, jobs[i].ticked()));
                    assert(s.jobs() =~= ticked(jobs, k + 1));
                } else {
                    let v = self.running.len() - 1;
                    let s = self.preempt(v);
                    if v == 0 && self.running[0].table.tokens < self.capacity() {
                        self.lemma_alone_can_write();
                    }
                    self.lemma_preempt_sound(v);
                    self.lemma_preempt_line();
                    self.lemma_preempt_jobs();
                    assert forall|j: int| 0 <= j < s.running.len() implies #[trigger] s.running[j]
                        == self.running[j] by {}
                    assert(s.capacity() == self.capacity());
                    s.lemma_ticking_step(ids, k, jobs);
                    s.lemma_advance_outcome(o, o.with_preempted(self.running[v].id), id);
                }
            },
        }
    }

    /// Decoding to the end: whoever still runs has written exactly one token,
    /// and the oldest sequence still runs.
    pub proof fn lemma_ticking(self, o: Outcome, ids: Seq<SeqId>, k: nat, jobs: Seq<Job>)
        requires
            self.sound(),
            self.ticking(ids, k, jobs),
            k <= ids.len(),
            ids.len() <= jobs.len(),
        ensures
            ({
                let s = self.decode(o, ids.skip(k as int)).0;
                &&& s.jobs() == ticked(jobs, s.running.len())
                &&& s.running.len() <= ids.len()
                &&& k >= 1 && self.running.len() >= 1 ==> s.running.len() >= 1
                &&& k < ids.len() && self.running.len() >= 1 && self.running[0].table.tokens
                    < self.capacity() ==> s.running.len() >= 1
            }),
        decreases ids.len() - k,
    {
        let rest = ids.skip(k as int);
        if k < ids.len() {
            let id = ids[k as int];
            self.lemma_ticking_step(ids, k, jobs);
            self.lemma_midway_step(ids, k as int);
            self.lemma_advance(o, id);
            self.lemma_advance_outcome(o, Outcome::nothing(), id);
            assert(rest[0] == id);
            assert(rest.skip(1) =~= ids.skip(k + 1int));
            let (s, p) = self.advance(o, id);
            s.lemma_ticking(p, ids, k + 1, jobs);
        }
    }

    /// An idle pool admits any request that waits.
    pub proof fn lemma_empty_admits(self)
        requires
            self.sound(),
            self.block_size > 0,
            self.running.len() == 0,
            self.waiting.len() > 0,
        ensures
            self.front_error() is None,
    {
        let t = Table::empty(self.block_size);
        let n = self.waiting[0].context_len;
        assert forall|b: BlockId| self.pool.has(b) implies #[trigger] self.pool.count(b) == 0 by {
            assert(self.pool.count(b) == crate::schedule::owners(self.running, b));
        }
        self.pool.lemma_all_free();
        assert(self.waiting[0].context_len <= self.capacity());
        assert(0 * t.block_size == 0);
        crate::config::lemma_ceil_div(n, self.block_size);
        let m = crate::config::ceil_div(n, self.block_size);
        let b = self.block_size;
        let k = self.pool.num_blocks;
        if m > k {
            assert((m - 1) * b >= k * b) by (nonlinear_arith)
                requires
                    m - 1 >= k,
                    b > 0,
            ;
        }
    }

    /// What one step does to everyone's job before the finished ones leave: the
    /// sequences that run at the end have each written exactly one token, and
    /// the others, preempted or waiting, are where they were.
    pub proof fn lemma_step_jobs(self)
        requires
            self.wf(),
            self.line().no_duplicates(),
            self.block_size > 0,
        ensures
            ({
                let (s1, admitted) = self.admission();
                let s2 = s1.decode(
                    Outcome { admitted, ..Outcome::nothing() },
                    s1.running_ids(),
                ).0;
                &&& s2.sound()
                &&& s2.jobs() == ticked(self.jobs(), s2.running.len())
                &&& s2.line() == self.line()
                &&& s2.capacity() == self.capacity()
                &&& s2.running.len() <= self.jobs().len()
                &&& forall|i: int|
                    0 <= i < self.jobs().len() ==> (#[trigger] self.jobs()[i]).left >= 1
                &&& self.fits() && self.max_batch > 0 && !self.idle() ==> s2.running.len() >= 1
            }),
    {
        let (s1, admitted) = self.admission();
        let ids = s1.running_ids();
        let o = Outcome { admitted, ..Outcome::nothing() };
        self.lemma_admission();
        self.lemma_admission_jobs();
        self.lemma_midway_start();
        assert(ids.skip(0) =~= ids);
        s1.lemma_midway_safe(ids, 0);
        s1.lemma_decode(o, ids);
        assert forall|i: int| 0 <= i < self.jobs().len() implies (
        #[trigger] self.jobs()[i]).left >= 1 by {
            if i < self.running.len() {
                assert(self.jobs()[i] == self.running[i].job());
            }
        }
        assert(s1.jobs() =~= ticked(self.jobs(), 0));
        s1.lemma_ticking(o, ids, 0, self.jobs());
        let s2 = s1.decode(o, ids).0;
        assert(s2.capacity() == self.capacity());
        if self.fits() && self.max_batch > 0 && !self.idle() {
            if self.running.len() == 0 {
                self.lemma_empty_admits();
                self.admit_front().lemma_admission_jobs();
            }
            assert(s1.jobs()[0] == s1.running[0].job());
            assert(self.jobs()[0].tokens + self.jobs()[0].left <= self.capacity());
            assert(s1.capacity() == self.capacity());
        }
    }

    /// What is left of the line after the finished sequences have gone.
    pub proof fn lemma_retire_line(self)
        ensures
            self.retire().line().to_multiset().add(
                self.finished().map_values(|r: Running| r.id).to_multiset(),
            ) == self.line().to_multiset(),
            self.line().no_duplicates() ==> self.retire().line().no_duplicates(),
    {
        let name = |r: Running| r.id;
        let live = self.retire().running.map_values(name);
        let done = self.finished().map_values(name);
        let rest = self.waiting.map_values(|w: Pending| w.id);
        lemma_split(self.running);
        vstd::seq_lib::lemma_multiset_commutative(live, rest);
        vstd::seq_lib::lemma_multiset_commutative(self.running.map_values(name), rest);
        let after = self.retire().line();
        assert(after.to_multiset().add(done.to_multiset()) =~= self.line().to_multiset());
        if self.line().no_duplicates() {
            self.line().lemma_multiset_has_no_duplicates();
            assert forall|x: SeqId| after.to_multiset().contains(x) implies after.to_multiset().count(
                x,
            ) == 1 by {
                assert(self.line().to_multiset().count(x) == after.to_multiset().count(x)
                    + done.to_multiset().count(x));
            }
            after.lemma_multiset_has_no_duplicates_conv();
        }
    }

    /// Nobody is lost and nobody finishes twice: after a step, the line and
    /// the finished sequences together are the line before it. Distinct ids
    /// stay distinct.
    pub proof fn step_accounts_for_everyone(self)
        requires
            self.wf(),
            self.step_safe(),
        ensures
            self.step().0.line().to_multiset().add(self.step().1.finished.to_multiset())
                == self.line().to_multiset(),
            self.line().no_duplicates() ==> self.step().0.line().no_duplicates(),
    {
        let (s1, admitted) = self.admission();
        let o = Outcome { admitted, ..Outcome::nothing() };
        self.lemma_admission();
        s1.lemma_decode(o, s1.running_ids());
        s1.decode(o, s1.running_ids()).0.lemma_retire_line();
    }

    /// A step keeps the invariant, the geometry and the fit of everyone who is
    /// still there.
    pub proof fn lemma_step_keeps(self)
        requires
            self.wf(),
            self.line().no_duplicates(),
            self.block_size > 0,
        ensures
            self.step().0.wf(),
            self.step().0.line().no_duplicates(),
            self.step().0.block_size == self.block_size,
            self.step().0.max_batch == self.max_batch,
            self.step().0.pool.num_blocks == self.pool.num_blocks,
            self.step().0.line().to_multiset().add(self.step().1.finished.to_multiset())
                == self.line().to_multiset(),
            self.fits() ==> self.step().0.fits(),
            self.fits() && self.max_batch > 0 && !self.idle() ==> self.step().0.work()
                < self.work(),
            self.idle() ==> self.step().0.idle(),
    {
        let (s1, admitted) = self.admission();
        let o = Outcome { admitted, ..Outcome::nothing() };
        let ids = s1.running_ids();
        self.lemma_admission();
        self.lemma_midway_start();
        assert(ids.skip(0) =~= ids);
        s1.lemma_midway_safe(ids, 0);
        s1.lemma_decode(o, ids);
        let s2 = s1.decode(o, ids).0;
        self.lemma_step_jobs();
        s2.lemma_retire();
        s2.lemma_retire_line();
        let t = s2.retire();
        let live = |r: Running| !r.done();
        let job = |r: Running| r.job();
        let m = s2.running.len();
        lemma_total_ticked(self.jobs(), m);
        lemma_total_filter(s2.running, live);
        let queue = s2.waiting.map_values(|w: Pending| w.job());
        lemma_total_add(s2.running.map_values(job), queue);
        lemma_total_add(t.running.map_values(job), queue);
        assert(t.work() + m <= self.work());
        if self.fits() {
            assert(t.capacity() == self.capacity());
            assert forall|i: int| 0 <= i < t.jobs().len() implies (#[trigger] t.jobs()[i]).tokens
                + t.jobs()[i].left <= t.capacity() by {
                if i < t.running.len() {
                    let r = t.running[i];
                    assert(s2.running.filter(live).contains(r));
                    s2.running.lemma_filter_contains_rev(live, r);
                    let x = choose|x: int| 0 <= x < s2.running.len() && s2.running[x] == r;
                    assert(s2.jobs()[x] == r.job());
                    assert(self.jobs()[x].tokens + self.jobs()[x].left <= self.capacity());
                } else {
                    let x = i - t.running.len() + s2.running.len();
                    assert(s2.jobs()[x] == t.jobs()[i]);
                    assert(self.jobs()[x].tokens + self.jobs()[x].left <= self.capacity());
                }
            }
        }
        if self.idle() {
            assert(self.line() =~= Seq::empty());
            assert(s2.line().len() == 0);
        }
    }

    /// `n` steps: where they lead, and who finishes on the way.
    pub open spec fn run(self, n: nat) -> (Schedule, Seq<SeqId>)
        decreases n,
    {
        if n == 0 {
            (self, Seq::empty())
        } else {
            let (s, o) = self.step();
            let (t, finished) = s.run((n - 1) as nat);
            (t, o.finished + finished)
        }
    }

    /// Progress: each step of a busy scheduler takes at least one token from
    /// the work ahead, as long as everyone in the line fits in the pool.
    pub proof fn busy_step_makes_progress(self)
        requires
            self.wf(),
            self.line().no_duplicates(),
            self.block_size > 0,
            self.max_batch > 0,
            self.fits(),
            !self.idle(),
        ensures
            self.step().0.work() < self.work(),
            self.step().0.fits(),
    {
        self.lemma_step_keeps();
    }

    /// The scheduler drains: if everyone in the line fits in the pool, then
    /// after as many steps as there are tokens to write nobody is left,
    /// everyone has finished exactly once, and every block is free again.
    pub proof fn everyone_finishes_once(self, n: nat)
        requires
            self.wf(),
            self.line().no_duplicates(),
            self.block_size > 0,
            self.max_batch > 0,
            self.fits(),
            n >= self.work(),
        ensures
            self.run(n).0.idle(),
            self.run(n).1.to_multiset() == self.line().to_multiset(),
            self.run(n).0.pool.free.len() == self.run(n).0.pool.num_blocks,
            self.run(n).0.pool.num_blocks == self.pool.num_blocks,
        decreases n,
    {
        if n == 0 {
            if !self.idle() {
                self.lemma_step_jobs();
                lemma_total_ticked(self.jobs(), self.jobs().len());
            }
            assert(self.line() =~= Seq::empty());
            self.idle_holds_no_blocks();
        } else {
            let (s, o) = self.step();
            self.lemma_step_keeps();
            if self.idle() {
                assert(s.jobs() =~= Seq::empty());
            }
            s.everyone_finishes_once((n - 1) as nat);
            let rest = s.run((n - 1) as nat).1;
            vstd::seq_lib::lemma_multiset_commutative(o.finished, rest);
            assert((o.finished + rest).to_multiset() =~= self.line().to_multiset());
        }
    }

    /// No leaks: when no sequence runs, every block of the pool is free.
    pub proof fn idle_holds_no_blocks(self)
        requires
            self.wf(),
            self.running.len() == 0,
        ensures
            self.pool.free.len() == self.pool.num_blocks,
    {
        assert forall|b: BlockId| self.pool.has(b) implies #[trigger] self.pool.count(b) == 0 by {
            assert(self.pool.count(b) == crate::schedule::owners(self.running, b));
        }
        self.pool.lemma_all_free();
    }

    /// In the middle of decoding `ids`, `k` of which have had their turn: `o`
    /// tells of exactly one token for each of them that still runs, in order and
    /// at the address of its last token, and of everyone who was preempted,
    /// newest first.
    pub open spec fn reported(self, o: Outcome, ids: Seq<SeqId>, k: nat) -> bool {
        let m = if k < self.running.len() {
            k
        } else {
            self.running.len()
        };
        &&& o.decoded.len() == m
        &&& forall|j: int|
            0 <= j < m ==> (#[trigger] o.decoded[j]).id == ids[j] && o.decoded[j].slot
                == self.running[j].table.slot_at((self.running[j].table.tokens - 1) as nat)
        &&& o.preempted == ids.skip(self.running.len() as int).reverse()
    }

    /// Preemption takes the newest, and the report is complete: of the
    /// sequences that run after admission, the oldest ones each decode exactly
    /// one token, in order, at the address their table gives for their last
    /// token; all the newer ones are preempted, newest first.
    pub proof fn newest_yield_and_oldest_decode(self)
        requires
            self.wf(),
            self.line().no_duplicates(),
            self.block_size > 0 || self.pool.num_blocks == 0,
        ensures
            ({
                let (s1, admitted) = self.admission();
                let ids = s1.running_ids();
                let (s2, o) = s1.decode(Outcome { admitted, ..Outcome::nothing() }, ids);
                let m = s2.running.len() as int;
                &&& m <= ids.len()
                &&& s2.running_ids() == ids.take(m)
                &&& self.step().1.decoded == o.decoded
                &&& self.step().1.preempted == ids.skip(m).reverse()
                &&& o.decoded.len() == m
                &&& forall|j: int|
                    0 <= j < m ==> (#[trigger] o.decoded[j]).id == ids[j] && o.decoded[j].slot
                        == s2.running[j].table.slot_at((s2.running[j].table.tokens - 1) as nat)
            }),
    {
        self.lemma_decoded_step();
        let ids = self.admission().0.running_ids();
        let s2 = self.decoded_step().0;
        assert(s2.running_ids() =~= ids.take(s2.running.len() as int));
    }

    /// Admission is strictly first come, first served: the sequences let in are
    /// the first of the queue, in order, and it stops only when the batch is
    /// full, the queue is empty, or the next in line does not fit.
    pub proof fn admission_is_first_come_first_served(self)
        ensures
            ({
                let (s, admitted) = self.admission();
                let k = admitted.len() as int;
                &&& k <= self.waiting.len()
                &&& admitted == self.waiting.take(k).map_values(|w: Pending| w.id)
                &&& s.waiting == self.waiting.skip(k)
                &&& s.running_ids() == self.running_ids() + admitted
                &&& s.running.len() <= self.max_batch || k == 0
                &&& s.running.len() >= self.max_batch || k == self.waiting.len()
                    || Table::empty(self.block_size).needed(s.pool, self.waiting[k].context_len)
                    > s.pool.free.len()
            }),
        decreases self.waiting.len(),
    {
        let (s, admitted) = self.admission();
        let name = |w: Pending| w.id;
        let k = admitted.len() as int;
        if self.may_admit() && self.front_error() is None {
            let a = self.admit_front();
            a.admission_is_first_come_first_served();
            assert(self.waiting.take(k).map_values(name) =~= seq![self.waiting[0].id]
                + a.waiting.take(k - 1).map_values(name));
            assert(a.waiting.skip(k - 1) =~= self.waiting.skip(k));
            assert(a.running_ids() =~= self.running_ids().push(self.waiting[0].id));
            assert(s.running_ids() =~= self.running_ids() + admitted);
            if k < self.waiting.len() {
                assert(a.waiting[k - 1] == self.waiting[k]);
            }
        } else {
            assert(self.waiting.take(0).map_values(name) =~= Seq::empty());
            assert(self.waiting.skip(0) =~= self.waiting);
            assert(self.running_ids() + Seq::<SeqId>::empty() =~= self.running_ids());
            assert(s.running_ids() =~= self.running_ids());
            if self.may_admit() {
                let t = Table::empty(self.block_size);
                assert(0 * t.block_size == 0);
                assert(!t.has_room());
                assert(s.pool.free.len() == self.pool.free.len());
                assert(t.needed(s.pool, self.waiting[0].context_len) == t.needed(
                    self.pool,
                    self.waiting[0].context_len,
                ));
            }
        }
    }

    /// Nobody loses their place: after a step the line is what it was, in the
    /// same order, without those who finished.
    pub proof fn places_in_line_are_kept(self)
        requires
            self.wf(),
            self.line().no_duplicates(),
            self.step_safe(),
        ensures
            self.step().0.line() == self.line().filter(
                |id: SeqId| !self.step().1.finished.contains(id),
            ),
    {
        let (s1, admitted) = self.admission();
        let o = Outcome { admitted, ..Outcome::nothing() };
        self.lemma_admission();
        s1.lemma_decode(o, s1.running_ids());
        let s2 = s1.decode(o, s1.running_ids()).0;
        let done = |r: Running| r.done();
        let name = |r: Running| r.id;
        let gone = self.step().1.finished;
        let keep = |id: SeqId| !gone.contains(id);
        let ids = s2.running.map_values(name);
        let rest = s2.waiting.map_values(|w: Pending| w.id);
        let line = s2.line();
        // An id has gone exactly if its sequence is done.
        assert forall|x: int| 0 <= x < line.len() implies (#[trigger] gone.contains(line[x])
            <==> x < s2.running.len() && s2.running[x].done()) by {
            if gone.contains(line[x]) {
                let f = s2.running.filter(done);
                let y = choose|y: int| 0 <= y < gone.len() && gone[y] == line[x];
                assert(f.contains(f[y]));
                s2.running.lemma_filter_pred(done, y);
                s2.running.lemma_filter_contains_rev(done, f[y]);
                let z = choose|z: int| 0 <= z < s2.running.len() && s2.running[z] == f[y];
                assert(line[z] == line[x]);
            }
            if x < s2.running.len() && s2.running[x].done() {
                let f = s2.running.filter(done);
                s2.running.lemma_filter_contains(done, x);
                assert(f.contains(s2.running[x]));
                let y = choose|y: int| 0 <= y < f.len() && f[y] == s2.running[x];
                assert(gone[y] == line[x]);
            }
        }
        assert forall|x: int| 0 <= x < s2.running.len() implies (keep(
            (#[trigger] s2.running[x]).id,
        ) <==> !s2.running[x].done()) by {
            assert(line[x] == s2.running[x].id);
            assert(gone.contains(line[x]) <==> s2.running[x].done());
        }
        lemma_filter_by_name(s2.running, keep, |r: Running| !r.done());
        assert forall|x: int| 0 <= x < rest.len() implies keep(#[trigger] rest[x]) by {
            let z = s2.running.len() + x;
            assert(line[z] == rest[x]);
            assert(!gone.contains(line[z]));
        }
        lemma_filter_all(rest, keep);
        Seq::filter_distributes_over_add(ids, rest, keep);
    }
}

} // verus!
