//! Every sequence gets the tokens of its budget, no more and no fewer.

use vstd::prelude::*;

use crate::drain::{self, Job};
use crate::schedule::{Outcome, Pending, Running, Schedule};
use crate::scheduler::DecodedToken;
use crate::types::SeqId;

verus! {

impl Outcome {
    /// Tokens that were decoded for `id`.
    pub open spec fn tokens_of(self, id: SeqId) -> nat {
        self.decoded.filter(|d: DecodedToken| d.id == id).len()
    }

    /// The ids of the decoded tokens, in order.
    pub open spec fn decoded_ids(self) -> Seq<SeqId> {
        self.decoded.map_values(|d: DecodedToken| d.id)
    }
}

/// Tokens decoded for `id` over several steps.
pub open spec fn tokens_over(outcomes: Seq<Outcome>, id: SeqId) -> nat
    decreases outcomes.len(),
{
    if outcomes.len() == 0 {
        0
    } else {
        outcomes[0].tokens_of(id) + tokens_over(outcomes.skip(1), id)
    }
}

/// Steps that report `id` as finished.
pub open spec fn finishes_over(outcomes: Seq<Outcome>, id: SeqId) -> nat
    decreases outcomes.len(),
{
    if outcomes.len() == 0 {
        0
    } else {
        finishes_over(outcomes.skip(1), id) + if outcomes[0].finished.contains(id) {
            1nat
        } else {
            0nat
        }
    }
}

/// Something done to a scheduler.
pub enum Action {
    Request { id: SeqId, prompt_len: nat, max_new: nat },
    Fork { parent: SeqId, child: SeqId, max_new: nat },
    Step,
}

/// Tokens that a sequence with this budget writes: at least one.
pub open spec fn tokens_due(max_new: nat) -> nat {
    if max_new > 0 {
        max_new
    } else {
        1
    }
}

/// No token for an id that is not among the decoded ones, one for an id that is
/// there once.
proof fn lemma_tokens_of(decoded: Seq<DecodedToken>, id: SeqId)
    ensures
        (forall|j: int| 0 <= j < decoded.len() ==> (#[trigger] decoded[j]).id != id)
            ==> decoded.filter(|d: DecodedToken| d.id == id).len() == 0,
        forall|i: int|
            0 <= i < decoded.len() && (#[trigger] decoded[i]).id == id && (forall|j: int|
                0 <= j < decoded.len() && j != i ==> (#[trigger] decoded[j]).id != id)
                ==> decoded.filter(|d: DecodedToken| d.id == id).len() == 1,
    decreases decoded.len(),
{
    reveal_with_fuel(Seq::filter, 1);
    let of = |d: DecodedToken| d.id == id;
    if decoded.len() > 0 {
        let front = decoded.drop_last();
        let n = decoded.len() - 1;
        lemma_tokens_of(front, id);
        assert forall|j: int| 0 <= j < n implies #[trigger] front[j] == decoded[j] by {}
        if forall|j: int| 0 <= j < decoded.len() ==> (#[trigger] decoded[j]).id != id {
            assert(decoded[n].id != id);
        }
        assert forall|i: int|
            0 <= i < decoded.len() && (#[trigger] decoded[i]).id == id && (forall|j: int|
                0 <= j < decoded.len() && j != i ==> (#[trigger] decoded[j]).id
                    != id) implies decoded.filter(of).len() == 1 by {
            if i == n {
                assert forall|j: int| 0 <= j < n implies (#[trigger] front[j]).id != id by {
                    assert(decoded[j].id != id);
                }
            } else {
                assert(decoded[n].id != id);
                assert(front[i].id == id);
                assert forall|j: int| 0 <= j < n && j != i implies (#[trigger] front[j]).id
                    != id by {
                    assert(decoded[j].id != id);
                }
            }
        }
    }
}

impl Schedule {
    /// Tokens that `id`, which is in the line, still has to write.
    pub open spec fn left_of(self, id: SeqId) -> nat {
        self.jobs()[self.line().index_of(id)].left
    }

    /// An id in the line.
    pub open spec fn in_line(self, id: SeqId) -> bool {
        self.line().contains(id)
    }

    /// Jobs are in the order of the line.
    proof fn lemma_job_names(self)
        ensures
            self.jobs().len() == self.line().len(),
            forall|i: int|
                0 <= i < self.line().len() ==> (#[trigger] self.jobs()[i]).id == self.line()[i],
    {
    }

    /// With distinct ids there is one job per id.
    proof fn lemma_left_of(self, i: int)
        requires
            self.line().no_duplicates(),
            0 <= i < self.line().len(),
        ensures
            self.left_of(self.line()[i]) == self.jobs()[i].left,
            self.in_line(self.line()[i]),
    {
        let id = self.line()[i];
        assert(self.line().contains(id));
        let k = self.line().index_of(id);
        assert(self.line()[k] == id);
        assert(k == i);
    }

    /// What one step reports of everyone in the line, and what is left of them:
    /// a token or none; who finishes has written a token and had no other left;
    /// whoever is there afterwards has so many fewer left.
    pub proof fn step_accounts_for_every_token(self, id: SeqId)
        requires
            self.wf(),
            self.line().no_duplicates(),
            self.block_size > 0,
        ensures
            ({
                let (t, o) = self.step();
                &&& o.tokens_of(id) <= 1
                &&& o.finished.contains(id) <==> self.in_line(id) && self.left_of(id) == 1
                    && o.tokens_of(id) == 1
                &&& t.in_line(id) <==> self.in_line(id) && !o.finished.contains(id)
                &&& t.in_line(id) ==> t.left_of(id) + o.tokens_of(id) == self.left_of(id)
                    && t.left_of(id) >= 1
                &&& !self.in_line(id) ==> o.tokens_of(id) == 0
            }),
    {
        let (t, o) = self.step();
        let s1 = self.admission().0;
        let (s2, q) = self.decoded_step();
        let ids = s1.running_ids();
        let m = s2.running.len() as int;
        self.lemma_admission_jobs();
        self.lemma_decoded_step();
        self.lemma_step_jobs();
        self.lemma_ready_step(id);
        self.lemma_job_names();
        s2.lemma_job_names();
        t.lemma_job_names();
        assert(o.decoded == q.decoded);
        let line = self.line();
        assert forall|j: int| 0 <= j < m implies (#[trigger] o.decoded[j]).id == line[j] by {
            assert(q.decoded[j].id == ids[j]);
            assert(s1.line()[j] == ids[j]);
        }
        lemma_tokens_of(o.decoded, id);
        let done = |r: Running| r.done();
        let live = |r: Running| !r.done();
        assert forall|j: int| 0 <= j < m implies ((#[trigger] s2.running[j]).done()
            <==> self.jobs()[j].left == 1) by {
            assert(s2.running[j].id == s1.running[j].id);
            assert(s2.jobs()[j] == s2.running[j].job());
        }
        if line.contains(id) {
            let i = line.index_of(id);
            assert(line[i] == id);
            if i < m {
                assert(o.decoded[i].id == id);
                assert forall|j: int| 0 <= j < o.decoded.len() && j != i implies (
                #[trigger] o.decoded[j]).id != id by {
                    assert(line[j] != line[i]);
                }
            } else {
                assert forall|j: int| 0 <= j < o.decoded.len() implies (
                #[trigger] o.decoded[j]).id != id by {
                    assert(line[j] != line[i]);
                }
            }
            // Who finishes.
            let gone = o.finished;
            if gone.contains(id) {
                let y = choose|y: int| 0 <= y < gone.len() && gone[y] == id;
                let f = s2.running.filter(done);
                s2.running.lemma_filter_pred(done, y);
                assert(f.contains(f[y]));
                s2.running.lemma_filter_contains_rev(done, f[y]);
                let z = choose|z: int| 0 <= z < s2.running.len() && s2.running[z] == f[y];
                assert(s2.line()[z] == id);
                assert(line[z] == line[i]);
            }
            if i < m && self.jobs()[i].left == 1 {
                let f = s2.running.filter(done);
                s2.running.lemma_filter_contains(done, i);
                assert(f.contains(s2.running[i]));
                let y = choose|y: int| 0 <= y < f.len() && f[y] == s2.running[i];
                assert(s2.line()[i] == id);
                assert(gone[y] == id);
            }
            assert(self.jobs()[i].left >= 1);
            if t.line().contains(id) {
                // The job that is left.
                let k = t.line().index_of(id);
                assert(t.line()[k] == id);
                let job = t.jobs()[k];
                assert(job.id == id);
                if k < t.running.len() {
                    let r = t.running[k];
                    assert(s2.running.filter(live).contains(r));
                    s2.running.lemma_filter_contains_rev(live, r);
                    let x = choose|x: int| 0 <= x < s2.running.len() && s2.running[x] == r;
                    assert(s2.jobs()[x] == job);
                    assert(s2.line()[x] == id);
                    assert(line[x] == line[i]);
                } else {
                    let x = k - t.running.len() + s2.running.len();
                    assert(s2.jobs()[x] == job);
                    assert(s2.line()[x] == id);
                    assert(line[x] == line[i]);
                }
                if k < t.running.len() {
                    assert(t.jobs()[k] == t.running[k].job());
                }
            }
        } else {
            assert forall|j: int| 0 <= j < o.decoded.len() implies (
            #[trigger] o.decoded[j]).id != id by {
                assert(line.contains(line[j]));
            }
        }
    }

    /// Who is in the line after a step.
    proof fn lemma_ready_step(self, id: SeqId)
        requires
            self.wf(),
            self.line().no_duplicates(),
            self.block_size > 0,
        ensures
            self.step().0.wf(),
            self.step().0.line().no_duplicates(),
            self.step().0.in_line(id) <==> self.in_line(id) && !self.step().1.finished.contains(
                id,
            ),
            self.step().1.finished.contains(id) ==> self.in_line(id),
            self.step().0.block_size == self.block_size,
            self.step().0.capacity() == self.capacity(),
    {
        broadcast use vstd::seq_lib::group_to_multiset_ensures;

        self.lemma_step_keeps();
        let (t, o) = self.step();
        let all = self.line().to_multiset();
        self.line().lemma_multiset_has_no_duplicates();
        assert(all.count(id) == t.line().to_multiset().count(id) + o.finished.to_multiset().count(
            id,
        ));
        if self.in_line(id) {
            assert(all.contains(id));
        }
    }

    /// Who finishes and who runs on: of the sequences that decoded a token, in
    /// order, those that had no other token left finish, and the others are
    /// those that run afterwards. Nobody else is affected by the count.
    pub proof fn finished_are_those_with_nothing_left(self)
        requires
            self.wf(),
            self.line().no_duplicates(),
            self.block_size > 0,
        ensures
            ({
                let (t, o) = self.step();
                &&& o.finished == o.decoded_ids().filter(|id: SeqId| self.left_of(id) == 1)
                &&& t.running_ids() == o.decoded_ids().filter(|id: SeqId| self.left_of(id) != 1)
                &&& t.running_ids() == o.decoded_ids().filter(
                    |id: SeqId| !o.finished.contains(id),
                )
                &&& t.running.len() + t.waiting.len() + o.finished.len() == self.running.len()
                    + self.waiting.len()
            }),
    {
        let (t, o) = self.step();
        let s1 = self.admission().0;
        let (s2, q) = self.decoded_step();
        let m = s2.running.len() as int;
        self.lemma_admission_jobs();
        self.lemma_decoded_step();
        self.lemma_step_jobs();
        self.lemma_job_names();
        let name = |r: Running| r.id;
        let last = |id: SeqId| self.left_of(id) == 1;
        let more = |id: SeqId| self.left_of(id) != 1;
        let rest = |id: SeqId| !o.finished.contains(id);
        assert(o.decoded_ids() =~= s2.running.map_values(name)) by {
            assert forall|j: int| 0 <= j < m implies #[trigger] o.decoded_ids()[j]
                == s2.running.map_values(name)[j] by {
                assert(q.decoded[j].id == s1.running_ids()[j]);
                assert(s2.running[j].id == s1.running[j].id);
            }
        }
        assert forall|x: int| 0 <= x < s2.running.len() implies (last(
            (#[trigger] s2.running[x]).id,
        ) <==> s2.running[x].done()) by {
            assert(s2.running[x].id == s1.running[x].id);
            assert(s2.jobs()[x] == s2.running[x].job());
            assert(s2.line()[x] == s2.running[x].id);
            self.lemma_left_of(x);
        }
        drain::lemma_filter_by_name(s2.running, last, |r: Running| r.done());
        assert forall|x: int| 0 <= x < s2.running.len() implies (more(
            (#[trigger] s2.running[x]).id,
        ) <==> !s2.running[x].done()) by {
            assert(last(s2.running[x].id) <==> s2.running[x].done());
        }
        drain::lemma_filter_by_name(s2.running, more, |r: Running| !r.done());
        assert forall|x: int| 0 <= x < s2.running.len() implies (rest(
            (#[trigger] s2.running[x]).id,
        ) <==> !s2.running[x].done()) by {
            let id = s2.running[x].id;
            self.step_accounts_for_every_token(id);
            assert(last(id) <==> s2.running[x].done());
            assert(s2.line()[x] == id);
            assert(self.line().contains(id));
            assert(o.decoded_ids()[x] == id);
            assert(o.decoded[x].id == id);
            lemma_tokens_of(o.decoded, id);
            assert forall|j: int| 0 <= j < o.decoded.len() && j != x implies (
            #[trigger] o.decoded[j]).id != id by {
                assert(o.decoded_ids()[j] == s2.running.map_values(name)[j]);
                assert(s2.line()[j] == s2.running[j].id);
            }
            assert(o.tokens_of(id) == 1);
        }
        drain::lemma_filter_by_name(s2.running, rest, |r: Running| !r.done());
        self.lemma_step_keeps();
        assert(t.line().to_multiset().len() + o.finished.to_multiset().len()
            == self.line().to_multiset().len());
        broadcast use vstd::seq_lib::group_to_multiset_ensures;

        assert(t.line().len() + o.finished.len() == self.line().len());
    }

    /// The schedule and the report after one action. What is refused changes
    /// nothing.
    pub open spec fn acted(self, a: Action) -> (Schedule, Outcome) {
        match a {
            Action::Request { id, prompt_len, max_new } => (
                if self.request_error(prompt_len, max_new) is None {
                    self.with_request(id, prompt_len, max_new)
                } else {
                    self
                },
                Outcome::nothing(),
            ),
            Action::Fork { parent, child, max_new } => (
                if self.fork_error(parent) is None {
                    self.with_fork(parent, child, max_new)
                } else {
                    self
                },
                Outcome::nothing(),
            ),
            Action::Step => self.step(),
        }
    }

    /// The action brings in no id that is in the line, nor `id`.
    pub open spec fn keeps_ids_apart(self, a: Action, id: SeqId) -> bool {
        match a {
            Action::Request { id: x, .. } => !self.in_line(x) && x != id,
            Action::Fork { child, .. } => !self.in_line(child) && child != id,
            Action::Step => true,
        }
    }

    /// None of the actions brings in an id that is in the line then, nor `id`.
    pub open spec fn all_keep_ids_apart(self, actions: Seq<Action>, id: SeqId) -> bool
        decreases actions.len(),
    {
        actions.len() > 0 ==> self.keeps_ids_apart(actions[0], id) && self.acted(
            actions[0],
        ).0.all_keep_ids_apart(actions.skip(1), id)
    }

    /// The schedule and the reports after all of `actions`.
    pub open spec fn played(self, actions: Seq<Action>) -> (Schedule, Seq<Outcome>)
        decreases actions.len(),
    {
        if actions.len() == 0 {
            (self, Seq::empty())
        } else {
            let (s, o) = self.acted(actions[0]);
            let (t, rest) = s.played(actions.skip(1));
            (t, seq![o] + rest)
        }
    }

    /// A sequence that comes in by a request or a fork has its budget to write,
    /// at least one token, and everyone else has what they had.
    pub proof fn newcomer_has_its_budget_left(self, a: Action, other: SeqId)
        requires
            self.wf(),
            self.line().no_duplicates(),
            self.capacity() <= usize::MAX,
            !(a is Step),
            self.keeps_ids_apart(a, other),
        ensures
            ({
                let t = self.acted(a).0;
                &&& t.wf()
                &&& t.line().no_duplicates()
                &&& t.block_size == self.block_size
                &&& t.capacity() == self.capacity()
                &&& t.in_line(other) <==> self.in_line(other)
                &&& self.in_line(other) ==> t.left_of(other) == self.left_of(other)
                &&& a matches Action::Request { id, prompt_len, max_new } ==> (self.request_error(
                    prompt_len,
                    max_new,
                ) is None ==> t.in_line(id) && t.left_of(id) == tokens_due(max_new))
                &&& a matches Action::Fork { parent, child, max_new } ==> (self.fork_error(
                    parent,
                ) is None ==> t.in_line(child) && t.left_of(child) == tokens_due(max_new))
            }),
    {
        let t = self.acted(a).0;
        match a {
            Action::Request { id, prompt_len, max_new } => {
                if self.request_error(prompt_len, max_new) is None {
                    let w = Pending { id, context_len: prompt_len, max_new };
                    self.lemma_request_sound(w);
                    self.lemma_budgets_kept(t);
                    let n = self.line().len() as int;
                    assert(t.line() =~= self.line().insert(n, id));
                    assert(t.jobs() =~= self.jobs().insert(n, w.job()));
                    self.lemma_inserted(t, n, id, w.job(), other);
                }
            },
            Action::Fork { parent, child, max_new } => {
                if self.fork_error(parent) is None {
                    self.fork_shares_everything(parent, child, max_new);
                    let n = self.running.len() as int;
                    let r = t.running[n];
                    assert(t.running =~= self.running.push(r));
                    assert(t.line() =~= self.line().insert(n, child));
                    assert(t.jobs() =~= self.jobs().insert(n, r.job()));
                    self.lemma_inserted(t, n, child, r.job(), other);
                }
            },
            Action::Step => {},
        }
    }

    /// One more in the line.
    proof fn lemma_inserted(self, t: Schedule, n: int, id: SeqId, job: Job, other: SeqId)
        requires
            self.line().no_duplicates(),
            0 <= n <= self.line().len(),
            t.line() == self.line().insert(n, id),
            t.jobs() == self.jobs().insert(n, job),
            !self.in_line(id),
            id != other,
        ensures
            t.line().no_duplicates(),
            t.in_line(id),
            t.left_of(id) == job.left,
            t.in_line(other) <==> self.in_line(other),
            self.in_line(other) ==> t.left_of(other) == self.left_of(other),
    {
        let line = self.line();
        self.lemma_job_names();
        assert forall|i: int, j: int|
            0 <= i < t.line().len() && 0 <= j < t.line().len() && i != j implies t.line()[i]
            != t.line()[j] by {
            let x = if i < n {
                i
            } else {
                i - 1
            };
            let y = if j < n {
                j
            } else {
                j - 1
            };
            if i != n {
                assert(t.line()[i] == line[x]);
                assert(line.contains(line[x]));
            }
            if j != n {
                assert(t.line()[j] == line[y]);
                assert(line.contains(line[y]));
            }
        }
        assert(t.line()[n] == id);
        t.lemma_left_of(n);
        if self.in_line(other) {
            let i = line.index_of(other);
            assert(line[i] == other);
            let k = if i < n {
                i
            } else {
                i + 1
            };
            assert(t.line()[k] == other);
            t.lemma_left_of(k);
            self.lemma_left_of(i);
        }
        if t.in_line(other) {
            let k = t.line().index_of(other);
            assert(t.line()[k] == other);
            let i = if k < n {
                k
            } else {
                k - 1
            };
            assert(line[i] == other);
        }
    }

    /// Budgets are kept to the token: over any actions since a sequence came in,
    /// requests and forks of others included, as many tokens were decoded for it
    /// as it has fewer left. It is in the line until it has written all of them,
    /// and is reported as finished exactly once, in the step that decodes the
    /// last.
    pub proof fn budgets_are_kept_to_the_token(self, actions: Seq<Action>, id: SeqId)
        requires
            self.wf(),
            self.line().no_duplicates(),
            self.block_size > 0,
            self.capacity() <= usize::MAX,
            self.all_keep_ids_apart(actions, id),
        ensures
            ({
                let (t, outcomes) = self.played(actions);
                &&& t.wf()
                &&& t.line().no_duplicates()
                &&& self.in_line(id) ==> {
                    &&& t.in_line(id) <==> tokens_over(outcomes, id) < self.left_of(id)
                    &&& t.in_line(id) ==> tokens_over(outcomes, id) + t.left_of(id)
                        == self.left_of(id)
                    &&& !t.in_line(id) ==> tokens_over(outcomes, id) == self.left_of(id)
                    &&& finishes_over(outcomes, id) == if t.in_line(id) {
                        0nat
                    } else {
                        1nat
                    }
                }
                &&& !self.in_line(id) ==> {
                    &&& !t.in_line(id)
                    &&& tokens_over(outcomes, id) == 0
                    &&& finishes_over(outcomes, id) == 0
                }
            }),
        decreases actions.len(),
    {
        if actions.len() > 0 {
            let a = actions[0];
            let (s, o) = self.acted(a);
            if a is Step {
                self.lemma_ready_step(id);
                self.step_accounts_for_every_token(id);
            } else {
                self.newcomer_has_its_budget_left(a, id);
                reveal_with_fuel(Seq::filter, 1);
                assert(o.tokens_of(id) == 0);
            }
            s.budgets_are_kept_to_the_token(actions.skip(1), id);
            let rest = s.played(actions.skip(1)).1;
            let outcomes = seq![o] + rest;
            assert(outcomes.skip(1) =~= rest);
            assert(outcomes[0] == o);
            assert(tokens_over(outcomes, id) == o.tokens_of(id) + tokens_over(rest, id));
            assert(finishes_over(outcomes, id) == finishes_over(rest, id) + if o.finished.contains(
                id,
            ) {
                1nat
            } else {
                0nat
            });
        } else if self.in_line(id) {
            let i = self.line().index_of(id);
            assert(self.line()[i] == id);
            self.lemma_step_jobs();
            assert(self.jobs()[i].left >= 1);
        }
    }

    /// A sequence finishes in the step that decodes the last token of the budget
    /// it came in with, by a request or by a fork, and in no other: counting
    /// what was reported since, one token for a budget of none.
    pub proof fn finishes_with_the_last_token_of_its_budget(
        self,
        a: Action,
        id: SeqId,
        max_new: nat,
        actions: Seq<Action>,
    )
        requires
            self.wf(),
            self.line().no_duplicates(),
            self.block_size > 0,
            self.capacity() <= usize::MAX,
            !self.in_line(id),
            match a {
                Action::Request { id: x, prompt_len, max_new: n } => x == id && n == max_new
                    && self.request_error(prompt_len, n) is None,
                Action::Fork { parent, child, max_new: n } => child == id && n == max_new
                    && self.fork_error(parent) is None,
                Action::Step => false,
            },
            self.acted(a).0.all_keep_ids_apart(actions, id),
        ensures
            ({
                let (t, outcomes) = self.acted(a).0.played(actions);
                let o = t.step().1;
                &&& tokens_over(outcomes, id) <= tokens_due(max_new)
                &&& o.finished.contains(id) <==> o.tokens_of(id) == 1 && tokens_over(outcomes, id)
                    + 1 == tokens_due(max_new)
                &&& tokens_over(outcomes, id) == tokens_due(max_new) ==> o.tokens_of(id) == 0
                &&& finishes_over(outcomes, id) == if tokens_over(outcomes, id) == tokens_due(
                    max_new,
                ) {
                    1nat
                } else {
                    0nat
                }
            }),
    {
        let s = self.acted(a).0;
        let other = if id.0 == 0 {
            SeqId(1)
        } else {
            SeqId(0)
        };
        self.newcomer_has_its_budget_left(a, other);
        s.budgets_are_kept_to_the_token(actions, id);
        s.lemma_played_size(actions, id);
        s.played(actions).0.step_accounts_for_every_token(id);
    }

    /// Actions do not change the geometry.
    proof fn lemma_played_size(self, actions: Seq<Action>, id: SeqId)
        requires
            self.wf(),
            self.line().no_duplicates(),
            self.block_size > 0,
            self.capacity() <= usize::MAX,
            self.all_keep_ids_apart(actions, id),
        ensures
            self.played(actions).0.block_size == self.block_size,
        decreases actions.len(),
    {
        if actions.len() > 0 {
            let a = actions[0];
            if a is Step {
                self.lemma_ready_step(id);
            } else {
                self.newcomer_has_its_budget_left(a, id);
            }
            self.acted(a).0.lemma_played_size(actions.skip(1), id);
        }
    }
}

} // verus!
