//! The cooperative task scheduler.
//!
//! A [`Runtime`] owns a collection of suspended units of work ("tasks") and
//! drives each of them exactly once per cycle, in insertion order. Work
//! spawned *while* a cycle is in progress lands in a staging collection and
//! is merged into the pending set only between cycles, so a cycle's work is
//! bounded by the set that was pending when it began. Every task is paired
//! with a [`Cancellable`] token; a cancelled task is dropped at the next
//! check point without being resumed again.
//!
//! The scheduler is generic in the work type `W` and never looks inside a
//! work value. Resuming a unit of work is the host embedding's job, so a
//! cycle is driven through an explicit protocol: [`Runtime::begin_poll`],
//! then [`Runtime::next_task`] to take each pending task's work in turn,
//! [`Runtime::task_suspended`] or [`Runtime::task_finished`] to report the
//! outcome of its resumption step, and [`Runtime::end_poll`] once no task is
//! left. The whole protocol is specified by the ghost model [`SchedModel`];
//! the laws at the bottom of this module state the guarantees the protocol
//! gives: counting, the generation boundary for mid-cycle spawns, and that
//! cancelled tasks are never resumed.

use vstd::prelude::*;

verus! {

/// Ghost model of one registered task: its token index and the work value
/// the scheduler holds for it.
pub ghost struct TaskModel<W> {
    pub token: int,
    pub work: W,
}

/// Ghost model of where the scheduler stands in the drive protocol.
pub ghost enum Phase {
    /// No cycle in progress.
    Idle,
    /// A cycle is in progress and no task is mid-step.
    Cycle,
    /// The task with this token has been handed out and its resumption step
    /// has not been reported yet.
    Step { token: int },
}

/// Ghost model of the whole scheduler state.
#[verifier::ext_equal]
pub ghost struct SchedModel<W> {
    /// Tasks awaiting a cycle, in insertion order. While a cycle is in
    /// progress this is empty: its contents have moved to `remaining`.
    pub queued: Seq<TaskModel<W>>,
    /// Tasks of the current cycle not yet driven, next-to-drive first.
    pub remaining: Seq<TaskModel<W>>,
    /// Tasks of the current cycle that reported "still suspended" and were
    /// not cancelled, in the order they were driven.
    pub kept: Seq<TaskModel<W>>,
    /// Tasks spawned during the current cycle; they join `queued` when the
    /// cycle ends and are never driven before then.
    pub staged: Seq<TaskModel<W>>,
    /// Cancellation flags, indexed by token. Tokens are handed out in
    /// spawn order and are never reused.
    pub flags: Seq<bool>,
    pub phase: Phase,
}

impl<W> SchedModel<W> {
    /// The state of a freshly created scheduler.
    pub open spec fn init() -> SchedModel<W> {
        SchedModel {
            queued: Seq::empty(),
            remaining: Seq::empty(),
            kept: Seq::empty(),
            staged: Seq::empty(),
            flags: Seq::empty(),
            phase: Phase::Idle,
        }
    }

    /// Whether a cycle is in progress (a task may be mid-step).
    pub open spec fn is_polling(self) -> bool {
        !(self.phase is Idle)
    }

    /// The token the next spawn will hand out.
    pub open spec fn next_token(self) -> int {
        self.flags.len() as int
    }

    /// Whether `token` belongs to this scheduler and has been cancelled.
    pub open spec fn is_cancelled(self, token: int) -> bool {
        0 <= token < self.flags.len() && self.flags[token]
    }

    /// Registering new work: a fresh, uncancelled token is allocated; the
    /// task joins the staging collection if a cycle is in progress, and the
    /// queue of pending tasks otherwise.
    pub open spec fn spawn(self, work: W) -> SchedModel<W> {
        let task = TaskModel { token: self.next_token(), work };
        if self.is_polling() {
            SchedModel { flags: self.flags.push(false), staged: self.staged.push(task), ..self }
        } else {
            SchedModel { flags: self.flags.push(false), queued: self.queued.push(task), ..self }
        }
    }

    /// Requesting cancellation: idempotent, never resets, and a no-op for a
    /// token this scheduler did not hand out.
    pub open spec fn cancel(self, token: int) -> SchedModel<W> {
        if 0 <= token < self.flags.len() {
            SchedModel { flags: self.flags.update(token, true), ..self }
        } else {
            self
        }
    }

    /// Starting a cycle: the pending queue becomes the set to drive. In a
    /// well-formed idle state `remaining`, `kept` and `staged` are empty, so
    /// the cycle drives exactly the tasks that were pending when it began.
    pub open spec fn begin(self) -> SchedModel<W> {
        SchedModel {
            remaining: self.remaining + self.queued,
            queued: Seq::empty(),
            phase: Phase::Cycle,
            ..self
        }
    }

    /// The tasks of `remaining` left after dropping the cancelled tasks at
    /// its front; those dropped are removed without being resumed.
    pub open spec fn skip_cancelled(self) -> Seq<TaskModel<W>>
        decreases self.remaining.len(),
    {
        if self.remaining.len() == 0 {
            self.remaining
        } else if self.is_cancelled(self.remaining[0].token) {
            (SchedModel { remaining: self.remaining.drop_first(), ..self }).skip_cancelled()
        } else {
            self.remaining
        }
    }

    /// Taking the next task to drive: cancelled tasks at the front are
    /// dropped; the first task that is not cancelled is handed out and the
    /// scheduler enters its step. `None` means the cycle has driven every
    /// task that was not cancelled.
    pub open spec fn next(self) -> (SchedModel<W>, Option<TaskModel<W>>) {
        let rest = self.skip_cancelled();
        if rest.len() == 0 {
            (SchedModel { remaining: rest, ..self }, None)
        } else {
            (
                SchedModel {
                    remaining: rest.drop_first(),
                    phase: Phase::Step { token: rest[0].token },
                    ..self
                },
                Some(rest[0]),
            )
        }
    }

    /// The driven task reported "still suspended": it is retained for the
    /// next cycle unless its token was cancelled in the meantime.
    pub open spec fn suspend(self, work: W) -> SchedModel<W>
        recommends
            self.phase is Step,
    {
        let token = self.phase->token;
        SchedModel {
            kept: if self.is_cancelled(token) {
                self.kept
            } else {
                self.kept.push(TaskModel { token, work })
            },
            phase: Phase::Cycle,
            ..self
        }
    }

    /// The driven task ran to completion: it is dropped.
    pub open spec fn finish(self) -> SchedModel<W> {
        SchedModel { phase: Phase::Cycle, ..self }
    }

    /// Ending a cycle: the retained tasks, followed by the tasks staged
    /// during the cycle, become the pending queue for the next cycle.
    pub open spec fn end(self) -> SchedModel<W> {
        SchedModel {
            queued: self.queued + self.kept + self.staged,
            remaining: Seq::empty(),
            kept: Seq::empty(),
            staged: Seq::empty(),
            phase: Phase::Idle,
            ..self
        }
    }

    /// The number of tasks the scheduler currently tracks, a task mid-step
    /// included.
    pub open spec fn task_count(self) -> int {
        self.queued.len() + self.remaining.len() + self.kept.len() + self.staged.len() + if self
            .phase is Step {
            1int
        } else {
            0int
        }
    }

    /// Whether every token of `tasks` was handed out by this scheduler.
    pub open spec fn tokens_bounded(self, tasks: Seq<TaskModel<W>>) -> bool {
        forall|i: int| 0 <= i < tasks.len() ==> 0 <= (#[trigger] tasks[i]).token < self.flags.len()
    }

    /// Well-formedness: every tracked token was handed out (so the task
    /// total never exceeds the token total and counting cannot overflow);
    /// the cycle collections are empty while idle; and the pending queue is
    /// empty while a cycle runs.
    pub open spec fn wf(self) -> bool {
        &&& self.tokens_bounded(self.queued)
        &&& self.tokens_bounded(self.remaining)
        &&& self.tokens_bounded(self.kept)
        &&& self.tokens_bounded(self.staged)
        &&& self.phase matches Phase::Step { token } ==> 0 <= token < self.flags.len()
        &&& self.phase is Idle ==> self.remaining.len() == 0 && self.kept.len() == 0
            && self.staged.len() == 0
        &&& self.is_polling() ==> self.queued.len() == 0
        &&& self.task_count() <= self.flags.len()
    }

    /// Well-formedness is preserved by every step of the protocol.
    pub proof fn lemma_spawn_wf(self, work: W)
        requires
            self.wf(),
        ensures
            self.spawn(work).wf(),
    {
    }

    pub proof fn lemma_cancel_wf(self, token: int)
        requires
            self.wf(),
        ensures
            self.cancel(token).wf(),
    {
    }

    pub proof fn lemma_begin_wf(self)
        requires
            self.wf(),
            self.phase is Idle,
        ensures
            self.begin().wf(),
    {
    }

    /// What dropping the cancelled front of `remaining` keeps: a suffix of
    /// `remaining`, every dropped task cancelled, the first survivor not.
    pub proof fn lemma_skip_cancelled(self)
        ensures
            self.skip_cancelled().len() <= self.remaining.len(),
            self.skip_cancelled() == self.remaining.subrange(
                self.remaining.len() - self.skip_cancelled().len(),
                self.remaining.len() as int,
            ),
            self.skip_cancelled().len() > 0 ==> !self.is_cancelled(self.skip_cancelled()[0].token),
            forall|i: int|
                0 <= i < self.remaining.len() - self.skip_cancelled().len() ==> self.is_cancelled(
                    (#[trigger] self.remaining[i]).token,
                ),
        decreases self.remaining.len(),
    {
        if self.remaining.len() == 0 {
        } else if self.is_cancelled(self.remaining[0].token) {
            let inner = SchedModel { remaining: self.remaining.drop_first(), ..self };
            inner.lemma_skip_cancelled();
            assert(self.skip_cancelled() == self.remaining.subrange(
                self.remaining.len() - self.skip_cancelled().len(),
                self.remaining.len() as int,
            )) by {
                assert(inner.remaining.subrange(
                    inner.remaining.len() - inner.skip_cancelled().len(),
                    inner.remaining.len() as int,
                ) =~= self.remaining.subrange(
                    self.remaining.len() - self.skip_cancelled().len(),
                    self.remaining.len() as int,
                ));
            }
            assert forall|i: int|
                0 <= i < self.remaining.len() - self.skip_cancelled().len() implies self
                .is_cancelled((#[trigger] self.remaining[i]).token) by {
                if i > 0 {
                    assert(inner.remaining[i - 1] == self.remaining[i]);
                    assert(inner.is_cancelled(inner.remaining[i - 1].token));
                }
            }
        } else {
            assert(self.skip_cancelled() =~= self.remaining.subrange(
                0,
                self.remaining.len() as int,
            ));
        }
    }

    pub proof fn lemma_next_wf(self)
        requires
            self.wf(),
            self.phase is Cycle,
        ensures
            self.next().0.wf(),
            self.next().1 matches Some(task) ==> !self.is_cancelled(task.token) && 0 <= task.token
                < self.flags.len(),
    {
        self.lemma_skip_cancelled();
    }

    pub proof fn lemma_suspend_wf(self, work: W)
        requires
            self.wf(),
            self.phase is Step,
        ensures
            self.suspend(work).wf(),
    {
    }

    pub proof fn lemma_finish_wf(self)
        requires
            self.wf(),
            self.phase is Step,
        ensures
            self.finish().wf(),
    {
    }

    pub proof fn lemma_end_wf(self)
        requires
            self.wf(),
            self.phase is Cycle,
        ensures
            self.end().wf(),
    {
    }
}

/// One action that can take place while a cycle is in progress: spawning,
/// cancelling, and the three moves of the drive protocol. Beginning and
/// ending a cycle are not among them, so a sequence of these actions is
/// exactly "what can happen within one cycle".
pub ghost enum SchedOp<W> {
    /// New work is spawned, by the host or by the task being driven.
    Spawn { work: W },
    /// Cancellation is requested for a token.
    Cancel { token: int },
    /// The scheduler hands out the next task to drive.
    Next,
    /// The task mid-step reports "still suspended".
    Suspend { work: W },
    /// The task mid-step reports completion.
    Finish,
}

impl<W> SchedModel<W> {
    /// The state after one action; an action whose protocol phase does not
    /// apply leaves the state unchanged.
    pub open spec fn step_op(self, op: SchedOp<W>) -> SchedModel<W> {
        match op {
            SchedOp::Spawn { work } => self.spawn(work),
            SchedOp::Cancel { token } => self.cancel(token),
            SchedOp::Next => if self.phase is Cycle {
                self.next().0
            } else {
                self
            },
            SchedOp::Suspend { work } => if self.phase is Step {
                self.suspend(work)
            } else {
                self
            },
            SchedOp::Finish => if self.phase is Step {
                self.finish()
            } else {
                self
            },
        }
    }

    /// The state after a sequence of actions.
    pub open spec fn run_ops(self, ops: Seq<SchedOp<W>>) -> SchedModel<W>
        decreases ops.len(),
    {
        if ops.len() == 0 {
            self
        } else {
            self.step_op(ops[0]).run_ops(ops.drop_first())
        }
    }

    /// Whether running `ops` ever hands the task with `token` out to be
    /// resumed.
    pub open spec fn resumes(self, ops: Seq<SchedOp<W>>, token: int) -> bool
        decreases ops.len(),
    {
        if ops.len() == 0 {
            false
        } else {
            ||| (ops[0] is Next && self.phase is Cycle && (self.next().1 matches Some(task)
                && task.token == token))
            ||| self.step_op(ops[0]).resumes(ops.drop_first(), token)
        }
    }

    /// Whether some task of `tasks` carries `token`.
    pub open spec fn has_token(tasks: Seq<TaskModel<W>>, token: int) -> bool {
        exists|i: int| 0 <= i < tasks.len() && (#[trigger] tasks[i]).token == token
    }

    /// Whether `ops` contains a cancellation of `token`.
    pub open spec fn cancels(ops: Seq<SchedOp<W>>, token: int) -> bool {
        exists|i: int| 0 <= i < ops.len() && #[trigger] ops[i] == (SchedOp::<W>::Cancel { token })
    }

    /// The states a cycle can be ended from: no task mid-step and none left
    /// to drive.
    pub open spec fn cycle_done(self) -> bool {
        self.phase is Cycle && self.remaining.len() == 0
    }

    /// Applying `spawn` once for each work value in turn.
    pub open spec fn spawn_all(self, works: Seq<W>) -> SchedModel<W>
        decreases works.len(),
    {
        if works.len() == 0 {
            self
        } else {
            self.spawn(works[0]).spawn_all(works.drop_first())
        }
    }

    proof fn lemma_spawn_all_idle(self, works: Seq<W>)
        requires
            self.phase is Idle,
        ensures
            self.spawn_all(works).phase is Idle,
            self.spawn_all(works).task_count() == self.task_count() + works.len(),
        decreases works.len(),
    {
        if works.len() > 0 {
            self.spawn(works[0]).lemma_spawn_all_idle(works.drop_first());
        }
    }
}

/// Law: for any sequence of spawns before any cycle has been driven, the
/// task count equals the number of spawns.
pub proof fn lemma_count_equals_spawns<W>(works: Seq<W>)
    ensures
        SchedModel::<W>::init().spawn_all(works).task_count() == works.len(),
{
    SchedModel::<W>::init().lemma_spawn_all_idle(works);
}

/// The workhorse behind the generation boundary: while a cycle is in
/// progress, a task whose token does not stand among the tasks this cycle
/// still has to drive is never handed out, stays wherever it is staged or
/// queued, and the cycle stays in progress.
proof fn lemma_not_remaining_never_resumed<W>(m: SchedModel<W>, ops: Seq<SchedOp<W>>, token: int)
    requires
        m.is_polling(),
        !SchedModel::has_token(m.remaining, token),
    ensures
        !m.resumes(ops, token),
        m.run_ops(ops).is_polling(),
        !SchedModel::has_token(m.run_ops(ops).remaining, token),
        SchedModel::has_token(m.staged, token) ==> SchedModel::has_token(
            m.run_ops(ops).staged,
            token,
        ),
    decreases ops.len(),
{
    if ops.len() > 0 {
        let m1 = m.step_op(ops[0]);
        // the one action that touches `remaining` is Next, which keeps a
        // suffix of it and hands out a task drawn from it
        if ops[0] is Next && m.phase is Cycle {
            m.lemma_skip_cancelled();
            let skipped = m.remaining.len() - m.skip_cancelled().len();
            assert forall|j: int| 0 <= j < m.skip_cancelled().len() implies (
            #[trigger] m.skip_cancelled()[j]).token != token by {
                assert(m.skip_cancelled()[j] == m.remaining[skipped + j]);
            }
            assert(!SchedModel::has_token(m1.remaining, token));
            if m.next().1 is Some {
                assert(m.next().1->0 == m.skip_cancelled()[0]);
            }
        }
        if SchedModel::has_token(m.staged, token) {
            let i = choose|i: int|
                0 <= i < m.staged.len() && (#[trigger] m.staged[i]).token == token;
            assert(m1.staged[i].token == token);
        }
        lemma_not_remaining_never_resumed(m1, ops.drop_first(), token);
    }
}

/// Law (generation boundary): a task spawned while a cycle is in progress is
/// not driven within that cycle, whatever else the cycle does; once the
/// cycle can end, ending it places the task in the pending queue, so it is
/// among the tasks the next cycle drives.
pub proof fn lemma_generation_boundary<W>(m: SchedModel<W>, work: W, ops: Seq<SchedOp<W>>)
    requires
        m.wf(),
        m.is_polling(),
    ensures
        !m.spawn(work).resumes(ops, m.next_token()),
        m.spawn(work).run_ops(ops).cycle_done() ==> SchedModel::has_token(
            m.spawn(work).run_ops(ops).end().queued,
            m.next_token(),
        ),
{
    let token = m.next_token();
    let m1 = m.spawn(work);
    assert(!SchedModel::has_token(m1.remaining, token));
    assert(m1.staged[m1.staged.len() - 1].token == token);
    lemma_not_remaining_never_resumed(m1, ops, token);
    let fin = m1.run_ops(ops);
    if fin.cycle_done() {
        let i = choose|i: int| 0 <= i < fin.staged.len() && (#[trigger] fin.staged[i]).token == token;
        assert(fin.end().queued[fin.queued.len() + fin.kept.len() + i].token == token);
    }
}

/// The workhorse behind the cancellation law: once a token is cancelled, it
/// stays cancelled, is never handed out, and never enters the retained or
/// staged collections.
proof fn lemma_cancelled_invariant<W>(m: SchedModel<W>, ops: Seq<SchedOp<W>>, token: int)
    requires
        m.is_polling(),
        m.is_cancelled(token),
        !SchedModel::has_token(m.queued, token),
        !SchedModel::has_token(m.kept, token),
        !SchedModel::has_token(m.staged, token),
    ensures
        !m.resumes(ops, token),
        m.run_ops(ops).is_polling(),
        m.run_ops(ops).is_cancelled(token),
        !SchedModel::has_token(m.run_ops(ops).queued, token),
        !SchedModel::has_token(m.run_ops(ops).kept, token),
        !SchedModel::has_token(m.run_ops(ops).staged, token),
    decreases ops.len(),
{
    if ops.len() > 0 {
        let m1 = m.step_op(ops[0]);
        if ops[0] is Next && m.phase is Cycle {
            m.lemma_skip_cancelled();
        }
        assert(m1.is_cancelled(token));
        assert(!SchedModel::has_token(m1.queued, token) && !SchedModel::has_token(m1.kept, token)
            && !SchedModel::has_token(m1.staged, token)) by {
            assert forall|i: int| 0 <= i < m1.queued.len() implies (
            #[trigger] m1.queued[i]).token != token by {
                assert(m1.queued[i] == m.queued[i]);
            }
            assert forall|i: int| 0 <= i < m1.kept.len() implies (
            #[trigger] m1.kept[i]).token != token by {
                if i < m.kept.len() {
                    assert(m1.kept[i] == m.kept[i]);
                }
            }
            assert forall|i: int| 0 <= i < m1.staged.len() implies (
            #[trigger] m1.staged[i]).token != token by {
                if i < m.staged.len() {
                    assert(m1.staged[i] == m.staged[i]);
                }
            }
        }
        lemma_cancelled_invariant(m1, ops.drop_first(), token);
    }
}

/// Law (cancellation): cancelling a task's token before the next cycle
/// means the task is never resumed again, whatever the cycle does; once the
/// cycle can end, ending it leaves the task out of the pending queue — it
/// has been removed without being driven.
pub proof fn lemma_cancelled_never_resumed<W>(m: SchedModel<W>, token: int, ops: Seq<SchedOp<W>>)
    requires
        m.wf(),
        m.phase is Idle,
        m.is_cancelled(token),
    ensures
        !m.begin().resumes(ops, token),
        m.begin().run_ops(ops).cycle_done() ==> !SchedModel::has_token(
            m.begin().run_ops(ops).end().queued,
            token,
        ),
{
    let m1 = m.begin();
    lemma_cancelled_invariant(m1, ops, token);
    let fin = m1.run_ops(ops);
    if fin.cycle_done() {
        assert forall|i: int| 0 <= i < fin.end().queued.len() implies (
        #[trigger] fin.end().queued[i]).token != token by {
            if i < fin.queued.len() {
                assert(fin.end().queued[i] == fin.queued[i]);
            } else if i < fin.queued.len() + fin.kept.len() {
                assert(fin.end().queued[i] == fin.kept[i - fin.queued.len()]);
            } else {
                assert(fin.end().queued[i] == fin.staged[i - fin.queued.len() - fin.kept.len()]);
            }
        }
    }
}

/// Law (progress): a pending task that is not cancelled, and that nothing
/// cancels along the way, is resumed by any cycle that drives the queue to
/// completion. Together with the generation boundary this says work spawned
/// mid-cycle is driven exactly one cycle later.
pub proof fn lemma_pending_task_resumed<W>(m: SchedModel<W>, ops: Seq<SchedOp<W>>, token: int)
    requires
        m.wf(),
        m.phase is Idle,
        SchedModel::has_token(m.queued, token),
        !m.is_cancelled(token),
        !SchedModel::cancels(ops, token),
        m.begin().run_ops(ops).remaining.len() == 0,
    ensures
        m.begin().resumes(ops, token),
{
    assert(SchedModel::has_token(m.begin().remaining, token)) by {
        let i = choose|i: int| 0 <= i < m.queued.len() && (#[trigger] m.queued[i]).token == token;
        assert(m.begin().remaining[m.remaining.len() + i].token == token);
    }
    lemma_uncancelled_in_remaining_resumed(m.begin(), ops, token);
}

/// The workhorse behind the progress law: while a token is among the tasks
/// still to drive and stays uncancelled, either some action hands it out or
/// it is still there at the end.
proof fn lemma_uncancelled_in_remaining_resumed<W>(
    m: SchedModel<W>,
    ops: Seq<SchedOp<W>>,
    token: int,
)
    requires
        m.is_polling(),
        0 <= token < m.flags.len(),
        SchedModel::has_token(m.remaining, token),
        !m.is_cancelled(token),
        !SchedModel::cancels(ops, token),
        m.run_ops(ops).remaining.len() == 0,
    ensures
        m.resumes(ops, token),
    decreases ops.len(),
{
    if ops.len() == 0 {
        let i = choose|i: int|
            0 <= i < m.remaining.len() && (#[trigger] m.remaining[i]).token == token;
        assert(false);
    } else {
        let m1 = m.step_op(ops[0]);
        assert(!SchedModel::cancels(ops.drop_first(), token)) by {
            if SchedModel::cancels(ops.drop_first(), token) {
                let i = choose|i: int|
                    0 <= i < ops.drop_first().len() && #[trigger] ops.drop_first()[i] == (
                    SchedOp::<W>::Cancel { token });
                assert(ops[i + 1] == (SchedOp::<W>::Cancel { token }));
            }
        }
        assert(!m1.is_cancelled(token)) by {
            if ops[0] matches SchedOp::Cancel { token: u } {
                assert(ops[0] != (SchedOp::<W>::Cancel { token }));
            }
        }
        if ops[0] is Next && m.phase is Cycle {
            m.lemma_skip_cancelled();
            let i = choose|i: int|
                0 <= i < m.remaining.len() && (#[trigger] m.remaining[i]).token == token;
            let skipped = m.remaining.len() - m.skip_cancelled().len();
            // only cancelled tokens are skipped, and this one is not
            assert(i >= skipped);
            if m.skip_cancelled()[i - skipped].token == token && i - skipped == 0 {
                // it is handed out right now
                assert(m.resumes(ops, token));
            } else {
                assert(m1.remaining[i - skipped - 1].token == token);
                lemma_uncancelled_in_remaining_resumed(m1, ops.drop_first(), token);
            }
        } else {
            assert(SchedModel::has_token(m1.remaining, token)) by {
                let i = choose|i: int|
                    0 <= i < m.remaining.len() && (#[trigger] m.remaining[i]).token == token;
                assert(m1.remaining[i].token == token);
            }
            lemma_uncancelled_in_remaining_resumed(m1, ops.drop_first(), token);
        }
    }
}

/// One registered task as the runtime holds it.
struct Task<W> {
    token: usize,
    work: W,
}

impl<W> Task<W> {
    spec fn model(self) -> TaskModel<W> {
        TaskModel { token: self.token as int, work: self.work }
    }
}

/// The cooperative single-threaded task scheduler. See the module
/// documentation for the drive protocol; its abstract state is the
/// [`SchedModel`] reached through `@`, and every operation keeps the model
/// well formed ([`SchedModel::wf`]).
pub struct Runtime<W> {
    queued: Vec<Task<W>>,
    /// The tasks of the current cycle not yet driven, next-to-drive first.
    worklist: Vec<Task<W>>,
    kept: Vec<Task<W>>,
    staged: Vec<Task<W>>,
    flags: Vec<bool>,
    /// Whether a cycle is in progress.
    polling: bool,
    /// Whether a task has been handed out and not yet reported on.
    in_step: bool,
    /// The token of the task mid-step; meaningful only while `in_step`.
    current: usize,
}

impl<W> View for Runtime<W> {
    type V = SchedModel<W>;

    closed spec fn view(&self) -> SchedModel<W> {
        SchedModel {
            queued: self.queued@.map_values(|t: Task<W>| t.model()),
            remaining: self.worklist@.map_values(|t: Task<W>| t.model()),
            kept: self.kept@.map_values(|t: Task<W>| t.model()),
            staged: self.staged@.map_values(|t: Task<W>| t.model()),
            flags: self.flags@,
            phase: if self.in_step {
                Phase::Step { token: self.current as int }
            } else if self.polling {
                Phase::Cycle
            } else {
                Phase::Idle
            },
        }
    }
}

impl<W> Runtime<W> {
    /// Creates an empty scheduler.
    pub fn new() -> (rt: Self)
        ensures
            rt@ == SchedModel::<W>::init(),
            rt@.wf(),
    {
        let rt = Runtime {
            queued: Vec::new(),
            worklist: Vec::new(),
            kept: Vec::new(),
            staged: Vec::new(),
            flags: Vec::new(),
            polling: false,
            in_step: false,
            current: 0,
        };
        proof {
            assert(rt@ =~= SchedModel::<W>::init());
        }
        rt
    }

    /// Registers a new task and returns the token that can cancel it. If a
    /// cycle is in progress — for instance because the work now being driven
    /// spawns a child — the task is staged and will not be driven before the
    /// next cycle; otherwise it joins the pending queue directly.
    pub fn spawn(&mut self, work: W) -> (token: Cancellable)
        requires
            old(self)@.wf(),
        ensures
            final(self)@ == old(self)@.spawn(work),
            final(self)@.wf(),
            token.id() == old(self)@.next_token(),
            !final(self)@.is_cancelled(token.id()) && 0 <= token.id() < final(self)@.flags.len(),
    {
        let id = self.flags.len();
        self.flags.push(false);
        let task = Task { token: id, work };
        if self.polling || self.in_step {
            self.staged.push(task);
        } else {
            self.queued.push(task);
        }
        proof {
            broadcast use vstd::prelude::Seq::lemma_push_map_commute;

            assert(self@ =~= old(self)@.spawn(work));
            old(self)@.lemma_spawn_wf(work);
        }
        Cancellable { token: id }
    }

    /// The number of tasks currently tracked: pending, staged, retained,
    /// still to drive this cycle, and the one mid-step if there is one.
    pub fn count(&self) -> (n: usize)
        requires
            self@.wf(),
        ensures
            n == self@.task_count(),
    {
        proof {
            vstd::std_specs::vec::axiom_spec_len(&self.flags);
            assert(self@.queued.len() == self.queued@.len());
            assert(self@.remaining.len() == self.worklist@.len());
            assert(self@.kept.len() == self.kept@.len());
            assert(self@.staged.len() == self.staged@.len());
        }
        let base = self.queued.len() + self.worklist.len() + self.kept.len() + self.staged.len();
        if self.in_step {
            base + 1
        } else {
            base
        }
    }

    /// Starts a cycle: the pending tasks become the set this cycle drives,
    /// in insertion order. Until [`Runtime::end_poll`], newly spawned tasks
    /// are staged instead of joining that set.
    pub fn begin_poll(&mut self)
        requires
            old(self)@.wf(),
            old(self)@.phase is Idle,
        ensures
            final(self)@ == old(self)@.begin(),
            final(self)@.wf(),
    {
        self.worklist.append(&mut self.queued);
        self.polling = true;
        proof {
            assert(self.worklist@.map_values(|t: Task<W>| t.model()) =~= old(self)@.remaining
                + old(self)@.queued);
            assert(self@ =~= old(self)@.begin());
            old(self)@.lemma_begin_wf();
        }
    }

    /// Takes the next task of the cycle that is not cancelled, dropping the
    /// cancelled ones in front of it without resuming them. `Some(work)`
    /// hands the caller the task's work for one resumption step, to be
    /// answered with [`Runtime::task_suspended`] or
    /// [`Runtime::task_finished`]; `None` says the cycle has driven every
    /// pending task.
    pub fn next_task(&mut self) -> (work: Option<W>)
        requires
            old(self)@.wf(),
            old(self)@.phase is Cycle,
        ensures
            final(self)@ == old(self)@.next().0,
            final(self)@.wf(),
            match work {
                Some(w) => old(self)@.next().1 matches Some(task) && task.work == w
                    && final(self)@.phase == (Phase::Step { token: task.token }),
                None => old(self)@.next().1 is None && final(self)@.phase is Cycle,
            },
    {
        proof {
            old(self)@.lemma_next_wf();
        }
        loop
            invariant
                self@.phase is Cycle,
                self@.wf(),
                self@.skip_cancelled() == old(self)@.skip_cancelled(),
                self@ == (SchedModel { remaining: self@.remaining, ..old(self)@ }),
            decreases self.worklist@.len(),
        {
            if self.worklist.len() == 0 {
                proof {
                    assert(self@ =~= old(self)@.next().0);
                }
                return None;
            }
            let ghost pre = self@;
            let task = self.worklist.remove(0);
            proof {
                assert(self.worklist@.map_values(|t: Task<W>| t.model())
                    =~= pre.remaining.drop_first());
            }
            let cancelled = self.flags[task.token];
            if !cancelled {
                self.current = task.token;
                self.in_step = true;
                proof {
                    assert(pre.skip_cancelled() == pre.remaining);
                    assert(self@ =~= old(self)@.next().0);
                }
                return Some(task.work);
            }
            proof {
                assert((SchedModel { remaining: pre.remaining.drop_first(), ..pre }) =~= self@);
            }
        }
    }

    /// Reports that the task handed out by [`Runtime::next_task`] is still
    /// suspended: it is retained for the next cycle unless its token was
    /// cancelled during the step.
    pub fn task_suspended(&mut self, work: W)
        requires
            old(self)@.wf(),
            old(self)@.phase is Step,
        ensures
            final(self)@ == old(self)@.suspend(work),
            final(self)@.wf(),
    {
        let id = self.current;
        let cancelled = id < self.flags.len() && self.flags[id];
        if !cancelled {
            self.kept.push(Task { token: id, work });
        }
        self.polling = true;
        self.in_step = false;
        proof {
            broadcast use vstd::prelude::Seq::lemma_push_map_commute;

            assert(self@ =~= old(self)@.suspend(work));
            old(self)@.lemma_suspend_wf(work);
        }
    }

    /// Reports that the task handed out by [`Runtime::next_task`] ran to
    /// completion: it is dropped.
    pub fn task_finished(&mut self)
        requires
            old(self)@.wf(),
            old(self)@.phase is Step,
        ensures
            final(self)@ == old(self)@.finish(),
            final(self)@.wf(),
    {
        self.polling = true;
        self.in_step = false;
        proof {
            assert(self@ =~= old(self)@.finish());
            old(self)@.lemma_finish_wf();
        }
    }

    /// Ends the cycle once every task has been driven: the retained tasks,
    /// followed by the tasks staged during the cycle, become the pending
    /// queue the next cycle will drive.
    pub fn end_poll(&mut self)
        requires
            old(self)@.wf(),
            old(self)@.phase is Cycle,
            old(self)@.remaining.len() == 0,
        ensures
            final(self)@ == old(self)@.end(),
            final(self)@.wf(),
    {
        self.queued.append(&mut self.kept);
        self.queued.append(&mut self.staged);
        self.polling = false;
        proof {
            assert(self.queued@.map_values(|t: Task<W>| t.model()) =~= old(self)@.queued
                + old(self)@.kept + old(self)@.staged);
            assert(self@ =~= old(self)@.end());
            old(self)@.lemma_end_wf();
        }
    }
}

/// A cancellation token: the cooperative handle paired with a spawned task.
///
/// Cancellation is cooperative and deferred — cancelling only guarantees the
/// scheduler drops the task at its next check point; a step already in
/// progress is never interrupted. The token holds no state of its own: the
/// flag it names lives in the scheduler, so the token stays valid (and
/// harmless) after its task has finished.
#[derive(Clone, Copy)]
pub struct Cancellable {
    token: usize,
}

impl Cancellable {
    /// The token index this handle names.
    pub closed spec fn id(&self) -> int {
        self.token as int
    }

    /// Idempotently requests cancellation of the associated task; safe to
    /// call repeatedly or after the task has already finished, and a no-op
    /// on a scheduler that never handed this token out.
    pub fn cancel<W>(&self, rt: &mut Runtime<W>)
        ensures
            final(rt)@ == old(rt)@.cancel(self.id()),
    {
        if self.token < rt.flags.len() {
            rt.flags.set(self.token, true);
            proof {
                assert(rt@ =~= old(rt)@.cancel(self.id()));
            }
        } else {
            proof {
                assert(rt@ =~= old(rt)@.cancel(self.id()));
            }
        }
    }

    /// Whether cancellation has been requested for the associated task.
    pub fn is_cancelled<W>(&self, rt: &Runtime<W>) -> (r: bool)
        ensures
            r == rt@.is_cancelled(self.id()),
    {
        self.token < rt.flags.len() && rt.flags[self.token]
    }
}

impl Default for Cancellable {
    /// An inert token, as handed out when spawning against an owner that is
    /// already gone: it names no task of any scheduler, so cancelling
    /// through it is a no-op and it never reads as cancelled.
    fn default() -> (c: Self)
        ensures
            c.id() == usize::MAX as int,
    {
        Cancellable { token: usize::MAX }
    }
}

/// The re-render protocol built on cancellation: when a component's tracked
/// inputs change, the previous render's token is cancelled and a new task is
/// spawned for the re-render, so at most one render-task per component is
/// live and stale in-flight renders are abandoned instead of racing with
/// fresh ones. Returns the new render's token, to be stored for the next
/// turn of the protocol.
pub fn rerender<W>(rt: &mut Runtime<W>, previous: &Cancellable, work: W) -> (token: Cancellable)
    requires
        old(rt)@.wf(),
    ensures
        final(rt)@ == old(rt)@.cancel(previous.id()).spawn(work),
        final(rt)@.wf(),
        token.id() == old(rt)@.cancel(previous.id()).next_token(),
        !final(rt)@.is_cancelled(token.id()),
{
    previous.cancel(rt);
    proof {
        old(rt)@.lemma_cancel_wf(previous.id());
    }
    rt.spawn(work)
}

} // verus!
