//! The scheduler's state as a mathematical value, and its transitions.
//!
//! A run proceeds in ticks. Within a tick the task list is visited in order,
//! and each task that is not pending is resumed once. Tasks spawned meanwhile
//! are appended to the list and so are reached by the same visit. When the
//! visit has reached the end of the list and tasks remain, one readiness probe
//! is made, its answer clears pending flags, and the next tick begins.

use vstd::prelude::*;
use crate::reactor::Token;

verus! {

/// One task as the scheduler sees it: its identity, and whether its last
/// resumption left it waiting for a readiness event.
#[derive(Debug, Clone, Copy, PartialEq, Eq, Structural)]
pub struct Task {
    pub token: Token,
    pub pending: bool,
}

/// What a resumed computation reported.
#[derive(Debug, Clone, Copy, PartialEq, Eq, Structural)]
pub enum Status {
    /// It ran to its end.
    Completed,
    /// It cannot go on before some descriptor is ready.
    Suspended,
}

/// What the caller of the scheduler is to do next.
#[derive(Debug, Clone, Copy, PartialEq, Eq, Structural)]
pub enum Action {
    /// Resume the computation that stands under the token, then report how it ended.
    Resume(Token),
    /// Make one readiness probe, then report its answer.
    Probe,
    /// Nothing is left to run: the run is over.
    Finished,
}

/// The scheduler's state.
pub struct Schedule {
    /// The live tasks, in the order they were spawned.
    pub tasks: Seq<Task>,
    /// The tasks before this index have had their turn in the current tick.
    pub cursor: int,
    /// The number of tokens handed out so far, which is the next token.
    pub next_token: int,
}

impl Schedule {
    /// The state before anything was spawned.
    pub open spec fn initial() -> Schedule {
        Schedule { tasks: Seq::empty(), cursor: 0, next_token: 0 }
    }

    /// The cursor lies in the list, every token was handed out by the counter,
    /// and no two tasks share a token.
    pub open spec fn wf(self) -> bool {
        &&& 0 <= self.cursor <= self.tasks.len()
        &&& 0 <= self.next_token <= usize::MAX
        &&& forall|i: int|
            0 <= i < self.tasks.len() ==> (#[trigger] self.tasks[i]).token.0 < self.next_token
        &&& forall|i: int, j: int|
            0 <= i < j < self.tasks.len() ==> (#[trigger] self.tasks[i]).token != (
            #[trigger] self.tasks[j]).token
    }

    /// Whether a task with this token is alive.
    pub open spec fn holds(self, token: Token) -> bool {
        exists|i: int| 0 <= i < self.tasks.len() && (#[trigger] self.tasks[i]).token == token
    }

    /// The place of the task with this token, where one is alive.
    pub open spec fn index_of(self, token: Token) -> int {
        choose|i: int| 0 <= i < self.tasks.len() && (#[trigger] self.tasks[i]).token == token
    }

    /// A new task is appended under the next token, not pending.
    pub open spec fn spawn(self) -> Schedule {
        Schedule {
            tasks: self.tasks.push(Task { token: Token(self.next_token as usize), pending: false }),
            next_token: self.next_token + 1,
            ..self
        }
    }

    /// A tick begins: the visit starts at the head of the list.
    pub open spec fn begin_tick(self) -> Schedule {
        Schedule { cursor: 0, ..self }
    }

    /// The first place at or after `from` whose task is not pending; the
    /// length of the list where there is none.
    pub open spec fn next_runnable(self, from: int) -> int
        decreases self.tasks.len() - from,
    {
        if from >= self.tasks.len() {
            self.tasks.len() as int
        } else if !self.tasks[from].pending {
            from
        } else {
            self.next_runnable(from + 1)
        }
    }

    /// What is to be done next: resume the next task at or after the cursor
    /// that is not pending; when the visit has reached the end of the list,
    /// probe while tasks remain and finish when none does.
    pub open spec fn next_action(self) -> Action {
        let i = self.next_runnable(self.cursor);
        if i < self.tasks.len() {
            Action::Resume(self.tasks[i].token)
        } else if self.tasks.len() == 0 {
            Action::Finished
        } else {
            Action::Probe
        }
    }

    /// The state once `next_action` was handed out: the cursor stands behind
    /// the task to resume, or at the end of the list.
    pub open spec fn advanced(self) -> Schedule {
        let i = self.next_runnable(self.cursor);
        if i < self.tasks.len() {
            Schedule { cursor: i + 1, ..self }
        } else {
            Schedule { cursor: self.tasks.len() as int, ..self }
        }
    }

    /// The task with this token becomes pending.
    pub open spec fn suspended(self, token: Token) -> Schedule {
        Schedule {
            tasks: self.tasks.map_values(
                |t: Task|
                    if t.token == token {
                        Task { token: t.token, pending: true }
                    } else {
                        t
                    },
            ),
            ..self
        }
    }

    /// The task with this token leaves the list; the cursor keeps its place
    /// among the tasks that stay.
    pub open spec fn retired(self, token: Token) -> Schedule {
        if self.holds(token) {
            let i = self.index_of(token);
            Schedule {
                tasks: self.tasks.remove(i),
                cursor: if i < self.cursor {
                    self.cursor - 1
                } else {
                    self.cursor
                },
                ..self
            }
        } else {
            self
        }
    }

    /// The state after the resumption of `token` was reported.
    pub open spec fn resumed(self, token: Token, status: Status) -> Schedule {
        match status {
            Status::Completed => self.retired(token),
            Status::Suspended => self.suspended(token),
        }
    }

    /// Every task whose token is among `ready` is no longer pending.
    pub open spec fn woken(self, ready: Seq<Token>) -> Schedule {
        Schedule {
            tasks: self.tasks.map_values(
                |t: Task|
                    if ready.contains(t.token) {
                        Task { token: t.token, pending: false }
                    } else {
                        t
                    },
            ),
            ..self
        }
    }

    /// The task with this token is alive and not pending.
    pub open spec fn runnable(self, token: Token) -> bool {
        exists|i: int|
            0 <= i < self.tasks.len() && (#[trigger] self.tasks[i]).token == token
                && !self.tasks[i].pending
    }

    /// The task with this token is alive and pending.
    pub open spec fn waiting(self, token: Token) -> bool {
        exists|i: int|
            0 <= i < self.tasks.len() && (#[trigger] self.tasks[i]).token == token
                && self.tasks[i].pending
    }

    /// The task with this token is alive, not pending, and still to be visited
    /// in the current tick.
    pub open spec fn owed(self, token: Token) -> bool {
        exists|i: int|
            self.cursor <= i < self.tasks.len() && (#[trigger] self.tasks[i]).token == token
                && !self.tasks[i].pending
    }

    /// The number of tasks that the visit has to pass before it reaches the
    /// task with this token.
    pub open spec fn ahead(self, token: Token) -> int {
        self.index_of(token) - self.cursor
    }

    /// Every task that the visit has passed is pending: each one that was
    /// resumed has reported, and none of the reports was lost.
    pub open spec fn settled(self) -> bool {
        forall|i: int| 0 <= i < self.cursor ==> (#[trigger] self.tasks[i]).pending
    }

    /// Every task that the visit has passed is pending, but for the task with
    /// this token: it was resumed, and its report is still to come.
    pub open spec fn settled_but(self, token: Token) -> bool {
        forall|i: int|
            0 <= i < self.cursor ==> (#[trigger] self.tasks[i]).pending || self.tasks[i].token
                == token
    }

    /// `next_runnable` finds the first task from `from` on that is not pending:
    /// every task that it passes over is pending.
    pub proof fn lemma_next_runnable(self, from: int)
        requires
            0 <= from <= self.tasks.len(),
        ensures
            from <= self.next_runnable(from) <= self.tasks.len(),
            forall|k: int|
                from <= k < self.next_runnable(from) ==> (#[trigger] self.tasks[k]).pending,
            self.next_runnable(from) < self.tasks.len() ==> !self.tasks[self.next_runnable(
                from,
            )].pending,
        decreases self.tasks.len() - from,
    {
        if from < self.tasks.len() && self.tasks[from].pending {
            self.lemma_next_runnable(from + 1);
        }
    }

    /// Every transition leads from a well-formed state to a well-formed state.
    pub proof fn lemma_transitions_keep_wf(self, token: Token, status: Status, ready: Seq<Token>)
        requires
            self.wf(),
        ensures
            Schedule::initial().wf(),
            self.next_token < usize::MAX ==> self.spawn().wf(),
            self.begin_tick().wf(),
            self.advanced().wf(),
            self.resumed(token, status).wf(),
            self.woken(ready).wf(),
    {
        self.lemma_next_runnable(self.cursor);
        if self.holds(token) {
            let i = self.index_of(token);
            let after = self.retired(token);
            assert forall|a: int, b: int| 0 <= a < b < after.tasks.len() implies (
            #[trigger] after.tasks[a]).token != (#[trigger] after.tasks[b]).token by {
                let a0 = if a < i { a } else { a + 1 };
                let b0 = if b < i { b } else { b + 1 };
                assert(after.tasks[a] == self.tasks[a0]);
                assert(after.tasks[b] == self.tasks[b0]);
            }
            assert forall|a: int| 0 <= a < after.tasks.len() implies (
            #[trigger] after.tasks[a]).token.0 < after.next_token by {
                let a0 = if a < i { a } else { a + 1 };
                assert(after.tasks[a] == self.tasks[a0]);
            }
        }
    }

    /// A run is over exactly when no task is left, and saying so leaves the
    /// task list as it is: while any task remains, pending or not, the
    /// scheduler resumes or probes.
    pub proof fn lemma_finished_iff_drained(self)
        requires
            self.wf(),
        ensures
            self.next_action() is Finished <==> self.tasks.len() == 0,
            self.advanced().tasks == self.tasks,
    {
        self.lemma_next_runnable(self.cursor);
    }

    /// A task leaves the list by the report of its own completion and in no
    /// other way.
    pub proof fn lemma_only_completion_retires(
        self,
        token: Token,
        other: Token,
        status: Status,
        ready: Seq<Token>,
    )
        requires
            self.wf(),
            self.holds(token),
        ensures
            self.next_token < usize::MAX ==> self.spawn().holds(token),
            self.begin_tick().holds(token),
            self.advanced().holds(token),
            self.woken(ready).holds(token),
            self.resumed(other, Status::Suspended).holds(token),
            other != token ==> self.resumed(other, status).holds(token),
            !self.resumed(token, Status::Completed).holds(token),
    {
        let i = self.index_of(token);
        assert(self.spawn().tasks[i].token == token);
        assert(self.begin_tick().tasks[i].token == token);
        assert(self.advanced().tasks[i].token == token);
        assert(self.woken(ready).tasks[i].token == token);
        assert(self.suspended(other).tasks[i].token == token);
        if other != token {
            self.lemma_kept_by_retiring(other, i);
        }
        let gone = self.retired(token);
        if gone.holds(token) {
            let k = gone.index_of(token);
            let k0 = if k < i { k } else { k + 1 };
            assert(gone.tasks[k] == self.tasks[k0]);
        }
    }

    /// The task at `i` is still in the list, unchanged, when another task is
    /// retired, and it keeps its side of the cursor; where the visit has not
    /// reached it, it is no farther from the cursor than before.
    pub proof fn lemma_kept_by_retiring(self, other: Token, i: int)
        requires
            self.wf(),
            0 <= i < self.tasks.len(),
            self.tasks[i].token != other,
        ensures
            ({
                let after = self.retired(other);
                let j = if self.holds(other) && self.index_of(other) < i { i - 1 } else { i };
                &&& 0 <= j < after.tasks.len()
                &&& after.tasks[j] == self.tasks[i]
                &&& (i < self.cursor <==> j < after.cursor)
                &&& self.cursor <= i ==> j - after.cursor <= i - self.cursor
            }),
    {
    }

    /// A task that was just spawned carries a token that no live task had, it
    /// is not pending, and the tick under way still has to visit it.
    pub proof fn lemma_spawned_is_owed(self)
        requires
            self.wf(),
            self.next_token < usize::MAX,
        ensures
            !self.holds(Token(self.next_token as usize)),
            self.spawn().owed(Token(self.next_token as usize)),
            self.spawn().runnable(Token(self.next_token as usize)),
    {
        let after = self.spawn();
        assert(after.tasks[self.tasks.len() as int].token == Token(self.next_token as usize));
    }

    /// A task that is alive and not pending stays so until its own resumption
    /// is reported: no other transition suspends or retires it.
    pub proof fn lemma_runnable_until_resumed(
        self,
        token: Token,
        other: Token,
        status: Status,
        ready: Seq<Token>,
    )
        requires
            self.wf(),
            self.runnable(token),
            other != token,
        ensures
            self.next_token < usize::MAX ==> self.spawn().runnable(token),
            self.begin_tick().runnable(token),
            self.advanced().runnable(token),
            self.woken(ready).runnable(token),
            self.resumed(other, status).runnable(token),
    {
        let i = choose|i: int|
            0 <= i < self.tasks.len() && (#[trigger] self.tasks[i]).token == token
                && !self.tasks[i].pending;
        assert(self.spawn().tasks[i] == self.tasks[i]);
        assert(self.begin_tick().tasks[i] == self.tasks[i]);
        assert(self.advanced().tasks[i] == self.tasks[i]);
        assert(self.woken(ready).tasks[i].token == token && !self.woken(ready).tasks[i].pending);
        assert(self.suspended(other).tasks[i] == self.tasks[i]);
        self.lemma_kept_by_retiring(other, i);
    }

    /// When a tick begins, every task that is alive and not pending is owed a
    /// resumption in it.
    pub proof fn lemma_tick_owes_runnable(self, token: Token)
        requires
            self.wf(),
            self.runnable(token),
        ensures
            self.begin_tick().owed(token),
            self.begin_tick().ahead(token) < self.tasks.len(),
    {
        let i = choose|i: int|
            0 <= i < self.tasks.len() && (#[trigger] self.tasks[i]).token == token
                && !self.tasks[i].pending;
        assert(self.begin_tick().tasks[i] == self.tasks[i]);
    }

    /// While a task is owed a resumption, the scheduler neither probes nor
    /// finishes: the next action resumes that task, or resumes an earlier one
    /// and still owes this one, which the visit has then come nearer to.
    pub proof fn lemma_owed_is_resumed(self, token: Token)
        requires
            self.wf(),
            self.owed(token),
        ensures
            self.next_action() is Resume,
            self.next_action() == Action::Resume(token) || self.advanced().owed(token),
            0 <= self.ahead(token),
            self.next_action() != Action::Resume(token) ==> 0 <= self.advanced().ahead(token)
                < self.ahead(token),
    {
        self.lemma_next_runnable(self.cursor);
        let i = choose|i: int|
            self.cursor <= i < self.tasks.len() && (#[trigger] self.tasks[i]).token == token
                && !self.tasks[i].pending;
        let n = self.next_runnable(self.cursor);
        assert(n <= i) by {
            if i < n {
                assert(self.tasks[i].pending);
            }
        }
        if n < i {
            assert(self.advanced().tasks[i] == self.tasks[i]);
        }
    }

    /// What a task is owed is not lost to the reports of other tasks, to
    /// spawns, or to woken tasks, and none of these puts a task between the
    /// visit and the task.
    pub proof fn lemma_owed_until_resumed(
        self,
        token: Token,
        other: Token,
        status: Status,
        ready: Seq<Token>,
    )
        requires
            self.wf(),
            self.owed(token),
            other != token,
        ensures
            self.next_token < usize::MAX ==> self.spawn().owed(token),
            self.next_token < usize::MAX ==> self.spawn().ahead(token) == self.ahead(token),
            self.resumed(other, status).owed(token),
            0 <= self.resumed(other, status).ahead(token) <= self.ahead(token),
            self.woken(ready).owed(token),
            self.woken(ready).ahead(token) == self.ahead(token),
    {
        let i = choose|i: int|
            self.cursor <= i < self.tasks.len() && (#[trigger] self.tasks[i]).token == token
                && !self.tasks[i].pending;
        assert(self.spawn().tasks[i] == self.tasks[i]);
        assert(self.suspended(other).tasks[i] == self.tasks[i]);
        assert(self.woken(ready).tasks[i].token == token && !self.woken(ready).tasks[i].pending);
        self.lemma_kept_by_retiring(other, i);
        self.lemma_transitions_keep_wf(other, status, ready);
        if self.next_token < usize::MAX {
            assert(self.spawn().index_of(token) == i);
        }
        assert(self.suspended(other).index_of(token) == i);
        assert(self.woken(ready).index_of(token) == i);
        let j = if self.holds(other) && self.index_of(other) < i {
            i - 1
        } else {
            i
        };
        assert(self.retired(other).index_of(token) == j);
    }

    /// A pending task is not resumed, and it stays pending until the answer of
    /// a probe makes its token ready: then it is pending no longer.
    pub proof fn lemma_waiting_until_woken(
        self,
        token: Token,
        other: Token,
        status: Status,
        ready: Seq<Token>,
    )
        requires
            self.wf(),
            self.waiting(token),
        ensures
            self.next_action() != Action::Resume(token),
            self.next_token < usize::MAX ==> self.spawn().waiting(token),
            self.begin_tick().waiting(token),
            self.advanced().waiting(token),
            self.resumed(token, Status::Suspended).waiting(token),
            other != token ==> self.resumed(other, status).waiting(token),
            !ready.contains(token) ==> self.woken(ready).waiting(token),
            ready.contains(token) ==> self.woken(ready).runnable(token),
    {
        self.lemma_next_runnable(self.cursor);
        let i = choose|i: int|
            0 <= i < self.tasks.len() && (#[trigger] self.tasks[i]).token == token
                && self.tasks[i].pending;
        let n = self.next_runnable(self.cursor);
        if n < self.tasks.len() && self.tasks[n].token == token {
            assert(n == i);
        }
        assert(self.spawn().tasks[i] == self.tasks[i]);
        assert(self.begin_tick().tasks[i] == self.tasks[i]);
        assert(self.advanced().tasks[i] == self.tasks[i]);
        assert(self.suspended(token).tasks[i].token == token && self.suspended(
            token,
        ).tasks[i].pending);
        if other != token {
            assert(self.suspended(other).tasks[i] == self.tasks[i]);
            self.lemma_kept_by_retiring(other, i);
        }
        assert(self.woken(ready).tasks[i].token == token);
        assert(self.woken(ready).tasks[i].pending == !ready.contains(token));
    }

    /// A probe is asked for only when no task can run: where every resumption
    /// has been reported, the scheduler says `Probe` in a state in which tasks
    /// remain and all of them are pending.
    pub proof fn lemma_probe_when_none_runnable(self, token: Token)
        requires
            self.wf(),
            self.settled(),
            self.next_action() is Probe,
        ensures
            self.tasks.len() > 0,
            !self.runnable(token),
            forall|i: int| 0 <= i < self.tasks.len() ==> (#[trigger] self.tasks[i]).pending,
    {
        self.lemma_next_runnable(self.cursor);
    }

    /// An action that resumes a task leaves the visit settled but for that
    /// task, and the report of the task settles it again.
    pub proof fn lemma_settled_by_report(self, status: Status)
        requires
            self.wf(),
            self.settled(),
            self.next_action() is Resume,
        ensures
            self.advanced().settled_but(self.next_action()->Resume_0),
            self.advanced().resumed(self.next_action()->Resume_0, status).settled(),
    {
        self.lemma_next_runnable(self.cursor);
        self.lemma_transitions_keep_wf(Token(0), status, Seq::empty());
        self.advanced().lemma_report_settles(self.next_action()->Resume_0, status);
    }

    /// Where the visit is settled but for one task, the report of that task
    /// settles it.
    pub proof fn lemma_report_settles(self, token: Token, status: Status)
        requires
            self.wf(),
            self.settled_but(token),
        ensures
            self.resumed(token, status).settled(),
    {
        let after = self.resumed(token, status);
        assert forall|i: int| 0 <= i < after.cursor implies (#[trigger] after.tasks[i]).pending by {
            match status {
                Status::Suspended => {
                    assert(self.tasks[i].pending || self.tasks[i].token == token);
                },
                Status::Completed => {
                    if self.holds(token) {
                        let i0 = if i < self.index_of(token) { i } else { i + 1 };
                        assert(after.tasks[i] == self.tasks[i0]);
                        assert(self.tasks[i0].pending || self.tasks[i0].token == token);
                    } else {
                        assert(self.tasks[i].pending || self.tasks[i].token == token);
                    }
                },
            }
        }
    }

    /// The visit stays settled: through a spawn, through the start of a tick,
    /// through any report, and through an action that resumes nothing.
    pub proof fn lemma_settled_kept(self, other: Token, status: Status, ready: Seq<Token>)
        requires
            self.wf(),
            self.settled(),
        ensures
            self.next_token < usize::MAX ==> self.spawn().settled(),
            self.begin_tick().settled(),
            self.woken(ready).begin_tick().settled(),
            self.resumed(other, status).settled(),
            !(self.next_action() is Resume) ==> self.advanced().settled(),
    {
        self.lemma_next_runnable(self.cursor);
        self.lemma_transitions_keep_wf(other, status, ready);
        if self.next_token < usize::MAX {
            let after = self.spawn();
            assert forall|i: int| 0 <= i < after.cursor implies (#[trigger] after.tasks[i]).pending by {
                assert(after.tasks[i] == self.tasks[i]);
            }
        }
        let reported = self.resumed(other, status);
        assert forall|i: int| 0 <= i < reported.cursor implies (
        #[trigger] reported.tasks[i]).pending by {
            match status {
                Status::Suspended => {
                    assert(self.tasks[i].pending);
                },
                Status::Completed => {
                    if self.holds(other) {
                        let i0 = if i < self.index_of(other) { i } else { i + 1 };
                        assert(reported.tasks[i] == self.tasks[i0]);
                        assert(self.tasks[i0].pending);
                    }
                },
            }
        }
        if !(self.next_action() is Resume) {
            let after = self.advanced();
            assert forall|i: int| 0 <= i < after.cursor implies (#[trigger] after.tasks[i]).pending by {
                assert(after.tasks[i] == self.tasks[i]);
            }
        }
    }
}

} // verus!
