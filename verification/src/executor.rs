//! The executor: the task list, the reactor, and the token counter, driven by
//! the caller one decision at a time.

use vstd::prelude::*;
use crate::reactor::{
    lemma_ready_tokens, probe_ready, reported, satisfied, without, ProbeError, Reactor, Registration,
    Token,
};
use crate::schedule::{Action, Schedule, Status, Task};

verus! {

/// The scheduler of one thread's tasks.
///
/// The computations themselves stay with the caller, who keeps each under the
/// token that `spawn` returned for it.
pub struct Executor {
    tasks: Vec<Task>,
    reactor: Reactor,
    token_counter: usize,
    cursor: usize,
}

impl View for Executor {
    type V = Schedule;

    closed spec fn view(&self) -> Schedule {
        Schedule {
            tasks: self.tasks@,
            cursor: self.cursor as int,
            next_token: self.token_counter as int,
        }
    }
}

fn contains(tokens: &Vec<Token>, token: Token) -> (found: bool)
    ensures
        found == tokens@.contains(token),
{
    let mut i: usize = 0;
    while i < tokens.len()
        invariant
            i <= tokens.len(),
            forall|k: int| 0 <= k < i ==> tokens@[k] != token,
        decreases tokens.len() - i,
    {
        if tokens[i] == token {
            return true;
        }
        i += 1;
    }
    false
}

impl Executor {
    /// The invariant of the scheduler's state.
    pub open spec fn wf(&self) -> bool {
        self@.wf()
    }

    /// The registrations that the executor's reactor holds.
    pub closed spec fn registrations(&self) -> Seq<Registration> {
        self.reactor@
    }

    /// An executor with no task and no registration.
    pub fn new() -> (executor: Executor)
        ensures
            executor.wf(),
            executor@ == Schedule::initial(),
            executor.registrations() == Seq::<Registration>::empty(),
    {
        Executor { tasks: Vec::new(), reactor: Reactor::new(), token_counter: 0, cursor: 0 }
    }

    /// Enqueues a new task at the end of the list and returns its token. The
    /// visit of the tick under way reaches it there.
    pub fn spawn(&mut self) -> (token: Token)
        requires
            old(self).wf(),
            old(self)@.next_token < usize::MAX,
        ensures
            final(self).wf(),
            final(self)@ == old(self)@.spawn(),
            token == Token(old(self)@.next_token as usize),
            final(self).registrations() == old(self).registrations(),
    {
        let id = self.token_counter;
        self.token_counter = id + 1;
        self.tasks.push(Task { token: Token(id), pending: false });
        Token(id)
    }

    /// Begins a run to completion: enqueues the root task and opens the first
    /// tick, whose visit starts at the head of the list.
    pub fn block_on(&mut self) -> (root: Token)
        requires
            old(self).wf(),
            old(self)@.next_token < usize::MAX,
        ensures
            final(self).wf(),
            final(self)@ == old(self)@.spawn().begin_tick(),
            root == Token(old(self)@.next_token as usize),
            final(self).registrations() == old(self).registrations(),
    {
        let root = self.spawn();
        self.cursor = 0;
        root
    }

    /// Says what is to be done next, and moves the tick's cursor on.
    pub fn advance(&mut self) -> (action: Action)
        requires
            old(self).wf(),
        ensures
            final(self).wf(),
            action == old(self)@.next_action(),
            final(self)@ == old(self)@.advanced(),
            final(self).registrations() == old(self).registrations(),
    {
        let mut i: usize = self.cursor;
        while i < self.tasks.len() && self.tasks[i].pending
            invariant
                self.wf(),
                self.cursor <= i <= self.tasks.len(),
                self@.next_runnable(self.cursor as int) == self@.next_runnable(i as int),
            decreases self.tasks.len() - i,
        {
            i += 1;
        }
        if i < self.tasks.len() {
            let token = self.tasks[i].token;
            self.cursor = i + 1;
            Action::Resume(token)
        } else {
            self.cursor = i;
            if self.tasks.len() == 0 {
                Action::Finished
            } else {
                Action::Probe
            }
        }
    }

    /// Takes the report of a resumption: a completed task leaves the list at
    /// once, a suspended one becomes pending. A token of no live task changes
    /// nothing.
    pub fn resumed(&mut self, token: Token, status: Status)
        requires
            old(self).wf(),
        ensures
            final(self).wf(),
            final(self)@ == old(self)@.resumed(token, status),
            final(self).registrations() == old(self).registrations(),
    {
        let mut i: usize = 0;
        while i < self.tasks.len() && self.tasks[i].token != token
            invariant
                i <= self.tasks.len(),
                forall|k: int| 0 <= k < i ==> (#[trigger] self.tasks@[k]).token != token,
            decreases self.tasks.len() - i,
        {
            i += 1;
        }
        if i < self.tasks.len() {
            assert(self@.holds(token)) by {
                assert(self@.tasks[i as int].token == token);
            }
            assert(self@.index_of(token) == i);
            match status {
                Status::Suspended => {
                    self.tasks.set(i, Task { token, pending: true });
                    assert(self@.tasks =~= old(self)@.suspended(token).tasks);
                },
                Status::Completed => {
                    self.tasks.remove(i);
                    if i < self.cursor {
                        self.cursor = self.cursor - 1;
                    }
                },
            }
        } else {
            assert(!self@.holds(token));
            assert(self@.tasks =~= old(self)@.suspended(token).tasks);
        }
    }

    /// Appends a registration to the reactor's table. The schedule is untouched.
    pub fn register(&mut self, token: Token, fd: i32, events: i16)
        ensures
            final(self)@ == old(self)@,
            final(self).registrations() == old(self).registrations().push(
                Registration { token, fd, events },
            ),
    {
        self.reactor.register(token, fd, events);
    }

    /// Removes every registration of `token` from the reactor's table. The
    /// schedule is untouched.
    pub fn unregister(&mut self, token: Token)
        ensures
            final(self)@ == old(self)@,
            final(self).registrations() == without(old(self).registrations(), token),
    {
        self.reactor.unregister(token);
    }

    /// Takes the answer of a readiness probe (see `Reactor::poll`). A failed
    /// probe changes nothing and is handed on. Otherwise the tasks that the
    /// answer makes ready are no longer pending, and the next tick begins.
    pub fn probed(&mut self, res: i32, errno: i32, revents: &Vec<i16>) -> (outcome: Result<
        (),
        ProbeError,
    >)
        requires
            old(self).wf(),
        ensures
            final(self).wf(),
            final(self).registrations() == old(self).registrations(),
            res < 0 ==> outcome == Err::<(), ProbeError>(ProbeError { errno }) && final(self)@
                == old(self)@,
            res >= 0 ==> outcome is Ok && final(self)@ == old(self)@.woken(
                probe_ready(old(self).registrations(), res, revents@),
            ).begin_tick(),
    {
        let ready = match self.reactor.poll(res, errno, revents) {
            Ok(ready) => ready,
            Err(e) => {
                return Err(e);
            },
        };
        let mut i: usize = 0;
        while i < self.tasks.len()
            invariant
                i <= self.tasks.len(),
                self.tasks@.len() == old(self)@.tasks.len(),
                self.cursor == old(self).cursor,
                self.token_counter == old(self).token_counter,
                self.reactor == old(self).reactor,
                forall|k: int|
                    0 <= k < i ==> self.tasks@[k] == old(self)@.woken(ready@).tasks[k],
                forall|k: int| i <= k < self.tasks@.len() ==> self.tasks@[k] == old(self)@.tasks[k],
            decreases self.tasks.len() - i,
        {
            let task = self.tasks[i];
            if contains(&ready, task.token) {
                self.tasks.set(i, Task { token: task.token, pending: false });
            }
            i += 1;
        }
        assert(self.tasks@ =~= old(self)@.woken(ready@).tasks);
        self.cursor = 0;
        Ok(())
    }

    /// The reactor, for reading its registrations.
    pub fn reactor(&self) -> (reactor: &Reactor)
        ensures
            reactor@ == self.registrations(),
    {
        &self.reactor
    }

    /// The live tasks, in list order.
    pub fn tasks(&self) -> (tasks: &Vec<Task>)
        ensures
            tasks@ == self@.tasks,
    {
        &self.tasks
    }

    /// Whether no task is alive.
    pub fn is_empty(&self) -> (empty: bool)
        ensures
            empty == (self@.tasks.len() == 0),
    {
        self.tasks.len() == 0
    }

    /// The number of tokens handed out so far.
    pub fn spawned(&self) -> (count: usize)
        ensures
            count == self@.next_token,
    {
        self.token_counter
    }
}

/// A probe wakes a pending task exactly when it reported a descriptor and its
/// answer meets the interest of one of the task's registrations. A task that
/// is woken is owed a resumption in the tick that then begins; one that is
/// not stays pending.
pub proof fn lemma_probe_wakes(
    schedule: Schedule,
    regs: Seq<Registration>,
    res: i32,
    revents: Seq<i16>,
    token: Token,
)
    requires
        schedule.wf(),
        schedule.waiting(token),
    ensures
        ({
            let answered = res > 0 && exists|i: int|
                0 <= i < regs.len() && (#[trigger] regs[i]).token == token && satisfied(
                    regs[i].events,
                    reported(revents, i),
                );
            let after = schedule.woken(probe_ready(regs, res, revents)).begin_tick();
            &&& answered ==> after.owed(token)
            &&& !answered ==> after.waiting(token)
        }),
{
    let ready = probe_ready(regs, res, revents);
    lemma_ready_tokens(regs, revents, token);
    schedule.lemma_waiting_until_woken(token, token, Status::Suspended, ready);
    schedule.lemma_transitions_keep_wf(token, Status::Suspended, ready);
    let woken = schedule.woken(ready);
    if ready.contains(token) {
        woken.lemma_tick_owes_runnable(token);
    } else {
        woken.lemma_waiting_until_woken(token, token, Status::Suspended, ready);
    }
}

} // verus!
