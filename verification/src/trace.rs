//! Runs of the scheduler: what holds after any sequence of events, not only
//! after one.

use vstd::prelude::*;
use crate::reactor::Token;
use crate::schedule::{Action, Schedule, Status};

verus! {

/// One thing that happens to a schedule.
pub enum Event {
    /// A task was spawned.
    Spawn,
    /// A run to completion began: its root was spawned and a tick opened.
    Begin,
    /// The scheduler was asked for the next action.
    Advance,
    /// The resumption of a task was reported.
    Report(Token, Status),
    /// The answer of a probe made these tokens ready, and the next tick began.
    Probe(Seq<Token>),
}

/// The number of times that the scheduler was asked for the next action.
pub open spec fn advances(events: Seq<Event>) -> nat
    decreases events.len(),
{
    if events.len() == 0 {
        0
    } else {
        advances(events.drop_last()) + if events.last() is Advance {
            1nat
        } else {
            0nat
        }
    }
}

/// Some token other than `token`.
spec fn another(token: Token) -> Token {
    if token.0 == 0 {
        Token(1)
    } else {
        Token(0)
    }
}

impl Schedule {
    /// The state after one event.
    pub open spec fn after(self, event: Event) -> Schedule {
        match event {
            Event::Spawn => self.spawn(),
            Event::Begin => self.spawn().begin_tick(),
            Event::Advance => self.advanced(),
            Event::Report(token, status) => self.resumed(token, status),
            Event::Probe(ready) => self.woken(ready).begin_tick(),
        }
    }

    /// The state after a sequence of events.
    pub open spec fn run(self, events: Seq<Event>) -> Schedule
        decreases events.len(),
    {
        if events.len() == 0 {
            self
        } else {
            self.run(events.drop_last()).after(events.last())
        }
    }

    /// The state in which the event at `k` happens.
    pub open spec fn before(self, events: Seq<Event>, k: int) -> Schedule {
        self.run(events.take(k))
    }

    /// The events can happen: no task is spawned when the tokens have run out.
    pub open spec fn admits(self, events: Seq<Event>) -> bool {
        forall|k: int|
            0 <= k < events.len() && ((#[trigger] events[k]) is Spawn || events[k] is Begin)
                ==> self.before(events, k).next_token < usize::MAX
    }

    /// The completion of `token` was reported at a time when the token had
    /// been handed out.
    pub open spec fn completion_reported(self, events: Seq<Event>, token: Token) -> bool {
        exists|k: int|
            0 <= k < events.len() && (#[trigger] events[k]) == Event::Report(
                token,
                Status::Completed,
            ) && token.0 < self.before(events, k).next_token
    }

    /// What is known of the prefixes of a run is known of the run without its
    /// last event.
    pub proof fn lemma_prefix(self, events: Seq<Event>)
        requires
            events.len() > 0,
        ensures
            self.before(events, events.len() - 1) == self.run(events.drop_last()),
            forall|k: int|
                0 <= k < events.len() - 1 ==> #[trigger] self.before(events, k) == self.before(
                    events.drop_last(),
                    k,
                ),
            forall|k: int|
                0 <= k < events.len() - 1 ==> (#[trigger] events.drop_last()[k]) == events[k],
            self.admits(events) ==> self.admits(events.drop_last()),
    {
        let init = events.drop_last();
        assert(events.take(events.len() - 1) == init);
        assert forall|k: int| 0 <= k < events.len() - 1 implies #[trigger] self.before(events, k)
            == self.before(init, k) by {
            assert(events.take(k) == init.take(k));
        }
        if self.admits(events) {
            assert forall|k: int|
                0 <= k < init.len() && ((#[trigger] init[k]) is Spawn || init[k] is Begin)
                implies self.before(init, k).next_token < usize::MAX by {
                assert(events[k] == init[k]);
                assert(self.before(events, k) == self.before(init, k));
            }
        }
    }

    /// Every state of a run that starts well-formed is well-formed.
    pub proof fn lemma_run_wf(self, events: Seq<Event>)
        requires
            self.wf(),
            self.admits(events),
        ensures
            self.run(events).wf(),
            self.next_token <= self.run(events).next_token,
        decreases events.len(),
    {
        if events.len() > 0 {
            let init = events.drop_last();
            self.lemma_prefix(events);
            self.lemma_run_wf(init);
            let mid = self.run(init);
            assert(events[events.len() - 1] == events.last());
            match events.last() {
                Event::Spawn => {
                    mid.lemma_transitions_keep_wf(Token(0), Status::Completed, Seq::empty());
                },
                Event::Begin => {
                    mid.lemma_transitions_keep_wf(Token(0), Status::Completed, Seq::empty());
                    mid.spawn().lemma_transitions_keep_wf(
                        Token(0),
                        Status::Completed,
                        Seq::empty(),
                    );
                },
                Event::Advance => {
                    mid.lemma_transitions_keep_wf(Token(0), Status::Completed, Seq::empty());
                },
                Event::Report(token, status) => {
                    mid.lemma_transitions_keep_wf(token, status, Seq::empty());
                },
                Event::Probe(ready) => {
                    mid.lemma_transitions_keep_wf(Token(0), Status::Completed, ready);
                    mid.woken(ready).lemma_transitions_keep_wf(
                        Token(0),
                        Status::Completed,
                        Seq::empty(),
                    );
                },
            }
        }
    }

    /// Whether a task is alive depends on the tokens of the list alone, and
    /// these change only by a spawn and by the report of a completion.
    pub proof fn lemma_alive_after(self, event: Event, token: Token)
        requires
            self.wf(),
            (event is Spawn || event is Begin) ==> self.next_token < usize::MAX,
        ensures
            self.after(event).holds(token) <==> match event {
                Event::Spawn | Event::Begin => self.holds(token) || token.0 == self.next_token,
                Event::Report(gone, Status::Completed) => self.holds(token) && gone != token,
                _ => self.holds(token),
            },
    {
        let next = self.after(event);
        if self.holds(token) {
            let gone = match event {
                Event::Report(gone, _) => gone,
                _ => Token(0),
            };
            let status = match event {
                Event::Report(_, status) => status,
                _ => Status::Suspended,
            };
            let ready = match event {
                Event::Probe(ready) => ready,
                _ => Seq::empty(),
            };
            self.lemma_only_completion_retires(token, gone, status, ready);
            self.lemma_transitions_keep_wf(gone, status, ready);
            self.woken(ready).lemma_only_completion_retires(token, gone, status, ready);
            if self.next_token < usize::MAX {
                self.spawn().lemma_only_completion_retires(token, gone, status, ready);
            }
        }
        if next.holds(token) {
            let j = next.index_of(token);
            match event {
                Event::Spawn | Event::Begin => {
                    if j < self.tasks.len() {
                        assert(self.tasks[j].token == token);
                    }
                },
                Event::Advance => {
                    assert(self.tasks[j].token == token);
                },
                Event::Report(gone, Status::Suspended) => {
                    assert(self.tasks[j].token == token);
                },
                Event::Report(gone, Status::Completed) => {
                    if self.holds(gone) {
                        let i = self.index_of(gone);
                        let j0 = if j < i { j } else { j + 1 };
                        assert(self.tasks[j0].token == token);
                    }
                },
                Event::Probe(ready) => {
                    assert(self.tasks[j].token == token);
                },
            }
        }
        if (event is Spawn || event is Begin) && token.0 == self.next_token {
            assert(next.tasks[self.tasks.len() as int].token == token);
        }
    }

    /// In every run from the start, a task is alive exactly when its token was
    /// handed out and its completion has not been reported since. So when the
    /// scheduler says that the run is over, every computation that was ever
    /// spawned has completed.
    pub proof fn lemma_alive_until_completed(events: Seq<Event>, token: Token)
        requires
            Schedule::initial().admits(events),
        ensures
            ({
                let start = Schedule::initial();
                let end = start.run(events);
                &&& end.wf()
                &&& start.completion_reported(events, token) ==> token.0 < end.next_token
                &&& end.holds(token) <==> token.0 < end.next_token && !start.completion_reported(
                    events,
                    token,
                )
                &&& end.next_action() is Finished && token.0 < end.next_token
                    ==> start.completion_reported(events, token)
            }),
        decreases events.len(),
    {
        let start = Schedule::initial();
        let end = start.run(events);
        start.lemma_run_wf(events);
        if events.len() > 0 {
            let init = events.drop_last();
            let last = events.last();
            let mid = start.run(init);
            start.lemma_prefix(events);
            start.lemma_run_wf(init);
            Schedule::lemma_alive_until_completed(init, token);
            assert(events[events.len() - 1] == last);
            let now = last == Event::Report(token, Status::Completed) && token.0
                < mid.next_token;
            assert(start.completion_reported(events, token) <==> start.completion_reported(
                init,
                token,
            ) || now) by {
                if start.completion_reported(init, token) {
                    let k = choose|k: int|
                        0 <= k < init.len() && (#[trigger] init[k]) == Event::Report(
                            token,
                            Status::Completed,
                        ) && token.0 < start.before(init, k).next_token;
                    assert(events[k] == init[k]);
                    assert(start.before(events, k) == start.before(init, k));
                }
                if start.completion_reported(events, token) {
                    let k = choose|k: int|
                        0 <= k < events.len() && (#[trigger] events[k]) == Event::Report(
                            token,
                            Status::Completed,
                        ) && token.0 < start.before(events, k).next_token;
                    if k < events.len() - 1 {
                        assert(init[k] == events[k]);
                        assert(start.before(events, k) == start.before(init, k));
                    }
                }
            }
            mid.lemma_alive_after(last, token);
            if mid.holds(token) {
                assert(mid.tasks[mid.index_of(token)].token.0 < mid.next_token);
            }
        }
        end.lemma_finished_iff_drained();
    }

    /// A task that is owed a resumption gets it before the scheduler probes or
    /// finishes. As long as the task has not been resumed, it stays owed,
    /// whatever else happens, and every action resumes another task; within
    /// one tick there are no more such actions than tasks stood between the
    /// visit and the task.
    pub proof fn lemma_owed_until_resumed_run(self, events: Seq<Event>, token: Token)
        requires
            self.wf(),
            self.owed(token),
            self.admits(events),
            forall|k: int|
                0 <= k < events.len() ==> ((#[trigger] events[k]) matches Event::Report(other, _)
                    ==> other != token),
            forall|k: int|
                0 <= k < events.len() && (#[trigger] events[k]) is Advance ==> self.before(
                    events,
                    k,
                ).next_action() != Action::Resume(token),
        ensures
            self.run(events).owed(token),
            forall|k: int|
                0 <= k < events.len() && (#[trigger] events[k]) is Advance ==> self.before(
                    events,
                    k,
                ).next_action() is Resume,
            (forall|k: int|
                0 <= k < events.len() ==> !((#[trigger] events[k]) is Probe) && !(events[k]
                    is Begin)) ==> 0 <= self.run(events).ahead(token) && advances(events)
                + self.run(events).ahead(token) <= self.ahead(token),
        decreases events.len(),
    {
        if events.len() > 0 {
            let init = events.drop_last();
            let last = events.last();
            let mid = self.run(init);
            self.lemma_prefix(events);
            self.lemma_run_wf(init);
            assert forall|k: int| 0 <= k < init.len() implies ((#[trigger] init[k]) matches Event::Report(
                other,
                _,
            ) ==> other != token) && (init[k] is Advance ==> self.before(init, k).next_action()
                != Action::Resume(token)) by {
                assert(events[k] == init[k]);
                assert(self.before(events, k) == self.before(init, k));
            }
            self.lemma_owed_until_resumed_run(init, token);
            assert(events[events.len() - 1] == last);
            let other = match last {
                Event::Report(other, _) => other,
                _ => another(token),
            };
            let status = match last {
                Event::Report(_, status) => status,
                _ => Status::Suspended,
            };
            let ready = match last {
                Event::Probe(ready) => ready,
                _ => Seq::empty(),
            };
            mid.lemma_owed_is_resumed(token);
            mid.lemma_owed_until_resumed(token, other, status, ready);
            mid.lemma_transitions_keep_wf(other, status, ready);
            match last {
                Event::Begin => {
                    mid.spawn().lemma_owed_until_resumed(token, other, status, ready);
                    mid.spawn().lemma_owed_is_resumed(token);
                    let i = choose|i: int|
                        mid.spawn().cursor <= i < mid.spawn().tasks.len() && (
                        #[trigger] mid.spawn().tasks[i]).token == token
                            && !mid.spawn().tasks[i].pending;
                    assert(mid.spawn().begin_tick().tasks[i] == mid.spawn().tasks[i]);
                },
                Event::Probe(_) => {
                    let woken = mid.woken(ready);
                    let i = choose|i: int|
                        woken.cursor <= i < woken.tasks.len() && (#[trigger] woken.tasks[i]).token
                            == token && !woken.tasks[i].pending;
                    assert(woken.begin_tick().tasks[i] == woken.tasks[i]);
                },
                _ => {},
            }
            assert forall|k: int|
                0 <= k < events.len() && (#[trigger] events[k]) is Advance implies self.before(
                events,
                k,
            ).next_action() is Resume by {
                if k < events.len() - 1 {
                    assert(events[k] == init[k]);
                    assert(self.before(events, k) == self.before(init, k));
                }
            }
            if forall|k: int|
                0 <= k < events.len() ==> !((#[trigger] events[k]) is Probe) && !(events[k]
                    is Begin) {
                assert forall|k: int| 0 <= k < init.len() implies !((#[trigger] init[k]) is Probe)
                    && !(init[k] is Begin) by {
                    assert(events[k] == init[k]);
                }
            }
        }
    }

    /// A pending task is not resumed in any run, however long, until the
    /// answer of a probe makes its token ready.
    pub proof fn lemma_waiting_until_woken_run(self, events: Seq<Event>, token: Token)
        requires
            self.wf(),
            self.waiting(token),
            self.admits(events),
            forall|k: int|
                0 <= k < events.len() ==> ((#[trigger] events[k]) matches Event::Report(other, _)
                    ==> other != token),
            forall|k: int|
                0 <= k < events.len() ==> ((#[trigger] events[k]) matches Event::Probe(ready)
                    ==> !ready.contains(token)),
        ensures
            self.run(events).waiting(token),
            forall|k: int|
                0 <= k < events.len() && (#[trigger] events[k]) is Advance ==> self.before(
                    events,
                    k,
                ).next_action() != Action::Resume(token),
        decreases events.len(),
    {
        if events.len() > 0 {
            let init = events.drop_last();
            let last = events.last();
            let mid = self.run(init);
            self.lemma_prefix(events);
            self.lemma_run_wf(init);
            assert forall|k: int| 0 <= k < init.len() implies ((#[trigger] init[k]) matches Event::Report(
                other,
                _,
            ) ==> other != token) && (init[k] matches Event::Probe(ready) ==> !ready.contains(
                token,
            )) by {
                assert(events[k] == init[k]);
            }
            self.lemma_waiting_until_woken_run(init, token);
            assert(events[events.len() - 1] == last);
            let other = match last {
                Event::Report(other, _) => other,
                _ => another(token),
            };
            let status = match last {
                Event::Report(_, status) => status,
                _ => Status::Suspended,
            };
            let ready = match last {
                Event::Probe(ready) => ready,
                _ => Seq::empty(),
            };
            mid.lemma_waiting_until_woken(token, other, status, ready);
            mid.lemma_transitions_keep_wf(other, status, ready);
            mid.woken(ready).lemma_waiting_until_woken(token, other, status, ready);
            if mid.next_token < usize::MAX {
                mid.spawn().lemma_waiting_until_woken(token, other, status, ready);
            }
            assert forall|k: int|
                0 <= k < events.len() && (#[trigger] events[k]) is Advance implies self.before(
                events,
                k,
            ).next_action() != Action::Resume(token) by {
                if k < events.len() - 1 {
                    assert(events[k] == init[k]);
                    assert(self.before(events, k) == self.before(init, k));
                }
            }
        }
    }

    /// A task that is alive and not pending stays so through any run in which
    /// its own resumption is not reported.
    pub proof fn lemma_runnable_run(self, events: Seq<Event>, token: Token)
        requires
            self.wf(),
            self.runnable(token),
            self.admits(events),
            forall|k: int|
                0 <= k < events.len() ==> ((#[trigger] events[k]) matches Event::Report(other, _)
                    ==> other != token),
        ensures
            self.run(events).runnable(token),
        decreases events.len(),
    {
        if events.len() > 0 {
            let init = events.drop_last();
            let last = events.last();
            let mid = self.run(init);
            self.lemma_prefix(events);
            self.lemma_run_wf(init);
            assert forall|k: int| 0 <= k < init.len() implies ((#[trigger] init[k]) matches Event::Report(
                other,
                _,
            ) ==> other != token) by {
                assert(events[k] == init[k]);
            }
            self.lemma_runnable_run(init, token);
            assert(events[events.len() - 1] == last);
            let other = match last {
                Event::Report(other, _) => other,
                _ => another(token),
            };
            let status = match last {
                Event::Report(_, status) => status,
                _ => Status::Suspended,
            };
            let ready = match last {
                Event::Probe(ready) => ready,
                _ => Seq::empty(),
            };
            mid.lemma_runnable_until_resumed(token, other, status, ready);
            mid.lemma_transitions_keep_wf(other, status, ready);
            mid.woken(ready).lemma_runnable_until_resumed(token, other, status, ready);
            if mid.next_token < usize::MAX {
                mid.spawn().lemma_runnable_until_resumed(token, other, status, ready);
            }
        }
    }

    /// A task spawned at any time is never dropped and is resumed before the
    /// scheduler next probes or finishes: from the spawn on, as long as the
    /// task has not been resumed, it is owed a resumption and every action
    /// resumes another task. Within the tick of the spawn, no more tasks are
    /// resumed first than the visit had still to pass.
    pub proof fn lemma_spawned_is_resumed(self, events: Seq<Event>)
        requires
            self.wf(),
            self.next_token < usize::MAX,
            self.spawn().admits(events),
            forall|k: int|
                0 <= k < events.len() ==> ((#[trigger] events[k]) matches Event::Report(other, _)
                    ==> other != Token(self.next_token as usize)),
            forall|k: int|
                0 <= k < events.len() && (#[trigger] events[k]) is Advance ==> self.spawn().before(
                    events,
                    k,
                ).next_action() != Action::Resume(Token(self.next_token as usize)),
        ensures
            self.spawn().run(events).owed(Token(self.next_token as usize)),
            forall|k: int|
                0 <= k < events.len() && (#[trigger] events[k]) is Advance ==> self.spawn().before(
                    events,
                    k,
                ).next_action() is Resume,
            (forall|k: int|
                0 <= k < events.len() ==> !((#[trigger] events[k]) is Probe) && !(events[k]
                    is Begin)) ==> advances(events) <= self.tasks.len() - self.cursor,
    {
        let token = Token(self.next_token as usize);
        let spawned = self.spawn();
        self.lemma_spawned_is_owed();
        self.lemma_transitions_keep_wf(token, Status::Suspended, Seq::empty());
        assert(spawned.tasks[self.tasks.len() as int].token == token);
        assert(spawned.index_of(token) == self.tasks.len());
        spawned.lemma_owed_until_resumed_run(events, token);
    }

    /// Every resumption is reported at once: an action that resumes a task is
    /// followed, if by anything, by the report of that task.
    pub open spec fn reports_follow(self, events: Seq<Event>) -> bool {
        forall|k: int|
            0 <= k < events.len() - 1 && (#[trigger] events[k]) is Advance && self.before(
                events,
                k,
            ).next_action() is Resume ==> (events[k + 1] matches Event::Report(token, _)
                && Action::Resume(token) == self.before(events, k).next_action())
    }

    /// What is known of a run is known of each of its beginnings.
    pub proof fn lemma_beginning(self, events: Seq<Event>, n: int)
        requires
            0 <= n <= events.len(),
        ensures
            forall|k: int|
                0 <= k <= n ==> #[trigger] self.before(events.take(n), k) == self.before(events, k),
            self.admits(events) ==> self.admits(events.take(n)),
            self.reports_follow(events) ==> self.reports_follow(events.take(n)),
    {
        let start = events.take(n);
        assert forall|k: int| 0 <= k <= n implies #[trigger] self.before(start, k) == self.before(
            events,
            k,
        ) by {
            assert(start.take(k) == events.take(k));
        }
        if self.admits(events) {
            assert forall|k: int|
                0 <= k < start.len() && ((#[trigger] start[k]) is Spawn || start[k] is Begin)
                implies self.before(start, k).next_token < usize::MAX by {
                assert(events[k] == start[k]);
                assert(self.before(start, k) == self.before(events, k));
            }
        }
        if self.reports_follow(events) {
            assert forall|k: int|
                0 <= k < start.len() - 1 && (#[trigger] start[k]) is Advance && self.before(
                    start,
                    k,
                ).next_action() is Resume implies (start[k + 1] matches Event::Report(token, _)
                && Action::Resume(token) == self.before(start, k).next_action()) by {
                assert(events[k] == start[k]);
                assert(events[k + 1] == start[k + 1]);
                assert(self.before(start, k) == self.before(events, k));
            }
        }
    }

    /// Where every resumption is reported at once, a run leaves the visit
    /// settled, but for the task of a resumption that is the run's last event.
    pub proof fn lemma_settled_run(self, events: Seq<Event>)
        requires
            self.wf(),
            self.settled(),
            self.admits(events),
            self.reports_follow(events),
        ensures
            self.run(events).wf(),
            events.len() > 0 && events.last() is Advance && self.run(
                events.drop_last(),
            ).next_action() is Resume ==> self.run(events).settled_but(
                self.run(events.drop_last()).next_action()->Resume_0,
            ),
            !(events.len() > 0 && events.last() is Advance && self.run(
                events.drop_last(),
            ).next_action() is Resume) ==> self.run(events).settled(),
        decreases events.len(),
    {
        self.lemma_run_wf(events);
        if events.len() > 0 {
            let init = events.drop_last();
            let last = events.last();
            let mid = self.run(init);
            let n = events.len() - 1;
            self.lemma_prefix(events);
            self.lemma_beginning(events, n);
            assert(events.take(n) == init);
            self.lemma_run_wf(init);
            self.lemma_settled_run(init);
            assert(events[n] == last);
            if init.len() > 0 && init.last() is Advance && self.run(
                init.drop_last(),
            ).next_action() is Resume {
                let token = self.run(init.drop_last()).next_action()->Resume_0;
                assert(events[n - 1] == init.last());
                assert(init.take(n - 1) == init.drop_last());
                assert(self.before(events, n - 1) == self.run(init.drop_last()));
                match last {
                    Event::Report(reported, status) => {
                        assert(reported == token);
                        mid.lemma_report_settles(token, status);
                    },
                    _ => {},
                }
            } else {
                let other = match last {
                    Event::Report(other, _) => other,
                    _ => Token(0),
                };
                let status = match last {
                    Event::Report(_, status) => status,
                    _ => Status::Suspended,
                };
                let ready = match last {
                    Event::Probe(ready) => ready,
                    _ => Seq::empty(),
                };
                mid.lemma_settled_kept(other, status, ready);
                mid.lemma_transitions_keep_wf(other, status, ready);
                if mid.next_token < usize::MAX {
                    mid.spawn().lemma_settled_kept(other, status, ready);
                }
                if mid.next_action() is Resume {
                    mid.lemma_settled_by_report(status);
                }
            }
        }
    }

    /// Where every resumption is reported at once, the scheduler asks for a
    /// probe only when no task can run: whenever it says `Probe`, tasks remain
    /// and every one of them is pending.
    pub proof fn lemma_probes_only_when_none_runnable(self, events: Seq<Event>, k: int)
        requires
            self.wf(),
            self.settled(),
            self.admits(events),
            self.reports_follow(events),
            0 <= k < events.len(),
            events[k] is Advance,
            self.before(events, k).next_action() is Probe,
        ensures
            self.before(events, k).tasks.len() > 0,
            forall|i: int|
                0 <= i < self.before(events, k).tasks.len() ==> (#[trigger] self.before(
                    events,
                    k,
                ).tasks[i]).pending,
    {
        let start = events.take(k);
        self.lemma_beginning(events, k);
        self.lemma_settled_run(start);
        let now = self.run(start);
        if k > 0 && start.last() is Advance && self.run(start.drop_last()).next_action()
            is Resume {
            assert(start.last() == events[k - 1]);
            assert(start.drop_last() == events.take(k - 1));
            assert(self.before(events, k - 1) == self.run(start.drop_last()));
        }
        now.lemma_probe_when_none_runnable(Token(0));
    }
}

} // verus!
