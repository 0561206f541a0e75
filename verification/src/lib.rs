//! A single-threaded cooperative runtime core: the scheduling decisions of an
//! executor, the registration table of a readiness reactor, and the suspend
//! rule of non-blocking socket operations.
//!
//! Nothing here blocks or touches a descriptor. The caller resumes the
//! computations and asks the operating system which descriptors are ready; this
//! crate decides what is to happen next and keeps the books.

pub mod executor;
pub mod net;
pub mod reactor;
pub mod schedule;
pub mod trace;

use vstd::prelude::*;
use crate::executor::Executor;
use crate::reactor::{without, Registration, Token};

verus! {

/// Begins a run to completion on `executor`: enqueues the root task and opens
/// the first tick. The caller then follows `Executor::advance` until it says
/// `Finished`.
pub fn block_on(executor: &mut Executor) -> (root: Token)
    requires
        old(executor).wf(),
        old(executor)@.next_token < usize::MAX,
    ensures
        final(executor).wf(),
        final(executor)@ == old(executor)@.spawn().begin_tick(),
        root == Token(old(executor)@.next_token as usize),
        final(executor).registrations() == old(executor).registrations(),
{
    executor.block_on()
}

/// Enqueues a new task on `executor` and returns its token.
pub fn spawn(executor: &mut Executor) -> (token: Token)
    requires
        old(executor).wf(),
        old(executor)@.next_token < usize::MAX,
    ensures
        final(executor).wf(),
        final(executor)@ == old(executor)@.spawn(),
        token == Token(old(executor)@.next_token as usize),
        final(executor).registrations() == old(executor).registrations(),
{
    executor.spawn()
}

/// The claim on the registrations made under one token. Whoever holds it owes
/// one `release`; it cannot be copied, so it is released at most once.
pub struct ReactorHandle(Token);

impl View for ReactorHandle {
    type V = Token;

    closed spec fn view(&self) -> Token {
        self.0
    }
}

impl ReactorHandle {
    /// The token whose registrations the handle stands for.
    pub fn token(&self) -> (token: Token)
        ensures
            token == self@,
    {
        self.0
    }

    /// Gives the handle up: every registration of its token leaves the table.
    pub fn release(self, executor: &mut Executor)
        ensures
            final(executor)@ == old(executor)@,
            final(executor).registrations() == without(old(executor).registrations(), self@),
    {
        executor.unregister(self.0);
    }
}

/// Registers the interest `events` of the task `token` in the descriptor `fd`,
/// and returns the handle by which the registration is released.
pub fn register(executor: &mut Executor, token: Token, fd: i32, events: i16) -> (handle:
    ReactorHandle)
    ensures
        handle@ == token,
        final(executor)@ == old(executor)@,
        final(executor).registrations() == old(executor).registrations().push(
            Registration { token, fd, events },
        ),
{
    executor.register(token, fd, events);
    ReactorHandle(token)
}

/// Removes every registration of the task `token`.
pub fn unregister(executor: &mut Executor, token: Token)
    ensures
        final(executor)@ == old(executor)@,
        final(executor).registrations() == without(old(executor).registrations(), token),
{
    executor.unregister(token);
}

} // verus!
