//! Non-blocking socket operations: when an attempt completes, and when it
//! suspends on a registration.
//!
//! The sockets themselves stay with the caller, who makes each attempt and
//! reports how it went. A listener or a stream is known here by its
//! descriptor alone.

use vstd::prelude::*;
use crate::executor::Executor;
use crate::reactor::{
    count, lemma_register_counts, lemma_register_then_unregister, lemma_unregister_counts, without,
    Registration, Token,
};
use crate::{register, ReactorHandle};

verus! {

/// How one non-blocking attempt on a socket went.
#[derive(Debug, PartialEq, Eq)]
pub enum Attempt<T, E> {
    /// It succeeded, with this result.
    Done(T),
    /// The socket is not ready: the attempt would have blocked.
    WouldBlock,
    /// It failed for another reason.
    Failed(E),
}

/// `std::io::Error`, the error type of the standard library's I/O calls. A
/// value of it is carried through as it is; nothing here looks inside.
#[verifier::external_type_specification]
#[verifier::external_body]
pub struct ExIoError(std::io::Error);

/// Whether `std::io::Error::kind` gives `std::io::ErrorKind::WouldBlock` for
/// this error.
pub uninterp spec fn is_would_block(error: std::io::Error) -> bool;

/// Asks `std::io::Error::kind` for the error's kind and says whether it is
/// `ErrorKind::WouldBlock`. The kind belongs to the error value, so the answer
/// is the same whenever the same error is asked; which errors are of that kind
/// is not claimed.
#[verifier::external_body]
fn would_block(error: &std::io::Error) -> (yes: bool)
    ensures
        yes == is_would_block(*error),
{
    match error.kind() {
        std::io::ErrorKind::WouldBlock => true,
        _ => false,
    }
}

/// How the result of a non-blocking call reads as an attempt: "would block"
/// is the signal to suspend and never an error.
pub open spec fn attempt_of<T>(result: Result<T, std::io::Error>) -> Attempt<T, std::io::Error> {
    match result {
        Ok(value) => Attempt::Done(value),
        Err(error) => if is_would_block(error) {
            Attempt::WouldBlock
        } else {
            Attempt::Failed(error)
        },
    }
}

impl<T> Attempt<T, std::io::Error> {
    /// Reads the result of a non-blocking call of the standard library.
    pub fn from_io(result: Result<T, std::io::Error>) -> (attempt: Self)
        ensures
            attempt == attempt_of(result),
    {
        match result {
            Ok(value) => Attempt::Done(value),
            Err(error) => {
                if would_block(&error) {
                    Attempt::WouldBlock
                } else {
                    Attempt::Failed(error)
                }
            },
        }
    }
}

/// What an operation has come to after an attempt.
#[derive(Debug, PartialEq, Eq)]
pub enum Progress<T, E> {
    /// It is over, with this result.
    Ready(Result<T, E>),
    /// It waits for its descriptor to become ready.
    Pending,
}

/// The event mask by which the multiplexing call reports, and is asked for,
/// data to read: `libc::POLLIN`. The constant differs between targets; on each
/// of them it is a non-empty mask, and no more is claimed here.
#[verifier::external_body]
fn readable_events() -> (mask: i16)
    ensures
        mask != 0,
{
    libc::POLLIN
}

/// The event mask by which the multiplexing call reports, and is asked for,
/// room to write: `libc::POLLOUT`. The constant differs between targets; on
/// each of them it is a non-empty mask, and no more is claimed here.
#[verifier::external_body]
fn writable_events() -> (mask: i16)
    ensures
        mask != 0,
{
    libc::POLLOUT
}

/// The registrations that are left when an operation registered under
/// `registered`, if under any token, gives its registration up.
pub open spec fn released(regs: Seq<Registration>, registered: Option<Token>) -> Seq<Registration> {
    match registered {
        Some(token) => without(regs, token),
        None => regs,
    }
}

/// What can happen to an operation.
pub enum OpEvent {
    /// An attempt made for the task of this token would have blocked.
    Blocked(Token),
    /// An attempt succeeded or failed: the operation is over.
    Ended,
    /// The operation was given up.
    Released,
}

/// An operation as a mathematical value.
pub struct OpState {
    /// The descriptor that the operation works on.
    pub fd: i32,
    /// The event mask that the operation waits for when it suspends.
    pub events: i16,
    /// The token under which the operation stands registered, if it does.
    pub registered: Option<Token>,
}

impl OpState {
    /// Whether the event makes the operation register: it is blocked and has
    /// no registration yet.
    pub open spec fn registers(self, event: OpEvent) -> bool {
        event is Blocked && self.registered is None
    }

    /// Whether the event makes the operation unregister: it ends or is given
    /// up while it has a registration.
    pub open spec fn unregisters(self, event: OpEvent) -> bool {
        !(event is Blocked) && self.registered is Some
    }

    /// The operation after an event.
    pub open spec fn after(self, event: OpEvent) -> OpState {
        match event {
            OpEvent::Blocked(token) => if self.registered is None {
                OpState { registered: Some(token), ..self }
            } else {
                self
            },
            _ => OpState { registered: None, ..self },
        }
    }

    /// The registration table after an event of the operation: one entry more
    /// where the operation registers, the entries of its token gone where it
    /// unregisters, and else unchanged.
    pub open spec fn table_after(self, regs: Seq<Registration>, event: OpEvent) -> Seq<
        Registration,
    > {
        match event {
            OpEvent::Blocked(token) => if self.registered is None {
                regs.push(Registration { token, fd: self.fd, events: self.events })
            } else {
                regs
            },
            _ => released(regs, self.registered),
        }
    }

    /// The operation after a sequence of events.
    pub open spec fn run(self, events: Seq<OpEvent>) -> OpState
        decreases events.len(),
    {
        if events.len() == 0 {
            self
        } else {
            self.run(events.drop_last()).after(events.last())
        }
    }

    /// How often the operation registers under `token` in a sequence of
    /// events.
    pub open spec fn register_calls(self, events: Seq<OpEvent>, token: Token) -> nat
        decreases events.len(),
    {
        if events.len() == 0 {
            0
        } else {
            let earlier = self.register_calls(events.drop_last(), token);
            if events.last() == OpEvent::Blocked(token) && self.run(events.drop_last()).registers(
                events.last(),
            ) {
                earlier + 1
            } else {
                earlier
            }
        }
    }

    /// How often the operation unregisters `token` in a sequence of events.
    pub open spec fn unregister_calls(self, events: Seq<OpEvent>, token: Token) -> nat
        decreases events.len(),
    {
        if events.len() == 0 {
            0
        } else {
            let earlier = self.unregister_calls(events.drop_last(), token);
            let before = self.run(events.drop_last());
            if before.registered == Some(token) && before.unregisters(events.last()) {
                earlier + 1
            } else {
                earlier
            }
        }
    }

    /// Whatever happens to an operation that starts without a registration,
    /// it has registered under each token as often as it has unregistered it,
    /// or once more while it stands registered under that token. Once it has
    /// ended or was given up, the two numbers are equal: no registration is
    /// leaked.
    pub proof fn lemma_calls_balance(self, events: Seq<OpEvent>, token: Token)
        requires
            self.registered is None,
        ensures
            self.register_calls(events, token) == self.unregister_calls(events, token) + if self.run(
                events,
            ).registered == Some(token) {
                1nat
            } else {
                0nat
            },
            events.len() > 0 && !(events.last() is Blocked) ==> self.register_calls(events, token)
                == self.unregister_calls(events, token),
            self.run(events).fd == self.fd,
            self.run(events).events == self.events,
        decreases events.len(),
    {
        if events.len() > 0 {
            self.lemma_calls_balance(events.drop_last(), token);
        }
    }
}

/// How the outcome of an attempt made for the task `token` bears on the
/// operation.
pub open spec fn event_of<T, E>(token: Token, attempt: Attempt<T, E>) -> OpEvent {
    match attempt {
        Attempt::WouldBlock => OpEvent::Blocked(token),
        _ => OpEvent::Ended,
    }
}

/// What the operation has come to after an attempt: a success or a failure
/// ends it with that result, and an attempt that would have blocked leaves it
/// pending.
pub open spec fn progress_of<T, E>(attempt: Attempt<T, E>) -> Progress<T, E> {
    match attempt {
        Attempt::Done(value) => Progress::Ready(Ok(value)),
        Attempt::Failed(error) => Progress::Ready(Err(error)),
        Attempt::WouldBlock => Progress::Pending,
    }
}

/// One accept, read or write in flight on a non-blocking socket.
pub struct SocketOp {
    fd: i32,
    events: i16,
    handle: Option<ReactorHandle>,
}

impl View for SocketOp {
    type V = OpState;

    closed spec fn view(&self) -> OpState {
        OpState {
            fd: self.fd,
            events: self.events,
            registered: match self.handle {
                Some(handle) => Some(handle@),
                None => None,
            },
        }
    }
}

impl SocketOp {
    /// An operation on `fd` that waits for `events`, not yet registered.
    pub fn new(fd: i32, events: i16) -> (op: SocketOp)
        ensures
            op@ == (OpState { fd, events, registered: None }),
    {
        SocketOp { fd, events, handle: None }
    }

    /// The descriptor that the operation works on.
    pub fn fd(&self) -> (fd: i32)
        ensures
            fd == self@.fd,
    {
        self.fd
    }

    /// The event mask that the operation waits for when it suspends.
    pub fn events(&self) -> (events: i16)
        ensures
            events == self@.events,
    {
        self.events
    }

    /// The token under which the operation stands registered, if it does.
    pub fn registered(&self) -> (registered: Option<Token>)
        ensures
            registered == self@.registered,
    {
        match &self.handle {
            Some(handle) => Some(handle.token()),
            None => None,
        }
    }

    /// Takes the outcome of one attempt made on behalf of the task `token`.
    ///
    /// A success or a failure ends the operation with that result, and any
    /// registration of the operation is given up. An attempt that would have
    /// blocked suspends the operation: the first time, it registers its
    /// descriptor and mask under `token`; later it keeps that registration.
    /// The schedule is untouched.
    pub fn poll<T, E>(
        &mut self,
        executor: &mut Executor,
        token: Token,
        attempt: Attempt<T, E>,
    ) -> (progress: Progress<T, E>)
        ensures
            progress == progress_of(attempt),
            final(self)@ == old(self)@.after(event_of(token, attempt)),
            final(executor).registrations() == old(self)@.table_after(
                old(executor).registrations(),
                event_of(token, attempt),
            ),
            final(executor)@ == old(executor)@,
    {
        match attempt {
            Attempt::Done(value) => {
                self.release(executor);
                Progress::Ready(Ok(value))
            },
            Attempt::Failed(error) => {
                self.release(executor);
                Progress::Ready(Err(error))
            },
            Attempt::WouldBlock => {
                if self.handle.is_none() {
                    self.handle = Some(register(executor, token, self.fd, self.events));
                }
                Progress::Pending
            },
        }
    }

    /// Gives up the operation's registration, if it has one: the way out for
    /// an operation that is abandoned while suspended. The schedule is
    /// untouched.
    pub fn release(&mut self, executor: &mut Executor)
        ensures
            final(self)@ == old(self)@.after(OpEvent::Released),
            final(executor).registrations() == old(self)@.table_after(
                old(executor).registrations(),
                OpEvent::Released,
            ),
            final(executor)@ == old(executor)@,
    {
        match self.handle.take() {
            Some(handle) => {
                handle.release(executor);
            },
            None => {},
        }
    }
}

/// A listening socket in non-blocking mode, known by its descriptor and by
/// the event mask that stands for a connection to accept.
pub struct TcpListener {
    fd: i32,
    readable: i16,
}

impl TcpListener {
    /// What `fd` returns.
    pub closed spec fn spec_fd(&self) -> i32 {
        self.fd
    }

    /// What `readable` returns.
    pub closed spec fn spec_readable(&self) -> i16 {
        self.readable
    }

    /// The descriptor of the listening socket.
    #[verifier::when_used_as_spec(spec_fd)]
    pub fn fd(&self) -> (fd: i32)
        ensures
            fd == self.fd(),
    {
        self.fd
    }

    /// The event mask that the listener's operations wait for.
    #[verifier::when_used_as_spec(spec_readable)]
    pub fn readable(&self) -> (mask: i16)
        ensures
            mask == self.readable(),
    {
        self.readable
    }

    /// The listener on the descriptor `fd`, with the platform's mask for
    /// readable data.
    pub fn new(fd: i32) -> (listener: TcpListener)
        ensures
            listener.fd() == fd,
            listener.readable() != 0,
    {
        TcpListener::with_events(fd, readable_events())
    }

    /// The listener on the descriptor `fd` that waits for `readable`.
    pub fn with_events(fd: i32, readable: i16) -> (listener: TcpListener)
        ensures
            listener.fd() == fd,
            listener.readable() == readable,
    {
        TcpListener { fd, readable }
    }

    /// An accept on the listening descriptor. When it suspends, it waits for
    /// the descriptor to become readable.
    pub fn accept(&self) -> (op: SocketOp)
        ensures
            op@ == (OpState { fd: self.fd(), events: self.readable(), registered: None }),
    {
        SocketOp::new(self.fd, self.readable)
    }
}

/// A connected socket in non-blocking mode, known by its descriptor and by the
/// event masks that stand for data to read and for room to write.
pub struct TcpStream {
    fd: i32,
    readable: i16,
    writable: i16,
}

impl TcpStream {
    /// What `fd` returns.
    pub closed spec fn spec_fd(&self) -> i32 {
        self.fd
    }

    /// What `readable` returns.
    pub closed spec fn spec_readable(&self) -> i16 {
        self.readable
    }

    /// What `writable` returns.
    pub closed spec fn spec_writable(&self) -> i16 {
        self.writable
    }

    /// The descriptor of the connected socket.
    #[verifier::when_used_as_spec(spec_fd)]
    pub fn fd(&self) -> (fd: i32)
        ensures
            fd == self.fd(),
    {
        self.fd
    }

    /// The event mask that the stream's reads wait for.
    #[verifier::when_used_as_spec(spec_readable)]
    pub fn readable(&self) -> (mask: i16)
        ensures
            mask == self.readable(),
    {
        self.readable
    }

    /// The event mask that the stream's writes wait for.
    #[verifier::when_used_as_spec(spec_writable)]
    pub fn writable(&self) -> (mask: i16)
        ensures
            mask == self.writable(),
    {
        self.writable
    }

    /// The stream on the descriptor `fd`, with the platform's masks for
    /// readable data and for room to write.
    pub fn new(fd: i32) -> (stream: TcpStream)
        ensures
            stream.fd() == fd,
            stream.readable() != 0,
            stream.writable() != 0,
    {
        TcpStream::with_events(fd, readable_events(), writable_events())
    }

    /// The stream on the descriptor `fd` whose reads wait for `readable` and
    /// whose writes wait for `writable`.
    pub fn with_events(fd: i32, readable: i16, writable: i16) -> (stream: TcpStream)
        ensures
            stream.fd() == fd,
            stream.readable() == readable,
            stream.writable() == writable,
    {
        TcpStream { fd, readable, writable }
    }

    /// A read from the stream. When it suspends, it waits for the descriptor
    /// to become readable.
    pub fn read(&self) -> (op: SocketOp)
        ensures
            op@ == (OpState { fd: self.fd(), events: self.readable(), registered: None }),
    {
        SocketOp::new(self.fd, self.readable)
    }

    /// A write to the stream. When it suspends, it waits for the descriptor
    /// to become writable.
    pub fn write(&self) -> (op: SocketOp)
        ensures
            op@ == (OpState { fd: self.fd(), events: self.writable(), registered: None }),
    {
        SocketOp::new(self.fd, self.writable)
    }
}

/// The registration that a suspended operation makes is undone when the
/// operation ends or is given up: none is left under its token, every other
/// token has as many as before, and where the token had none before, the table
/// is as the operation found it.
pub proof fn lemma_operation_leaves_nothing(
    regs: Seq<Registration>,
    op: OpState,
    token: Token,
    end: OpEvent,
    other: Token,
)
    requires
        op.registered is None,
        !(end is Blocked),
    ensures
        ({
            let suspended = op.table_after(regs, OpEvent::Blocked(token));
            let ended = op.after(OpEvent::Blocked(token)).table_after(suspended, end);
            &&& count(suspended, token) == count(regs, token) + 1
            &&& count(ended, token) == 0
            &&& other != token ==> count(ended, other) == count(regs, other)
            &&& count(regs, token) == 0 ==> ended == regs
        }),
{
    let reg = Registration { token, fd: op.fd, events: op.events };
    lemma_register_counts(regs, reg, token);
    lemma_register_counts(regs, reg, other);
    lemma_register_then_unregister(regs, reg);
    lemma_unregister_counts(regs.push(reg), token, other);
}

} // verus!
