use azink::executor::Executor;
use azink::net::{Attempt, Progress, SocketOp, TcpListener, TcpStream};
use azink::reactor::{Registration, Token};

fn registrations(executor: &Executor) -> Vec<Registration> {
    executor.reactor().registrations().clone()
}

#[test]
fn a_listener_waits_for_the_platform_readable_mask() {
    let listener = TcpListener::new(3);
    assert_eq!(listener.fd(), 3);
    assert_eq!(listener.readable(), libc::POLLIN);
    assert_ne!(listener.readable(), 0);
}

#[test]
fn a_stream_waits_for_the_platform_masks() {
    let stream = TcpStream::new(4);
    assert_eq!(stream.fd(), 4);
    assert_eq!(stream.readable(), libc::POLLIN);
    assert_eq!(stream.writable(), libc::POLLOUT);
    assert_ne!(stream.readable(), stream.writable());
    assert_ne!(stream.writable(), 0);
}

#[test]
fn masks_can_be_given() {
    let listener = TcpListener::with_events(3, 0x40);
    assert_eq!((listener.fd(), listener.readable()), (3, 0x40));
    let stream = TcpStream::with_events(4, 0x40, 0x100);
    assert_eq!((stream.fd(), stream.readable(), stream.writable()), (4, 0x40, 0x100));
}

#[test]
fn accept_waits_for_readable_on_the_listening_descriptor() {
    let op = TcpListener::with_events(3, 1).accept();
    assert_eq!((op.fd(), op.events(), op.registered()), (3, 1, None));
}

#[test]
fn read_waits_for_readable_and_write_for_writable() {
    let stream = TcpStream::with_events(4, 1, 4);
    let read = stream.read();
    assert_eq!((read.fd(), read.events(), read.registered()), (4, 1, None));
    let write = stream.write();
    assert_eq!((write.fd(), write.events(), write.registered()), (4, 4, None));
}

#[test]
fn an_attempt_that_succeeds_at_once_completes_without_a_registration() {
    let mut executor = Executor::new();
    let token = executor.block_on();
    let mut op = TcpListener::new(3).accept();
    let progress: Progress<(i32, u16), i32> = op.poll(&mut executor, token, Attempt::Done((5, 4040)));
    assert_eq!(progress, Progress::Ready(Ok((5, 4040))));
    assert_eq!(op.registered(), None);
    assert!(registrations(&executor).is_empty());
}

#[test]
fn an_attempt_that_would_block_suspends_on_one_registration() {
    let mut executor = Executor::new();
    let token = executor.block_on();
    let mut op = TcpStream::new(4).read();
    let progress: Progress<usize, i32> = op.poll(&mut executor, token, Attempt::WouldBlock);
    assert_eq!(progress, Progress::Pending);
    assert_eq!(op.registered(), Some(token));
    assert_eq!(
        registrations(&executor),
        vec![Registration { token, fd: 4, events: libc::POLLIN }]
    );
}

#[test]
fn a_write_that_would_block_registers_the_writable_mask() {
    let mut executor = Executor::new();
    let mut op = TcpStream::new(4).write();
    let progress: Progress<usize, i32> = op.poll(&mut executor, Token(8), Attempt::WouldBlock);
    assert_eq!(progress, Progress::Pending);
    assert_eq!(
        registrations(&executor),
        vec![Registration { token: Token(8), fd: 4, events: libc::POLLOUT }]
    );
}

#[test]
fn an_operation_that_blocks_again_keeps_its_one_registration() {
    let mut executor = Executor::new();
    let mut op = SocketOp::new(6, 1);
    for _ in 0..3 {
        let progress: Progress<usize, i32> = op.poll(&mut executor, Token(2), Attempt::WouldBlock);
        assert_eq!(progress, Progress::Pending);
        assert_eq!(op.registered(), Some(Token(2)));
        assert_eq!(
            registrations(&executor),
            vec![Registration { token: Token(2), fd: 6, events: 1 }]
        );
    }
}

#[test]
fn completion_after_a_suspension_gives_the_registration_up() {
    let mut executor = Executor::new();
    executor.register(Token(9), 50, 4);
    let mut op = SocketOp::new(6, 1);
    let first: Progress<usize, i32> = op.poll(&mut executor, Token(2), Attempt::WouldBlock);
    assert_eq!(first, Progress::Pending);
    assert_eq!(executor.reactor().len(), 2);
    let second: Progress<usize, i32> = op.poll(&mut executor, Token(2), Attempt::Done(4));
    assert_eq!(second, Progress::Ready(Ok(4)));
    assert_eq!(op.registered(), None);
    assert_eq!(
        registrations(&executor),
        vec![Registration { token: Token(9), fd: 50, events: 4 }]
    );
}

#[test]
fn a_failure_completes_at_once_with_the_error() {
    let mut executor = Executor::new();
    let mut op = SocketOp::new(6, 1);
    let progress: Progress<usize, i32> = op.poll(&mut executor, Token(2), Attempt::Failed(104));
    assert_eq!(progress, Progress::Ready(Err(104)));
    assert_eq!(op.registered(), None);
    assert!(registrations(&executor).is_empty());
}

#[test]
fn a_failure_after_a_suspension_gives_the_registration_up() {
    let mut executor = Executor::new();
    let mut op = SocketOp::new(6, 1);
    let _: Progress<usize, i32> = op.poll(&mut executor, Token(2), Attempt::WouldBlock);
    let progress: Progress<usize, i32> = op.poll(&mut executor, Token(2), Attempt::Failed(32));
    assert_eq!(progress, Progress::Ready(Err(32)));
    assert_eq!(op.registered(), None);
    assert!(registrations(&executor).is_empty());
}

#[test]
fn a_read_of_zero_bytes_is_a_completion() {
    let mut executor = Executor::new();
    let mut op = TcpStream::new(4).read();
    let progress: Progress<usize, i32> = op.poll(&mut executor, Token(0), Attempt::Done(0));
    assert_eq!(progress, Progress::Ready(Ok(0)));
}

#[test]
fn an_abandoned_operation_releases_its_registration() {
    let mut executor = Executor::new();
    executor.register(Token(9), 50, 4);
    let mut op = SocketOp::new(6, 1);
    let _: Progress<usize, i32> = op.poll(&mut executor, Token(2), Attempt::WouldBlock);
    assert_eq!(executor.reactor().len(), 2);
    op.release(&mut executor);
    assert_eq!(op.registered(), None);
    assert_eq!(
        registrations(&executor),
        vec![Registration { token: Token(9), fd: 50, events: 4 }]
    );
    // A second release finds nothing to give up.
    op.release(&mut executor);
    assert_eq!(executor.reactor().len(), 1);
}

#[test]
fn releasing_an_operation_that_never_suspended_changes_nothing() {
    let mut executor = Executor::new();
    executor.register(Token(2), 50, 4);
    let mut op = SocketOp::new(6, 1);
    op.release(&mut executor);
    assert_eq!(
        registrations(&executor),
        vec![Registration { token: Token(2), fd: 50, events: 4 }]
    );
}

#[test]
fn a_release_takes_every_registration_of_the_token_along() {
    // Two operations of one task share the token, and so their fate.
    let mut executor = Executor::new();
    let mut read = SocketOp::new(6, 1);
    let mut write = SocketOp::new(7, 4);
    let _: Progress<usize, i32> = read.poll(&mut executor, Token(2), Attempt::WouldBlock);
    let _: Progress<usize, i32> = write.poll(&mut executor, Token(2), Attempt::WouldBlock);
    assert_eq!(executor.reactor().len(), 2);
    read.release(&mut executor);
    assert!(registrations(&executor).is_empty());
    assert_eq!(write.registered(), Some(Token(2)));
}

#[test]
fn the_schedule_is_untouched_by_socket_operations() {
    let mut executor = Executor::new();
    let token = executor.block_on();
    let before = executor.tasks().clone();
    let mut op = SocketOp::new(6, 1);
    let _: Progress<usize, i32> = op.poll(&mut executor, token, Attempt::WouldBlock);
    let _: Progress<usize, i32> = op.poll(&mut executor, token, Attempt::Done(1));
    assert_eq!(executor.tasks(), &before);
}

#[test]
fn a_would_block_error_is_the_signal_to_suspend() {
    let result: std::io::Result<usize> = Err(std::io::Error::from(std::io::ErrorKind::WouldBlock));
    assert!(matches!(Attempt::from_io(result), Attempt::WouldBlock));
}

#[test]
fn any_other_error_is_a_failure_and_is_handed_on() {
    let result: std::io::Result<usize> =
        Err(std::io::Error::from(std::io::ErrorKind::ConnectionReset));
    match Attempt::from_io(result) {
        Attempt::Failed(error) => assert_eq!(error.kind(), std::io::ErrorKind::ConnectionReset),
        other => panic!("not a failure: {:?}", other),
    }
    let result: std::io::Result<usize> = Err(std::io::Error::from_raw_os_error(13));
    match Attempt::from_io(result) {
        Attempt::Failed(error) => assert_eq!(error.raw_os_error(), Some(13)),
        other => panic!("not a failure: {:?}", other),
    }
}

#[test]
fn a_success_is_done_with_its_value() {
    let result: std::io::Result<usize> = Ok(17);
    assert!(matches!(Attempt::from_io(result), Attempt::Done(17)));
}

#[test]
fn an_os_level_would_block_is_recognised() {
    let result: std::io::Result<usize> = Err(std::io::Error::from_raw_os_error(libc::EAGAIN));
    assert!(matches!(Attempt::from_io(result), Attempt::WouldBlock));
}
