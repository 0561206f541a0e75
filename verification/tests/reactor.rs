use azink::reactor::{ProbeError, Reactor, Registration, Token, PROBE_TIMEOUT_MS};

fn table(entries: &[(usize, i32, i16)]) -> Reactor {
    let mut reactor = Reactor::new();
    for &(token, fd, events) in entries {
        reactor.register(Token(token), fd, events);
    }
    reactor
}

fn entry(token: usize, fd: i32, events: i16) -> Registration {
    Registration { token: Token(token), fd, events }
}

#[test]
fn new_reactor_is_empty() {
    let reactor = Reactor::new();
    assert_eq!(reactor.len(), 0);
    assert!(reactor.registrations().is_empty());
}

#[test]
fn register_appends_in_order() {
    let reactor = table(&[(2, 10, 1), (0, 11, 4), (2, 12, 5)]);
    assert_eq!(reactor.len(), 3);
    assert_eq!(
        reactor.registrations(),
        &vec![entry(2, 10, 1), entry(0, 11, 4), entry(2, 12, 5)]
    );
}

#[test]
fn register_does_not_deduplicate() {
    let reactor = table(&[(1, 10, 1), (1, 10, 1)]);
    assert_eq!(reactor.registrations(), &vec![entry(1, 10, 1), entry(1, 10, 1)]);
}

#[test]
fn unregister_removes_every_entry_of_the_token() {
    let mut reactor = table(&[(2, 10, 1), (0, 11, 4), (2, 12, 5), (3, 13, 1), (2, 14, 4)]);
    reactor.unregister(Token(2));
    assert_eq!(reactor.registrations(), &vec![entry(0, 11, 4), entry(3, 13, 1)]);
}

#[test]
fn unregister_of_an_unknown_token_changes_nothing() {
    let mut reactor = table(&[(2, 10, 1), (0, 11, 4)]);
    reactor.unregister(Token(7));
    assert_eq!(reactor.registrations(), &vec![entry(2, 10, 1), entry(0, 11, 4)]);
}

#[test]
fn register_then_unregister_restores_the_table() {
    let mut reactor = table(&[(0, 11, 4), (3, 13, 1)]);
    reactor.register(Token(5), 20, 1);
    assert_eq!(reactor.len(), 3);
    reactor.unregister(Token(5));
    assert_eq!(reactor.registrations(), &vec![entry(0, 11, 4), entry(3, 13, 1)]);
}

#[test]
fn poll_failure_carries_the_error_number() {
    let reactor = table(&[(0, 11, 1)]);
    assert_eq!(reactor.poll(-1, 4, &vec![1]), Err(ProbeError { errno: 4 }));
    assert_eq!(reactor.poll(i32::MIN, 9, &vec![]), Err(ProbeError { errno: 9 }));
}

#[test]
fn poll_that_reports_no_descriptor_wakes_nothing() {
    let reactor = table(&[(0, 11, 1), (1, 12, 4)]);
    assert_eq!(reactor.poll(0, 0, &vec![0, 0]), Ok(vec![]));
    // The count decides, not the masks.
    assert_eq!(reactor.poll(0, 0, &vec![1, 4]), Ok(vec![]));
}

#[test]
fn poll_reports_the_tokens_whose_interest_is_met() {
    let reactor = table(&[(5, 11, 1), (6, 12, 4), (7, 13, 5), (8, 14, 1)]);
    assert_eq!(
        reactor.poll(3, 0, &vec![1, 1, 4, 0]),
        Ok(vec![Token(5), Token(7)])
    );
}

#[test]
fn poll_ignores_conditions_that_were_not_asked_for() {
    // 0x8 and 0x10 are error and hang-up on Linux: neither is in the mask.
    let reactor = table(&[(5, 11, 1), (6, 12, 4)]);
    assert_eq!(reactor.poll(2, 0, &vec![0x8, 0x10]), Ok(vec![]));
    assert_eq!(reactor.poll(2, 0, &vec![0x8 | 0x1, 0x10]), Ok(vec![Token(5)]));
}

#[test]
fn poll_names_a_token_once_for_each_satisfied_registration() {
    let reactor = table(&[(5, 11, 1), (5, 12, 4), (6, 13, 1)]);
    assert_eq!(
        reactor.poll(3, 0, &vec![1, 4, 1]),
        Ok(vec![Token(5), Token(5), Token(6)])
    );
}

#[test]
fn poll_takes_a_short_answer_as_silence_on_the_rest() {
    let reactor = table(&[(5, 11, 1), (6, 12, 1), (7, 13, 1)]);
    assert_eq!(reactor.poll(1, 0, &vec![1]), Ok(vec![Token(5)]));
    assert_eq!(reactor.poll(1, 0, &vec![]), Ok(vec![]));
    // A longer answer than the table is read as far as the table goes.
    assert_eq!(
        reactor.poll(3, 0, &vec![1, 1, 1, 1, 1]),
        Ok(vec![Token(5), Token(6), Token(7)])
    );
}

#[test]
fn poll_leaves_the_table_as_it_is() {
    let reactor = table(&[(5, 11, 1), (6, 12, 4)]);
    let _ = reactor.poll(2, 0, &vec![1, 4]);
    assert_eq!(reactor.registrations(), &vec![entry(5, 11, 1), entry(6, 12, 4)]);
}

#[test]
fn probe_wait_is_bounded_and_not_zero() {
    assert_eq!(PROBE_TIMEOUT_MS, 100);
}
