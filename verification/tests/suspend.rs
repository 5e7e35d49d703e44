use suspend_bridge::suspend::{PollResult, SuspendState};

#[test]
fn resolve_then_poll_is_ready() {
    let mut s: SuspendState<u32> = SuspendState::new();
    assert_eq!(s.resolve(42), None);
    // wake ordering: the value is stored before any wake, so a poll that
    // follows a resolve never sees Pending
    assert_eq!(s.poll(1), PollResult::Ready(42));
}

#[test]
fn poll_then_resolve_hands_back_the_waker() {
    let mut s: SuspendState<u32> = SuspendState::new();
    assert_eq!(s.poll(9), PollResult::Pending);
    // the producer receives the token it must dispatch
    assert_eq!(s.resolve(7), Some(9));
    assert_eq!(s.poll(9), PollResult::Ready(7));
}

#[test]
fn only_the_most_recent_poller_is_woken() {
    let mut s: SuspendState<u32> = SuspendState::new();
    assert_eq!(s.poll(1), PollResult::Pending);
    assert_eq!(s.poll(2), PollResult::Pending);
    assert_eq!(s.resolve(0), Some(2));
}

#[test]
fn one_resolution_serves_one_poll_to_completion() {
    let mut s: SuspendState<u32> = SuspendState::new();
    s.resolve(5);
    assert_eq!(s.poll(1), PollResult::Ready(5));
    // consumed: a later poll suspends again
    assert_eq!(s.poll(1), PollResult::Pending);
}
