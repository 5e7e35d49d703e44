use suspend_bridge::connection::{Action, Msg, Multiplexer, MuxError};
use suspend_bridge::suspend::PollResult;

#[test]
fn scenario_first_request_and_reply() {
    let mut mux = Multiplexer::new();

    let (id, acts) = mux.request(&b"A".to_vec());
    assert_eq!(id, 0);
    assert_eq!(acts, vec![Action::Send(b"0|A".to_vec())]);
    assert_eq!(mux.pending.len(), 1);

    let replies = mux.on_event(Msg::Received(b"0|A-reply".to_vec())).unwrap();
    assert_eq!(replies, vec![]);
    // the table entry for ID 0 is gone
    assert_eq!(mux.pending.len(), 0);

    // the future resolves to the reply content
    assert_eq!(mux.poll_response(0, 1), PollResult::Ready(b"A-reply".to_vec()));
}

#[test]
fn scenario_request_while_closed_resent_once() {
    let mut mux = Multiplexer::new();

    // a first exchange consumes ID 0
    let (id, _) = mux.request(&b"A".to_vec());
    assert_eq!(id, 0);
    mux.on_event(Msg::Received(b"0|done".to_vec())).unwrap();

    // the transport drops; a request issued while closed is still recorded
    assert_eq!(mux.on_event(Msg::Closed).unwrap(), vec![Action::StartBackoff]);
    let (id, acts) = mux.request(&b"B".to_vec());
    assert_eq!(id, 1);
    // the send attempt is demanded regardless; it fails silently outside
    assert_eq!(acts, vec![Action::Send(b"1|B".to_vec())]);

    // on the next open the frame is (re)sent exactly once
    assert_eq!(mux.on_event(Msg::Reconnect).unwrap(), vec![Action::OpenTransport]);
    let replay = mux.on_event(Msg::Opened).unwrap();
    assert_eq!(replay, vec![Action::Send(b"1|B".to_vec())]);
}

#[test]
fn correlation_ids_distinct() {
    let mut mux = Multiplexer::new();
    let (a, _) = mux.request(&b"one".to_vec());
    let (b, _) = mux.request(&b"two".to_vec());
    let (c, _) = mux.request(&b"three".to_vec());
    assert_eq!((a, b, c), (0, 1, 2));
    assert_eq!(mux.pending.len(), 3);
    assert_eq!(mux.pending[0].id, 0);
    assert_eq!(mux.pending[1].id, 1);
    assert_eq!(mux.pending[2].id, 2);
}

#[test]
fn replay_preserves_frame_verbatim() {
    let mut mux = Multiplexer::new();
    // the payload may itself contain the separator
    let (_, acts) = mux.request(&b"pay|load".to_vec());
    assert_eq!(acts, vec![Action::Send(b"0|pay|load".to_vec())]);

    mux.on_event(Msg::Failed).unwrap();
    mux.on_event(Msg::Reconnect).unwrap();
    let replay = mux.on_event(Msg::Opened).unwrap();
    assert_eq!(replay, vec![Action::Send(b"0|pay|load".to_vec())]);
}

#[test]
fn no_premature_resolution_before_matching_reply() {
    let mut mux = Multiplexer::new();
    let (id, _) = mux.request(&b"Q".to_vec());

    assert_eq!(mux.poll_response(id, 5), PollResult::Pending);
    // a stray reply under an unknown ID changes nothing
    assert_eq!(mux.on_event(Msg::Received(b"7|stray".to_vec())).unwrap(), vec![]);
    assert_eq!(mux.poll_response(id, 5), PollResult::Pending);
    // losing and reopening the transport does not resolve anything either
    mux.on_event(Msg::Closed).unwrap();
    mux.on_event(Msg::Reconnect).unwrap();
    mux.on_event(Msg::Opened).unwrap();
    assert_eq!(mux.poll_response(id, 5), PollResult::Pending);

    // only the correlated reply resolves, and it wakes the stored token
    let acts = mux.on_event(Msg::Received(b"0|R".to_vec())).unwrap();
    assert_eq!(acts, vec![Action::Wake(5)]);
    assert_eq!(mux.poll_response(id, 5), PollResult::Ready(b"R".to_vec()));
}

#[test]
fn backoff_scheduled_exactly_once() {
    let mut mux = Multiplexer::new();
    assert_eq!(mux.on_event(Msg::Closed).unwrap(), vec![Action::StartBackoff]);
    // further losses while the backoff task is pending are no-ops
    assert_eq!(mux.on_event(Msg::Failed).unwrap(), vec![]);
    assert_eq!(mux.on_event(Msg::Closed).unwrap(), vec![]);
    assert!(mux.backoff_scheduled);

    // an open clears it, so the next loss schedules again
    mux.on_event(Msg::Opened).unwrap();
    assert!(!mux.backoff_scheduled);
    assert_eq!(mux.on_event(Msg::Failed).unwrap(), vec![Action::StartBackoff]);
}

#[test]
fn malformed_replies_are_protocol_violations() {
    let mut mux = Multiplexer::new();
    mux.request(&b"A".to_vec());

    for bad in [
        &b"no separator"[..],
        b"|empty id",
        b"12a|digit then letter",
        b"99999999999999999999|u64 overflow",
        b"",
    ] {
        let r = mux.on_event(Msg::Received(bad.to_vec()));
        assert_eq!(r, Err(MuxError::ProtocolViolation));
        // the fault changes nothing: the request is still outstanding
        assert_eq!(mux.pending.len(), 1);
    }

    // the largest valid ID still parses; unknown, so a silent no-op
    let r = mux.on_event(Msg::Received(b"18446744073709551615|ok".to_vec()));
    assert_eq!(r, Ok(vec![]));
}

#[test]
fn dropped_future_leaves_request_outstanding() {
    let mut mux = Multiplexer::new();
    let (id, _) = mux.request(&b"A".to_vec());
    mux.drop_response(id);
    // the cell is gone, so polling stays pending forever
    assert_eq!(mux.poll_response(id, 9), PollResult::Pending);
    // but the request itself survives and is still replayed
    mux.on_event(Msg::Closed).unwrap();
    mux.on_event(Msg::Reconnect).unwrap();
    assert_eq!(
        mux.on_event(Msg::Opened).unwrap(),
        vec![Action::Send(b"0|A".to_vec())]
    );
    // a late reply is consumed without a wake
    assert_eq!(mux.on_event(Msg::Received(b"0|late".to_vec())).unwrap(), vec![]);
    assert_eq!(mux.pending.len(), 0);
}

#[test]
fn duplicate_reply_is_ignored() {
    let mut mux = Multiplexer::new();
    let (id, _) = mux.request(&b"A".to_vec());
    mux.on_event(Msg::Received(b"0|first".to_vec())).unwrap();
    // the entry is gone, so the duplicate is unmatched and dropped
    assert_eq!(mux.on_event(Msg::Received(b"0|second".to_vec())).unwrap(), vec![]);
    assert_eq!(mux.poll_response(id, 3), PollResult::Ready(b"first".to_vec()));
}
