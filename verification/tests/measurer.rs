use suspend_bridge::measurer::{Msg, RegAction, RegError, Registry};
use suspend_bridge::suspend::PollResult;

#[test]
fn scenario_abandon_before_render() {
    let mut reg = Registry::new();
    let (h, fut) = reg.await_completion(b"x".to_vec());
    // the caller abandons both halves before any render-completed signal
    reg.release_handle(h);
    reg.drop_future(fut);

    // the next expose sweep forgets the item
    let exposed = reg.expose_all();
    assert!(exposed.is_empty());
    assert_eq!(reg.measurements.len(), 0);

    // and the next completion sweep drops its record; no wake ever fires
    let outcome = reg.on_signal().unwrap();
    assert!(outcome.wakers.is_empty());
    assert!(!outcome.again);
    assert_eq!(reg.futures.len(), 0);
}

#[test]
fn reclamation_spares_other_items() {
    let mut reg = Registry::new();
    let (h1, f1) = reg.await_completion(b"kept".to_vec());
    let (h2, f2) = reg.await_completion(b"dropped".to_vec());
    reg.release_handle(h2);
    reg.drop_future(f2);

    let exposed = reg.expose_all();
    assert_eq!(exposed.len(), 1);
    assert_eq!(exposed[0].text, b"kept".to_vec());

    reg.release_handle(h1);
    reg.drop_future(f1);
}

#[test]
fn realization_resolves_the_future() {
    let mut reg = Registry::new();
    let (h, fut) = reg.await_completion(b"m".to_vec());

    // nothing is realized yet: the poll leaves its wake token behind
    assert_eq!(reg.poll_future(&fut, 7), PollResult::Pending);

    let exposed = reg.expose_all();
    assert_eq!(exposed.len(), 1);
    // the view attaches the exposed item to a live node
    reg.mark_realized(exposed[0].item);

    // the sweep wakes exactly the stored token and needs no further pass
    let outcome = reg.on_signal().unwrap();
    assert_eq!(outcome.wakers, vec![7]);
    assert!(!outcome.again);

    // the woken poll resolves to a fresh strong handle to the same item
    match reg.poll_future(&fut, 7) {
        PollResult::Ready(got) => assert_eq!(got.item, h.item),
        PollResult::Pending => panic!("realized item polled as pending"),
    }
    reg.drop_future(fut);
    reg.release_handle(h);
}

#[test]
fn marker_divergence_is_fatal() {
    let mut reg = Registry::new();
    let (_h, _fut) = reg.await_completion(b"x".to_vec());
    // exposed (rendered = true) but never attached (realized = false)
    let exposed = reg.expose_all();
    assert_eq!(exposed.len(), 1);
    assert_eq!(reg.on_signal(), Err(RegError::ConsistencyViolation));
    // the fault changes nothing
    assert_eq!(reg.futures.len(), 1);
}

#[test]
fn unexposed_item_waits_for_the_next_signal() {
    let mut reg = Registry::new();
    let (_h, _fut) = reg.await_completion(b"w".to_vec());
    // not yet rendered and not yet realized: consistent, kept for later
    let outcome = reg.on_signal().unwrap();
    assert!(outcome.wakers.is_empty());
    assert!(outcome.again);
    assert_eq!(reg.futures.len(), 1);
}

#[test]
fn slot_reuse_bumps_the_generation() {
    let mut reg = Registry::new();
    let (h1, f1) = reg.await_completion(b"old".to_vec());
    let stale = h1.item;
    reg.release_handle(h1);
    reg.drop_future(f1);

    // the dead slot is reused; the stale reference must not resolve
    let (h2, f2) = reg.await_completion(b"new".to_vec());
    assert_eq!(h2.item.index, stale.index);
    assert_ne!(h2.item.generation, stale.generation);

    let exposed = reg.expose_all();
    assert_eq!(exposed.len(), 1);
    assert_eq!(exposed[0].text, b"new".to_vec());
    assert_eq!(exposed[0].item, h2.item);
    reg.release_handle(h2);
    reg.drop_future(f2);
}

#[test]
fn exposing_twice_keeps_live_items() {
    let mut reg = Registry::new();
    let (h, f) = reg.await_completion(b"still here".to_vec());
    assert_eq!(reg.expose_all().len(), 1);
    // the item is still strongly owned, so the next sweep keeps it
    assert_eq!(reg.expose_all().len(), 1);
    reg.release_handle(h);
    reg.drop_future(f);
    assert_eq!(reg.expose_all().len(), 0);
}

#[test]
fn update_loop_actions() {
    let mut reg = Registry::new();
    let (h, fut) = reg.await_completion(b"a".to_vec());

    // a registration asks the view to render and report completion
    let acts = reg.on_event(Msg::WaitForRender).unwrap();
    assert_eq!(acts, vec![RegAction::NotifyAfterRender, RegAction::Render]);

    // first pass: nothing exposed yet, so another pass is requested
    let acts = reg.on_event(Msg::Measured).unwrap();
    assert_eq!(acts, vec![RegAction::Render]);

    assert_eq!(reg.poll_future(&fut, 11), PollResult::Pending);
    let exposed = reg.expose_all();
    reg.mark_realized(exposed[0].item);

    // second pass: the wake batch comes first, then the skip
    let acts = reg.on_event(Msg::Measured).unwrap();
    assert_eq!(acts, vec![RegAction::Wake(11), RegAction::Skip]);
    reg.drop_future(fut);
    reg.release_handle(h);
}
