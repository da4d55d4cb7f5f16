use compo::{EventChannel, EventEmitError, EventEmitter};

#[test]
fn test_event_listener_basic() {
    let mut ch: EventChannel<i32> = EventChannel::new();
    let listener = ch.add_listener();
    let emitter = listener.new_emitter();
    let fut = listener.listen(&mut ch);

    assert!(emitter.emit(&mut ch, 42).is_ok());

    let result = fut.poll(&mut ch);
    assert_eq!(result, Some(42));
}

#[test]
fn test_event_multiple_listeners() {
    let mut ch: EventChannel<String> = EventChannel::new();
    let listener1 = ch.add_listener();
    let listener2 = listener1.fork(&mut ch);
    let emitter = listener1.new_emitter();
    let fut1 = listener1.listen(&mut ch);
    let fut2 = listener2.listen(&mut ch);

    assert!(emitter.emit(&mut ch, "hello".to_string()).is_ok());

    let result1 = fut1.poll(&mut ch);
    let result2 = fut2.poll(&mut ch);

    assert_eq!(result1, Some("hello".to_string()));
    assert_eq!(result2, Some("hello".to_string()));
}

#[test]
fn test_event_multiple_messages() {
    let mut ch: EventChannel<i32> = EventChannel::new();
    let listener = ch.add_listener();
    let emitter = listener.new_emitter();
    let fut1 = listener.listen(&mut ch);

    assert!(emitter.emit(&mut ch, 1).is_ok());

    let result1 = fut1.poll(&mut ch);
    assert_eq!(result1, Some(1));

    let fut2 = listener.listen(&mut ch);

    assert!(emitter.emit(&mut ch, 2).is_ok());

    let result2 = fut2.poll(&mut ch);
    assert_eq!(result2, Some(2));
}

#[test]
fn emit_before_any_listen_returns_value() {
    let mut ch: EventChannel<i32> = EventChannel::new();
    let listener = ch.add_listener();
    let emitter = listener.new_emitter();

    // a listener is alive but nothing is registered
    assert_eq!(emitter.emit(&mut ch, 7), Err(EventEmitError(7)));

    // the value comes back unchanged for non-trivial payloads too
    let mut ch2: EventChannel<String> = EventChannel::new();
    let l2 = ch2.add_listener();
    let e2 = l2.new_emitter();
    assert_eq!(
        e2.emit(&mut ch2, "payload".to_string()),
        Err(EventEmitError("payload".to_string()))
    );
}

#[test]
fn emit_after_all_listeners_closed_fails() {
    let mut ch: EventChannel<i32> = EventChannel::new();
    let listener = ch.add_listener();
    let emitter = listener.new_emitter();
    listener.close(&mut ch);

    assert_eq!(emitter.emit(&mut ch, 5), Err(EventEmitError(5)));
}

#[test]
fn emit_on_fresh_channel_without_listeners_fails() {
    let mut ch: EventChannel<i32> = EventChannel::new();
    let emitter = EventEmitter::default();
    // unattached emitters fail even if waits exist later
    assert_eq!(emitter.emit(&mut ch, 9), Err(EventEmitError(9)));

    let listener = ch.add_listener();
    let _fut = listener.listen(&mut ch);
    assert_eq!(emitter.emit(&mut ch, 10), Err(EventEmitError(10)));
}

#[test]
fn broadcast_reaches_every_clone() {
    let mut ch: EventChannel<String> = EventChannel::new();
    let l1 = ch.add_listener();
    let l2 = l1.fork(&mut ch);
    let emitter = l1.new_emitter();
    let w1 = l1.listen(&mut ch);
    let w2 = l2.listen(&mut ch);

    assert!(emitter.emit(&mut ch, "x".to_string()).is_ok());

    assert_eq!(w1.poll(&mut ch), Some("x".to_string()));
    assert_eq!(w2.poll(&mut ch), Some("x".to_string()));
}

#[test]
fn double_publish_into_unconsumed_slot_fails_then_recovers() {
    let mut ch: EventChannel<i32> = EventChannel::new();
    let listener = ch.add_listener();
    let emitter = listener.new_emitter();

    let fut1 = listener.listen(&mut ch);
    assert!(emitter.emit(&mut ch, 1).is_ok());

    // the slot still holds the undelivered 1; registering it again and
    // emitting refuses rather than overwriting
    let fut2 = listener.listen(&mut ch);
    assert_eq!(emitter.emit(&mut ch, 2), Err(EventEmitError(2)));

    // consuming the wait frees the slot, and a fresh listen + emit succeed
    assert_eq!(fut1.poll(&mut ch), Some(1));
    drop(fut2);
    let fut3 = listener.listen(&mut ch);
    assert!(emitter.emit(&mut ch, 3).is_ok());
    assert_eq!(fut3.poll(&mut ch), Some(3));
}

#[test]
fn refused_emit_keeps_earlier_deliveries() {
    let mut ch: EventChannel<i32> = EventChannel::new();
    let a = ch.add_listener();
    let b = a.fork(&mut ch);
    let emitter = a.new_emitter();

    // occupy a's slot
    let wait_a = a.listen(&mut ch);
    assert!(emitter.emit(&mut ch, 1).is_ok());

    // register b first, then a's still-occupied slot
    let wait_b = b.listen(&mut ch);
    let wait_a2 = a.listen(&mut ch);
    assert_eq!(emitter.emit(&mut ch, 2), Err(EventEmitError(2)));

    // delivery walked the registrations in order: b received the value
    // before the occupied slot was reached
    assert_eq!(wait_b.poll(&mut ch), Some(2));
    assert_eq!(wait_a.poll(&mut ch), Some(1));
    // a's second wait was consumed undelivered by the refused emit
    assert_eq!(wait_a2.poll(&mut ch), None);
}

#[test]
fn unresolved_wait_reports_suspended() {
    let mut ch: EventChannel<i32> = EventChannel::new();
    let listener = ch.add_listener();
    let fut = listener.listen(&mut ch);
    assert_eq!(fut.poll(&mut ch), None);
    assert_eq!(fut.poll(&mut ch), None);

    let emitter = listener.new_emitter();
    assert!(emitter.emit(&mut ch, 11).is_ok());
    assert_eq!(fut.poll(&mut ch), Some(11));
    // the slot was consumed by the resolution
    assert_eq!(fut.poll(&mut ch), None);
}

#[test]
fn closing_one_clone_keeps_the_channel_alive() {
    let mut ch: EventChannel<i32> = EventChannel::new();
    let l1 = ch.add_listener();
    let l2 = l1.fork(&mut ch);
    let emitter = l1.new_emitter();

    let _w1 = l1.listen(&mut ch);
    let w2 = l2.listen(&mut ch);
    l1.close(&mut ch);

    // l1's registration is withdrawn; the emit reaches only l2's wait
    assert!(emitter.emit(&mut ch, 6).is_ok());
    assert_eq!(w2.poll(&mut ch), Some(6));
}
