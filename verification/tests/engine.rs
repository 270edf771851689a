use eventbus_client::framing::frame_payload;
use eventbus_client::json::JsonValue;
use eventbus_client::listener::EventBusListener;
use eventbus_client::message::{
    encode_in, ErrorMessage, InMessage, Message, SendMessage, TransportErrorKind,
};
use eventbus_client::publisher::{EventBusPublisher, HEARTBEAT_INTERVAL_SECS};

fn delivery(address: &str, body: Option<JsonValue>) -> InMessage {
    InMessage::Message(Message {
        address: address.to_string(),
        body,
        headers: None,
    })
}

/// Feeds one inbound envelope to the listener, split into small chunks as
/// a TCP stream might deliver it.
fn feed_envelope(listener: &mut EventBusListener, envelope: InMessage) {
    let frame = frame_payload(&encode_in(envelope)).unwrap();
    for chunk in frame.chunks(3) {
        listener.feed(chunk);
    }
}

#[test]
fn test_ping() {
    let mut publisher = EventBusPublisher::new();
    publisher.ping().expect("Should be able to send ping to the server");
    let frames = publisher.take_frames();
    assert_eq!(1, frames.len());
    assert_eq!(frame_payload(br#"{"type":"ping"}"#).unwrap(), frames[0]);
}

#[test]
fn heartbeat_interval_is_ten_seconds() {
    assert_eq!(10, HEARTBEAT_INTERVAL_SECS);
}

#[test]
fn register_control_frame_goes_to_the_outbox() {
    let mut listener = EventBusListener::new();
    listener.consumer("out-address".to_string()).unwrap();
    let frames = listener.take_frames();
    assert_eq!(1, frames.len());
    assert_eq!(
        frame_payload(br#"{"type":"register","address":"out-address"}"#).unwrap(),
        frames[0]
    );
    listener.unregister_consumer("out-address".to_string()).unwrap();
    let frames = listener.take_frames();
    assert_eq!(
        frame_payload(br#"{"type":"unregister","address":"out-address"}"#).unwrap(),
        frames[0]
    );
}

#[test]
fn consumer_test() {
    let mut listener = EventBusListener::new();
    let consumer = listener.consumer("out-address".to_string()).unwrap();
    for i in 0..3 {
        feed_envelope(
            &mut listener,
            delivery("out-address", Some(JsonValue::Int(i))),
        );
    }
    let mut received_msgs: Vec<Message> = Vec::new();
    while received_msgs.len() < 3 {
        if let Some(Ok(msg)) = listener.poll(&consumer) {
            assert!(received_msgs.iter().find(|m: &&Message| m.body == msg.body).is_none());
            received_msgs.push(msg);
        } else {
            panic!("consumer starved before three deliveries");
        }
    }
    assert_eq!(Some(JsonValue::Int(0)), received_msgs[0].body);
    assert_eq!(Some(JsonValue::Int(1)), received_msgs[1].body);
    assert_eq!(Some(JsonValue::Int(2)), received_msgs[2].body);
    assert!(listener.poll(&consumer).is_none());
    listener
        .unregister_consumer("out-address".to_string())
        .expect("Unregistering consumer must not fail");
}

#[test]
fn send_reply_pattern() {
    let mut publisher = EventBusPublisher::new();
    let mut listener = EventBusListener::new();
    let reply_address = "the-reply-address";
    let consumer = listener.consumer(reply_address.to_string()).unwrap();
    publisher
        .send(SendMessage {
            address: "echo-address".to_string(),
            reply_address: Some(reply_address.to_string()),
            body: Some(JsonValue::Obj(vec![(
                "test".to_string(),
                JsonValue::Str("value".to_string()),
            )])),
            headers: None,
        })
        .expect("Sending a message to the event bus must work fine");
    let frames = publisher.take_frames();
    assert_eq!(1, frames.len());

    feed_envelope(
        &mut listener,
        delivery(
            reply_address,
            Some(JsonValue::Obj(vec![(
                "test".to_string(),
                JsonValue::Str("value".to_string()),
            )])),
        ),
    );
    match listener.poll(&consumer) {
        Some(Ok(msg)) => {
            assert_eq!(reply_address, msg.address);
            assert_eq!(
                JsonValue::Obj(vec![(
                    "test".to_string(),
                    JsonValue::Str("value".to_string()),
                )]),
                msg.body.expect("Body should be extracted")
            );
        }
        other => panic!("expected the reply, not {:?}", other),
    }
}

#[test]
fn pub_sub_pattern() {
    let mut publisher = EventBusPublisher::new();
    publisher
        .publish(Message {
            address: "in-address".to_string(),
            body: Some(JsonValue::Obj(vec![(
                "test".to_string(),
                JsonValue::Str("value".to_string()),
            )])),
            headers: None,
        })
        .expect("Publishing a message to the event bus must work fine");
    let frames = publisher.take_frames();
    assert_eq!(1, frames.len());
    assert_eq!(
        frame_payload(br#"{"type":"publish","address":"in-address","body":{"test":"value"}}"#)
            .unwrap(),
        frames[0]
    );
}

#[test]
fn test_errors() {
    let mut listener = EventBusListener::new();
    let errors = listener.errors();
    feed_envelope(
        &mut listener,
        InMessage::Error(ErrorMessage { message: "FORBIDDEN".to_string() }),
    );
    match listener.poll_error(&errors) {
        Some(Ok(error_msg)) => assert_eq!(error_msg.message, "FORBIDDEN".to_string()),
        other => panic!("expected the error notice, not {:?}", other),
    }
}

#[test]
fn should_be_notified_of_errors() {
    let mut listener = EventBusListener::new();
    let error_listener = listener.errors();
    let consumer = listener
        .consumer("something_we_dont_have_access_to".to_string())
        .expect("Can subscribe to any address");
    feed_envelope(
        &mut listener,
        InMessage::Error(ErrorMessage { message: "access to the address denied".to_string() }),
    );
    match listener.poll_error(&error_listener) {
        Some(Ok(error_msg)) => assert!(error_msg.message.contains("denied")),
        other => panic!("expected the error notice, not {:?}", other),
    }
    assert!(listener.poll(&consumer).is_none());
}

#[test]
fn routing_is_exclusive() {
    let mut listener = EventBusListener::new();
    let a = listener.consumer("a".to_string()).unwrap();
    let b = listener.consumer("b".to_string()).unwrap();
    feed_envelope(&mut listener, delivery("a", Some(JsonValue::Int(1))));
    assert!(listener.poll(&b).is_none());
    match listener.poll(&a) {
        Some(Ok(msg)) => assert_eq!("a", msg.address),
        other => panic!("expected the delivery, not {:?}", other),
    }
    feed_envelope(&mut listener, delivery("nobody-listens", None));
    assert!(listener.poll(&a).is_none());
    assert!(listener.poll(&b).is_none());
    assert_eq!(0, listener.decode_failures());
    assert!(!listener.is_terminated());
}

#[test]
fn second_error_consumer_supersedes_the_first() {
    let mut listener = EventBusListener::new();
    let first = listener.errors();
    let second = listener.errors();
    feed_envelope(
        &mut listener,
        InMessage::Error(ErrorMessage { message: "late".to_string() }),
    );
    assert!(listener.poll_error(&first).is_none());
    match listener.poll_error(&second) {
        Some(Ok(e)) => assert_eq!("late", e.message),
        other => panic!("expected the error notice, not {:?}", other),
    }
}

#[test]
fn fatal_error_fans_out_to_every_consumer() {
    let mut listener = EventBusListener::new();
    let a = listener.consumer("a".to_string()).unwrap();
    let b = listener.consumer("b".to_string()).unwrap();
    let errors = listener.errors();
    feed_envelope(&mut listener, delivery("a", Some(JsonValue::Int(9))));
    listener.on_io_error(TransportErrorKind::ConnectionReset);
    assert!(listener.is_terminated());
    match listener.poll(&a) {
        Some(Ok(msg)) => assert_eq!(Some(JsonValue::Int(9)), msg.body),
        other => panic!("the pending delivery must survive the failure, got {:?}", other),
    }
    assert_eq!(Some(Err(TransportErrorKind::ConnectionReset)), listener.poll(&a));
    assert_eq!(Some(Err(TransportErrorKind::ConnectionReset)), listener.poll(&b));
    match listener.poll_error(&errors) {
        Some(Err(TransportErrorKind::ConnectionReset)) => {}
        other => panic!("expected the terminal error, not {:?}", other),
    }
    feed_envelope(&mut listener, delivery("a", None));
    assert!(listener.poll(&a).is_none());
}

#[test]
fn transient_error_is_swallowed() {
    let mut listener = EventBusListener::new();
    let a = listener.consumer("a".to_string()).unwrap();
    listener.on_io_error(TransportErrorKind::WouldBlock);
    assert!(!listener.is_terminated());
    assert!(listener.poll(&a).is_none());
    feed_envelope(&mut listener, delivery("a", None));
    assert!(matches!(listener.poll(&a), Some(Ok(_))));
}

#[test]
fn unregister_is_idempotent() {
    let mut listener = EventBusListener::new();
    listener.consumer("a".to_string()).unwrap();
    assert!(listener.unregister_consumer("a".to_string()).is_ok());
    assert!(listener.unregister_consumer("a".to_string()).is_ok());
    assert!(listener.unregister_consumer("never-registered".to_string()).is_ok());
}

#[test]
fn last_registration_wins() {
    let mut listener = EventBusListener::new();
    let first = listener.consumer("a".to_string()).unwrap();
    let second = listener.consumer("a".to_string()).unwrap();
    feed_envelope(&mut listener, delivery("a", Some(JsonValue::Int(5))));
    assert!(listener.poll(&first).is_none());
    assert!(matches!(listener.poll(&second), Some(Ok(_))));
}

#[test]
fn malformed_frame_does_not_stop_the_loop() {
    let mut listener = EventBusListener::new();
    let a = listener.consumer("a".to_string()).unwrap();
    let garbage = frame_payload(b"this is not json").unwrap();
    listener.feed(&garbage);
    assert_eq!(1, listener.decode_failures());
    assert!(!listener.is_terminated());
    assert!(listener.poll(&a).is_none());
    feed_envelope(&mut listener, delivery("a", None));
    assert!(matches!(listener.poll(&a), Some(Ok(_))));
}

#[test]
fn unregistered_address_keeps_draining_old_queue() {
    let mut listener = EventBusListener::new();
    let a = listener.consumer("a".to_string()).unwrap();
    feed_envelope(&mut listener, delivery("a", Some(JsonValue::Int(1))));
    listener.unregister_consumer("a".to_string()).unwrap();
    feed_envelope(&mut listener, delivery("a", Some(JsonValue::Int(2))));
    assert!(matches!(listener.poll(&a), Some(Ok(_))));
    assert!(listener.poll(&a).is_none());
}

#[test]
fn outbound_user_messages_are_framed_in_order() {
    let mut publisher = EventBusPublisher::new();
    publisher.ping().unwrap();
    publisher
        .publish(Message { address: "x".to_string(), body: None, headers: None })
        .unwrap();
    let frames = publisher.take_frames();
    assert_eq!(2, frames.len());
    assert_eq!(frame_payload(br#"{"type":"ping"}"#).unwrap(), frames[0]);
    assert_eq!(
        frame_payload(br#"{"type":"publish","address":"x"}"#).unwrap(),
        frames[1]
    );
    assert_eq!(0, publisher.take_frames().len());
}

#[test]
fn transient_kind_is_the_only_transient_one() {
    assert!(TransportErrorKind::WouldBlock.transient());
    assert!(!TransportErrorKind::ConnectionReset.transient());
    assert!(!TransportErrorKind::BrokenPipe.transient());
    assert!(!TransportErrorKind::Other.transient());
}
