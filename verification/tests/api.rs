use sse_gateway::api::{ping_body, publish_payload, redis_msg_to_sse, success_body};
use sse_gateway::bridge::{Bridge, ProducerStep, Pulled};
use sse_gateway::codec::DecodeError;

#[test]
fn post_body_publishes_one_canonical_payload() {
    let body = br#"{"data":"hello"}"#.to_vec();
    let published = publish_payload(&body).unwrap();
    assert_eq!(published, br#"{"data":"hello"}"#.to_vec());
}

#[test]
fn post_body_is_canonicalized() {
    // members are re-serialized in canonical order
    let body = br#"{"event":"e","id":"1"}"#.to_vec();
    let published = publish_payload(&body).unwrap();
    assert_eq!(published, br#"{"id":"1","event":"e"}"#.to_vec());
}

#[test]
fn malformed_post_body_is_rejected() {
    assert_eq!(publish_payload(&b"not json".to_vec()), Err(DecodeError::Malformed));
    assert_eq!(publish_payload(&br#"{"data":7}"#.to_vec()), Err(DecodeError::Malformed));
}

#[test]
fn published_message_reaches_a_concurrent_subscriber_as_one_frame() {
    // the publish path produces the payload; the backend fans it out to
    // the subscriber's bridge; the stream writer turns it into a frame
    let body = br#"{"data":"hello"}"#.to_vec();
    let payload = publish_payload(&body).unwrap();

    let mut bridge = Bridge::new();
    assert_eq!(bridge.producer_poll(), ProducerStep::PollSource);
    bridge.stage(payload);
    let pulled = bridge.consumer_next();
    let delivered = match pulled {
        Pulled::Item(bytes) => bytes,
        other => panic!("expected a delivered message, got {:?}", other),
    };

    let frame = redis_msg_to_sse(&delivered).unwrap().unwrap();
    assert_eq!(frame.data, Some(b"hello".to_vec()));
    assert_eq!(frame.id, None);
    assert_eq!(frame.event, None);
    assert_eq!(frame.retry, None);
}

#[test]
fn all_absent_payload_yields_no_frame() {
    assert_eq!(redis_msg_to_sse(&b"{}".to_vec()), Ok(None));
}

#[test]
fn garbage_payload_is_a_decode_failure() {
    assert_eq!(redis_msg_to_sse(&b"garbage".to_vec()), Err(DecodeError::Malformed));
}

#[test]
fn ping_answers_ok() {
    assert_eq!(ping_body(), b"ok".to_vec());
}

#[test]
fn publish_acknowledgment_body() {
    assert_eq!(success_body(), br#"{"result":"success"}"#.to_vec());
}
