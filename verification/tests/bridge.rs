use sse_gateway::bridge::{Bridge, ProducerStep, Pulled};

fn m(s: &str) -> Vec<u8> {
    s.as_bytes().to_vec()
}

#[test]
fn delivers_in_push_order_push_then_pull() {
    let mut b = Bridge::new();
    for (push, expect) in [("m1", "m1"), ("m2", "m2"), ("m3", "m3")] {
        assert_eq!(b.producer_poll(), ProducerStep::PollSource);
        b.stage(m(push));
        assert_eq!(b.consumer_next(), Pulled::Item(m(expect)));
    }
}

#[test]
fn delivers_in_push_order_pull_first() {
    let mut b = Bridge::new();
    // the consumer arrives before anything was pushed
    assert_eq!(b.consumer_next(), Pulled::Pending);
    b.stage(m("m1"));
    assert_eq!(b.consumer_next(), Pulled::Item(m("m1")));
    assert_eq!(b.consumer_next(), Pulled::Pending);
    b.stage(m("m2"));
    b.source_end(false);
    assert_eq!(b.consumer_next(), Pulled::Item(m("m2")));
    assert_eq!(b.consumer_next(), Pulled::Ended);
}

#[test]
fn producer_waits_while_slot_is_full() {
    let mut b = Bridge::new();
    assert_eq!(b.producer_poll(), ProducerStep::PollSource);
    b.stage(m("m1"));
    // however often the producer asks, a full slot means wait: the
    // message source is not polled again, so nothing piles up
    assert_eq!(b.producer_poll(), ProducerStep::Wait);
    assert_eq!(b.producer_poll(), ProducerStep::Wait);
    assert_eq!(b.consumer_next(), Pulled::Item(m("m1")));
    assert_eq!(b.producer_poll(), ProducerStep::PollSource);
}

#[test]
fn drop_stops_producer_in_one_step() {
    let mut b = Bridge::new();
    b.stage(m("m1"));
    // the background task is parked on a full slot; the consumer drops
    // the handle without ever pulling again
    assert_eq!(b.producer_poll(), ProducerStep::Wait);
    b.consumer_drop();
    assert_eq!(b.producer_poll(), ProducerStep::Stop);
}

#[test]
fn drop_stops_producer_on_empty_slot_too() {
    let mut b = Bridge::new();
    b.consumer_drop();
    assert_eq!(b.producer_poll(), ProducerStep::Stop);
}

#[test]
fn clean_end_reported_then_exhausted() {
    let mut b = Bridge::new();
    b.source_end(false);
    assert_eq!(b.consumer_next(), Pulled::Ended);
    assert_eq!(b.consumer_next(), Pulled::Ended);
}

#[test]
fn failure_reported_once_then_exhausted() {
    let mut b = Bridge::new();
    b.stage(m("m1"));
    b.source_end(true);
    // the staged message is not lost on failure; the failure comes after
    assert_eq!(b.consumer_next(), Pulled::Item(m("m1")));
    assert_eq!(b.consumer_next(), Pulled::Failed);
    assert_eq!(b.consumer_next(), Pulled::Ended);
}
