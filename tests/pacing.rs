use loke::pacing::{classify_reply, Pacer, ReplyAction};

#[test]
fn calls_are_spaced() {
    let mut p = Pacer::new(1_000);
    assert_eq!(p.acquire(1_000, 100), 1_100);
    assert_eq!(p.acquire(1_000, 100), 1_200);
    assert_eq!(p.earliest_next_call, 1_200);
    // Long after the last slot, the next call may go out at once.
    assert_eq!(p.acquire(5_000, 100), 5_000);
    assert_eq!(p.acquire(5_050, 100), 5_100);
}

#[test]
fn slot_saturates() {
    let mut p = Pacer::new(u64::MAX - 10);
    assert_eq!(p.acquire(0, 100), u64::MAX);
}

#[test]
fn calls_are_counted() {
    let mut p = Pacer::new(0);
    assert_eq!(p.num_calls(), 0);
    p.record_call();
    p.record_call();
    assert_eq!(p.num_calls(), 2);
    assert_eq!(p.earliest_next_call, 0);
}

#[test]
fn replies_are_classified() {
    assert_eq!(classify_reply(200), ReplyAction::Accept);
    assert_eq!(classify_reply(204), ReplyAction::Accept);
    assert_eq!(classify_reply(429), ReplyAction::Retry);
    assert_eq!(classify_reply(500), ReplyAction::Fatal);
    assert_eq!(classify_reply(401), ReplyAction::Fatal);
    assert_eq!(classify_reply(302), ReplyAction::Fatal);
}
