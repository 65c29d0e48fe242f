use ais_forwarder::upload_engine::{
    Action, Event, Phase, UploadEngine, RECYCLE_AFTER_MS, RETRY_SPACING_MS,
};

fn opened(t0: u64) -> UploadEngine<Vec<u8>> {
    let mut e = UploadEngine::new(false);
    match e.step(Event::Open { now: t0 }) {
        Action::OpenSession { first, recycle_at } => {
            assert!(first.is_none());
            assert_eq!(recycle_at, t0 + RECYCLE_AFTER_MS);
        }
        _ => panic!("expected a new session"),
    }
    e
}

#[test]
fn failure_early_waits_until_fifteen_seconds_after_start() {
    let t0 = 1_000;
    let mut e = opened(t0);
    match e.step(Event::SessionEnded { ok: false, now: t0 + 3_000 }) {
        Action::WaitUntil { deadline } => assert_eq!(deadline, t0 + 15_000),
        _ => panic!("expected a wait"),
    }
    assert_eq!(e.phase, Phase::Waiting { deadline: t0 + 15_000 });
    assert!(matches!(e.step(Event::WaitFinished { cancelled: false }), Action::EndCycle));
    assert_eq!(e.phase, Phase::Idle);
}

#[test]
fn failure_late_retries_at_once() {
    let t0 = 1_000;
    let mut e = opened(t0);
    assert!(matches!(
        e.step(Event::SessionEnded { ok: false, now: t0 + 20_000 }),
        Action::EndCycle
    ));
    assert_eq!(e.phase, Phase::Idle);
    assert!(matches!(e.step(Event::Open { now: t0 + 20_000 }), Action::OpenSession { .. }));
}

#[test]
fn failure_exactly_at_the_deadline_does_not_wait() {
    let mut e = opened(0);
    assert!(matches!(
        e.step(Event::SessionEnded { ok: false, now: RETRY_SPACING_MS }),
        Action::EndCycle
    ));
}

#[test]
fn success_on_its_own_opens_the_next_session() {
    let mut e = opened(0);
    assert!(matches!(e.step(Event::SessionEnded { ok: true, now: 10 }), Action::EndCycle));
    assert_eq!(e.phase, Phase::Idle);
}

#[test]
fn cancellation_during_the_wait_stops_cleanly() {
    let mut e = opened(0);
    assert!(matches!(
        e.step(Event::SessionEnded { ok: false, now: 1 }),
        Action::WaitUntil { .. }
    ));
    assert!(matches!(
        e.step(Event::WaitFinished { cancelled: true }),
        Action::Stop { ok: true }
    ));
    assert_eq!(e.phase, Phase::Closed);
}

#[test]
fn messages_are_forwarded_in_order() {
    let mut e = UploadEngine::new(true);
    e.step(Event::Open { now: 0 });
    let mut sent = Vec::new();
    for m in [b"a\n".to_vec(), b"b\n".to_vec(), b"c\n".to_vec()] {
        match e.step(Event::Message { msg: m }) {
            Action::Forward { msg, echo } => {
                assert!(echo);
                sent.push(msg);
            }
            _ => panic!("expected a forward"),
        }
    }
    assert_eq!(sent, vec![b"a\n".to_vec(), b"b\n".to_vec(), b"c\n".to_vec()]);
}

#[test]
fn refused_message_is_first_in_the_next_session() {
    let mut e = opened(0);
    assert!(matches!(
        e.step(Event::RelayRejected { msg: b"lost?\n".to_vec() }),
        Action::EndCycle
    ));
    assert_eq!(e.phase, Phase::Idle);
    assert_eq!(e.recovered, Some(b"lost?\n".to_vec()));
    match e.step(Event::Open { now: 5 }) {
        Action::OpenSession { first, .. } => assert_eq!(first, Some(b"lost?\n".to_vec())),
        _ => panic!("expected a new session"),
    }
    assert_eq!(e.recovered, None);
    assert_eq!(e.phase, Phase::Active { start: 5 });
    match e.step(Event::Message { msg: b"next\n".to_vec() }) {
        Action::Forward { msg, .. } => assert_eq!(msg, b"next\n".to_vec()),
        _ => panic!("expected a forward"),
    }
}

#[test]
fn recycling_starts_a_fresh_session() {
    let mut e = opened(0);
    assert!(matches!(e.step(Event::RecycleDue), Action::CloseForRecycle));
    assert_eq!(e.phase, Phase::Recycling);
    assert!(matches!(e.step(Event::RecycleFinished { ok: true }), Action::EndCycle));
    match e.step(Event::Open { now: RECYCLE_AFTER_MS }) {
        Action::OpenSession { first, recycle_at } => {
            assert!(first.is_none());
            assert_eq!(recycle_at, 2 * RECYCLE_AFTER_MS);
        }
        _ => panic!("expected a new session"),
    }
    assert_eq!(e.phase, Phase::Active { start: RECYCLE_AFTER_MS });
}

#[test]
fn failed_recycle_is_fatal() {
    let mut e = opened(0);
    e.step(Event::RecycleDue);
    assert!(matches!(
        e.step(Event::RecycleFinished { ok: false }),
        Action::Stop { ok: false }
    ));
    assert_eq!(e.phase, Phase::Closed);
}

#[test]
fn closed_queue_drains_the_last_session() {
    let mut e = opened(0);
    assert!(matches!(e.step(Event::QueueClosed), Action::CloseAndDrain));
    assert_eq!(e.phase, Phase::Draining);
    assert!(matches!(e.step(Event::DrainFinished { ok: false }), Action::Stop { ok: false }));
    assert_eq!(e.phase, Phase::Closed);
}

#[test]
fn unexpected_events_are_handed_back() {
    let mut e: UploadEngine<Vec<u8>> = UploadEngine::new(false);
    match e.step(Event::Message { msg: b"m\n".to_vec() }) {
        Action::Unexpected { event: Event::Message { msg } } => assert_eq!(msg, b"m\n".to_vec()),
        _ => panic!("expected the event back"),
    }
    assert_eq!(e.phase, Phase::Idle);
}

#[test]
fn deadlines_saturate_at_the_end_of_time() {
    let mut e: UploadEngine<Vec<u8>> = UploadEngine::new(false);
    match e.step(Event::Open { now: u64::MAX - 1 }) {
        Action::OpenSession { recycle_at, .. } => assert_eq!(recycle_at, u64::MAX),
        _ => panic!("expected a new session"),
    }
    match e.step(Event::SessionEnded { ok: false, now: u64::MAX - 1 }) {
        Action::WaitUntil { deadline } => assert_eq!(deadline, u64::MAX),
        _ => panic!("expected a wait"),
    }
}
