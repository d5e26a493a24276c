use grok_dispatch::DispatchAction;
use grok_dispatch::FeedResult;
use grok_dispatch::GrokConfig;
use grok_dispatch::GrokError;
use grok_dispatch::InboundEvent;
use grok_dispatch::Outcome;
use grok_dispatch::RequestPriority;
use grok_dispatch::SubmitError;
use grok_dispatch::Supervisor;

const BOT: i64 = 42;

fn event(text: &str, at: u64) -> InboundEvent {
    InboundEvent { sender_identity: BOT, text: text.to_owned(), received_at: at }
}

fn outcomes(s: &Supervisor) -> Vec<(u64, Outcome)> {
    let mut v = Vec::new();
    for i in 0..s.completions_len() {
        let c = s.completion_at(i);
        v.push((c.request_id, c.outcome));
    }
    v
}

#[test]
fn start_is_idempotent() {
    let mut s = Supervisor::new(BOT, 30, None);
    assert!(!s.is_running());
    assert!(s.start());
    assert!(s.is_running());
    assert!(!s.start(), "a second start must be a no-op");
    assert!(s.is_running());
}

#[test]
fn submit_rejects_empty_payload() {
    let mut s = Supervisor::new(BOT, 30, None);
    s.start();
    assert_eq!(
        s.submit(String::new(), RequestPriority::Normal, 0),
        Err(SubmitError::EmptyPayload)
    );
    assert_eq!(s.queue_len(), 0);
}

#[test]
fn submit_returns_fresh_ids_immediately() {
    let mut s = Supervisor::new(BOT, 30, None);
    let a = s.submit("one".to_owned(), RequestPriority::Normal, 0).unwrap();
    let b = s.submit("two".to_owned(), RequestPriority::Normal, 1).unwrap();
    assert_ne!(a, b);
    assert_eq!(s.queue_len(), 2);
}

#[test]
fn capacity_bound_surfaces_queue_full() {
    let mut s = Supervisor::new(BOT, 30, Some(1));
    assert!(s.submit("one".to_owned(), RequestPriority::Normal, 0).is_ok());
    assert_eq!(
        s.submit("two".to_owned(), RequestPriority::Normal, 1),
        Err(SubmitError::QueueFull)
    );
}

#[test]
fn dispatch_order_high_before_low() {
    let mut s = Supervisor::new(BOT, 30, None);
    s.start();
    let low = s.submit("low".to_owned(), RequestPriority::Low, 0).unwrap();
    let high = s.submit("high".to_owned(), RequestPriority::High, 1).unwrap();
    match s.next_action() {
        DispatchAction::Send { request_id, payload } => {
            assert_eq!(request_id, high);
            assert_eq!(payload, "high");
        }
        _ => panic!("expected a send"),
    }
    match s.next_action() {
        DispatchAction::Send { request_id, payload } => {
            assert_eq!(request_id, low);
            assert_eq!(payload, "low");
        }
        _ => panic!("expected a send"),
    }
    assert!(matches!(s.next_action(), DispatchAction::Idle));
}

#[test]
fn stopped_supervisor_dispatches_nothing() {
    let mut s = Supervisor::new(BOT, 30, None);
    s.submit("queued".to_owned(), RequestPriority::Normal, 0).unwrap();
    assert!(matches!(s.next_action(), DispatchAction::Stopped));
    assert_eq!(s.queue_len(), 1, "a stopped supervisor must not drain the queue");
}

#[test]
fn matched_reply_resolves_the_oldest_await() {
    let mut s = Supervisor::new(BOT, 30, None);
    s.start();
    let a = s.submit("a".to_owned(), RequestPriority::Normal, 0).unwrap();
    let b = s.submit("b".to_owned(), RequestPriority::Normal, 1).unwrap();
    // dispatch both concurrently: A first, then B, both awaiting BOT
    assert!(matches!(s.next_action(), DispatchAction::Send { .. }));
    assert!(s.send_succeeded(a, 2, 30));
    assert!(matches!(s.next_action(), DispatchAction::Send { .. }));
    assert!(s.send_succeeded(b, 3, 30));
    assert_eq!(s.pending_len(), 2);
    let r = s.feed(&event("first reply", 4));
    assert_eq!(r, FeedResult::Matched { request_id: a }, "A's await resolves, not B's");
    assert_eq!(s.pending_len(), 1);
    let r2 = s.feed(&event("second reply", 5));
    assert_eq!(r2, FeedResult::Matched { request_id: b });
    assert_eq!(outcomes(&s), vec![(a, Outcome::Matched), (b, Outcome::Matched)]);
}

#[test]
fn unsolicited_event_is_reported_and_dropped() {
    let mut s = Supervisor::new(BOT, 30, None);
    s.start();
    assert_eq!(s.feed(&event("noise", 0)), FeedResult::Unsolicited);
    assert_eq!(s.completions_len(), 0);
}

#[test]
fn timeout_after_exactly_the_configured_duration() {
    let mut s = Supervisor::new(BOT, 30, None);
    s.start();
    let id = s.submit("ping".to_owned(), RequestPriority::Normal, 0).unwrap();
    assert!(matches!(s.next_action(), DispatchAction::Send { .. }));
    assert!(s.send_succeeded(id, 100, 30)); // deadline is exactly 130
    assert_eq!(s.tick(129), Vec::<u64>::new());
    assert_eq!(s.pending_len(), 1);
    assert_eq!(s.tick(130), vec![id]);
    assert_eq!(s.pending_len(), 0);
    assert_eq!(outcomes(&s), vec![(id, Outcome::TimedOut)]);
    // a late reply finds no pending entry
    assert_eq!(s.feed(&event("too late", 131)), FeedResult::Unsolicited);
    assert_eq!(outcomes(&s), vec![(id, Outcome::TimedOut)]);
}

#[test]
fn send_failure_does_not_stall_the_loop() {
    let mut s = Supervisor::new(BOT, 30, None);
    s.start();
    let a = s.submit("first".to_owned(), RequestPriority::Normal, 0).unwrap();
    let b = s.submit("second".to_owned(), RequestPriority::Normal, 1).unwrap();
    match s.next_action() {
        DispatchAction::Send { request_id, .. } => {
            assert_eq!(request_id, a);
            assert!(s.send_failed(a));
        }
        _ => panic!("expected a send"),
    }
    assert_eq!(outcomes(&s), vec![(a, Outcome::SendFailed)]);
    // the next decision proceeds to the following request
    match s.next_action() {
        DispatchAction::Send { request_id, .. } => assert_eq!(request_id, b),
        _ => panic!("the loop must proceed past a failed send"),
    }
}

#[test]
fn stop_cancels_in_flight_awaits() {
    let mut s = Supervisor::new(BOT, 30, None);
    s.start();
    let id = s.submit("ping".to_owned(), RequestPriority::Normal, 0).unwrap();
    assert!(matches!(s.next_action(), DispatchAction::Send { .. }));
    assert!(s.send_succeeded(id, 1, 30));
    assert_eq!(s.stop(), vec![id]);
    assert!(!s.is_running());
    assert_eq!(s.pending_len(), 0);
    assert_eq!(outcomes(&s), vec![(id, Outcome::Cancelled)], "shutdown is Cancelled, not TimedOut");
    assert!(matches!(s.next_action(), DispatchAction::Stopped));
}

#[test]
fn outcome_is_recorded_once_per_request() {
    let mut s = Supervisor::new(BOT, 30, None);
    s.start();
    let id = s.submit("ping".to_owned(), RequestPriority::Normal, 0).unwrap();
    assert!(matches!(s.next_action(), DispatchAction::Send { .. }));
    assert!(s.send_succeeded(id, 1, 30));
    assert!(!s.send_succeeded(id, 2, 30), "a pending request cannot be armed twice");
    assert!(!s.send_failed(id), "a pending request cannot fail after arming");
    assert_eq!(s.feed(&event("reply", 3)), FeedResult::Matched { request_id: id });
    assert!(!s.send_succeeded(id, 4, 30), "a resolved request cannot be re-armed");
    assert_eq!(outcomes(&s), vec![(id, Outcome::Matched)]);
}

#[test]
fn default_timeout_arms_the_await() {
    let mut s = Supervisor::new(BOT, 25, None);
    s.start();
    let id = s.submit("ping".to_owned(), RequestPriority::Normal, 0).unwrap();
    assert!(matches!(s.next_action(), DispatchAction::Send { .. }));
    assert!(s.send_succeeded_default(id, 100)); // deadline is exactly 125
    assert_eq!(s.tick(124), Vec::<u64>::new());
    assert_eq!(s.tick(125), vec![id]);
    assert_eq!(outcomes(&s), vec![(id, Outcome::TimedOut)]);
}

#[test]
fn config_defaults_response_timeout() {
    let c = GrokConfig::new(
        12345,
        "0123456789abcdef".to_owned(),
        "GrokAI".to_owned(),
        "session.session".to_owned(),
    );
    assert_eq!(c.api_id, 12345);
    assert_eq!(c.bot_username, "GrokAI");
    assert_eq!(c.session_path, "session.session");
    assert_eq!(c.response_timeout, 30);
}

#[test]
fn error_kinds_are_named() {
    assert_eq!(GrokError::Auth("x".to_owned()).kind(), "authentication");
    assert_eq!(GrokError::Connection("x".to_owned()).kind(), "connection");
    assert_eq!(GrokError::Session("x".to_owned()).kind(), "session");
    assert_eq!(GrokError::Authorization("x".to_owned()).kind(), "authorization");
    assert_eq!(GrokError::Invocation("x".to_owned()).kind(), "invocation");
    assert_eq!(GrokError::Io("x".to_owned()).kind(), "io");
    assert_eq!(GrokError::Bot("x".to_owned()).kind(), "bot");
}
