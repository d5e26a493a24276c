use grok_dispatch::PriorityQueue;
use grok_dispatch::RequestPriority;
use grok_dispatch::SubmitError;

#[test]
fn high_beats_low() {
    let mut q = PriorityQueue::new();
    let low = q.push("background".to_owned(), RequestPriority::Low, 0).unwrap();
    let high = q.push("urgent".to_owned(), RequestPriority::High, 1).unwrap();
    let first = q.pop().unwrap();
    let second = q.pop().unwrap();
    assert_eq!(first.id, high);
    assert_eq!(first.payload, "urgent");
    assert_eq!(second.id, low);
    assert_eq!(second.payload, "background");
    assert!(q.pop().is_none());
}

#[test]
fn equal_priority_is_fifo() {
    let mut q = PriorityQueue::new();
    let first_in = q.push("first".to_owned(), RequestPriority::Normal, 0).unwrap();
    let second_in = q.push("second".to_owned(), RequestPriority::Normal, 1).unwrap();
    assert!(first_in < second_in);
    assert_eq!(q.pop().unwrap().payload, "first");
    assert_eq!(q.pop().unwrap().payload, "second");
}

#[test]
fn drain_is_sorted_by_priority_then_admission() {
    let mut q = PriorityQueue::new();
    q.push("n1".to_owned(), RequestPriority::Normal, 0).unwrap();
    q.push("l1".to_owned(), RequestPriority::Low, 1).unwrap();
    q.push("e1".to_owned(), RequestPriority::Emergency, 2).unwrap();
    q.push("h1".to_owned(), RequestPriority::High, 3).unwrap();
    q.push("n2".to_owned(), RequestPriority::Normal, 4).unwrap();
    q.push("e2".to_owned(), RequestPriority::Emergency, 5).unwrap();
    let mut drained = Vec::new();
    while let Some(r) = q.pop() {
        drained.push(r);
    }
    let payloads: Vec<&str> = drained.iter().map(|r| r.payload.as_str()).collect();
    assert_eq!(payloads, vec!["e1", "e2", "h1", "n1", "n2", "l1"]);
    for w in drained.windows(2) {
        let a = &w[0];
        let b = &w[1];
        assert!(
            a.priority.level() > b.priority.level()
                || (a.priority.level() == b.priority.level() && a.id < b.id)
        );
    }
}

#[test]
fn no_loss_no_duplication() {
    let mut q = PriorityQueue::new();
    let mut submitted = Vec::new();
    let priorities = [
        RequestPriority::Low,
        RequestPriority::High,
        RequestPriority::Normal,
        RequestPriority::Normal,
        RequestPriority::Emergency,
        RequestPriority::Low,
        RequestPriority::High,
    ];
    for (i, p) in priorities.iter().enumerate() {
        let payload = format!("req-{}", i);
        let id = q.push(payload.clone(), *p, i as u64).unwrap();
        submitted.push((id, payload));
    }
    let mut returned = Vec::new();
    for _ in 0..submitted.len() {
        let r = q.pop().expect("queue lost a request");
        returned.push((r.id, r.payload));
    }
    assert!(q.pop().is_none());
    let mut expected = submitted.clone();
    expected.sort();
    returned.sort();
    assert_eq!(returned, expected);
}

#[test]
fn capacity_bound_rejects_with_queue_full() {
    let mut q = PriorityQueue::with_capacity(2);
    assert!(q.push("a".to_owned(), RequestPriority::Normal, 0).is_ok());
    assert!(q.push("b".to_owned(), RequestPriority::Normal, 1).is_ok());
    assert_eq!(
        q.push("c".to_owned(), RequestPriority::Emergency, 2),
        Err(SubmitError::QueueFull)
    );
    assert_eq!(q.len(), 2);
    q.pop().unwrap();
    assert!(q.push("c".to_owned(), RequestPriority::Emergency, 3).is_ok());
}

#[test]
fn empty_pop_is_not_an_error() {
    let mut q = PriorityQueue::new();
    assert!(q.pop().is_none());
    assert_eq!(q.len(), 0);
}

#[test]
fn priority_levels_are_ordered() {
    assert!(RequestPriority::Emergency.level() > RequestPriority::High.level());
    assert!(RequestPriority::High.level() > RequestPriority::Normal.level());
    assert!(RequestPriority::Normal.level() > RequestPriority::Low.level());
}
