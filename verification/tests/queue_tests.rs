use infinity_q::queue::{default_message_id, Lifo, Message, MAX_ATTEMPT};
use rand::seq::SliceRandom;

const QUEUE_NAME: &str = "a";
const MSG_BODY: &str = "1";

fn create_msg() -> Message {
    Message {
        body: MSG_BODY.to_string(),
        queue_url: "123".to_string(),
        id: default_message_id(),
        attempt: 1,
    }
}

fn setup() -> Lifo {
    let mut q = Lifo::create(String::from(QUEUE_NAME));
    let msg = Message {
        body: MSG_BODY.to_string(),
        queue_url: "123".to_string(),
        id: default_message_id(),
        attempt: 1,
    };
    q.add(msg);
    q
}

fn populate_wit_msgs(q: &mut Lifo) {
    const MSG_CNT: usize = 1000;
    for _ in 0..MSG_CNT {
        let msg = create_msg();
        q.add(msg);
    }
}

#[test]
fn test_create() {
    let q = setup();
    assert_eq!(q.name, QUEUE_NAME);
}

#[test]
fn test_add() {
    let q = setup();
    let loaded_msg = q.queue.back().unwrap();
    assert_eq!(loaded_msg.body, MSG_BODY);
}

#[test]
fn test_one_pop() {
    let mut q = setup();
    let mut msg_q = q.pop(1);
    let popped_msg = msg_q.first_mut().unwrap();
    let inflight_msgs = q.show_in_flight(1);
    let inflight_msg = inflight_msgs.first().unwrap();
    assert_eq!(popped_msg.id, inflight_msg.msg.id);
}

#[test]
fn test_many_pop() {
    const MSG_CNT: usize = 1000;
    let mut q = Lifo::create(String::from(QUEUE_NAME));
    let mut v = Vec::new();
    for _ in 0..MSG_CNT {
        let msg = create_msg();
        v.push(msg.id.clone());
        q.add(msg);
    }
    v.shrink_to_fit();
    q.pop(MSG_CNT);
    assert_eq!(q.in_flight.len(), MSG_CNT);

    let mut rng = rand::thread_rng();
    v.shuffle(&mut rng);
    for id in v.iter() {
        q.complete(id);
    }
    q.sweep_in_flight();
    assert_eq!(q.in_flight.len(), 0);
}

#[test]
fn test_sweep_in_flight() {
    const MSG_CNT: usize = 1000;
    let mut q = Lifo::create_with_expiration(String::from(QUEUE_NAME), 0);
    populate_wit_msgs(&mut q);

    for _ in 1..MAX_ATTEMPT {
        q.pop(MSG_CNT);
        q.sweep_in_flight();
        // should place all messages back in primary queue.
        assert_eq!(q.queue.len(), MSG_CNT);
    }

    q.pop(MSG_CNT);
    q.sweep_in_flight();

    // after the final attempt, the messages are dropped
    assert_eq!(q.queue.len(), 0);
    assert_eq!(q.in_flight.len(), 0);
}

#[test]
fn test_show_in_flight() {
    let mut q = setup();
    let msgs = q.pop(1);
    let msg = msgs.first().unwrap();
    let v = q.show_in_flight(1);
    let in_flight_msg = &v.first().unwrap().msg;
    assert_eq!(msg.id, in_flight_msg.id);
}

fn named_msg(id: &str) -> Message {
    Message {
        body: format!("body of {}", id),
        queue_url: "q".to_string(),
        id: id.to_string(),
        attempt: 1,
    }
}

// Enqueue A, B, C; dispatch two; acknowledge B; sweep after the timeout has
// elapsed: A is redelivered at the head with its attempt raised, B is gone
// for good, and pending reads [A, C].
#[test]
fn test_redelivery_scenario() {
    let mut q = Lifo::create_with_expiration("scenario".to_string(), 1000);
    q.add(named_msg("A"));
    q.add(named_msg("B"));
    q.add(named_msg("C"));

    let dispatched = q.pop_at(2, 1_000_000);
    assert_eq!(dispatched.len(), 2);
    assert_eq!(dispatched[0].id, "A");
    assert_eq!(dispatched[1].id, "B");

    q.complete(&"B".to_string());

    // 1000 ms timeout, dispatched at 1_000_000 us: expired well after that.
    q.sweep_in_flight_at(1_000_000 + 1_000_000 + 1);

    assert_eq!(q.in_flight.len(), 0);
    assert_eq!(q.queue.len(), 2);
    assert_eq!(q.queue[0].id, "A");
    assert_eq!(q.queue[0].attempt, 2);
    assert_eq!(q.queue[1].id, "C");
}

// A dispatched message is hidden: a second dispatch before its timeout
// elapses never returns it again.
#[test]
fn test_dispatch_exclusive() {
    let mut q = Lifo::create_with_expiration("excl".to_string(), 1000);
    q.add(named_msg("A"));
    q.add(named_msg("B"));
    q.add(named_msg("C"));

    let first = q.pop_at(2, 1_000_000);
    let second = q.pop_at(2, 1_000_500);
    assert_eq!(first.len(), 2);
    assert_eq!(second.len(), 1);
    assert_eq!(second[0].id, "C");
    for m in &first {
        assert!(second.iter().all(|n| n.id != m.id));
    }
}

// With a zero timeout, each dispatch-all-and-sweep cycle brings every
// message back until the attempt budget is spent; the budget allows
// MAX_ATTEMPT dispatches in all.
#[test]
fn test_zero_timeout_cycles() {
    let mut q = Lifo::create_with_expiration("cycles".to_string(), 0);
    q.add(named_msg("A"));
    q.add(named_msg("B"));

    let mut t: i64 = 10;
    for _ in 1..MAX_ATTEMPT {
        q.pop_at(2, t);
        q.sweep_in_flight_at(t + 1);
        assert_eq!(q.queue.len(), 2);
        t += 2;
    }
    q.pop_at(2, t);
    q.sweep_in_flight_at(t + 1);
    assert_eq!(q.queue.len(), 0);
    assert_eq!(q.in_flight.len(), 0);
}

// Acknowledging an id that is not in flight is a no-op and raises no error.
#[test]
fn test_ack_unknown_id() {
    let mut q = Lifo::create("ackless".to_string());
    q.add(named_msg("A"));
    q.pop_at(1, 5);
    q.complete(&"no-such-id".to_string());
    assert_eq!(q.in_flight.len(), 1);
    assert!(!q.in_flight[0].complete);
    assert_eq!(q.queue.len(), 0);
}

// An acknowledged message is removed for good on the next sweep, even before
// its timeout elapses.
#[test]
fn test_ack_removed_on_sweep() {
    let mut q = Lifo::create_with_expiration("acked".to_string(), 1000);
    q.add(named_msg("A"));
    q.pop_at(1, 1_000_000);
    q.complete(&"A".to_string());
    // Well before the timeout: 1 us later.
    q.sweep_in_flight_at(1_000_001);
    assert_eq!(q.in_flight.len(), 0);
    assert_eq!(q.queue.len(), 0);
}

// A fresh random identifier has the 36-character hyphenated form, and two
// draws differ.
#[test]
fn test_default_message_id_form() {
    let a = default_message_id();
    let b = default_message_id();
    assert_eq!(a.len(), 36);
    assert_eq!(b.len(), 36);
    assert_ne!(a, b);
}
