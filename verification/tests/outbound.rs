use session_hub::message::Message;
use session_hub::outbound::Broadcaster;

fn moved(identity: u64) -> Message {
    Message::Move { identity, x: 5.0f32.to_bits(), y: 7.0f32.to_bits() }
}

#[test]
fn new_table_has_no_targets() {
    let table = Broadcaster::new();
    assert_eq!(table.targets(), Vec::<u64>::new());
    assert!(!table.is_registered(1));
    assert_eq!(table.pending(1), 0);
}

#[test]
fn register_adds_a_target_once() {
    let mut table = Broadcaster::new();
    assert!(table.register(4));
    assert!(table.is_registered(4));
    assert!(!table.register(4));
    assert_eq!(table.targets(), vec![4]);
    assert_eq!(table.pending(4), 0);
}

#[test]
fn register_again_keeps_what_waits() {
    let mut table = Broadcaster::new();
    table.register(4);
    assert!(table.send(4, moved(1)));
    assert!(!table.register(4));
    assert_eq!(table.pending(4), 1);
}

#[test]
fn send_reaches_one_queue_only() {
    let mut table = Broadcaster::new();
    table.register(1);
    table.register(2);
    assert!(table.send(2, Message::Connect { identity: 9 }));
    assert_eq!(table.pending(1), 0);
    assert_eq!(table.pending(2), 1);
    assert_eq!(table.dequeue(2), Some(Message::Connect { identity: 9 }));
}

#[test]
fn send_to_an_unknown_target_is_skipped() {
    let mut table = Broadcaster::new();
    table.register(1);
    assert!(!table.send(2, moved(1)));
    assert_eq!(table.pending(1), 0);
    assert_eq!(table.pending(2), 0);
    assert!(!table.is_registered(2));
}

#[test]
fn broadcast_skips_the_excluded_target() {
    let mut table = Broadcaster::new();
    table.register(1);
    table.register(2);
    table.register(3);
    table.broadcast(2, &moved(20));
    assert_eq!(table.pending(1), 1);
    assert_eq!(table.pending(2), 0);
    assert_eq!(table.pending(3), 1);
    assert_eq!(table.dequeue(1), Some(moved(20)));
    assert_eq!(table.dequeue(3), Some(moved(20)));
    assert_eq!(table.dequeue(2), None);
}

#[test]
fn broadcast_excluding_a_stranger_reaches_everyone() {
    let mut table = Broadcaster::new();
    table.register(1);
    table.register(2);
    table.broadcast(99, &Message::Disconnect { identity: 5 });
    assert_eq!(table.dequeue(1), Some(Message::Disconnect { identity: 5 }));
    assert_eq!(table.dequeue(2), Some(Message::Disconnect { identity: 5 }));
}

#[test]
fn broadcast_to_no_one_does_nothing() {
    let mut table = Broadcaster::new();
    table.broadcast(1, &moved(1));
    assert_eq!(table.targets(), Vec::<u64>::new());
    table.register(1);
    table.broadcast(1, &moved(1));
    assert_eq!(table.pending(1), 0);
}

#[test]
fn each_queue_is_first_in_first_out() {
    let mut table = Broadcaster::new();
    table.register(1);
    table.register(2);
    table.broadcast(2, &moved(10));
    table.send(1, Message::Connect { identity: 3 });
    table.broadcast(2, &moved(11));
    assert_eq!(table.pending(1), 3);
    assert_eq!(table.dequeue(1), Some(moved(10)));
    assert_eq!(table.dequeue(1), Some(Message::Connect { identity: 3 }));
    assert_eq!(table.dequeue(1), Some(moved(11)));
    assert_eq!(table.dequeue(1), None);
}

#[test]
fn dequeue_of_an_unknown_target_gives_nothing() {
    let mut table = Broadcaster::new();
    assert_eq!(table.dequeue(5), None);
}

#[test]
fn unregister_discards_the_queue() {
    let mut table = Broadcaster::new();
    table.register(1);
    table.register(2);
    table.send(1, moved(1));
    assert!(table.unregister(1));
    assert!(!table.is_registered(1));
    assert_eq!(table.pending(1), 0);
    assert_eq!(table.targets(), vec![2]);
    assert!(!table.unregister(1));
    table.register(1);
    assert_eq!(table.dequeue(1), None);
}

#[test]
fn targets_lists_each_key_once() {
    let mut table = Broadcaster::new();
    for key in [5u64, 3, 8, 3, 5] {
        table.register(key);
    }
    let mut keys = table.targets();
    keys.sort();
    assert_eq!(keys, vec![3, 5, 8]);
}
