use session_hub::codec::{decode, encode, CodecError};
use session_hub::message::Message;
use session_hub::participant::{Participant, Placement};
use session_hub::session::{AcceptError, Dispatch, Session};

fn placed(x: f32, y: f32) -> Placement {
    Placement {
        x: x.to_bits(),
        y: y.to_bits(),
        width: 16.0f32.to_bits(),
        height: 16.0f32.to_bits(),
        red: 0.5f32.to_bits(),
        green: 0.5f32.to_bits(),
        blue: 0.5f32.to_bits(),
        alpha: 1.0f32.to_bits(),
    }
}

fn drain(session: &mut Session, key: u64) -> Vec<Message> {
    let mut out = Vec::new();
    while let Some(message) = session.next_outbound(key) {
        out.push(message);
    }
    out
}

#[test]
fn new_session_is_empty_and_starts_at_one() {
    let session = Session::new();
    assert_eq!(session.len(), 0);
    assert_eq!(session.snapshot(), Vec::new());
    assert_eq!(session.next_identity(), 1);
    assert_eq!(session.targets(), Vec::<u64>::new());
}

#[test]
fn accept_gives_identities_in_turn() {
    let mut session = Session::new();
    assert_eq!(session.accept(100, placed(0.0, 0.0)), Ok(1));
    assert_eq!(session.accept(200, placed(0.0, 0.0)), Ok(2));
    assert_eq!(session.accept(300, placed(0.0, 0.0)), Ok(3));
    assert_eq!(session.next_identity(), 4);
    assert!(session.is_live(200));
    assert!(!session.is_live(400));
}

#[test]
fn accept_files_the_newcomer_as_placed() {
    let mut session = Session::new();
    session.accept(100, placed(3.0, 4.0)).unwrap();
    assert_eq!(session.participant(100), Some(Participant::spawn(1, 100, placed(3.0, 4.0))));
    assert_eq!(session.snapshot(), vec![Participant::spawn(1, 100, placed(3.0, 4.0))]);
}

#[test]
fn newcomer_gets_connect_first_and_the_others_the_announcement() {
    let mut session = Session::new();
    session.accept(100, placed(0.0, 0.0)).unwrap();
    session.accept(200, placed(1.0, 1.0)).unwrap();
    let b = Participant::spawn(2, 200, placed(1.0, 1.0));
    assert_eq!(
        drain(&mut session, 100),
        vec![Message::Connect { identity: 1 }, Message::OtherPlayerJoined { participant: b }]
    );
    assert_eq!(drain(&mut session, 200), vec![Message::Connect { identity: 2 }]);
}

#[test]
fn accept_refuses_a_live_key() {
    let mut session = Session::new();
    session.accept(100, placed(0.0, 0.0)).unwrap();
    drain(&mut session, 100);
    assert_eq!(session.accept(100, placed(9.0, 9.0)), Err(AcceptError::DuplicateKey));
    assert_eq!(session.len(), 1);
    assert_eq!(session.next_identity(), 2);
    assert_eq!(session.pending(100), 0);
    assert_eq!(session.accept(101, placed(0.0, 0.0)), Ok(2));
}

#[test]
fn accept_stops_when_identities_run_out() {
    let mut session = Session::starting_at(u64::MAX - 1);
    assert_eq!(session.accept(1, placed(0.0, 0.0)), Ok(u64::MAX - 1));
    assert_eq!(session.accept(2, placed(0.0, 0.0)), Err(AcceptError::IdentitiesExhausted));
    assert_eq!(session.len(), 1);
    assert!(!session.is_live(2));
    assert_eq!(session.pending(1), 1);
}

#[test]
fn many_joins_give_as_many_entries_with_distinct_identities() {
    let mut session = Session::new();
    let n: u64 = 50;
    for i in 0..n {
        assert!(session.accept(1000 - i, placed(0.0, 0.0)).is_ok());
    }
    let list = session.snapshot();
    assert_eq!(list.len(), 50);
    for (i, a) in list.iter().enumerate() {
        for b in list.iter().skip(i + 1) {
            assert_ne!(a.identity, b.identity);
            assert_ne!(a.connection_key, b.connection_key);
        }
    }
    assert_eq!(session.len(), 50);
}

#[test]
fn a_move_reaches_everyone_but_its_sender() {
    let mut session = Session::new();
    for key in [10u64, 20, 30] {
        session.accept(key, placed(0.0, 0.0)).unwrap();
    }
    for key in [10u64, 20, 30] {
        drain(&mut session, key);
    }
    let sent = Message::Move { identity: 2, x: 5.0f32.to_bits(), y: 7.0f32.to_bits() };
    assert_eq!(session.handle_message(20, &sent), Dispatch::Relayed);
    assert_eq!(drain(&mut session, 10), vec![sent.clone()]);
    assert_eq!(drain(&mut session, 30), vec![sent.clone()]);
    assert_eq!(drain(&mut session, 20), Vec::new());
    let at = session.participant(20).unwrap();
    assert_eq!((at.x, at.y), (5.0f32.to_bits(), 7.0f32.to_bits()));
    assert_eq!(session.participant(10).unwrap().x, 0.0f32.to_bits());
}

#[test]
fn a_move_is_relayed_under_the_senders_own_identity() {
    let mut session = Session::new();
    session.accept(10, placed(0.0, 0.0)).unwrap();
    session.accept(20, placed(0.0, 0.0)).unwrap();
    drain(&mut session, 10);
    let forged = Message::Move { identity: 1, x: 1, y: 2 };
    assert_eq!(session.handle_message(20, &forged), Dispatch::Relayed);
    assert_eq!(drain(&mut session, 10), vec![Message::Move { identity: 2, x: 1, y: 2 }]);
    assert_eq!(session.participant(10).unwrap().x, 0.0f32.to_bits());
    assert_eq!(session.participant(20).unwrap().x, 1);
}

#[test]
fn moves_arrive_in_the_order_sent() {
    let mut session = Session::new();
    session.accept(10, placed(0.0, 0.0)).unwrap();
    session.accept(20, placed(0.0, 0.0)).unwrap();
    drain(&mut session, 10);
    drain(&mut session, 20);
    for step in 0..5u32 {
        session.handle_message(20, &Message::Move { identity: 2, x: step, y: step + 100 });
    }
    let got = drain(&mut session, 10);
    let expected: Vec<Message> =
        (0..5u32).map(|step| Message::Move { identity: 2, x: step, y: step + 100 }).collect();
    assert_eq!(got, expected);
    assert_eq!(session.pending(20), 0);
}

#[test]
fn a_move_from_a_stranger_is_dropped() {
    let mut session = Session::new();
    session.accept(10, placed(0.0, 0.0)).unwrap();
    drain(&mut session, 10);
    let before = session.snapshot();
    assert_eq!(
        session.handle_message(77, &Message::Move { identity: 1, x: 1, y: 1 }),
        Dispatch::Dropped
    );
    assert_eq!(session.snapshot(), before);
    assert_eq!(session.pending(10), 0);
}

#[test]
fn a_snapshot_request_is_answered_to_the_asker_alone() {
    let mut session = Session::new();
    session.accept(10, placed(1.0, 1.0)).unwrap();
    session.accept(20, placed(2.0, 2.0)).unwrap();
    drain(&mut session, 10);
    drain(&mut session, 20);
    assert_eq!(session.handle_message(20, &Message::RequestSnapshot), Dispatch::SnapshotQueued);
    let a = Participant::spawn(1, 10, placed(1.0, 1.0));
    let b = Participant::spawn(2, 20, placed(2.0, 2.0));
    assert_eq!(
        drain(&mut session, 20),
        vec![Message::PlayerMapSnapshot { participants: vec![a, b] }]
    );
    assert_eq!(session.pending(10), 0);
}

#[test]
fn a_snapshot_request_from_a_stranger_is_dropped() {
    let mut session = Session::new();
    session.accept(10, placed(1.0, 1.0)).unwrap();
    drain(&mut session, 10);
    assert_eq!(session.handle_message(20, &Message::RequestSnapshot), Dispatch::Dropped);
    assert_eq!(session.pending(10), 0);
    assert_eq!(session.pending(20), 0);
}

#[test]
fn server_side_variants_from_a_client_are_ignored() {
    let mut session = Session::new();
    session.accept(10, placed(1.0, 1.0)).unwrap();
    session.accept(20, placed(2.0, 2.0)).unwrap();
    drain(&mut session, 10);
    drain(&mut session, 20);
    let before = session.snapshot();
    let strays = vec![
        Message::Connect { identity: 5 },
        Message::OtherPlayerJoined { participant: Participant::spawn(9, 9, placed(0.0, 0.0)) },
        Message::Disconnect { identity: 1 },
        Message::PlayerMapSnapshot { participants: Vec::new() },
    ];
    for stray in strays {
        assert_eq!(session.handle_message(10, &stray), Dispatch::Ignored);
    }
    assert_eq!(session.snapshot(), before);
    assert_eq!(session.pending(10), 0);
    assert_eq!(session.pending(20), 0);
    assert!(session.is_live(10));
}

#[test]
fn teardown_announces_the_departure_once_to_each_who_remains() {
    let mut session = Session::new();
    for key in [10u64, 20, 30] {
        session.accept(key, placed(0.0, 0.0)).unwrap();
    }
    for key in [10u64, 20, 30] {
        drain(&mut session, key);
    }
    session.handle_message(10, &Message::Move { identity: 1, x: 8, y: 9 });
    drain(&mut session, 20);
    drain(&mut session, 30);
    let gone = session.teardown(10).unwrap();
    assert_eq!(gone, Participant { x: 8, y: 9, ..Participant::spawn(1, 10, placed(0.0, 0.0)) });
    assert_eq!(drain(&mut session, 20), vec![Message::Disconnect { identity: 1 }]);
    assert_eq!(drain(&mut session, 30), vec![Message::Disconnect { identity: 1 }]);
    assert_eq!(session.next_outbound(10), None);
    let left = session.snapshot();
    assert_eq!(left.len(), 2);
    assert!(left.iter().all(|p| p.identity != 1 && p.connection_key != 10));
    let mut keys = session.targets();
    keys.sort();
    assert_eq!(keys, vec![20, 30]);
}

#[test]
fn second_teardown_does_nothing() {
    let mut session = Session::new();
    session.accept(10, placed(0.0, 0.0)).unwrap();
    session.accept(20, placed(0.0, 0.0)).unwrap();
    drain(&mut session, 20);
    assert!(session.teardown(10).is_some());
    assert_eq!(drain(&mut session, 20), vec![Message::Disconnect { identity: 1 }]);
    let before = session.snapshot();
    assert_eq!(session.teardown(10), None);
    assert_eq!(session.pending(20), 0);
    assert_eq!(session.snapshot(), before);
    assert_eq!(session.teardown(999), None);
    assert_eq!(session.pending(20), 0);
}

#[test]
fn teardown_discards_what_waited_for_the_departed() {
    let mut session = Session::new();
    session.accept(10, placed(0.0, 0.0)).unwrap();
    assert_eq!(session.pending(10), 1);
    session.teardown(10);
    assert_eq!(session.pending(10), 0);
    assert_eq!(session.accept(10, placed(0.0, 0.0)), Ok(2));
    assert_eq!(drain(&mut session, 10), vec![Message::Connect { identity: 2 }]);
}

#[test]
fn identities_are_not_given_out_again() {
    let mut session = Session::new();
    assert_eq!(session.accept(10, placed(0.0, 0.0)), Ok(1));
    session.teardown(10);
    assert_eq!(session.accept(10, placed(0.0, 0.0)), Ok(2));
    session.teardown(10);
    assert_eq!(session.accept(11, placed(0.0, 0.0)), Ok(3));
}

#[test]
fn a_frame_is_decoded_and_dispatched() {
    let mut session = Session::new();
    session.accept(10, placed(0.0, 0.0)).unwrap();
    session.accept(20, placed(0.0, 0.0)).unwrap();
    drain(&mut session, 10);
    drain(&mut session, 20);
    let frame = encode(&Message::Move { identity: 2, x: 5.0f32.to_bits(), y: 7.0f32.to_bits() });
    assert_eq!(session.handle_frame(20, &frame), Ok(Dispatch::Relayed));
    let out = session.next_frame(10).unwrap();
    assert_eq!(out, frame);
    assert_eq!(session.next_frame(10), None);
    assert_eq!(session.next_frame(20), None);
    assert_eq!(session.handle_frame(20, &[5, 0, 0, 0]), Ok(Dispatch::SnapshotQueued));
    let reply = decode(&session.next_frame(20).unwrap()).unwrap();
    assert_eq!(reply, Message::PlayerMapSnapshot { participants: session.snapshot() });
    assert_eq!(session.handle_frame(20, &encode(&Message::Connect { identity: 1 })), Ok(Dispatch::Ignored));
}

#[test]
fn a_malformed_frame_ends_that_connection_alone() {
    let mut session = Session::new();
    session.accept(10, placed(0.0, 0.0)).unwrap();
    session.accept(20, placed(0.0, 0.0)).unwrap();
    drain(&mut session, 10);
    drain(&mut session, 20);
    assert_eq!(session.handle_frame(20, &[9, 9, 9]), Err(CodecError::MalformedMessage));
    assert!(!session.is_live(20));
    assert!(session.is_live(10));
    assert_eq!(drain(&mut session, 10), vec![Message::Disconnect { identity: 2 }]);
    assert_eq!(session.handle_frame(20, &[9, 9, 9]), Err(CodecError::MalformedMessage));
    assert_eq!(session.pending(10), 0);
}

#[test]
fn next_frame_is_the_wire_form_of_the_oldest_message() {
    let mut session = Session::new();
    session.accept(10, placed(0.0, 0.0)).unwrap();
    session.accept(20, placed(0.0, 0.0)).unwrap();
    assert_eq!(session.pending(10), 2);
    assert_eq!(session.next_frame(10), Some(vec![0, 0, 0, 0, 1, 0, 0, 0, 0, 0, 0, 0]));
    assert_eq!(session.pending(10), 1);
    let joined = Message::OtherPlayerJoined {
        participant: Participant::spawn(2, 20, placed(0.0, 0.0)),
    };
    assert_eq!(session.next_frame(10), Some(encode(&joined)));
    assert_eq!(session.next_frame(10), None);
    assert_eq!(session.next_frame(99), None);
}

#[test]
fn two_clients_join_move_and_part() {
    let a_key = 1001;
    let b_key = 1002;
    let mut session = Session::new();

    let a = session.accept(a_key, placed(0.0, 0.0)).unwrap();
    assert_eq!(drain(&mut session, a_key), vec![Message::Connect { identity: a }]);

    let b = session.accept(b_key, placed(1.0, 1.0)).unwrap();
    assert_ne!(a, b);
    assert_eq!(session.next_outbound(b_key), Some(Message::Connect { identity: b }));
    assert_eq!(session.handle_message(b_key, &Message::RequestSnapshot), Dispatch::SnapshotQueued);
    let listing = session.next_outbound(b_key).unwrap();
    match &listing {
        Message::PlayerMapSnapshot { participants } => {
            assert!(participants.iter().any(|p| p.identity == a));
            assert_eq!(participants.len(), 2);
        }
        other => panic!("expected a snapshot, got {:?}", other),
    }
    assert_eq!(
        drain(&mut session, a_key),
        vec![Message::OtherPlayerJoined {
            participant: Participant::spawn(b, b_key, placed(1.0, 1.0))
        }]
    );

    let step = Message::Move { identity: b, x: 5.0f32.to_bits(), y: 7.0f32.to_bits() };
    assert_eq!(session.handle_message(b_key, &step), Dispatch::Relayed);
    assert_eq!(drain(&mut session, a_key), vec![step]);
    assert_eq!(drain(&mut session, b_key), Vec::new());

    assert!(session.teardown(a_key).is_some());
    assert_eq!(drain(&mut session, b_key), vec![Message::Disconnect { identity: a }]);
    let left = session.snapshot();
    assert_eq!(left.len(), 1);
    assert_eq!(left[0].identity, b);
    assert_eq!(left[0].x, 5.0f32.to_bits());
    assert_eq!(left[0].y, 7.0f32.to_bits());
}
