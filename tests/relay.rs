use terminal_chat::bus::{Received, Subscription};
use terminal_chat::message::{Message, Timestamp};
use terminal_chat::relay::{envelope_for, file_request_line, text_request_line, Relay};

fn next(relay: &Relay<()>, sub: &mut Subscription, id: u128) -> Message {
    match relay.deliver(sub, id) {
        Received::Item(p) => p.message,
        other => panic!("expected an envelope, got {:?}", other),
    }
}

fn join(relay: &mut Relay<()>, line: &str) -> (u128, Subscription) {
    let sub = relay.subscribe();
    let (id, _, _) = relay.connect(line, ()).unwrap();
    (id, sub)
}

#[test]
fn connect_trims_the_username_and_welcomes() {
    let mut relay: Relay<()> = Relay::new(100);
    let mut sub = relay.subscribe();
    let (id, name, welcome) = relay.connect("alice \r\n", ()).unwrap();
    assert_eq!(name, "alice");
    match welcome {
        Message::System { content, .. } => assert_eq!(content, "Welcome to the chat, alice!"),
        other => panic!("{:?}", other),
    }
    match next(&relay, &mut sub, id) {
        Message::UserJoined { username, .. } => assert_eq!(username, "alice"),
        other => panic!("{:?}", other),
    }
    assert_eq!(relay.snapshot(), vec![(id, "alice".to_string())]);
}

#[test]
fn blank_username_is_accepted() {
    let mut relay: Relay<()> = Relay::new(100);
    let (_, name, _) = relay.connect("\n", ()).unwrap();
    assert_eq!(name, "");
}

#[test]
fn text_reaches_others_but_not_its_sender() {
    let mut relay: Relay<()> = Relay::new(100);
    let (alice, mut alice_sub) = join(&mut relay, "alice\n");
    let (bob, mut bob_sub) = join(&mut relay, "bob\n");
    assert!(relay.inbound(alice, b"hello"));
    assert!(matches!(next(&relay, &mut bob_sub, bob), Message::UserJoined { .. }));
    match next(&relay, &mut bob_sub, bob) {
        Message::Text { username, content, .. } => {
            assert_eq!(username, "alice");
            assert_eq!(content, "hello");
        }
        other => panic!("{:?}", other),
    }
    assert!(matches!(next(&relay, &mut alice_sub, alice), Message::UserJoined { .. }));
    assert!(matches!(next(&relay, &mut alice_sub, alice), Message::UserJoined { .. }));
    assert!(matches!(relay.deliver(&mut alice_sub, alice), Received::Empty));
}

#[test]
fn file_reaches_everyone_including_its_sender() {
    let mut relay: Relay<()> = Relay::new(100);
    let (alice, mut alice_sub) = join(&mut relay, "alice\n");
    let (bob, mut bob_sub) = join(&mut relay, "bob\n");
    let _ = next(&relay, &mut alice_sub, alice);
    let _ = next(&relay, &mut alice_sub, alice);
    let _ = next(&relay, &mut bob_sub, bob);
    let request = Message::new_file("alice".to_string(), "notes.txt".to_string(), b"twelve bytes".to_vec());
    assert!(relay.inbound(alice, &file_request_line(&request)));
    for (sub, id) in [(&mut alice_sub, alice), (&mut bob_sub, bob)] {
        match next(&relay, sub, id) {
            Message::File { username, filename, size, data, .. } => {
                assert_eq!(username, "alice");
                assert_eq!(filename, "notes.txt");
                assert_eq!(size, 12);
                assert_eq!(data, b"twelve bytes".to_vec());
            }
            other => panic!("{:?}", other),
        }
    }
}

#[test]
fn disconnect_announces_departure_exactly_once() {
    let mut relay: Relay<()> = Relay::new(100);
    let (alice, _) = join(&mut relay, "alice\n");
    let (bob, mut bob_sub) = join(&mut relay, "bob\n");
    let _ = next(&relay, &mut bob_sub, bob);
    assert!(relay.disconnect(alice));
    assert!(!relay.disconnect(alice));
    assert!(!relay.contains(alice));
    match next(&relay, &mut bob_sub, bob) {
        Message::UserLeft { username, .. } => assert_eq!(username, "alice"),
        other => panic!("{:?}", other),
    }
    assert!(matches!(relay.deliver(&mut bob_sub, bob), Received::Empty));
    assert!(!relay.inbound(alice, b"too late"));
    assert_eq!(relay.snapshot(), vec![(bob, "bob".to_string())]);
}

#[test]
fn duplicate_usernames_are_told_apart() {
    let mut relay: Relay<()> = Relay::new(100);
    let (first, mut first_sub) = join(&mut relay, "carol\n");
    let (second, mut second_sub) = join(&mut relay, "carol\n");
    assert_ne!(first, second);
    assert!(relay.inbound(first, b"hi from the first"));
    let _ = next(&relay, &mut second_sub, second);
    match next(&relay, &mut second_sub, second) {
        Message::Text { username, content, .. } => {
            assert_eq!(username, "carol");
            assert_eq!(content, "hi from the first");
        }
        other => panic!("{:?}", other),
    }
    let _ = next(&relay, &mut first_sub, first);
    let _ = next(&relay, &mut first_sub, first);
    assert!(matches!(relay.deliver(&mut first_sub, first), Received::Empty));
}

#[test]
fn slow_connection_lags_out() {
    let mut relay: Relay<()> = Relay::new(2);
    let (alice, mut alice_sub) = join(&mut relay, "alice\n");
    let (bob, _) = join(&mut relay, "bob\n");
    assert!(relay.inbound(bob, b"one"));
    assert!(relay.inbound(bob, b"two"));
    assert!(matches!(relay.deliver(&mut alice_sub, alice), Received::Lagged(2)));
    assert!(matches!(relay.deliver(&mut alice_sub, alice), Received::Closed));
}

#[test]
fn lines_that_publish_nothing() {
    let mut relay: Relay<()> = Relay::new(100);
    let (alice, _) = join(&mut relay, "alice\n");
    let before = relay.published();
    assert!(!relay.inbound(alice, b"   \t "));
    assert!(!relay.inbound(alice, b""));
    assert!(!relay.inbound(alice, b"\xff\xfe"));
    assert_eq!(relay.published(), before);
}

#[test]
fn envelope_for_trims_text_and_keeps_file_fields() {
    match envelope_for("dave".to_string(), b"  spaced out  ") {
        Some(Message::Text { username, content, .. }) => {
            assert_eq!(username, "dave");
            assert_eq!(content, "spaced out");
        }
        other => panic!("{:?}", other),
    }
    let sent = Message::File { username: "mallory".to_string(), filename: "a".to_string(), size: 1, data: vec![7], timestamp: Timestamp { secs: 3, nanos: 4 } };
    match envelope_for("dave".to_string(), &file_request_line(&sent)) {
        Some(Message::File { username, filename, size, data, timestamp }) => {
            assert_eq!(username, "dave");
            assert_eq!(filename, "a");
            assert_eq!(size, 1);
            assert_eq!(data, vec![7]);
            assert_eq!(timestamp, Timestamp { secs: 3, nanos: 4 });
        }
        other => panic!("{:?}", other),
    }
    match envelope_for("dave".to_string(), b"FILE:not an envelope") {
        Some(Message::Text { content, .. }) => assert_eq!(content, "FILE:not an envelope"),
        other => panic!("{:?}", other),
    }
    assert!(envelope_for("dave".to_string(), b" ").is_none());
}

#[test]
fn request_lines() {
    assert_eq!(text_request_line(&"héllo".to_string()), "héllo".as_bytes().to_vec());
    let m = Message::UserJoined { username: "x".to_string(), timestamp: Timestamp { secs: 0, nanos: 0 } };
    let mut expected = b"FILE:".to_vec();
    expected.extend(m.encode());
    assert_eq!(file_request_line(&m), expected);
}

#[test]
fn only_trailing_whitespace_leaves_the_username() {
    let mut relay: Relay<()> = Relay::new(100);
    let (_, name, _) = relay.connect("  bob\t\n", ()).unwrap();
    assert_eq!(name, "  bob");
}

#[test]
fn connect_as_refuses_a_live_identity() {
    let mut relay: Relay<u8> = Relay::new(100);
    let (name, _) = relay.connect_as(5, "erin\n", 1).unwrap();
    assert_eq!(name, "erin");
    let before = relay.published();
    assert!(relay.connect_as(5, "frank\n", 2).is_err());
    assert_eq!(relay.published(), before);
    assert_eq!(relay.outbox_of(5), Some(&1));
    assert!(relay.connect_as(6, "frank\n", 2).is_ok());
    assert_eq!(relay.outbox_of(6), Some(&2));
    assert!(relay.disconnect(5));
    assert_eq!(relay.outbox_of(5), None);
    assert_eq!(relay.outbox_of(6), Some(&2));
}
