use terminal_chat::bus::{Bus, Posting, Received};
use terminal_chat::message::{Message, Timestamp};

fn text(author: &str, body: &str) -> Message {
    Message::Text { username: author.to_string(), content: body.to_string(), timestamp: Timestamp { secs: 1, nanos: 0 } }
}

fn item(r: Received) -> Posting {
    match r {
        Received::Item(p) => p,
        other => panic!("expected an item, got {:?}", other),
    }
}

#[test]
fn subscribers_see_postings_in_publish_order() {
    let mut bus = Bus::new(100);
    let mut early = bus.subscribe();
    bus.publish(Posting { origin: 1, message: text("a", "one") });
    let mut late = bus.subscribe();
    bus.publish(Posting { origin: 2, message: text("b", "two") });
    bus.publish(Posting { origin: 1, message: Message::UserLeft { username: "a".to_string(), timestamp: Timestamp { secs: 2, nanos: 0 } } });
    assert_eq!(item(bus.receive(&mut early)).message, text("a", "one"));
    assert_eq!(item(bus.receive(&mut early)).message, text("b", "two"));
    assert!(matches!(item(bus.receive(&mut early)).message, Message::UserLeft { .. }));
    assert!(matches!(bus.receive(&mut early), Received::Empty));
    assert_eq!(item(bus.receive(&mut late)).message, text("b", "two"));
    assert_eq!(bus.published(), 3);
}

#[test]
fn publish_without_subscribers_succeeds() {
    let mut bus = Bus::new(2);
    for i in 0..5u64 {
        bus.publish(Posting { origin: i as u128, message: text("x", "y") });
    }
    assert_eq!(bus.published(), 5);
    let mut s = bus.subscribe();
    assert!(matches!(bus.receive(&mut s), Received::Empty));
}

#[test]
fn own_text_is_skipped_other_kinds_are_not() {
    let mut bus = Bus::new(10);
    let mut s = bus.subscribe();
    bus.publish(Posting { origin: 7, message: text("me", "mine") });
    bus.publish(Posting { origin: 7, message: Message::UserJoined { username: "me".to_string(), timestamp: Timestamp { secs: 1, nanos: 0 } } });
    bus.publish(Posting { origin: 8, message: text("me", "same name, other connection") });
    assert!(matches!(item(bus.deliver(&mut s, 7)).message, Message::UserJoined { .. }));
    assert_eq!(item(bus.deliver(&mut s, 7)).message, text("me", "same name, other connection"));
    assert!(matches!(bus.deliver(&mut s, 7), Received::Empty));
}

#[test]
fn lag_is_reported_once_then_closed() {
    let mut bus = Bus::new(3);
    let mut slow = bus.subscribe();
    for i in 0..5u64 {
        bus.publish(Posting { origin: 1, message: text("a", &i.to_string()) });
    }
    assert!(matches!(bus.receive(&mut slow), Received::Lagged(2)));
    assert!(slow.is_faulted());
    assert!(matches!(bus.receive(&mut slow), Received::Closed));
    assert!(matches!(bus.deliver(&mut slow, 9), Received::Closed));
    bus.publish(Posting { origin: 1, message: text("a", "later") });
    assert!(matches!(bus.receive(&mut slow), Received::Closed));
}

#[test]
fn exactly_capacity_behind_is_not_lag() {
    let mut bus = Bus::new(3);
    let mut s = bus.subscribe();
    for i in 0..3u64 {
        bus.publish(Posting { origin: 1, message: text("a", &i.to_string()) });
    }
    assert_eq!(item(bus.receive(&mut s)).message, text("a", "0"));
    assert!(!s.is_faulted());
}
