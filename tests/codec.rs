use terminal_chat::codec::MalformedEnvelope;
use terminal_chat::message::{Message, Timestamp};

fn at(secs: u64, nanos: u32) -> Timestamp {
    Timestamp { secs, nanos }
}

fn round_trip(m: &Message) {
    let line = m.encode();
    assert!(!line.contains(&b'\n'));
    assert!(!line.contains(&b'\r'));
    assert!(std::str::from_utf8(&line).is_ok());
    assert_eq!(Message::decode(&line), Ok(m.clone()));
}

#[test]
fn text_encodes_to_the_exact_line() {
    let m = Message::Text { username: "al;ice".to_string(), content: "a\\b\nc".to_string(), timestamp: at(7, 42) };
    let line = String::from_utf8(m.encode()).unwrap();
    assert_eq!(
        line,
        "t;al\\sice;a\\\\b\\nc;00000000000000000007;00000000000000000042;"
    );
}

#[test]
fn file_encodes_payload_as_hex() {
    let m = Message::File {
        username: "bob".to_string(),
        filename: "x.bin".to_string(),
        size: 3,
        data: vec![0x00, 0xab, 0x3b],
        timestamp: at(1, 2),
    };
    let line = String::from_utf8(m.encode()).unwrap();
    assert_eq!(line, "f;bob;x.bin;00ab3b;00000000000000000001;00000000000000000002;");
}

#[test]
fn every_kind_round_trips() {
    round_trip(&Message::Text { username: "ünï".to_string(), content: "héllo; \\ \r\n 世界".to_string(), timestamp: at(u64::MAX, u32::MAX) });
    round_trip(&Message::File {
        username: "alice".to_string(),
        filename: "notes.txt".to_string(),
        size: 12,
        data: b"hello\nworld;".to_vec(),
        timestamp: at(1_700_000_000, 999_999_999),
    });
    round_trip(&Message::File { username: String::new(), filename: String::new(), size: 0, data: vec![], timestamp: at(0, 0) });
    round_trip(&Message::UserJoined { username: "carol".to_string(), timestamp: at(5, 6) });
    round_trip(&Message::UserLeft { username: String::new(), timestamp: at(5, 6) });
    round_trip(&Message::System { content: "Welcome to the chat, carol!".to_string(), timestamp: at(9, 0) });
}

#[test]
fn all_bytes_round_trip() {
    let data: Vec<u8> = (0..=255u8).collect();
    round_trip(&Message::new_file("a".to_string(), "all.bin".to_string(), data));
}

#[test]
fn constructors_round_trip() {
    round_trip(&Message::new_text("alice".to_string(), "hello".to_string()));
    round_trip(&Message::new_user_joined("alice".to_string()));
    round_trip(&Message::new_user_left("alice".to_string()));
    round_trip(&Message::new_system("hi".to_string()));
}

#[test]
fn malformed_lines_are_refused() {
    let bad: Vec<&[u8]> = vec![
        b"",
        b"t",
        b"x;a;00000000000000000001;00000000000000000002;",
        b"t;alice;hello;00000000000000000001;",
        b"t;alice;hello;00000000000000000001;00000000000000000002;extra",
        b"t;alice;hello;0000000000000000000a;00000000000000000002;",
        b"t;alice;hello;1;2;",
        b"t;alice;hello;99999999999999999999;00000000000000000002;",
        b"t;alice;hello;00000000000000000001;00000000004294967296;",
        b"t;al\\xice;hello;00000000000000000001;00000000000000000002;",
        b"t;al\nice;hello;00000000000000000001;00000000000000000002;",
        b"t;\xff;hello;00000000000000000001;00000000000000000002;",
        b"f;a;b;0g;00000000000000000001;00000000000000000002;",
        b"f;a;b;abc;00000000000000000001;00000000000000000002;",
        b"f;a;b;AB;00000000000000000001;00000000000000000002;",
        b"j;a",
    ];
    for line in bad {
        assert_eq!(Message::decode(line), Err(MalformedEnvelope), "{:?}", line);
    }
}

#[test]
fn largest_numbers_decode() {
    let line = b"j;z;18446744073709551615;00000000004294967295;";
    assert_eq!(
        Message::decode(line),
        Ok(Message::UserJoined { username: "z".to_string(), timestamp: at(u64::MAX, u32::MAX) })
    );
}

#[test]
fn new_file_records_payload_length() {
    let m = Message::new_file("alice".to_string(), "notes.txt".to_string(), b"hello world!".to_vec());
    match m {
        Message::File { size, data, filename, username, timestamp } => {
            assert_eq!(size, 12);
            assert_eq!(data, b"hello world!".to_vec());
            assert_eq!(filename, "notes.txt");
            assert_eq!(username, "alice");
            assert!(timestamp.nanos < 1_000_000_000);
            assert!(timestamp.secs > 1_600_000_000);
        }
        other => panic!("unexpected {:?}", other),
    }
}

#[test]
fn clock_reads_time_of_day() {
    assert_eq!(at(0, 0).clock(), (0, 0, 0));
    assert_eq!(at(86_400 + 3_600 * 13 + 60 * 7 + 9, 0).clock(), (13, 7, 9));
}
