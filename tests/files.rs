use terminal_chat::files::{FileInfo, FileTransfer};
use terminal_chat::message::{Message, Timestamp};

#[test]
fn file_envelopes_become_file_records() {
    let m = Message::File { username: "bob".to_string(), filename: "n.txt".to_string(), size: 2, data: vec![1, 2], timestamp: Timestamp { secs: 0, nanos: 0 } };
    let f = FileInfo::from_message(&m).unwrap();
    assert_eq!(f.filename, "n.txt");
    assert_eq!(f.size, 2);
    assert_eq!(f.data, vec![1, 2]);
    assert_eq!(f.sender, "bob");
    assert_eq!(FileTransfer::saved_parts(&m), Some(("n.txt".to_string(), vec![1, 2])));
    let t = Message::Text { username: "bob".to_string(), content: "x".to_string(), timestamp: Timestamp { secs: 0, nanos: 0 } };
    assert!(FileInfo::from_message(&t).is_none());
    assert!(FileTransfer::saved_parts(&t).is_none());
}
