use vstd::prelude::*;

verus! {

/// A point in time as seconds and nanoseconds since the Unix epoch.
#[derive(Clone, Copy, Debug, PartialEq, Eq, Structural)]
pub struct Timestamp {
    pub secs: u64,
    pub nanos: u32,
}

impl Timestamp {
    /// The time of day in UTC as hours, minutes and seconds.
    pub fn clock(&self) -> (r: (u64, u64, u64))
        ensures
            r == ((self.secs / 3600) % 24, (self.secs / 60) % 60, self.secs % 60),
    {
        ((self.secs / 3600) % 24, (self.secs / 60) % 60, self.secs % 60)
    }
}

/// The envelope exchanged between clients and the relay.
#[derive(Debug, Clone, PartialEq, Eq)]
pub enum Message {
    Text { username: String, content: String, timestamp: Timestamp },
    File { username: String, filename: String, size: u64, data: Vec<u8>, timestamp: Timestamp },
    UserJoined { username: String, timestamp: Timestamp },
    UserLeft { username: String, timestamp: Timestamp },
    System { content: String, timestamp: Timestamp },
}

/// The mathematical value of a `Message`: strings as character sequences,
/// the payload as a byte sequence.
pub enum MessageView {
    Text { username: Seq<char>, content: Seq<char>, timestamp: Timestamp },
    File {
        username: Seq<char>,
        filename: Seq<char>,
        size: u64,
        data: Seq<u8>,
        timestamp: Timestamp,
    },
    UserJoined { username: Seq<char>, timestamp: Timestamp },
    UserLeft { username: Seq<char>, timestamp: Timestamp },
    System { content: Seq<char>, timestamp: Timestamp },
}

impl View for Message {
    type V = MessageView;

    open spec fn view(&self) -> MessageView {
        match self {
            Message::Text { username, content, timestamp } => MessageView::Text {
                username: username@,
                content: content@,
                timestamp: *timestamp,
            },
            Message::File { username, filename, size, data, timestamp } => MessageView::File {
                username: username@,
                filename: filename@,
                size: *size,
                data: data@,
                timestamp: *timestamp,
            },
            Message::UserJoined { username, timestamp } => MessageView::UserJoined {
                username: username@,
                timestamp: *timestamp,
            },
            Message::UserLeft { username, timestamp } => MessageView::UserLeft {
                username: username@,
                timestamp: *timestamp,
            },
            Message::System { content, timestamp } => MessageView::System {
                content: content@,
                timestamp: *timestamp,
            },
        }
    }
}

impl MessageView {
    /// A file envelope records the exact length of its payload.
    pub open spec fn wf(self) -> bool {
        match self {
            MessageView::File { size, data, .. } => size == data.len(),
            _ => true,
        }
    }

    pub open spec fn timestamp(self) -> Timestamp {
        match self {
            MessageView::Text { timestamp, .. } => timestamp,
            MessageView::File { timestamp, .. } => timestamp,
            MessageView::UserJoined { timestamp, .. } => timestamp,
            MessageView::UserLeft { timestamp, .. } => timestamp,
            MessageView::System { timestamp, .. } => timestamp,
        }
    }

    pub open spec fn is_text(self) -> bool {
        self is Text
    }
}

#[verifier::external_type_specification]
#[verifier::external_body]
pub struct ExSystemTime(std::time::SystemTime);

/// Relies on std::time::SystemTime::now: a reading of the system clock.
/// Nothing is promised of its value.
#[verifier::external_body]
fn system_now() -> (r: std::time::SystemTime) {
    std::time::SystemTime::now()
}

/// Relies on std::time::SystemTime::duration_since(UNIX_EPOCH): the time
/// since the epoch as whole seconds and the nanoseconds below one second,
/// which Duration keeps under one billion. A time before the epoch is an
/// error there, and reads as the epoch itself here.
#[verifier::external_body]
fn since_epoch(t: &std::time::SystemTime) -> (r: Timestamp)
    ensures
        r.nanos < 1_000_000_000,
{
    let d = t.duration_since(std::time::UNIX_EPOCH).unwrap_or_default();
    Timestamp { secs: d.as_secs(), nanos: d.subsec_nanos() }
}

/// The time now.
fn unix_now() -> (r: Timestamp)
    ensures
        r.nanos < 1_000_000_000,
{
    since_epoch(&system_now())
}

impl Message {
    pub fn new_text(username: String, content: String) -> (r: Message)
        ensures
            r@ == (MessageView::Text {
                username: username@,
                content: content@,
                timestamp: r@.timestamp(),
            }),
            r@.timestamp().nanos < 1_000_000_000,
    {
        Message::Text { username, content, timestamp: unix_now() }
    }

    pub fn new_file(username: String, filename: String, data: Vec<u8>) -> (r: Message)
        ensures
            r@ == (MessageView::File {
                username: username@,
                filename: filename@,
                size: data@.len() as u64,
                data: data@,
                timestamp: r@.timestamp(),
            }),
            r@.wf(),
            r@.timestamp().nanos < 1_000_000_000,
    {
        let size = data.len() as u64;
        Message::File { username, filename, size, data, timestamp: unix_now() }
    }

    pub fn new_user_joined(username: String) -> (r: Message)
        ensures
            r@ == (MessageView::UserJoined { username: username@, timestamp: r@.timestamp() }),
            r@.timestamp().nanos < 1_000_000_000,
    {
        Message::UserJoined { username, timestamp: unix_now() }
    }

    pub fn new_user_left(username: String) -> (r: Message)
        ensures
            r@ == (MessageView::UserLeft { username: username@, timestamp: r@.timestamp() }),
            r@.timestamp().nanos < 1_000_000_000,
    {
        Message::UserLeft { username, timestamp: unix_now() }
    }

    pub fn new_system(content: String) -> (r: Message)
        ensures
            r@ == (MessageView::System { content: content@, timestamp: r@.timestamp() }),
            r@.timestamp().nanos < 1_000_000_000,
    {
        Message::System { content, timestamp: unix_now() }
    }

    /// Whether this is a chat line, the one kind that is not echoed to its sender.
    pub fn is_text(&self) -> (r: bool)
        ensures
            r == self@.is_text(),
    {
        match self {
            Message::Text { .. } => true,
            _ => false,
        }
    }

    /// A copy with the same value.
    pub fn duplicate(&self) -> (r: Message)
        ensures
            r@ == self@,
    {
        match self {
            Message::Text { username, content, timestamp } => Message::Text {
                username: username.clone(),
                content: content.clone(),
                timestamp: *timestamp,
            },
            Message::File { username, filename, size, data, timestamp } => {
                let copy = data.clone();
                assert(copy@ =~= data@);
                Message::File {
                    username: username.clone(),
                    filename: filename.clone(),
                    size: *size,
                    data: copy,
                    timestamp: *timestamp,
                }
            },
            Message::UserJoined { username, timestamp } => Message::UserJoined {
                username: username.clone(),
                timestamp: *timestamp,
            },
            Message::UserLeft { username, timestamp } => Message::UserLeft {
                username: username.clone(),
                timestamp: *timestamp,
            },
            Message::System { content, timestamp } => Message::System {
                content: content.clone(),
                timestamp: *timestamp,
            },
        }
    }
}

} // verus!
