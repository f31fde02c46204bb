//! The relay's shared state and the decisions of a connection's life:
//! joining, each line read from the client, delivery to it, and leaving.
//! The caller does the I/O around these steps and serialises access.
use vstd::prelude::*;
use vstd::utf8::*;
use crate::bus::{visible, Bus, Posting, PostingView, Received, Subscription};
use crate::codec::{line_of, parse_line, utf8_bytes, utf8_string};
use crate::message::{Message, MessageView};
use crate::registry::{fresh_id, Registry, RegistryViolation, Session};

verus! {

/// Unicode's White_Space characters, which `char::is_whitespace` and the
/// trimming functions of `str` go by.
pub open spec fn is_white_space(c: char) -> bool {
    let u = c as u32;
    (0x9 <= u <= 0xd) || u == 0x20 || u == 0x85 || u == 0xa0 || u == 0x1680 || (0x2000 <= u
        <= 0x200a) || u == 0x2028 || u == 0x2029 || u == 0x202f || u == 0x205f || u == 0x3000
}

/// `s` without its trailing white space.
pub open spec fn trim_end_of(s: Seq<char>) -> Seq<char>
    decreases s.len(),
{
    if s.len() > 0 && is_white_space(s.last()) {
        trim_end_of(s.drop_last())
    } else {
        s
    }
}

/// `s` without its leading white space.
pub open spec fn trim_start_of(s: Seq<char>) -> Seq<char>
    decreases s.len(),
{
    if s.len() > 0 && is_white_space(s[0]) {
        trim_start_of(s.drop_first())
    } else {
        s
    }
}

/// `s` without leading and trailing white space.
pub open spec fn trim_of(s: Seq<char>) -> Seq<char> {
    trim_start_of(trim_end_of(s))
}

/// Relies on str::trim: the string with leading and trailing White_Space
/// characters removed.
#[verifier::external_body]
fn trim(s: &str) -> (r: String)
    ensures
        r@ == trim_of(s@),
{
    s.trim().to_string()
}

/// Relies on str::trim_end: the string with trailing White_Space
/// characters removed.
#[verifier::external_body]
fn trim_end(s: &str) -> (r: String)
    ensures
        r@ == trim_end_of(s@),
{
    s.trim_end().to_string()
}

/// The marker that opens a line by which a client sends a file.
pub open spec fn file_mark() -> Seq<u8> {
    seq![0x46u8, 0x49u8, 0x4cu8, 0x45u8, 0x3au8]
}

pub open spec fn has_file_mark(x: Seq<u8>) -> bool {
    x.len() >= 5 && x.subrange(0, 5) == file_mark()
}

/// The file envelope that a client line carries, if it is a file request.
pub open spec fn file_request(x: Seq<u8>) -> Option<MessageView> {
    if has_file_mark(x) {
        match parse_line(x.subrange(5, x.len() as int)) {
            Some(m) => if m is File {
                Some(m)
            } else {
                None
            },
            None => None,
        }
    } else {
        None
    }
}

/// The chat text that a client line carries: the line without surrounding
/// whitespace, unless nothing is left or the line is not UTF-8.
pub open spec fn chat_text(x: Seq<u8>) -> Option<Seq<char>> {
    if valid_utf8(x) && trim_of(decode_utf8(x)).len() > 0 {
        Some(trim_of(decode_utf8(x)))
    } else {
        None
    }
}

/// The username that the first line of a connection names: the line as
/// it stands, without its terminator and trailing white space.
pub open spec fn username_from(line: Seq<char>) -> Seq<char> {
    trim_end_of(line)
}

pub open spec fn welcome_text(username: Seq<char>) -> Seq<char> {
    "Welcome to the chat, "@ + username + "!"@
}

/// The line by which a client sends the file envelope `m`.
pub fn file_request_line(m: &Message) -> (r: Vec<u8>)
    ensures
        r@ == file_mark() + line_of(m@),
{
    let mut out: Vec<u8> = Vec::new();
    out.push(0x46);
    out.push(0x49);
    out.push(0x4c);
    out.push(0x45);
    out.push(0x3a);
    let body = m.encode();
    let mut i: usize = 0;
    while i < body.len()
        invariant
            i <= body@.len(),
            out@ == file_mark() + body@.subrange(0, i as int),
        decreases body@.len() - i,
    {
        out.push(body[i]);
        i += 1;
        assert(out@ =~= file_mark() + body@.subrange(0, i as int));
    }
    assert(body@.subrange(0, i as int) =~= body@);
    out
}

/// The line by which a client sends chat text: the text's UTF-8 bytes.
pub fn text_request_line(text: &String) -> (r: Vec<u8>)
    ensures
        r@ == encode_utf8(text@),
{
    let b = utf8_bytes(text);
    copy_bytes(b)
}

fn copy_bytes(b: &[u8]) -> (r: Vec<u8>)
    ensures
        r@ == b@,
{
    let mut out: Vec<u8> = Vec::new();
    let mut i: usize = 0;
    while i < b.len()
        invariant
            i <= b@.len(),
            out@ == b@.subrange(0, i as int),
        decreases b@.len() - i,
    {
        out.push(b[i]);
        i += 1;
        assert(out@ =~= b@.subrange(0, i as int));
    }
    assert(out@ =~= b@);
    out
}

fn has_file_mark_of(line: &[u8]) -> (r: bool)
    ensures
        r == has_file_mark(line@),
{
    if line.len() < 5 {
        return false;
    }
    let r = line[0] == 0x46 && line[1] == 0x49 && line[2] == 0x4c && line[3] == 0x45 && line[4]
        == 0x3a;
    assert(r == (line@.subrange(0, 5) =~= file_mark()));
    r
}

/// The envelope that a line from `username`'s client asks to publish: a
/// file it sends, under its own name, or else its chat text.
pub fn envelope_for(username: String, line: &[u8]) -> (r: Option<Message>)
    ensures
        file_request(line@) matches Some(MessageView::File { filename, size, data, timestamp, .. })
            ==> (r matches Some(m) && m@ == MessageView::File {
            username: username@,
            filename,
            size,
            data,
            timestamp,
        }),
        file_request(line@) is None && chat_text(line@) is Some ==> (r matches Some(m) && m@
            == MessageView::Text {
            username: username@,
            content: chat_text(line@)->0,
            timestamp: m@.timestamp(),
        }),
        file_request(line@) is None && chat_text(line@) is None ==> r is None,
{
    if has_file_mark_of(line) {
        let body = &line[5..line.len()];
        assert(body@ =~= line@.subrange(5, line@.len() as int));
        match Message::parse(body) {
            Ok(Message::File { filename, size, data, timestamp, .. }) => {
                return Some(Message::File { username, filename, size, data, timestamp });
            },
            _ => {},
        }
    }
    match utf8_string(copy_bytes(line)) {
        Some(s) => {
            let t = trim(s.as_str());
            if t.as_str().is_empty() {
                None
            } else {
                Some(Message::new_text(username, t))
            }
        },
        None => None,
    }
}

pub struct Relay<H> {
    registry: Registry<H>,
    bus: Bus,
}

impl<H> Relay<H> {
    pub closed spec fn wf(&self) -> bool {
        self.registry.wf() && self.bus.wf()
    }

    /// The live sessions: identity to username.
    pub closed spec fn sessions(&self) -> Map<u128, Seq<char>> {
        self.registry@
    }

    /// Every posting published so far, in order.
    pub closed spec fn history(&self) -> Seq<PostingView> {
        self.bus.history()
    }

    pub closed spec fn capacity(&self) -> nat {
        self.bus.capacity()
    }

    /// The outbound queue handle of live session `id`.
    pub closed spec fn outbox(&self, id: u128) -> H {
        self.registry.outbox(id)
    }

    pub fn new(capacity: usize) -> (r: Relay<H>)
        requires
            capacity > 0,
        ensures
            r.wf(),
            r.sessions() == Map::<u128, Seq<char>>::empty(),
            r.history() == Seq::<PostingView>::empty(),
            r.capacity() == capacity,
    {
        Relay { registry: Registry::new(), bus: Bus::new(capacity) }
    }

    /// How many postings have been published.
    pub fn published(&self) -> (r: u64)
        requires
            self.wf(),
        ensures
            r == self.history().len(),
    {
        self.bus.published()
    }

    pub fn contains(&self, id: u128) -> (r: bool)
        requires
            self.wf(),
        ensures
            r == self.sessions().contains_key(id),
    {
        self.registry.contains(id)
    }

    pub fn outbox_of(&self, id: u128) -> (r: Option<&H>)
        requires
            self.wf(),
        ensures
            r is Some <==> self.sessions().contains_key(id),
            r matches Some(o) ==> *o == self.outbox(id),
    {
        self.registry.outbox_of(id)
    }

    /// The live sessions as (identity, username) pairs, each identity once.
    pub fn snapshot(&self) -> (r: Vec<(u128, String)>)
        requires
            self.wf(),
        ensures
            forall|i: int|
                0 <= i < r@.len() ==> self.sessions().contains_key(#[trigger] r@[i].0)
                    && self.sessions()[r@[i].0] == r@[i].1@,
            forall|id: u128| #[trigger]
                self.sessions().contains_key(id) ==> exists|i: int|
                    0 <= i < r@.len() && r@[i].0 == id,
            forall|i: int, j: int| 0 <= i < j < r@.len() ==> r@[i].0 != r@[j].0,
    {
        self.registry.snapshot()
    }

    /// A cursor for a new connection, starting at the next posting.
    pub fn subscribe(&self) -> (r: Subscription)
        requires
            self.wf(),
        ensures
            r.position() == self.history().len(),
            !r.faulted(),
    {
        self.bus.subscribe()
    }

    /// Admits a connection under identity `id`, whose first line is
    /// `first_line`: registers it, announces it to everyone and returns its
    /// username and the welcome notice meant for it alone. An identity that
    /// is already live is refused and nothing changes.
    pub fn connect_as(&mut self, id: u128, first_line: &str, outbox: H) -> (r: Result<
        (String, Message),
        RegistryViolation,
    >)
        requires
            old(self).wf(),
            old(self).history().len() < u64::MAX,
        ensures
            final(self).wf(),
            final(self).capacity() == old(self).capacity(),
            r is Ok <==> !old(self).sessions().contains_key(id),
            r matches Ok((name, welcome)) ==> {
                &&& name@ == username_from(first_line@)
                &&& final(self).sessions() == old(self).sessions().insert(id, name@)
                &&& final(self).outbox(id) == outbox
                &&& final(self).history().len() == old(self).history().len() + 1
                &&& final(self).history().drop_last() == old(self).history()
                &&& final(self).history().last().origin == id
                &&& final(self).history().last().message == (MessageView::UserJoined {
                    username: name@,
                    timestamp: final(self).history().last().message.timestamp(),
                })
                &&& welcome@ == (MessageView::System {
                    content: welcome_text(name@),
                    timestamp: welcome@.timestamp(),
                })
            },
            r is Err ==> final(self).sessions() == old(self).sessions() && final(self).history()
                == old(self).history(),
            forall|j: u128|
                old(self).sessions().contains_key(j) ==> #[trigger] final(self).outbox(j) == old(
                    self,
                ).outbox(j),
    {
        let name = trim_end(first_line);
        match self.registry.register(Session { id, username: name.clone(), outbox }) {
            Ok(()) => {},
            Err(e) => {
                return Err(e);
            },
        }
        let joined = Message::new_user_joined(name.clone());
        self.bus.publish(Posting { origin: id, message: joined });
        let mut text = String::from_str("Welcome to the chat, ");
        text.append(name.as_str());
        text.append("!");
        let welcome = Message::new_system(text);
        assert(self.bus.history().drop_last() =~= old(self).bus.history());
        Ok((name, welcome))
    }

    /// Admits a connection under a freshly drawn identity; see `connect_as`.
    /// It is refused only when the drawn identity is already live, which
    /// needs at least one live session.
    pub fn connect(&mut self, first_line: &str, outbox: H) -> (r: Result<
        (u128, String, Message),
        RegistryViolation,
    >)
        requires
            old(self).wf(),
            old(self).history().len() < u64::MAX,
        ensures
            final(self).wf(),
            final(self).capacity() == old(self).capacity(),
            r matches Ok((id, name, welcome)) ==> {
                &&& name@ == username_from(first_line@)
                &&& !old(self).sessions().contains_key(id)
                &&& final(self).sessions() == old(self).sessions().insert(id, name@)
                &&& final(self).outbox(id) == outbox
                &&& final(self).history().len() == old(self).history().len() + 1
                &&& final(self).history().drop_last() == old(self).history()
                &&& final(self).history().last().origin == id
                &&& final(self).history().last().message == (MessageView::UserJoined {
                    username: name@,
                    timestamp: final(self).history().last().message.timestamp(),
                })
                &&& welcome@ == (MessageView::System {
                    content: welcome_text(name@),
                    timestamp: welcome@.timestamp(),
                })
            },
            r is Err ==> final(self).sessions() == old(self).sessions() && final(self).history()
                == old(self).history(),
            r is Err ==> exists|i: u128| old(self).sessions().contains_key(i),
            forall|j: u128|
                old(self).sessions().contains_key(j) ==> #[trigger] final(self).outbox(j) == old(
                    self,
                ).outbox(j),
    {
        let id = fresh_id();
        match self.connect_as(id, first_line, outbox) {
            Ok((name, welcome)) => Ok((id, name, welcome)),
            Err(e) => {
                assert(old(self).sessions().contains_key(id));
                Err(e)
            },
        }
    }

    /// Handles one line read from connection `id`: publishes the envelope it
    /// asks for, stamped with the connection's own username. Lines of a
    /// connection that is gone, blank lines and lines that are not UTF-8
    /// publish nothing.
    pub fn inbound(&mut self, id: u128, line: &[u8]) -> (r: bool)
        requires
            old(self).wf(),
            old(self).history().len() < u64::MAX,
        ensures
            final(self).wf(),
            final(self).sessions() == old(self).sessions(),
            forall|j: u128| #[trigger] final(self).outbox(j) == old(self).outbox(j),
            final(self).capacity() == old(self).capacity(),
            !r ==> final(self).history() == old(self).history(),
            r ==> final(self).history().drop_last() == old(self).history()
                && final(self).history().len() == old(self).history().len() + 1
                && final(self).history().last().origin == id,
            !old(self).sessions().contains_key(id) ==> !r,
            old(self).sessions().contains_key(id) ==> {
                let name = old(self).sessions()[id];
                let m = final(self).history().last().message;
                &&& r <==> (file_request(line@) is Some || chat_text(line@) is Some)
                &&& file_request(line@) matches Some(MessageView::File {
                    filename,
                    size,
                    data,
                    timestamp,
                    ..
                }) ==> m == MessageView::File { username: name, filename, size, data, timestamp }
                &&& file_request(line@) is None && chat_text(line@) is Some ==> m
                    == MessageView::Text {
                    username: name,
                    content: chat_text(line@)->0,
                    timestamp: m.timestamp(),
                }
            },
    {
        let name = match self.registry.username_of(id) {
            Some(u) => u.clone(),
            None => {
                return false;
            },
        };
        match envelope_for(name, line) {
            Some(m) => {
                self.bus.publish(Posting { origin: id, message: m });
                assert(self.bus.history().drop_last() =~= old(self).bus.history());
                true
            },
            None => false,
        }
    }

    /// The next envelope for connection `id` through its cursor: every
    /// posting in publish order, but its own chat lines.
    pub fn deliver(&self, sub: &mut Subscription, id: u128) -> (r: Received)
        requires
            self.wf(),
        ensures
            old(sub).faulted() ==> r is Closed && *final(sub) == *old(sub),
            !old(sub).faulted() && old(sub).position() < self.history().len() && self.history().len()
                - old(sub).position() > self.capacity() ==> r == Received::Lagged(
                (self.history().len() - self.capacity() - old(sub).position()) as u64,
            ) && final(sub).faulted(),
            !old(sub).faulted() && old(sub).position() <= self.history().len() && self.history().len()
                - old(sub).position() <= self.capacity() ==> {
                let h = self.history();
                let shown = visible(id, h.subrange(old(sub).position() as int, h.len() as int));
                &&& !final(sub).faulted()
                &&& old(sub).position() <= final(sub).position() <= h.len()
                &&& shown.len() == 0 ==> r is Empty && final(sub).position() == h.len()
                &&& shown.len() > 0 ==> (r matches Received::Item(p) && p@.message == shown[0]
                    && p@ == h[final(sub).position() - 1] && visible(
                    id,
                    h.subrange(old(sub).position() as int, final(sub).position() as int),
                ) == seq![p@.message])
            },
    {
        self.bus.deliver(sub, id)
    }

    /// Ends connection `id`: removes it and announces its departure. Only the
    /// first call for an identity announces anything; later ones, from
    /// other exit paths, change nothing.
    pub fn disconnect(&mut self, id: u128) -> (r: bool)
        requires
            old(self).wf(),
            old(self).history().len() < u64::MAX,
        ensures
            final(self).wf(),
            final(self).capacity() == old(self).capacity(),
            final(self).sessions() == old(self).sessions().remove(id),
            forall|j: u128|
                j != id && old(self).sessions().contains_key(j) ==> #[trigger] final(self).outbox(j)
                    == old(self).outbox(j),
            r == old(self).sessions().contains_key(id),
            !r ==> final(self).history() == old(self).history(),
            r ==> final(self).history().drop_last() == old(self).history()
                && final(self).history().len() == old(self).history().len() + 1
                && final(self).history().last().origin == id
                && final(self).history().last().message == (MessageView::UserLeft {
                username: old(self).sessions()[id],
                timestamp: final(self).history().last().message.timestamp(),
            }),
    {
        match self.registry.unregister(id) {
            Some(s) => {
                let left = Message::new_user_left(s.username);
                self.bus.publish(Posting { origin: id, message: left });
                assert(self.bus.history().drop_last() =~= old(self).bus.history());
                true
            },
            None => false,
        }
    }
}

} // verus!
