//! The broadcast bus: one total order of postings, a bounded window of the
//! most recent ones, and per-subscriber cursors that fault when they fall
//! out of the window.
use vstd::prelude::*;
use crate::message::{Message, MessageView};

verus! {

/// How many postings the bus keeps for slow subscribers by default.
pub const DEFAULT_CAPACITY: usize = 100;

/// An envelope on the bus with the connection that published it.
#[derive(Debug)]
pub struct Posting {
    pub origin: u128,
    pub message: Message,
}

pub struct PostingView {
    pub origin: u128,
    pub message: MessageView,
}

impl View for Posting {
    type V = PostingView;

    open spec fn view(&self) -> PostingView {
        PostingView { origin: self.origin, message: self.message@ }
    }
}

impl Posting {
    pub fn duplicate(&self) -> (r: Posting)
        ensures
            r@ == self@,
    {
        Posting { origin: self.origin, message: self.message.duplicate() }
    }
}

/// Whether connection `own` is shown a posting: everything but its own chat
/// lines.
pub open spec fn shows(own: u128, p: PostingView) -> bool {
    !(p.message.is_text() && p.origin == own)
}

/// The envelopes that connection `own` is shown out of `s`, in order.
pub open spec fn visible(own: u128, s: Seq<PostingView>) -> Seq<MessageView>
    decreases s.len(),
{
    if s.len() == 0 {
        seq![]
    } else {
        let before = visible(own, s.drop_last());
        if shows(own, s.last()) {
            before.push(s.last().message)
        } else {
            before
        }
    }
}

/// What a subscriber gets when it asks the bus for the next posting.
#[derive(Debug)]
pub enum Received {
    /// The next posting in publish order.
    Item(Posting),
    /// Nothing new has been published.
    Empty,
    /// The subscriber fell out of the window; this many postings were lost.
    /// The subscription is over.
    Lagged(u64),
    /// The subscription ended at an earlier lag.
    Closed,
}

/// A subscriber's cursor: the number of the next posting it will receive.
pub struct Subscription {
    next: u64,
    faulted: bool,
}

impl Subscription {
    pub closed spec fn position(&self) -> nat {
        self.next as nat
    }

    pub closed spec fn faulted(&self) -> bool {
        self.faulted
    }

    pub fn is_faulted(&self) -> (r: bool)
        ensures
            r == self.faulted(),
    {
        self.faulted
    }
}

pub struct Bus {
    /// The last `min(published, capacity)` postings, oldest first.
    window: Vec<Posting>,
    published: u64,
    capacity: usize,
    history: Ghost<Seq<PostingView>>,
}

impl Bus {
    /// Every posting ever published, in publish order.
    pub closed spec fn history(&self) -> Seq<PostingView> {
        self.history@
    }

    pub closed spec fn capacity(&self) -> nat {
        self.capacity as nat
    }

    pub closed spec fn wf(&self) -> bool {
        &&& self.capacity > 0
        &&& self.history@.len() == self.published
        &&& self.window@.len() == if self.published < self.capacity {
            self.published as int
        } else {
            self.capacity as int
        }
        &&& forall|i: int|
            0 <= i < self.window@.len() ==> #[trigger] self.window@[i]@ == self.history@[self.published
                - self.window@.len() + i]
    }

    pub fn new(capacity: usize) -> (r: Bus)
        requires
            capacity > 0,
        ensures
            r.wf(),
            r.history() == Seq::<PostingView>::empty(),
            r.capacity() == capacity,
    {
        Bus { window: Vec::new(), published: 0, capacity, history: Ghost(Seq::empty()) }
    }

    pub fn published(&self) -> (r: u64)
        requires
            self.wf(),
        ensures
            r == self.history().len(),
    {
        self.published
    }

    /// Appends a posting; succeeds whether or not anyone listens.
    pub fn publish(&mut self, p: Posting)
        requires
            old(self).wf(),
            old(self).history().len() < u64::MAX,
        ensures
            final(self).wf(),
            final(self).history() == old(self).history().push(p@),
            final(self).capacity() == old(self).capacity(),
    {
        let ghost pv = p@;
        if self.window.len() == self.capacity {
            self.window.remove(0);
        }
        self.window.push(p);
        self.published = self.published + 1;
        self.history = Ghost(self.history@.push(pv));
        assert forall|i: int| 0 <= i < self.window@.len() implies #[trigger] self.window@[i]@
            == self.history@[self.published - self.window@.len() + i] by {
            if i < self.window@.len() - 1 {
                if old(self).window@.len() == old(self).capacity {
                    assert(self.window@[i] == old(self).window@[i + 1]);
                } else {
                    assert(self.window@[i] == old(self).window@[i]);
                }
            }
        }
    }

    /// A cursor that starts at the next posting to be published.
    pub fn subscribe(&self) -> (r: Subscription)
        requires
            self.wf(),
        ensures
            r.position() == self.history().len(),
            !r.faulted(),
    {
        Subscription { next: self.published, faulted: false }
    }

    /// The next posting for `sub`, in publish order.
    pub fn receive(&self, sub: &mut Subscription) -> (r: Received)
        requires
            self.wf(),
        ensures
            old(sub).faulted() ==> r is Closed && *final(sub) == *old(sub),
            !old(sub).faulted() && old(sub).position() >= self.history().len() ==> r is Empty
                && *final(sub) == *old(sub),
            !old(sub).faulted() && old(sub).position() < self.history().len() && self.history().len()
                - old(sub).position() > self.capacity() ==> r == Received::Lagged(
                (self.history().len() - self.capacity() - old(sub).position()) as u64,
            ) && final(sub).faulted(),
            !old(sub).faulted() && old(sub).position() < self.history().len() && self.history().len()
                - old(sub).position() <= self.capacity() ==> (r matches Received::Item(p) && p@
                == self.history()[old(sub).position() as int] && !final(sub).faulted()
                && final(sub).position() == old(sub).position() + 1),
    {
        if sub.faulted {
            return Received::Closed;
        }
        if sub.next >= self.published {
            return Received::Empty;
        }
        let oldest = self.published - self.window.len() as u64;
        if sub.next < oldest {
            let lost = oldest - sub.next;
            sub.faulted = true;
            return Received::Lagged(lost);
        }
        let k = (sub.next - oldest) as usize;
        let p = self.window[k].duplicate();
        sub.next = sub.next + 1;
        Received::Item(p)
    }

    /// The next posting that connection `own` is shown, skipping its own
    /// chat lines.
    pub fn deliver(&self, sub: &mut Subscription, own: u128) -> (r: Received)
        requires
            self.wf(),
        ensures
            old(sub).faulted() ==> r is Closed && *final(sub) == *old(sub),
            !old(sub).faulted() && old(sub).position() < self.history().len() && self.history().len()
                - old(sub).position() > self.capacity() ==> r == Received::Lagged(
                (self.history().len() - self.capacity() - old(sub).position()) as u64,
            ) && final(sub).faulted(),
            !old(sub).faulted() && old(sub).position() <= self.history().len() && self.history().len()
                - old(sub).position() <= self.capacity() ==> {
                let h = self.history();
                let shown = visible(own, h.subrange(old(sub).position() as int, h.len() as int));
                &&& !final(sub).faulted()
                &&& old(sub).position() <= final(sub).position() <= h.len()
                &&& shown.len() == 0 ==> r is Empty && final(sub).position() == h.len()
                &&& shown.len() > 0 ==> (r matches Received::Item(p) && p@.message == shown[0]
                    && p@ == h[final(sub).position() - 1] && visible(
                    own,
                    h.subrange(old(sub).position() as int, final(sub).position() as int),
                ) == seq![p@.message])
            },
    {
        if sub.faulted {
            return Received::Closed;
        }
        let ghost start = sub.next as int;
        let ghost h = self.history();
        loop
            invariant
                self.wf(),
                h == self.history(),
                !sub.faulted,
                !old(sub).faulted,
                start == old(sub).next,
                start <= sub.next,
                start <= h.len() ==> sub.next <= h.len(),
                start <= h.len() ==> visible(own, h.subrange(start, sub.next as int)) == Seq::<
                    MessageView,
                >::empty(),
                start < sub.next ==> h.len() - start <= self.capacity,
            decreases self.published - sub.next,
        {
            let ghost before = sub.next as int;
            let r = self.receive(sub);
            match r {
                Received::Item(p) => {
                    proof {
                        let s = h.subrange(start, sub.next as int);
                        assert(s.drop_last() =~= h.subrange(start, before));
                        assert(s.last() == p@);
                    }
                    if p.message.is_text() && p.origin == own {
                    } else {
                        proof {
                            lemma_visible_split(
                                own,
                                h.subrange(start, sub.next as int),
                                h.subrange(sub.next as int, h.len() as int),
                            );
                            assert(h.subrange(start, sub.next as int) + h.subrange(
                                sub.next as int,
                                h.len() as int,
                            ) =~= h.subrange(start, h.len() as int));
                        }
                        return Received::Item(p);
                    }
                },
                Received::Empty => {
                    proof {
                        if start <= h.len() {
                            assert(h.subrange(start, h.len() as int) =~= h.subrange(
                                start,
                                sub.next as int,
                            ));
                        }
                    }
                    return r;
                },
                _ => {
                    return r;
                },
            }
        }
    }
}

/// The envelopes shown out of a run of postings are those shown out of its
/// first part followed by those shown out of the rest: successive deliveries
/// add up to the whole run in publish order.
pub proof fn lemma_visible_split(own: u128, s: Seq<PostingView>, t: Seq<PostingView>)
    ensures
        visible(own, s + t) == visible(own, s) + visible(own, t),
    decreases t.len(),
{
    if t.len() == 0 {
        assert(s + t =~= s);
        assert(visible(own, s) + visible(own, t) =~= visible(own, s));
    } else {
        lemma_visible_split(own, s, t.drop_last());
        assert((s + t).drop_last() =~= s + t.drop_last());
        assert((s + t).last() == t.last());
        assert(visible(own, s + t) =~= visible(own, s) + visible(own, t));
    }
}

} // verus!
