//! The connection registry: the live sessions, keyed by an identity that is
//! drawn fresh for each connection and never derived from the username.
use vstd::prelude::*;

verus! {

/// One live connection: its identity, its username and the handle of its
/// outbound queue.
pub struct Session<H> {
    pub id: u128,
    pub username: String,
    pub outbox: H,
}

/// An identity was registered twice.
#[derive(Debug, Clone, Copy, PartialEq, Eq, Structural)]
pub struct RegistryViolation;

/// The map from identity to username that a list of sessions stands for.
pub open spec fn directory<H>(s: Seq<Session<H>>) -> Map<u128, Seq<char>>
    decreases s.len(),
{
    if s.len() == 0 {
        Map::empty()
    } else {
        directory(s.drop_last()).insert(s.last().id, s.last().username@)
    }
}

pub open spec fn unique_ids<H>(s: Seq<Session<H>>) -> bool {
    forall|i: int, j: int| 0 <= i < j < s.len() ==> s[i].id != s[j].id
}

proof fn lemma_directory<H>(s: Seq<Session<H>>)
    requires
        unique_ids(s),
    ensures
        forall|id: u128|
            #[trigger] directory(s).contains_key(id) <==> exists|i: int|
                0 <= i < s.len() && s[i].id == id,
        forall|i: int| 0 <= i < s.len() ==> #[trigger] directory(s)[s[i].id] == s[i].username@,
    decreases s.len(),
{
    if s.len() > 0 {
        let t = s.drop_last();
        let last = s.last();
        assert(unique_ids(t));
        lemma_directory(t);
        assert(directory(s) == directory(t).insert(last.id, last.username@));
        assert forall|id: u128| #[trigger] directory(s).contains_key(id) implies exists|i: int|
            0 <= i < s.len() && s[i].id == id by {
            if id != last.id {
                assert(directory(t).contains_key(id));
                let i = choose|i: int| 0 <= i < t.len() && t[i].id == id;
                assert(t[i] == s[i]);
            } else {
                assert(s[s.len() - 1].id == id);
            }
        }
        assert forall|id: u128| (exists|i: int| 0 <= i < s.len() && s[i].id == id) implies #[trigger]
            directory(s).contains_key(id) by {
            let i = choose|i: int| 0 <= i < s.len() && s[i].id == id;
            if i < s.len() - 1 {
                assert(t[i] == s[i]);
                assert(directory(t).contains_key(t[i].id));
            }
        }
        assert forall|i: int| 0 <= i < s.len() implies #[trigger] directory(s)[s[i].id]
            == s[i].username@ by {
            if i < s.len() - 1 {
                assert(t[i] == s[i]);
                assert(s[i].id != last.id);
                assert(directory(t)[t[i].id] == t[i].username@);
            }
        }
    }
}

proof fn lemma_directory_remove<H>(s: Seq<Session<H>>, k: int)
    requires
        unique_ids(s),
        0 <= k < s.len(),
    ensures
        directory(s.remove(k)) == directory(s).remove(s[k].id),
    decreases s.len(),
{
    let t = s.drop_last();
    lemma_directory(t);
    if k == s.len() - 1 {
        assert(s.remove(k) =~= t);
        assert(!directory(t).contains_key(s[k].id));
        assert(directory(s).remove(s[k].id) =~= directory(t));
    } else {
        lemma_directory_remove(t, k);
        assert(s.remove(k).drop_last() =~= t.remove(k));
        assert(s.remove(k).last() == s.last());
        assert(s[k].id != s.last().id);
        assert(directory(s.remove(k)) =~= directory(s).remove(s[k].id));
    }
}

/// Where identity `id` sits in `s`.
pub open spec fn slot<H>(s: Seq<Session<H>>, id: u128) -> int {
    choose|i: int| 0 <= i < s.len() && s[i].id == id
}

proof fn lemma_slot<H>(s: Seq<Session<H>>, k: int)
    requires
        unique_ids(s),
        0 <= k < s.len(),
    ensures
        slot(s, s[k].id) == k,
{
    assert(0 <= k < s.len() && s[k].id == s[k].id);
    let i = slot(s, s[k].id);
    assert(0 <= i < s.len() && s[i].id == s[k].id);
    if i < k {
        assert(s[i].id != s[k].id);
    } else if i > k {
        assert(s[k].id != s[i].id);
    }
}

/// Relies on uuid::Uuid::new_v4 and Uuid::as_u128: a random version 4
/// identifier as one 128-bit number; its version nibble is 4.
#[verifier::external_body]
pub(crate) fn fresh_id() -> (r: u128)
    ensures
        (r >> 76u128) & 0xfu128 == 4,
{
    uuid::Uuid::new_v4().as_u128()
}

pub struct Registry<H> {
    sessions: Vec<Session<H>>,
}

impl<H> View for Registry<H> {
    type V = Map<u128, Seq<char>>;

    closed spec fn view(&self) -> Map<u128, Seq<char>> {
        directory(self.sessions@)
    }
}

impl<H> Registry<H> {
    pub closed spec fn wf(&self) -> bool {
        unique_ids(self.sessions@)
    }

    /// The outbound queue handle of live session `id`.
    pub closed spec fn outbox(&self, id: u128) -> H {
        self.sessions@[slot(self.sessions@, id)].outbox
    }

    pub fn new() -> (r: Registry<H>)
        ensures
            r.wf(),
            r@ == Map::<u128, Seq<char>>::empty(),
    {
        Registry { sessions: Vec::new() }
    }

    fn index_of(&self, id: u128) -> (r: Option<usize>)
        requires
            self.wf(),
        ensures
            r matches Some(k) ==> k < self.sessions@.len() && self.sessions@[k as int].id == id,
            r is None ==> forall|i: int| 0 <= i < self.sessions@.len() ==> self.sessions@[i].id != id,
    {
        let mut k: usize = 0;
        while k < self.sessions.len()
            invariant
                k <= self.sessions@.len(),
                forall|i: int| 0 <= i < k ==> self.sessions@[i].id != id,
            decreases self.sessions@.len() - k,
        {
            if self.sessions[k].id == id {
                return Some(k);
            }
            k += 1;
        }
        None
    }

    pub fn contains(&self, id: u128) -> (r: bool)
        requires
            self.wf(),
        ensures
            r == self@.contains_key(id),
    {
        proof {
            lemma_directory(self.sessions@);
        }
        self.index_of(id).is_some()
    }

    /// The username of a live session.
    pub fn username_of(&self, id: u128) -> (r: Option<&String>)
        requires
            self.wf(),
        ensures
            r is Some <==> self@.contains_key(id),
            r matches Some(u) ==> u@ == self@[id],
    {
        proof {
            lemma_directory(self.sessions@);
        }
        match self.index_of(id) {
            Some(k) => Some(&self.sessions[k].username),
            None => None,
        }
    }

    /// The outbound queue handle of a live session.
    pub fn outbox_of(&self, id: u128) -> (r: Option<&H>)
        requires
            self.wf(),
        ensures
            r is Some <==> self@.contains_key(id),
            r matches Some(o) ==> *o == self.outbox(id),
    {
        proof {
            lemma_directory(self.sessions@);
        }
        match self.index_of(id) {
            Some(k) => {
                proof {
                    lemma_slot(self.sessions@, k as int);
                }
                Some(&self.sessions[k].outbox)
            },
            None => None,
        }
    }

    /// Adds a session; an identity that is already present is refused and
    /// the registry left as it was.
    pub fn register(&mut self, session: Session<H>) -> (r: Result<(), RegistryViolation>)
        requires
            old(self).wf(),
        ensures
            final(self).wf(),
            r is Ok <==> !old(self)@.contains_key(session.id),
            r is Ok ==> final(self)@ == old(self)@.insert(session.id, session.username@),
            r is Ok ==> final(self).outbox(session.id) == session.outbox,
            r is Err ==> final(self)@ == old(self)@,
            forall|j: u128|
                old(self)@.contains_key(j) ==> #[trigger] final(self).outbox(j) == old(self).outbox(
                    j,
                ),
    {
        proof {
            lemma_directory(self.sessions@);
        }
        if self.index_of(session.id).is_some() {
            return Err(RegistryViolation);
        }
        let ghost before = self.sessions@;
        let ghost sid = session.id;
        self.sessions.push(session);
        assert(self.sessions@.drop_last() =~= before);
        proof {
            let n = self.sessions@.len() - 1;
            lemma_slot(self.sessions@, n);
            assert forall|j: u128| old(self)@.contains_key(j) implies #[trigger] self.outbox(j)
                == old(self).outbox(j) by {
                let i = choose|i: int| 0 <= i < before.len() && before[i].id == j;
                lemma_slot(before, i);
                assert(self.sessions@[i] == before[i]);
                lemma_slot(self.sessions@, i);
            }
        }
        Ok(())
    }

    /// Removes the session with this identity, if there is one, and hands it
    /// back. Removing an absent identity changes nothing.
    pub fn unregister(&mut self, id: u128) -> (r: Option<Session<H>>)
        requires
            old(self).wf(),
        ensures
            final(self).wf(),
            final(self)@ == old(self)@.remove(id),
            r is Some <==> old(self)@.contains_key(id),
            r matches Some(s) ==> s.id == id && s.username@ == old(self)@[id],
            forall|j: u128|
                j != id && old(self)@.contains_key(j) ==> #[trigger] final(self).outbox(j) == old(
                    self,
                ).outbox(j),
    {
        proof {
            lemma_directory(self.sessions@);
        }
        match self.index_of(id) {
            Some(k) => {
                proof {
                    lemma_directory_remove(self.sessions@, k as int);
                }
                let s = self.sessions.remove(k);
                assert(unique_ids(self.sessions@)) by {
                    assert forall|i: int, j: int|
                        0 <= i < j < self.sessions@.len() implies self.sessions@[i].id
                        != self.sessions@[j].id by {
                        let oi = if i < k { i } else { i + 1 };
                        let oj = if j < k { j } else { j + 1 };
                        assert(self.sessions@[i] == old(self).sessions@[oi]);
                        assert(self.sessions@[j] == old(self).sessions@[oj]);
                    }
                }
                proof {
                    assert forall|j: u128| j != id && old(self)@.contains_key(j) implies #[trigger]
                        self.outbox(j) == old(self).outbox(j) by {
                        let before = old(self).sessions@;
                        let i = choose|i: int| 0 <= i < before.len() && before[i].id == j;
                        lemma_slot(before, i);
                        assert(i != k);
                        let ni = if i < k { i } else { i - 1 };
                        assert(self.sessions@[ni] == before[i]);
                        lemma_slot(self.sessions@, ni);
                    }
                }
                Some(s)
            },
            None => {
                assert(old(self)@.remove(id) =~= old(self)@);
                None
            },
        }
    }

    /// Draws a fresh identity and registers a session under it.
    pub fn enroll(&mut self, username: String, outbox: H) -> (r: Result<u128, RegistryViolation>)
        requires
            old(self).wf(),
        ensures
            final(self).wf(),
            r matches Ok(id) ==> !old(self)@.contains_key(id) && final(self)@ == old(self)@.insert(
                id,
                username@,
            ),
            r is Err ==> final(self)@ == old(self)@,
            r is Err ==> exists|i: u128| old(self)@.contains_key(i),
    {
        let id = fresh_id();
        match self.register(Session { id, username, outbox }) {
            Ok(()) => Ok(id),
            Err(e) => {
                assert(old(self)@.contains_key(id));
                Err(e)
            },
        }
    }

    /// The live sessions as (identity, username) pairs, oldest first; each
    /// identity once.
    pub fn snapshot(&self) -> (r: Vec<(u128, String)>)
        requires
            self.wf(),
        ensures
            forall|i: int|
                0 <= i < r@.len() ==> self@.contains_key(#[trigger] r@[i].0) && self@[r@[i].0]
                    == r@[i].1@,
            forall|id: u128| #[trigger]
                self@.contains_key(id) ==> exists|i: int| 0 <= i < r@.len() && r@[i].0 == id,
            forall|i: int, j: int| 0 <= i < j < r@.len() ==> r@[i].0 != r@[j].0,
    {
        proof {
            lemma_directory(self.sessions@);
        }
        let mut out: Vec<(u128, String)> = Vec::new();
        let mut k: usize = 0;
        while k < self.sessions.len()
            invariant
                k <= self.sessions@.len(),
                out@.len() == k,
                forall|i: int|
                    0 <= i < k ==> (#[trigger] out@[i]).0 == self.sessions@[i].id && out@[i].1@
                        == self.sessions@[i].username@,
            decreases self.sessions@.len() - k,
        {
            let s = &self.sessions[k];
            out.push((s.id, s.username.clone()));
            k += 1;
        }
        assert forall|id: u128| #[trigger] self@.contains_key(id) implies exists|i: int|
            0 <= i < out@.len() && out@[i].0 == id by {
            let i = choose|i: int| 0 <= i < self.sessions@.len() && self.sessions@[i].id == id;
            assert(out@[i].0 == id);
        }
        assert forall|i: int| 0 <= i < out@.len() implies self@.contains_key(#[trigger] out@[i].0)
            && self@[out@[i].0] == out@[i].1@ by {
            assert(out@[i].0 == self.sessions@[i].id);
        }
        assert forall|i: int, j: int| 0 <= i < j < out@.len() implies out@[i].0 != out@[j].0 by {
            assert(out@[i].0 == self.sessions@[i].id);
            assert(out@[j].0 == self.sessions@[j].id);
        }
        out
    }
}

/// Removing an identity a second time changes nothing more than removing it
/// once.
pub proof fn lemma_unregister_idempotent(m: Map<u128, Seq<char>>, id: u128)
    ensures
        m.remove(id).remove(id) == m.remove(id),
{
    assert(m.remove(id).remove(id) =~= m.remove(id));
}

} // verus!
