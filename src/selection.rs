//! Text selected with the mouse in the transcript: from one point to
//! another, where a point is a message index and a character offset in it.
use vstd::prelude::*;

verus! {

pub open spec fn min_of(a: int, b: int) -> int {
    if a < b {
        a
    } else {
        b
    }
}

/// The two ends of a selection, earlier point first.
pub open spec fn in_order(a: (usize, usize), b: (usize, usize)) -> ((usize, usize), (usize, usize)) {
    if a.0 > b.0 || (a.0 == b.0 && a.1 > b.1) {
        (b, a)
    } else {
        (a, b)
    }
}

/// What message `i`, with characters `msg`, adds to the selection from `s`
/// to `e`: the covered characters, and a line break after every line but
/// the last.
pub open spec fn line_part(msg: Seq<char>, i: int, s: (usize, usize), e: (usize, usize)) -> Seq<
    char,
> {
    let n = msg.len() as int;
    if s.0 == e.0 {
        msg.subrange(min_of(s.1 as int, n), min_of(e.1 as int, n))
    } else if i == s.0 {
        msg.subrange(min_of(s.1 as int, n), n).push('\n')
    } else if i == e.0 {
        msg.subrange(0, min_of(e.1 as int, n))
    } else {
        msg.push('\n')
    }
}

/// The selected text that messages `s.0` up to, not including, `k` hold.
pub open spec fn selected_upto(
    msgs: Seq<Seq<char>>,
    s: (usize, usize),
    e: (usize, usize),
    k: int,
) -> Seq<char>
    decreases k - s.0,
{
    if k <= s.0 || k > msgs.len() {
        seq![]
    } else {
        selected_upto(msgs, s, e, k - 1) + line_part(msgs[k - 1], k - 1, s, e)
    }
}

/// The text selected between points `a` and `b` of the transcript `msgs`.
pub open spec fn selected_text(msgs: Seq<Seq<char>>, a: (usize, usize), b: (usize, usize)) -> Seq<
    char,
> {
    let s = in_order(a, b).0;
    let e = in_order(a, b).1;
    selected_upto(msgs, s, e, min_of(e.0 + 1, msgs.len() as int))
}

pub open spec fn texts(messages: Seq<String>) -> Seq<Seq<char>> {
    messages.map_values(|m: String| m@)
}

/// The mouse selection: where it started, where it ends, and whether the
/// button is still held.
pub struct Selection {
    pub start: Option<(usize, usize)>,
    pub end: Option<(usize, usize)>,
    pub selecting: bool,
}

/// Rows above the transcript: the title and its rule.
pub const HEADER_ROWS: u16 = 2;

impl Selection {
    pub fn new() -> (r: Selection)
        ensures
            r.start is None && r.end is None && !r.selecting,
    {
        Selection { start: None, end: None, selecting: false }
    }

    /// A press at column `x`, row `y` starts a selection there, unless it
    /// falls on the header.
    pub fn press(&mut self, x: u16, y: u16)
        ensures
            y >= HEADER_ROWS ==> final(self).start == Some(((y - HEADER_ROWS) as usize, x as usize))
                && final(self).selecting && final(self).end == old(self).end,
            y < HEADER_ROWS ==> *final(self) == *old(self),
    {
        if y >= HEADER_ROWS {
            self.start = Some(((y - HEADER_ROWS) as usize, x as usize));
            self.selecting = true;
        }
    }

    /// A drag to column `x`, row `y` moves the end of a selection in
    /// progress.
    pub fn drag(&mut self, x: u16, y: u16)
        ensures
            old(self).selecting && y >= HEADER_ROWS ==> final(self).end == Some(
                ((y - HEADER_ROWS) as usize, x as usize),
            ) && final(self).start == old(self).start && final(self).selecting,
            !(old(self).selecting && y >= HEADER_ROWS) ==> *final(self) == *old(self),
    {
        if self.selecting && y >= HEADER_ROWS {
            self.end = Some(((y - HEADER_ROWS) as usize, x as usize));
        }
    }

    /// Releasing the button keeps the selection.
    pub fn release(&mut self)
        ensures
            final(self).start == old(self).start && final(self).end == old(self).end
                && !final(self).selecting,
    {
        self.selecting = false;
    }

    pub fn clear(&mut self)
        ensures
            final(self).start is None && final(self).end is None && !final(self).selecting,
    {
        self.start = None;
        self.end = None;
        self.selecting = false;
    }

    /// The selected text of `messages`, once both ends are set.
    pub fn text(&self, messages: &Vec<String>) -> (r: Option<String>)
        ensures
            match (self.start, self.end) {
                (Some(a), Some(b)) => r matches Some(t) && t@ == selected_text(
                    texts(messages@),
                    a,
                    b,
                ),
                _ => r is None,
            },
    {
        let (a, b) = match (self.start, self.end) {
            (Some(a), Some(b)) => (a, b),
            _ => {
                return None;
            },
        };
        let (s, e) = if a.0 > b.0 || (a.0 == b.0 && a.1 > b.1) {
            (b, a)
        } else {
            (a, b)
        };
        let ghost msgs = texts(messages@);
        let n = messages.len();
        let stop = if e.0 < n {
            e.0 + 1
        } else {
            n
        };
        let mut out = String::new();
        let mut k = s.0;
        while k < stop
            invariant
                s.0 <= k,
                k <= stop || k == s.0,
                stop <= n == messages@.len() == msgs.len(),
                msgs == texts(messages@),
                e.0 >= s.0,
                s.0 == e.0 ==> s.1 <= e.1,
                out@ == selected_upto(msgs, s, e, k as int),
            decreases stop - k,
        {
            proof {
                reveal_strlit("\n");
            }
            let ghost prev = out@;
            let msg = messages[k].as_str();
            assert(msg@ == msgs[k as int]);
            let len = msg.unicode_len();
            let from = if s.1 < len {
                s.1
            } else {
                len
            };
            let to = if e.1 < len {
                e.1
            } else {
                len
            };
            if s.0 == e.0 {
                out.append(msg.substring_char(from, to));
            } else if k == s.0 {
                out.append(msg.substring_char(from, len));
                out.append("\n");
            } else if k == e.0 {
                out.append(msg.substring_char(0, to));
            } else {
                out.append(msg);
                out.append("\n");
            }
            proof {
                assert(out@ =~= prev + line_part(msgs[k as int], k as int, s, e));
                assert(out@ =~= selected_upto(msgs, s, e, k as int) + line_part(
                    msgs[k as int],
                    k as int,
                    s,
                    e,
                ));
            }
            k += 1;
        }
        Some(out)
    }
}

} // verus!
