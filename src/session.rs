//! The read-dispatch-write session as a state machine.
//!
//! The session never touches a stream or the handler itself. Whoever runs
//! it performs each [`Action`] that [`Session::step`] returns and reports
//! how it went with the matching [`Event`]. Requests are answered one at a
//! time: no read is asked for before the reply to the current request has
//! been written, so replies leave in the order their requests came in.
use vstd::prelude::*;
use vstd::utf8::{decode_utf8, encode_utf8, valid_utf8};
use crate::framer::{lines_of, nl_index, strip_cr, LineFramer, NL};

verus! {

/// Why a session stopped without reaching the end of its input.
#[derive(Debug, Clone, Copy, PartialEq, Eq, Structural)]
pub enum SessionError {
    /// Reading the input stream failed.
    Read,
    /// A request line is not well-formed UTF-8 text.
    InvalidText,
    /// Writing or flushing a reply failed.
    Write,
}

/// Where a session stands.
#[derive(Debug, Clone, Copy, PartialEq, Eq, Structural)]
pub enum Phase {
    /// Waiting for bytes from the input stream.
    Reading,
    /// Waiting for the handler to answer the current request.
    Dispatching,
    /// Waiting for the current reply to be written and flushed.
    Writing,
    /// The input ended and every request was answered.
    Closed,
    /// The session stopped on an error.
    Failed,
}

/// What happened since the last action.
#[derive(Debug)]
pub enum Event {
    /// These bytes were read from the input stream.
    Received(Vec<u8>),
    /// The input stream ended.
    EndOfInput,
    /// Reading the input stream failed.
    ReadFailed,
    /// The handler answered, with a response or with none.
    Replied(Option<String>),
    /// The handler failed on the request.
    HandlerFailed,
    /// The reply was written and flushed.
    Written,
    /// Writing or flushing the reply failed.
    WriteFailed,
}

/// What the session asks to be done next.
#[derive(Debug, PartialEq, Eq)]
pub enum Action {
    /// Read more bytes from the input stream.
    Read,
    /// Hand this request to the handler.
    Dispatch(String),
    /// Write these bytes, a reply with its line end, and flush.
    Write(Vec<u8>),
    /// The session is over, with this result.
    Done(Result<(), SessionError>),
}

/// The mathematical content of an [`Action`].
pub ghost enum ActionView {
    Read,
    Dispatch(Seq<char>),
    Write(Seq<u8>),
    Done(Result<(), SessionError>),
}

impl View for Action {
    type V = ActionView;

    open spec fn view(&self) -> ActionView {
        match self {
            Action::Read => ActionView::Read,
            Action::Dispatch(s) => ActionView::Dispatch(s@),
            Action::Write(b) => ActionView::Write(b@),
            Action::Done(r) => ActionView::Done(*r),
        }
    }
}

/// The text of an optional response.
pub open spec fn reply_text(reply: Option<String>) -> Option<Seq<char>> {
    match reply {
        Some(s) => Some(s@),
        None => None,
    }
}

/// The bytes written for a handler's outcome: the response's UTF-8 bytes,
/// or nothing when there is no response, then one line feed.
pub open spec fn reply_line(reply: Option<Seq<char>>) -> Seq<u8> {
    match reply {
        Some(t) => encode_utf8(t).push(NL),
        None => seq![NL],
    }
}

/// The next line that a framer holding `pending` gives, once the stream has
/// ended if `at_eof`.
pub open spec fn next_of(pending: Seq<u8>, at_eof: bool) -> Option<Seq<u8>> {
    let i = nl_index(pending);
    if i >= 0 {
        Some(strip_cr(pending.subrange(0, i)))
    } else if at_eof && pending.len() > 0 {
        Some(strip_cr(pending))
    } else {
        None
    }
}

/// The request lines after taking `line`, if there is one, after `requests`.
pub open spec fn taken(requests: Seq<Seq<u8>>, line: Option<Seq<u8>>) -> Seq<Seq<u8>> {
    match line {
        Some(l) => requests.push(l),
        None => requests,
    }
}

/// What the session asks for once it is free to take the next line `line`.
pub open spec fn pumped(line: Option<Seq<u8>>, at_eof: bool) -> ActionView {
    match line {
        Some(l) => if valid_utf8(l) {
            ActionView::Dispatch(decode_utf8(l))
        } else {
            ActionView::Done(Err(SessionError::InvalidText))
        },
        None => if at_eof {
            ActionView::Done(Ok(()))
        } else {
            ActionView::Read
        },
    }
}

/// The phase in which a session waits after asking for `a`.
pub open spec fn phase_after(a: ActionView) -> Phase {
    match a {
        ActionView::Read => Phase::Reading,
        ActionView::Dispatch(_) => Phase::Dispatching,
        ActionView::Write(_) => Phase::Writing,
        ActionView::Done(Ok(())) => Phase::Closed,
        ActionView::Done(Err(_)) => Phase::Failed,
    }
}

/// Relies on std::str::from_utf8: it accepts exactly the well-formed UTF-8
/// byte sequences, and its text is the one that they encode.
#[verifier::external_body]
fn text_of(bytes: &[u8]) -> (r: Option<String>)
    ensures
        r is Some <==> valid_utf8(bytes@),
        r is Some ==> r.unwrap()@ == decode_utf8(bytes@),
{
    match std::str::from_utf8(bytes) {
        Ok(s) => Some(String::from(s)),
        Err(_) => None,
    }
}

/// The bytes to write for a handler's outcome: the response, or an empty
/// line where there is none, and the line end.
pub fn reply_bytes(reply: &Option<String>) -> (r: Vec<u8>)
    ensures
        r@ == reply_line(reply_text(*reply)),
{
    let mut out: Vec<u8> = Vec::new();
    match reply {
        Some(s) => {
            let b = s.as_str().as_bytes();
            let mut k: usize = 0;
            while k < b.len()
                invariant
                    k <= b@.len(),
                    out@ == b@.subrange(0, k as int),
                decreases b@.len() - k,
            {
                out.push(b[k]);
                proof {
                    assert(b@.subrange(0, k + 1) =~= b@.subrange(0, k as int).push(b@[k as int]));
                }
                k = k + 1;
            }
            proof {
                assert(b@.subrange(0, b@.len() as int) =~= b@);
            }
        },
        None => {},
    }
    out.push(NL);
    proof {
        if reply.is_none() {
            assert(out@ =~= seq![NL]);
        }
    }
    out
}

/// One session: the framer over its input and the state of the current request.
pub struct Session {
    framer: LineFramer,
    phase: Phase,
    at_eof: bool,
    outcomes: Ghost<Seq<Option<Seq<char>>>>,
    written: Ghost<Seq<Seq<u8>>>,
}

impl Session {
    /// Where the session stands.
    pub closed spec fn current_phase(&self) -> Phase {
        self.phase
    }

    /// Whether the input stream has ended.
    pub closed spec fn at_eof(&self) -> bool {
        self.at_eof
    }

    /// Every byte read from the input stream, in order.
    pub closed spec fn received(&self) -> Seq<u8> {
        self.framer.received()
    }

    /// Bytes read and not yet part of a request line.
    pub closed spec fn pending(&self) -> Seq<u8> {
        self.framer.pending()
    }

    /// Every request line taken from the input, in order.
    pub closed spec fn requests(&self) -> Seq<Seq<u8>> {
        self.framer.delivered()
    }

    /// The handler's outcome for each request answered so far, in order;
    /// `None` where it gave no response or failed.
    pub closed spec fn outcomes(&self) -> Seq<Option<Seq<char>>> {
        self.outcomes@
    }

    /// Every reply line written and flushed, in order.
    pub closed spec fn written(&self) -> Seq<Seq<u8>> {
        self.written@
    }

    /// The session's invariant.
    pub closed spec fn wf(&self) -> bool {
        &&& self.framer.wf()
        &&& self.framer.is_ended() ==> self.at_eof
        &&& self.phase == Phase::Reading ==> !self.at_eof
        &&& self.phase == Phase::Closed ==> self.framer.is_ended()
        &&& self.written@.len() <= self.outcomes@.len() <= self.framer.delivered().len()
        &&& forall|k: int|
            0 <= k < self.written@.len() ==> #[trigger] self.written@[k] == reply_line(
                self.outcomes@[k],
            )
        &&& self.phase != Phase::Failed ==> {
            &&& forall|k: int|
                0 <= k < self.framer.delivered().len() ==> valid_utf8(
                    #[trigger] self.framer.delivered()[k],
                )
            &&& self.outcomes@.len() + (if self.phase == Phase::Dispatching {
                1int
            } else {
                0
            }) == self.framer.delivered().len()
            &&& self.written@.len() + (if self.phase == Phase::Writing {
                1int
            } else {
                0
            }) == self.outcomes@.len()
        }
    }

    /// The events that the session waits for in its current phase.
    pub open spec fn expects(&self, e: Event) -> bool {
        match e {
            Event::Received(_) | Event::EndOfInput | Event::ReadFailed => self.current_phase()
                == Phase::Reading,
            Event::Replied(_) | Event::HandlerFailed => self.current_phase() == Phase::Dispatching,
            Event::Written | Event::WriteFailed => self.current_phase() == Phase::Writing,
        }
    }

    /// A session that has read nothing; its first action is to read.
    pub fn new() -> (r: Session)
        ensures
            r.wf(),
            r.current_phase() == Phase::Reading,
            !r.at_eof(),
            r.received() == Seq::<u8>::empty(),
            r.pending() == Seq::<u8>::empty(),
            r.requests() == Seq::<Seq<u8>>::empty(),
            r.outcomes() == Seq::<Option<Seq<char>>>::empty(),
            r.written() == Seq::<Seq<u8>>::empty(),
    {
        Session {
            framer: LineFramer::new(),
            phase: Phase::Reading,
            at_eof: false,
            outcomes: Ghost(Seq::empty()),
            written: Ghost(Seq::empty()),
        }
    }

    /// Where the session stands.
    pub fn phase(&self) -> (r: Phase)
        ensures
            r == self.current_phase(),
    {
        self.phase
    }

    /// Whether the session waits for `e` now.
    pub fn accepts(&self, e: &Event) -> (r: bool)
        ensures
            r == self.expects(*e),
    {
        match e {
            Event::Received(_) | Event::EndOfInput | Event::ReadFailed => self.phase
                == Phase::Reading,
            Event::Replied(_) | Event::HandlerFailed => self.phase == Phase::Dispatching,
            Event::Written | Event::WriteFailed => self.phase == Phase::Writing,
        }
    }

    /// Takes in what happened and says what to do next.
    ///
    /// A handler's failure is answered like a request with no response, by
    /// an empty line, and the session goes on. A failed read or write ends
    /// the session with an error and no further reads.
    pub fn step(&mut self, e: Event) -> (r: Action)
        requires
            old(self).wf(),
            old(self).expects(e),
        ensures
            final(self).wf(),
            final(self).current_phase() == phase_after(r@),
            match r@ {
                ActionView::Dispatch(t) => {
                    &&& final(self).requests().len() > 0
                    &&& t == decode_utf8(final(self).requests().last())
                },
                _ => true,
            },
            match e {
                Event::EndOfInput => final(self).at_eof(),
                _ => final(self).at_eof() == old(self).at_eof(),
            },
            match e {
                Event::Received(b) => {
                    &&& final(self).received() == old(self).received() + b@
                    &&& r@ == pumped(next_of(old(self).pending() + b@, false), false)
                    &&& final(self).requests() == taken(
                        old(self).requests(),
                        next_of(old(self).pending() + b@, false),
                    )
                    &&& !final(self).at_eof()
                    &&& final(self).outcomes() == old(self).outcomes()
                    &&& final(self).written() == old(self).written()
                },
                Event::EndOfInput => {
                    &&& final(self).received() == old(self).received()
                    &&& final(self).at_eof()
                    &&& r@ == pumped(next_of(old(self).pending(), true), true)
                    &&& final(self).requests() == taken(
                        old(self).requests(),
                        next_of(old(self).pending(), true),
                    )
                    &&& final(self).outcomes() == old(self).outcomes()
                    &&& final(self).written() == old(self).written()
                },
                Event::ReadFailed => {
                    &&& r@ == ActionView::Done(Err(SessionError::Read))
                    &&& final(self).received() == old(self).received()
                    &&& final(self).requests() == old(self).requests()
                    &&& final(self).outcomes() == old(self).outcomes()
                    &&& final(self).written() == old(self).written()
                },
                Event::Replied(o) => {
                    &&& r@ == ActionView::Write(reply_line(reply_text(o)))
                    &&& final(self).outcomes() == old(self).outcomes().push(reply_text(o))
                    &&& final(self).received() == old(self).received()
                    &&& final(self).requests() == old(self).requests()
                    &&& final(self).written() == old(self).written()
                },
                Event::HandlerFailed => {
                    &&& r@ == ActionView::Write(seq![NL])
                    &&& final(self).outcomes() == old(self).outcomes().push(None)
                    &&& final(self).received() == old(self).received()
                    &&& final(self).requests() == old(self).requests()
                    &&& final(self).written() == old(self).written()
                },
                Event::Written => {
                    &&& final(self).written() == old(self).written().push(
                        reply_line(old(self).outcomes().last()),
                    )
                    &&& r@ == pumped(next_of(old(self).pending(), old(self).at_eof()), old(self).at_eof())
                    &&& final(self).requests() == taken(
                        old(self).requests(),
                        next_of(old(self).pending(), old(self).at_eof()),
                    )
                    &&& final(self).at_eof() == old(self).at_eof()
                    &&& final(self).received() == old(self).received()
                    &&& final(self).outcomes() == old(self).outcomes()
                },
                Event::WriteFailed => {
                    &&& r@ == ActionView::Done(Err(SessionError::Write))
                    &&& final(self).received() == old(self).received()
                    &&& final(self).requests() == old(self).requests()
                    &&& final(self).outcomes() == old(self).outcomes()
                    &&& final(self).written() == old(self).written()
                },
            },
    {
        match e {
            Event::Received(b) => {
                self.framer.feed(b.as_slice());
                self.pump()
            },
            Event::EndOfInput => {
                self.at_eof = true;
                self.pump()
            },
            Event::ReadFailed => {
                self.phase = Phase::Failed;
                Action::Done(Err(SessionError::Read))
            },
            Event::Replied(o) => {
                let bytes = reply_bytes(&o);
                proof {
                    self.outcomes@ = self.outcomes@.push(reply_text(o));
                }
                self.phase = Phase::Writing;
                Action::Write(bytes)
            },
            Event::HandlerFailed => {
                let bytes = reply_bytes(&None);
                proof {
                    self.outcomes@ = self.outcomes@.push(None);
                }
                self.phase = Phase::Writing;
                Action::Write(bytes)
            },
            Event::Written => {
                proof {
                    self.written@ = self.written@.push(reply_line(self.outcomes@.last()));
                }
                self.pump()
            },
            Event::WriteFailed => {
                self.phase = Phase::Failed;
                Action::Done(Err(SessionError::Write))
            },
        }
    }

    /// Replies go out one per request, in the order of the requests, each
    /// the reply line for the handler's outcome on that request; the
    /// requests are the lines of the input, in order.
    pub proof fn lemma_replies_in_order(&self)
        requires
            self.wf(),
        ensures
            self.written().len() <= self.outcomes().len() <= self.requests().len(),
            self.requests().len() <= lines_of(self.received()).len(),
            self.requests() == lines_of(self.received()).subrange(0, self.requests().len() as int),
            forall|k: int|
                0 <= k < self.written().len() ==> #[trigger] self.written()[k] == reply_line(
                    self.outcomes()[k],
                ),
    {
        self.framer.lemma_lines_accounted();
        let d = self.framer.delivered();
        let all = lines_of(self.received());
        assert(all.subrange(0, d.len() as int) =~= d);
    }

    /// Once the input has ended cleanly, every line of the input was handed
    /// to the handler, including a last line without a line end, and every
    /// one of them was answered by exactly one reply line, in order.
    pub proof fn lemma_clean_end(&self)
        requires
            self.wf(),
            self.current_phase() == Phase::Closed,
        ensures
            self.requests() == lines_of(self.received()),
            self.outcomes().len() == self.requests().len(),
            self.written().len() == self.requests().len(),
            forall|k: int|
                0 <= k < self.written().len() ==> #[trigger] self.written()[k] == reply_line(
                    self.outcomes()[k],
                ),
    {
        self.framer.lemma_lines_accounted();
    }

    /// With a handler that never gives a response, every reply line is empty.
    pub proof fn lemma_silent_handler(&self)
        requires
            self.wf(),
            forall|k: int| 0 <= k < self.outcomes().len() ==> #[trigger] self.outcomes()[k] is None,
        ensures
            forall|k: int| 0 <= k < self.written().len() ==> #[trigger] self.written()[k] == seq![NL],
    {
        assert forall|k: int| 0 <= k < self.written().len() implies #[trigger] self.written()[k]
            == seq![NL] by {
            assert(self.written@[k] == reply_line(self.outcomes@[k]));
            assert(self.outcomes()[k] is None);
        }
    }

    /// A session that has ended, cleanly or on an error, waits for no event:
    /// in particular it asks for no further read.
    pub proof fn lemma_ended_is_final(&self, e: Event)
        requires
            self.current_phase() == Phase::Closed || self.current_phase() == Phase::Failed,
        ensures
            !self.expects(e),
    {
    }

    /// Takes the next line, if there is one, and decides what comes next.
    fn pump(&mut self) -> (r: Action)
        requires
            old(self).framer.wf(),
            old(self).framer.is_ended() ==> old(self).at_eof,
            old(self).written@.len() == old(self).outcomes@.len(),
            old(self).outcomes@.len() == old(self).framer.delivered().len(),
            forall|k: int|
                0 <= k < old(self).written@.len() ==> #[trigger] old(self).written@[k]
                    == reply_line(old(self).outcomes@[k]),
            forall|k: int|
                0 <= k < old(self).framer.delivered().len() ==> valid_utf8(
                    #[trigger] old(self).framer.delivered()[k],
                ),
        ensures
            final(self).wf(),
            r@ == pumped(next_of(old(self).pending(), old(self).at_eof), old(self).at_eof),
            final(self).current_phase() == phase_after(r@),
            final(self).received() == old(self).received(),
            final(self).at_eof == old(self).at_eof,
            final(self).outcomes() == old(self).outcomes(),
            final(self).written() == old(self).written(),
            final(self).requests() == taken(
                old(self).requests(),
                next_of(old(self).pending(), old(self).at_eof),
            ),
    {
        let line = if self.at_eof {
            self.framer.finish()
        } else {
            self.framer.next_line()
        };
        match line {
            Some(bytes) => match text_of(bytes.as_slice()) {
                Some(t) => {
                    self.phase = Phase::Dispatching;
                    proof {
                        assert forall|k: int|
                            0 <= k < self.framer.delivered().len() implies valid_utf8(
                            #[trigger] self.framer.delivered()[k],
                        ) by {
                            if k < old(self).framer.delivered().len() {
                                assert(self.framer.delivered()[k] == old(
                                    self,
                                ).framer.delivered()[k]);
                            }
                        }
                    }
                    Action::Dispatch(t)
                },
                None => {
                    self.phase = Phase::Failed;
                    Action::Done(Err(SessionError::InvalidText))
                },
            },
            None => {
                if self.at_eof {
                    self.phase = Phase::Closed;
                    Action::Done(Ok(()))
                } else {
                    self.phase = Phase::Reading;
                    Action::Read
                }
            },
        }
    }
}

} // verus!
