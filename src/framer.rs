//! Splitting an input byte stream into request lines.
//!
//! A line ends at `\n`; one `\r` just before the `\n` is dropped with it.
//! Bytes left after the last `\n` when the stream ends form one last line.
use vstd::prelude::*;

verus! {

/// The line feed byte.
pub const NL: u8 = 10;

/// The carriage return byte.
pub const CR: u8 = 13;

/// Index of the first line feed in `s`, or -1 when there is none.
pub open spec fn nl_index(s: Seq<u8>) -> int
    decreases s.len(),
{
    if s.len() == 0 {
        -1
    } else if s[0] == NL {
        0
    } else {
        let r = nl_index(s.drop_first());
        if r < 0 {
            -1
        } else {
            r + 1
        }
    }
}

/// `i` is the position of the first line feed in `s`.
pub open spec fn is_first_nl(s: Seq<u8>, i: int) -> bool {
    &&& 0 <= i < s.len()
    &&& s[i] == NL
    &&& forall|j: int| 0 <= j < i ==> s[j] != NL
}

/// `s` holds no line feed.
pub open spec fn no_nl(s: Seq<u8>) -> bool {
    forall|j: int| 0 <= j < s.len() ==> s[j] != NL
}

/// The text of a line: its bytes without one trailing carriage return.
pub open spec fn strip_cr(s: Seq<u8>) -> Seq<u8> {
    if s.len() > 0 && s.last() == CR {
        s.drop_last()
    } else {
        s
    }
}

/// The lines of a whole stream `s` that ended cleanly after its last byte.
pub open spec fn lines_of(s: Seq<u8>) -> Seq<Seq<u8>>
    decreases s.len(),
{
    let i = nl_index(s);
    if i < 0 || i >= s.len() {
        if s.len() == 0 {
            seq![]
        } else {
            seq![strip_cr(s)]
        }
    } else {
        seq![strip_cr(s.subrange(0, i))] + lines_of(s.subrange(i + 1, s.len() as int))
    }
}

/// The recursive index agrees with the direct description of the first line feed.
pub proof fn lemma_nl_index(s: Seq<u8>)
    ensures
        nl_index(s) < 0 <==> no_nl(s),
        nl_index(s) >= 0 ==> is_first_nl(s, nl_index(s)),
        nl_index(s) >= -1,
    decreases s.len(),
{
    if s.len() > 0 && s[0] != NL {
        let t = s.drop_first();
        lemma_nl_index(t);
        assert forall|j: int| 0 < j < s.len() implies s[j] == t[j - 1] by {}
        if nl_index(t) < 0 {
            assert forall|j: int| 0 <= j < s.len() implies s[j] != NL by {
                if j > 0 {
                    assert(t[j - 1] != NL);
                }
            }
        } else {
            assert(s[nl_index(t) + 1] == t[nl_index(t)]);
            assert(!no_nl(s)) by {
                assert(s[nl_index(t) + 1] == NL);
            }
            assert forall|j: int| 0 <= j < nl_index(t) + 1 implies s[j] != NL by {
                if j > 0 {
                    assert(t[j - 1] != NL);
                }
            }
        }
    } else if s.len() > 0 {
        assert(!no_nl(s)) by {
            assert(s[0] == NL);
        }
    }
}

/// The first line feed, found directly, is the one that `nl_index` names.
pub proof fn lemma_first_nl_unique(s: Seq<u8>, i: int)
    requires
        is_first_nl(s, i),
    ensures
        nl_index(s) == i,
{
    lemma_nl_index(s);
    let k = nl_index(s);
    if k >= 0 {
        if k < i {
            assert(s[k] != NL);
        } else if i < k {
            assert(s[i] != NL);
        }
    } else {
        assert(s[i] != NL);
    }
}

/// Splitting at a line end: the lines of `a + b` are those of `a`, then those of `b`.
pub proof fn lemma_lines_concat(a: Seq<u8>, b: Seq<u8>)
    requires
        a.len() == 0 || a.last() == NL,
    ensures
        lines_of(a + b) == lines_of(a) + lines_of(b),
    decreases a.len(),
{
    if a.len() == 0 {
        assert(a + b =~= b);
        assert(lines_of(a) =~= seq![]);
        assert(lines_of(a + b) =~= lines_of(a) + lines_of(b));
    } else {
        lemma_nl_index(a);
        assert(!no_nl(a)) by {
            assert(a[a.len() - 1] == NL);
        }
        let i = nl_index(a);
        let ab = a + b;
        assert(is_first_nl(ab, i)) by {
            assert forall|j: int| 0 <= j < i implies ab[j] != NL by {
                assert(ab[j] == a[j]);
            }
            assert(ab[i] == a[i]);
        }
        lemma_first_nl_unique(ab, i);
        let rest = a.subrange(i + 1, a.len() as int);
        assert(rest.len() == 0 || rest.last() == NL) by {
            if rest.len() > 0 {
                assert(rest.last() == a.last());
            }
        }
        lemma_lines_concat(rest, b);
        assert(ab.subrange(0, i) =~= a.subrange(0, i));
        assert(ab.subrange(i + 1, ab.len() as int) =~= rest + b);
        assert(lines_of(ab) =~= lines_of(a) + lines_of(b));
    }
}

/// A line that ends the stream unterminated is one last line.
pub proof fn lemma_lines_unterminated(s: Seq<u8>)
    requires
        no_nl(s),
        s.len() > 0,
    ensures
        lines_of(s) == seq![strip_cr(s)],
{
    lemma_nl_index(s);
}

/// A stream that ends with bytes after its last line feed has one more
/// line than its terminated part: those bytes, without a trailing carriage
/// return.
pub proof fn lemma_trailing_line(a: Seq<u8>, t: Seq<u8>)
    requires
        a.len() == 0 || a.last() == NL,
        no_nl(t),
        t.len() > 0,
    ensures
        lines_of(a + t) == lines_of(a).push(strip_cr(t)),
{
    lemma_lines_concat(a, t);
    lemma_lines_unterminated(t);
    assert(lines_of(a) + seq![strip_cr(t)] =~= lines_of(a).push(strip_cr(t)));
}

/// A buffer that splits an input byte stream into lines as they complete.
pub struct LineFramer {
    pending: Vec<u8>,
    ended: bool,
    received: Ghost<Seq<u8>>,
    consumed: Ghost<Seq<u8>>,
    delivered: Ghost<Seq<Seq<u8>>>,
}

impl LineFramer {
    /// Bytes received and not yet handed out as part of a line.
    pub closed spec fn pending(&self) -> Seq<u8> {
        self.pending@
    }

    /// Every byte fed so far, in order.
    pub closed spec fn received(&self) -> Seq<u8> {
        self.received@
    }

    /// Every line handed out so far, in order.
    pub closed spec fn delivered(&self) -> Seq<Seq<u8>> {
        self.delivered@
    }

    /// Whether the end of the stream has been reached and its last line taken.
    pub closed spec fn is_ended(&self) -> bool {
        self.ended
    }

    /// The framer's invariant.
    pub closed spec fn wf(&self) -> bool {
        &&& self.received@ == self.consumed@ + self.pending@
        &&& self.delivered@ == lines_of(self.consumed@)
        &&& self.ended ==> self.pending@.len() == 0
        &&& !self.ended ==> (self.consumed@.len() == 0 || self.consumed@.last() == NL)
    }

    /// The lines handed out, followed by the lines still buffered, are the
    /// lines of everything received; once ended, nothing is left buffered.
    pub proof fn lemma_lines_accounted(&self)
        requires
            self.wf(),
        ensures
            self.delivered() + lines_of(self.pending()) == lines_of(self.received()),
            self.is_ended() ==> self.delivered() == lines_of(self.received()),
    {
        if self.ended {
            assert(self.pending@ =~= seq![]);
            assert(lines_of(self.pending@) =~= seq![]);
            assert(self.received@ =~= self.consumed@);
            assert(self.delivered() + lines_of(self.pending()) =~= self.delivered());
        } else {
            lemma_lines_concat(self.consumed@, self.pending@);
        }
    }

    /// A framer that has received nothing.
    pub fn new() -> (r: LineFramer)
        ensures
            r.wf(),
            r.received() == Seq::<u8>::empty(),
            r.pending() == Seq::<u8>::empty(),
            r.delivered() == Seq::<Seq<u8>>::empty(),
            !r.is_ended(),
    {
        let r = LineFramer {
            pending: Vec::new(),
            ended: false,
            received: Ghost(Seq::empty()),
            consumed: Ghost(Seq::empty()),
            delivered: Ghost(Seq::empty()),
        };
        proof {
            assert(r.received@ =~= r.consumed@ + r.pending@);
            assert(lines_of(Seq::<u8>::empty()) =~= Seq::<Seq<u8>>::empty());
        }
        r
    }

    /// Appends bytes read from the stream.
    pub fn feed(&mut self, data: &[u8])
        requires
            old(self).wf(),
            !old(self).is_ended(),
        ensures
            final(self).wf(),
            !final(self).is_ended(),
            final(self).received() == old(self).received() + data@,
            final(self).pending() == old(self).pending() + data@,
            final(self).delivered() == old(self).delivered(),
    {
        let ghost old_pending = self.pending@;
        let mut k: usize = 0;
        while k < data.len()
            invariant
                k <= data@.len(),
                self.pending@ == old_pending + data@.subrange(0, k as int),
                self.received == old(self).received,
                self.consumed == old(self).consumed,
                self.delivered == old(self).delivered,
                self.ended == old(self).ended,
            decreases data@.len() - k,
        {
            self.pending.push(data[k]);
            proof {
                assert(old_pending + data@.subrange(0, k + 1) =~= (old_pending + data@.subrange(
                    0,
                    k as int,
                )).push(data@[k as int]));
            }
            k = k + 1;
        }
        proof {
            assert(data@.subrange(0, data@.len() as int) =~= data@);
            self.received@ = self.received@ + data@;
            assert(self.received@ =~= self.consumed@ + self.pending@);
        }
    }

    /// Takes the next complete line out of the buffer, without its line end.
    pub fn next_line(&mut self) -> (r: Option<Vec<u8>>)
        requires
            old(self).wf(),
        ensures
            final(self).wf(),
            final(self).received() == old(self).received(),
            final(self).is_ended() == old(self).is_ended(),
            ({
                let p = old(self).pending();
                let i = nl_index(p);
                if i >= 0 {
                    &&& r is Some
                    &&& r.unwrap()@ == strip_cr(p.subrange(0, i))
                    &&& final(self).pending() == p.subrange(i + 1, p.len() as int)
                    &&& final(self).delivered() == old(self).delivered().push(r.unwrap()@)
                } else {
                    &&& r is None
                    &&& final(self).pending() == p
                    &&& final(self).delivered() == old(self).delivered()
                }
            }),
    {
        let ghost p = self.pending@;
        proof {
            lemma_nl_index(p);
        }
        let mut i: usize = 0;
        while i < self.pending.len() && self.pending[i] != NL
            invariant
                self.pending@ == p,
                i <= p.len(),
                forall|j: int| 0 <= j < i ==> p[j] != NL,
            decreases p.len() - i,
        {
            i = i + 1;
        }
        if i == self.pending.len() {
            proof {
                assert(no_nl(p));
            }
            return None;
        }
        proof {
            lemma_first_nl_unique(p, i as int);
        }
        let rest = self.pending.split_off(i + 1);
        let mut line = self.pending.split_off(0);
        self.pending = rest;
        line.truncate(i);
        if i > 0 && line[i - 1] == CR {
            line.truncate(i - 1);
        }
        proof {
            let chunk = p.subrange(0, i + 1);
            let old_consumed = self.consumed@;
            assert(p =~= chunk + self.pending@);
            assert(is_first_nl(chunk, i as int));
            lemma_first_nl_unique(chunk, i as int);
            assert(chunk.subrange(0, i as int) =~= p.subrange(0, i as int));
            assert(chunk.subrange(i + 1, chunk.len() as int) =~= Seq::<u8>::empty());
            assert(lines_of(Seq::<u8>::empty()) =~= Seq::<Seq<u8>>::empty());
            assert(lines_of(chunk) =~= seq![strip_cr(p.subrange(0, i as int))]);
            assert(line@ =~= strip_cr(p.subrange(0, i as int)));
            lemma_lines_concat(old_consumed, chunk);
            self.consumed@ = old_consumed + chunk;
            self.delivered@ = self.delivered@.push(line@);
            assert(self.delivered@ =~= lines_of(self.consumed@));
            assert(self.received@ =~= self.consumed@ + self.pending@);
            assert(self.consumed@.last() == NL);
        }
        Some(line)
    }

    /// Takes the next line once the stream has ended: a complete line while
    /// one is buffered, then the unterminated rest as one last line if any
    /// bytes are left, then `None`.
    pub fn finish(&mut self) -> (r: Option<Vec<u8>>)
        requires
            old(self).wf(),
        ensures
            final(self).wf(),
            final(self).received() == old(self).received(),
            ({
                let p = old(self).pending();
                let i = nl_index(p);
                if i >= 0 {
                    &&& r is Some
                    &&& r.unwrap()@ == strip_cr(p.subrange(0, i))
                    &&& final(self).pending() == p.subrange(i + 1, p.len() as int)
                    &&& final(self).delivered() == old(self).delivered().push(r.unwrap()@)
                    &&& final(self).is_ended() == old(self).is_ended()
                } else if p.len() > 0 {
                    &&& r is Some
                    &&& r.unwrap()@ == strip_cr(p)
                    &&& final(self).pending() == Seq::<u8>::empty()
                    &&& final(self).delivered() == old(self).delivered().push(r.unwrap()@)
                    &&& final(self).is_ended()
                } else {
                    &&& r is None
                    &&& final(self).pending() == p
                    &&& final(self).delivered() == old(self).delivered()
                    &&& final(self).is_ended()
                }
            }),
            r is None ==> final(self).delivered() == lines_of(final(self).received()),
    {
        let ghost p = self.pending@;
        let found = self.next_line();
        if found.is_some() {
            return found;
        }
        proof {
            lemma_nl_index(p);
        }
        if self.pending.len() == 0 {
            self.ended = true;
            proof {
                assert(self.received@ =~= self.consumed@);
            }
            return None;
        }
        let mut line = self.pending.split_off(0);
        let n = line.len();
        if line[n - 1] == CR {
            line.truncate(n - 1);
        }
        self.ended = true;
        proof {
            let old_consumed = self.consumed@;
            lemma_lines_unterminated(p);
            lemma_lines_concat(old_consumed, p);
            self.consumed@ = old_consumed + p;
            self.delivered@ = self.delivered@.push(line@);
            assert(line@ =~= strip_cr(p));
            assert(self.delivered@ =~= lines_of(self.consumed@));
            assert(self.received@ =~= self.consumed@ + self.pending@);
        }
        Some(line)
    }
}

} // verus!
