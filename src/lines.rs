//! Line source: cuts a byte stream, handed over chunk by chunk, into lines.
//!
//! A line runs up to and including the first newline byte; after the end of
//! the stream, what is left without a newline is a last line of its own.
use vstd::prelude::*;
use crate::codec::copy_range;

verus! {

pub const NEWLINE: u8 = 0x0a;

pub open spec fn has_newline(s: Seq<u8>) -> bool {
    exists|i: int| 0 <= i < s.len() && s[i] == NEWLINE
}

/// Length of the first line of `s`, its newline included (all of `s` when
/// there is none).
pub open spec fn first_line_len(s: Seq<u8>) -> nat
    decreases s.len(),
{
    if s.len() == 0 {
        0
    } else if s[0] == NEWLINE {
        1
    } else {
        1 + first_line_len(s.drop_first())
    }
}

/// The lines of a complete stream, in order.
pub open spec fn split_lines(s: Seq<u8>) -> Seq<Seq<u8>>
    decreases s.len(),
{
    if s.len() == 0 {
        seq![]
    } else {
        let n = first_line_len(s);
        if 0 < n <= s.len() {
            seq![s.take(n as int)].add(split_lines(s.skip(n as int)))
        } else {
            seq![]
        }
    }
}

proof fn lemma_first_line_len_bounds(s: Seq<u8>)
    ensures
        first_line_len(s) <= s.len(),
        s.len() > 0 ==> first_line_len(s) > 0,
    decreases s.len(),
{
    if s.len() > 0 {
        lemma_first_line_len_bounds(s.drop_first());
    }
}

/// The first line ends at the first newline, or with `s`.
proof fn lemma_first_line_len(s: Seq<u8>, j: int)
    requires
        0 <= j <= s.len(),
        forall|i: int| 0 <= i < j ==> s[i] != NEWLINE,
        j < s.len() ==> s[j] == NEWLINE,
    ensures
        first_line_len(s) == if j < s.len() { j + 1 } else { j },
        has_newline(s) <==> j < s.len(),
    decreases s.len(),
{
    if j < s.len() {
        assert(s[j] == NEWLINE);
    }
    if s.len() > 0 && j > 0 {
        let t = s.drop_first();
        assert forall|i: int| 0 <= i < j - 1 implies t[i] != NEWLINE by {
            assert(t[i] == s[i + 1]);
        }
        lemma_first_line_len(t, j - 1);
        if has_newline(t) {
            let i = choose|i: int| 0 <= i < t.len() && t[i] == NEWLINE;
            assert(s[i + 1] == NEWLINE);
        }
        if has_newline(s) {
            let i = choose|i: int| 0 <= i < s.len() && s[i] == NEWLINE;
            assert(i > 0);
            assert(t[i - 1] == NEWLINE);
        }
    }
}

/// What `next_line` hands back.
pub enum Pull {
    /// A whole line, its newline included if it had one.
    Line(Vec<u8>),
    /// No whole line is buffered yet: feed the next chunk.
    NeedInput,
    /// The stream has ended and every line has been handed out.
    End,
}

/// Buffers the part of the stream that has not yet been handed out as lines.
pub struct LineSource {
    buf: Vec<u8>,
    start: usize,
    ended: bool,
}

impl LineSource {
    pub closed spec fn wf(&self) -> bool {
        self.start <= self.buf@.len()
    }

    /// The bytes fed and not yet handed out.
    pub closed spec fn pending(&self) -> Seq<u8> {
        self.buf@.skip(self.start as int)
    }

    /// Whether the stream has reported its end.
    pub closed spec fn ended(&self) -> bool {
        self.ended
    }

    pub fn new() -> (r: LineSource)
        ensures
            r.wf(),
            r.pending() == Seq::<u8>::empty(),
            !r.ended(),
    {
        let r = LineSource { buf: Vec::new(), start: 0, ended: false };
        assert(r.pending() =~= Seq::<u8>::empty());
        r
    }

    pub fn is_ended(&self) -> (r: bool)
        ensures
            r == self.ended(),
    {
        self.ended
    }

    /// Takes the next chunk read from the stream; an empty chunk is the end
    /// of the stream.
    pub fn feed(&mut self, chunk: &[u8])
        requires
            old(self).wf(),
        ensures
            final(self).wf(),
            final(self).pending() == old(self).pending() + chunk@,
            final(self).ended() == (old(self).ended() || chunk@.len() == 0),
    {
        if chunk.len() == 0 {
            self.ended = true;
            assert(self.pending() =~= old(self).pending() + chunk@);
            return;
        }
        let mut buf = copy_range(self.buf.as_slice(), self.start, self.buf.len());
        let mut i: usize = 0;
        while i < chunk.len()
            invariant
                i <= chunk@.len(),
                buf@ == old(self).pending() + chunk@.take(i as int),
            decreases chunk@.len() - i,
        {
            buf.push(chunk[i]);
            i = i + 1;
            assert(buf@ =~= old(self).pending() + chunk@.take(i as int));
        }
        assert(chunk@.take(i as int) =~= chunk@);
        self.buf = buf;
        self.start = 0;
        assert(self.pending() =~= self.buf@);
    }

    /// Hands out the next whole line, if one is buffered; at the end of the
    /// stream, also the unterminated rest.
    pub fn next_line(&mut self) -> (r: Pull)
        requires
            old(self).wf(),
        ensures
            final(self).wf(),
            final(self).ended() == old(self).ended(),
            ({
                let p = old(self).pending();
                let n = first_line_len(p) as int;
                if has_newline(p) || (old(self).ended() && p.len() > 0) {
                    &&& r matches Pull::Line(l) && l@ == p.take(n)
                    &&& final(self).pending() == p.skip(n)
                    &&& 0 < n <= p.len()
                } else {
                    &&& final(self).pending() == p
                    &&& if old(self).ended() {
                        r is End
                    } else {
                        r is NeedInput
                    }
                }
            }),
    {
        let ghost p = self.pending();
        let len = self.buf.len();
        let mut j: usize = self.start;
        while j < len && self.buf[j] != NEWLINE
            invariant
                self.start <= j <= len,
                len == self.buf@.len(),
                p == self.buf@.skip(self.start as int),
                forall|i: int| self.start <= i < j ==> self.buf@[i] != NEWLINE,
            decreases len - j,
        {
            j = j + 1;
        }
        proof {
            let k = j - self.start;
            assert forall|i: int| 0 <= i < k implies p[i] != NEWLINE by {
                assert(p[i] == self.buf@[self.start + i]);
            }
            if j < len {
                assert(p[k] == self.buf@[j as int]);
            }
            lemma_first_line_len(p, k);
        }
        if j < len {
            let line = copy_range(self.buf.as_slice(), self.start, j + 1);
            assert(line@ =~= p.take(j + 1 - self.start));
            self.start = j + 1;
            assert(self.pending() =~= p.skip(j + 1 - old(self).start));
            Pull::Line(line)
        } else if self.ended && self.start < len {
            let line = copy_range(self.buf.as_slice(), self.start, len);
            assert(line@ =~= p.take(len - self.start));
            self.start = len;
            assert(self.pending() =~= p.skip(len - old(self).start));
            Pull::Line(line)
        } else if self.ended {
            Pull::End
        } else {
            Pull::NeedInput
        }
    }
}

/// A stream's lines are its first line followed by the lines of the rest.
pub proof fn lemma_split_lines_step(s: Seq<u8>)
    requires
        s.len() > 0,
    ensures
        0 < first_line_len(s) <= s.len(),
        split_lines(s) == seq![s.take(first_line_len(s) as int)].add(
            split_lines(s.skip(first_line_len(s) as int)),
        ),
{
    lemma_first_line_len_bounds(s);
}

/// The bytes of `lines` written one after another.
pub open spec fn joined(lines: Seq<Seq<u8>>) -> Seq<u8>
    decreases lines.len(),
{
    if lines.len() == 0 {
        seq![]
    } else {
        lines[0] + joined(lines.drop_first())
    }
}

/// A line that ends in a newline and holds no other.
pub open spec fn is_terminated_line(l: Seq<u8>) -> bool {
    &&& l.len() > 0
    &&& l.last() == NEWLINE
    &&& forall|i: int| 0 <= i < l.len() - 1 ==> l[i] != NEWLINE
}

/// Lines that each end in their one newline, written one after another, are
/// cut back into the same lines.
pub proof fn lemma_split_joined(lines: Seq<Seq<u8>>)
    requires
        forall|i: int| 0 <= i < lines.len() ==> is_terminated_line(#[trigger] lines[i]),
    ensures
        split_lines(joined(lines)) == lines,
    decreases lines.len(),
{
    if lines.len() == 0 {
        assert(split_lines(joined(lines)) =~= lines);
    } else {
        let l = lines[0];
        let tail = lines.drop_first();
        let s = joined(lines);
        assert(is_terminated_line(l));
        assert(s == l + joined(tail));
        let k = l.len() - 1;
        assert forall|i: int| 0 <= i < k implies s[i] != NEWLINE by {
            assert(s[i] == l[i]);
        }
        assert(s[k] == l[k]);
        lemma_first_line_len(s, k);
        lemma_split_lines_step(s);
        assert(s.take(l.len() as int) =~= l);
        assert(s.skip(l.len() as int) =~= joined(tail));
        assert forall|i: int| 0 <= i < tail.len() implies is_terminated_line(#[trigger] tail[i]) by {
            assert(tail[i] == lines[i + 1]);
        }
        lemma_split_joined(tail);
        assert(split_lines(s) =~= lines);
    }
}

/// A stream has at most as many lines as bytes.
pub proof fn lemma_split_lines_len(s: Seq<u8>)
    ensures
        split_lines(s).len() <= s.len(),
    decreases s.len(),
{
    if s.len() > 0 {
        lemma_split_lines_step(s);
        lemma_split_lines_len(s.skip(first_line_len(s) as int));
    }
}

} // verus!
