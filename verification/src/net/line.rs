//! Lines of bounded length, out of bytes that come in pieces.

use vstd::prelude::*;
use vstd::slice::slice_subrange;
use vstd::string::*;

use crate::bytes::put_bytes;
use crate::text::{lossy_text, text_from_utf8_lossy};

verus! {

/// The byte that ends a line.
pub const NEWLINE: u8 = 10;

/// Up to and including the first newline, or everything.
pub open spec fn line_end(s: Seq<u8>) -> nat
    decreases s.len(),
{
    if s.len() == 0 {
        0
    } else if s[0] == NEWLINE {
        1
    } else {
        1 + line_end(s.drop_first())
    }
}

/// What became of reading a line.
#[derive(Debug)]
pub enum LineRead {
    /// A line, its newline included; the last one may lack it.
    Line(String),
    /// The bytes have come to their end before the line.
    End,
    /// The line is longer than allowed.
    TooLong,
}

/// The first line of `s`, of at most `max` bytes.
pub open spec fn first_line(s: Seq<u8>, max: nat) -> (LineReadView, nat) {
    let n = line_end(s);
    if s.len() == 0 {
        (LineReadView::End, 0)
    } else if n > max {
        (LineReadView::TooLong, 0)
    } else {
        (LineReadView::Line(lossy_text(s.take(n as int))), n)
    }
}

/// The content of a [`LineRead`].
pub ghost enum LineReadView {
    Line(Seq<char>),
    End,
    TooLong,
}

impl View for LineRead {
    type V = LineReadView;

    open spec fn view(&self) -> LineReadView {
        match self {
            LineRead::Line(s) => LineReadView::Line(s@),
            LineRead::End => LineReadView::End,
            LineRead::TooLong => LineReadView::TooLong,
        }
    }
}

fn find_line_end(s: &[u8]) -> (r: usize)
    ensures
        r == line_end(s@),
        r <= s@.len(),
{
    let mut i: usize = 0;
    assert(s@.skip(0) =~= s@);
    while i < s.len()
        invariant
            i <= s@.len(),
            i + line_end(s@.skip(i as int)) == line_end(s@),
        decreases s@.len() - i,
    {
        assert(s@.skip(i as int).drop_first() =~= s@.skip(i + 1));
        if s[i] == NEWLINE {
            return i + 1;
        }
        i += 1;
    }
    i
}

/// Read the first line of `s`: what became of it, and how many bytes were
/// used.
pub fn read_line_bounded(s: &[u8], max_bytes: usize) -> (r: (LineRead, usize))
    ensures
        (r.0@, r.1 as nat) == first_line(s@, max_bytes as nat),
{
    if s.len() == 0 {
        return (LineRead::End, 0);
    }
    let n: usize = find_line_end(s);
    if n > max_bytes {
        return (LineRead::TooLong, 0);
    }
    let line = slice_subrange(s, 0, n);
    assert(line@ =~= s@.take(n as int));
    (LineRead::Line(text_from_utf8_lossy(line)), n)
}

/// A line in the making, as bytes come in.
#[derive(Debug)]
pub struct LineBuffer {
    held: Vec<u8>,
}

/// No byte but the last is a newline.
pub open spec fn one_line(s: Seq<u8>) -> bool {
    forall|i: int| 0 <= i < s.len() ==> s[i] != NEWLINE
}

impl LineBuffer {
    /// The bytes of the line so far.
    pub closed spec fn content(&self) -> Seq<u8> {
        self.held@
    }

    pub fn new() -> (r: Self)
        ensures
            r.content() == Seq::<u8>::empty(),
    {
        LineBuffer { held: Vec::new() }
    }

    /// Take bytes that came in, of which none stands for the end. Says how
    /// many of them belong to the line and, where the line is complete or too
    /// long, what became of it.
    pub fn feed(&mut self, available: &[u8], max_bytes: usize) -> (r: (usize, Option<LineRead>))
        requires
            one_line(old(self).content()),
            old(self).content().len() <= max_bytes,
        ensures
            available@.len() == 0 ==> {
                &&& r.0 == 0
                &&& final(self).content() == old(self).content()
                &&& r.1 is Some
                &&& r.1->0@ == if old(self).content().len() == 0 {
                    LineReadView::End
                } else {
                    LineReadView::Line(lossy_text(old(self).content()))
                }
            },
            available@.len() > 0 && old(self).content().len() + line_end(available@) > max_bytes
                ==> {
                &&& r.0 == 0
                &&& final(self).content() == old(self).content()
                &&& r.1 is Some && r.1->0@ == LineReadView::TooLong
            },
            available@.len() > 0 && old(self).content().len() + line_end(available@) <= max_bytes
                ==> {
                let now = old(self).content() + available@.take(line_end(available@) as int);
                &&& r.0 == line_end(available@)
                &&& final(self).content() == now
                &&& now.last() == NEWLINE ==> r.1 is Some && r.1->0@ == LineReadView::Line(
                    lossy_text(now),
                )
                &&& now.last() != NEWLINE ==> r.1 is None && one_line(now) && r.0
                    == available@.len()
            },
    {
        if available.len() == 0 {
            if self.held.len() == 0 {
                return (0, Some(LineRead::End));
            }
            return (0, Some(LineRead::Line(text_from_utf8_lossy(self.held.as_slice()))));
        }
        let n: usize = find_line_end(available);
        if n > max_bytes - self.held.len() {
            return (0, Some(LineRead::TooLong));
        }
        let ghost before = self.held@;
        proof {
            lemma_line_end(available@);
        }
        let piece = slice_subrange(available, 0, n);
        assert(piece@ =~= available@.take(n as int));
        put_bytes(&mut self.held, piece);
        assert(self.held@.last() == available@[n - 1]);
        if self.held[self.held.len() - 1] == NEWLINE {
            return (n, Some(LineRead::Line(text_from_utf8_lossy(self.held.as_slice()))));
        }
        proof {
            let now = before + available@.take(n as int);
            assert forall|i: int| 0 <= i < now.len() implies now[i] != NEWLINE by {
                if i >= before.len() {
                    assert(now[i] == available@[i - before.len()]);
                }
            }
        }
        (n, None)
    }
}

proof fn lemma_line_end(s: Seq<u8>)
    ensures
        s.len() > 0 ==> 0 < line_end(s) <= s.len(),
        forall|i: int| 0 <= i < line_end(s) - 1 ==> s[i] != NEWLINE,
        s.len() > 0 && s[line_end(s) - 1] != NEWLINE ==> line_end(s) == s.len(),
    decreases s.len(),
{
    if s.len() > 0 && s[0] != NEWLINE {
        lemma_line_end(s.drop_first());
        assert forall|i: int| 0 <= i < line_end(s) - 1 implies s[i] != NEWLINE by {
            if i > 0 {
                assert(s.drop_first()[i - 1] == s[i]);
            }
        }
        if s.len() > 1 {
            assert(s.drop_first()[line_end(s) - 2] == s[line_end(s) - 1]);
        }
    }
}

/// The place of the newline does not depend on how the bytes are cut: behind
/// bytes without one it is found in what follows.
proof fn lemma_line_end_after(head: Seq<u8>, tail: Seq<u8>)
    requires
        one_line(head),
    ensures
        line_end(head + tail) == head.len() + line_end(tail),
    decreases head.len(),
{
    let s = head + tail;
    if head.len() > 0 {
        assert(s[0] == head[0]);
        assert(s.drop_first() =~= head.drop_first() + tail);
        assert forall|i: int| 0 <= i < head.drop_first().len() implies head.drop_first()[i]
            != NEWLINE by {
            assert(head.drop_first()[i] == head[i + 1]);
        }
        lemma_line_end_after(head.drop_first(), tail);
    } else {
        assert(s =~= tail);
    }
}

/// A line that comes in pieces is the line that it would be at once: with
/// `held` of it taken and `rest` to come, the first line of both together is
/// `held` with the first line of `rest` behind it, and it is too long in the
/// one way exactly when it is in the other.
pub proof fn law_pieces_make_the_same_line(held: Seq<u8>, rest: Seq<u8>, max: nat)
    requires
        one_line(held),
        rest.len() > 0,
    ensures
        first_line(held + rest, max).0 is TooLong <==> held.len() + line_end(rest) > max,
        held.len() + line_end(rest) <= max ==> first_line(held + rest, max).0
            == LineReadView::Line(lossy_text(held + rest.take(line_end(rest) as int))),
{
    lemma_line_end_after(held, rest);
    lemma_line_end(rest);
    assert((held + rest).take((held.len() + line_end(rest)) as int) =~= held + rest.take(
        line_end(rest) as int,
    ));
}

} // verus!
