//! Cutting a byte stream into frames.
//!
//! A frame ends at a line break. Bytes arrive in chunks that know nothing of
//! frames; a [`FrameBuffer`] keeps what has come in after the last line
//! break and hands out each frame as soon as it is complete.

use crate::wire::NEWLINE;
use vstd::prelude::*;

verus! {

/// No line break in `s`.
pub open spec fn unbroken(s: Seq<u8>) -> bool {
    forall|k: int| 0 <= k < s.len() ==> #[trigger] s[k] != NEWLINE
}

/// A frame as it travels: some bytes without a line break, and a line
/// break.
pub open spec fn is_line(frame: Seq<u8>) -> bool {
    frame.len() > 0 && frame.last() == NEWLINE && unbroken(frame.drop_last())
}

/// Every frame is a line.
pub open spec fn all_lines(frames: Seq<Seq<u8>>) -> bool {
    forall|i: int| 0 <= i < frames.len() ==> is_line(#[trigger] frames[i])
}

/// The frames one after the other, as one stream.
pub open spec fn joined(frames: Seq<Seq<u8>>) -> Seq<u8>
    decreases frames.len(),
{
    if frames.len() == 0 {
        Seq::empty()
    } else {
        frames[0] + joined(frames.subrange(1, frames.len() as int))
    }
}

/// Where the first line break of `s` stands; the length of `s` if it has
/// none.
pub open spec fn first_break(s: Seq<u8>) -> int
    decreases s.len(),
{
    if s.len() == 0 {
        0
    } else if s[0] == NEWLINE {
        0
    } else {
        1 + first_break(s.subrange(1, s.len() as int))
    }
}

/// The complete frames of a stream, in order.
pub open spec fn lines_of(stream: Seq<u8>) -> Seq<Seq<u8>>
    decreases stream.len(),
{
    let k = first_break(stream);
    if 0 <= k < stream.len() {
        seq![stream.subrange(0, k + 1)] + lines_of(stream.subrange(k + 1, stream.len() as int))
    } else {
        Seq::empty()
    }
}

/// What follows the last complete frame of a stream.
pub open spec fn remainder_of(stream: Seq<u8>) -> Seq<u8>
    decreases stream.len(),
{
    let k = first_break(stream);
    if 0 <= k < stream.len() {
        remainder_of(stream.subrange(k + 1, stream.len() as int))
    } else {
        stream
    }
}

/// The frames of a vector as contracts speak of them.
pub open spec fn lines_view(frames: Seq<Vec<u8>>) -> Seq<Seq<u8>> {
    Seq::new(frames.len(), |i: int| frames[i]@)
}

/// The first line break of a stream: no line break stands before it, and
/// a stream without a line break has none.
proof fn lemma_first_break(s: Seq<u8>)
    ensures
        0 <= first_break(s) <= s.len(),
        unbroken(s.subrange(0, first_break(s))),
        first_break(s) < s.len() ==> s[first_break(s)] == NEWLINE,
        unbroken(s) <==> first_break(s) == s.len(),
    decreases s.len(),
{
    if s.len() > 0 && s[0] != NEWLINE {
        let rest = s.subrange(1, s.len() as int);
        lemma_first_break(rest);
        let k = first_break(s);
        assert forall|i: int| 0 <= i < k implies #[trigger] s.subrange(0, k)[i] != NEWLINE by {
            if i > 0 {
                assert(rest.subrange(0, k - 1)[i - 1] == s[i]);
            }
        }
        if unbroken(s) {
            assert forall|i: int| 0 <= i < rest.len() implies #[trigger] rest[i] != NEWLINE by {
                assert(rest[i] == s[i + 1]);
            }
        }
        if first_break(s) == s.len() {
            assert(s.subrange(0, k) =~= s);
        }
    } else if s.len() > 0 {
        assert(s[0] == NEWLINE);
    }
}

/// The first line break of a stream that starts with bytes without one
/// stands where those bytes end, or later.
proof fn lemma_first_break_after(head: Seq<u8>, tail: Seq<u8>)
    requires
        unbroken(head),
    ensures
        first_break(head + tail) == head.len() + first_break(tail),
    decreases head.len(),
{
    let s = head + tail;
    if head.len() == 0 {
        assert(s =~= tail);
    } else {
        assert(s[0] == head[0]);
        let rest = head.subrange(1, head.len() as int);
        assert(s.subrange(1, s.len() as int) =~= rest + tail);
        assert forall|i: int| 0 <= i < rest.len() implies #[trigger] rest[i] != NEWLINE by {
            assert(rest[i] == head[i + 1]);
        }
        lemma_first_break_after(rest, tail);
    }
}

/// The frames of a stream and what follows them make up the stream; each
/// frame is a line, and no line break is left behind.
pub proof fn lemma_lines_partition(stream: Seq<u8>)
    ensures
        all_lines(lines_of(stream)),
        unbroken(remainder_of(stream)),
        joined(lines_of(stream)) + remainder_of(stream) == stream,
    decreases stream.len(),
{
    lemma_first_break(stream);
    let k = first_break(stream);
    if k < stream.len() {
        let first = stream.subrange(0, k + 1);
        let rest = stream.subrange(k + 1, stream.len() as int);
        lemma_lines_partition(rest);
        let lines = lines_of(stream);
        assert(first.drop_last() =~= stream.subrange(0, k));
        assert(is_line(first));
        assert forall|i: int| 0 <= i < lines.len() implies is_line(#[trigger] lines[i]) by {
            if i > 0 {
                assert(lines[i] == lines_of(rest)[i - 1]);
            }
        }
        assert(lines.subrange(1, lines.len() as int) =~= lines_of(rest));
        assert(joined(lines) + remainder_of(stream) =~= first + (joined(lines_of(rest))
            + remainder_of(rest)));
        assert(first + rest =~= stream);
    } else {
        assert(joined(lines_of(stream)) + remainder_of(stream) =~= stream);
    }
}

/// A stream that starts with a line has that line as its first frame.
proof fn lemma_lines_of_line(line: Seq<u8>, tail: Seq<u8>)
    requires
        is_line(line),
    ensures
        lines_of(line + tail) == seq![line] + lines_of(tail),
        remainder_of(line + tail) == remainder_of(tail),
{
    let s = line + tail;
    let body = line.drop_last();
    assert(s =~= body + (seq![NEWLINE] + tail));
    lemma_first_break_after(body, seq![NEWLINE] + tail);
    assert(first_break(seq![NEWLINE] + tail) == 0);
    let k = first_break(s);
    assert(k == line.len() - 1);
    assert(s.subrange(0, k + 1) =~= line);
    assert(s.subrange(k + 1, s.len() as int) =~= tail);
}

/// Frames that are written one after the other are read one by one: the
/// stream of whole frames is cut exactly where one frame ends and the next
/// begins, and bytes that do not end a frame yet are kept back.
pub proof fn lemma_lines_of_joined(frames: Seq<Seq<u8>>, rest: Seq<u8>)
    requires
        all_lines(frames),
        unbroken(rest),
    ensures
        lines_of(joined(frames) + rest) == frames,
        remainder_of(joined(frames) + rest) == rest,
    decreases frames.len(),
{
    if frames.len() == 0 {
        assert(joined(frames) + rest =~= rest);
        lemma_first_break(rest);
    } else {
        let tail = frames.subrange(1, frames.len() as int);
        assert(all_lines(tail)) by {
            assert forall|i: int| 0 <= i < tail.len() implies is_line(#[trigger] tail[i]) by {
                assert(tail[i] == frames[i + 1]);
            }
        }
        lemma_lines_of_joined(tail, rest);
        assert(joined(frames) + rest =~= frames[0] + (joined(tail) + rest));
        lemma_lines_of_line(frames[0], joined(tail) + rest);
        assert(seq![frames[0]] + tail =~= frames);
    }
}

/// Bytes that were received and do not end a frame yet.
#[derive(Debug)]
pub struct FrameBuffer {
    pending: Vec<u8>,
}

impl View for FrameBuffer {
    type V = Seq<u8>;

    closed spec fn view(&self) -> Seq<u8> {
        self.pending@
    }
}

impl FrameBuffer {
    #[verifier::type_invariant]
    spec fn valid(self) -> bool {
        unbroken(self.pending@)
    }

    /// A buffer that holds nothing.
    pub fn new() -> (r: FrameBuffer)
        ensures
            r@ == Seq::<u8>::empty(),
    {
        FrameBuffer { pending: Vec::new() }
    }

    /// How many bytes wait for the rest of their frame.
    pub fn len(&self) -> (n: usize)
        ensures
            n == self@.len(),
            unbroken(self@),
    {
        proof {
            use_type_invariant(self);
        }
        self.pending.len()
    }

    /// Takes a chunk of the stream and gives the frames that it completes,
    /// in order, each with its line break. What follows the last of them
    /// waits for the next chunk.
    pub fn push(&mut self, chunk: &[u8]) -> (frames: Vec<Vec<u8>>)
        ensures
            lines_view(frames@) == lines_of(old(self)@ + chunk@),
            final(self)@ == remainder_of(old(self)@ + chunk@),
            unbroken(final(self)@),
    {
        proof {
            use_type_invariant(&*self);
        }
        let ghost stream = self@ + chunk@;
        let mut taken = FrameBuffer::new();
        core::mem::swap(self, &mut taken);
        let mut current: Vec<u8> = taken.pending;
        let mut frames: Vec<Vec<u8>> = Vec::new();
        let mut i: usize = 0;
        assert(lines_view(frames@) =~= Seq::<Seq<u8>>::empty());
        assert(current@ + chunk@.subrange(0, chunk@.len() as int) =~= stream);
        while i < chunk.len()
            invariant
                i <= chunk@.len(),
                unbroken(current@),
                lines_of(stream) == lines_view(frames@) + lines_of(
                    current@ + chunk@.subrange(i as int, chunk@.len() as int),
                ),
                remainder_of(stream) == remainder_of(
                    current@ + chunk@.subrange(i as int, chunk@.len() as int),
                ),
            decreases chunk@.len() - i,
        {
            let ghost before = current@;
            let ghost rest = chunk@.subrange(i as int, chunk@.len() as int);
            let ghost after = chunk@.subrange(i + 1, chunk@.len() as int);
            let ghost done = lines_view(frames@);
            let b: u8 = chunk[i];
            current.push(b);
            assert(before + rest =~= current@ + after);
            if b == NEWLINE {
                proof {
                    assert(current@.drop_last() =~= before);
                    lemma_lines_of_line(current@, after);
                }
                frames.push(current);
                current = Vec::new();
                proof {
                    assert(lines_view(frames@) =~= done.push(before.push(NEWLINE)));
                    assert(current@ + after =~= after);
                    assert(done + (seq![before.push(NEWLINE)] + lines_of(after)) =~= lines_view(
                        frames@,
                    ) + lines_of(after));
                }
            }
            i = i + 1;
        }
        proof {
            assert(current@ + chunk@.subrange(i as int, chunk@.len() as int) =~= current@);
            lemma_first_break(current@);
            assert(lines_view(frames@) + Seq::<Seq<u8>>::empty() =~= lines_view(frames@));
        }
        *self = FrameBuffer { pending: current };
        frames
    }
}

} // verus!
