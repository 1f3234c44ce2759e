//! The single-writer relay: one queue for everything that goes to the
//! socket.
//!
//! Commands and liveness probes come from different producers. Each hands
//! over a whole frame; the one writer takes the frames out in the order in
//! which they came in and writes each of them as a whole, so the bytes of
//! two frames never mix on the wire.

use crate::framing::{all_lines, joined, lemma_lines_of_joined, lines_of};
use std::collections::VecDeque;
use vstd::prelude::*;

verus! {

/// The frames of a queue as contracts speak of them.
pub open spec fn queued(frames: Seq<Vec<u8>>) -> Seq<Seq<u8>> {
    Seq::new(frames.len(), |i: int| frames[i]@)
}

/// The frames that wait to be written, oldest first.
#[derive(Debug)]
pub struct WriteQueue {
    frames: VecDeque<Vec<u8>>,
}

impl View for WriteQueue {
    type V = Seq<Seq<u8>>;

    closed spec fn view(&self) -> Seq<Seq<u8>> {
        queued(self.frames@)
    }
}

impl WriteQueue {
    /// A queue that holds nothing.
    pub fn new() -> (queue: WriteQueue)
        ensures
            queue@ == Seq::<Seq<u8>>::empty(),
    {
        let queue = WriteQueue { frames: VecDeque::new() };
        assert(queue@ =~= Seq::<Seq<u8>>::empty());
        queue
    }

    /// How many frames wait.
    pub fn len(&self) -> (n: usize)
        ensures
            n == self@.len(),
    {
        self.frames.len()
    }

    /// Puts a frame behind those that wait.
    pub fn enqueue(&mut self, frame: Vec<u8>)
        ensures
            final(self)@ == old(self)@.push(frame@),
    {
        self.frames.push_back(frame);
        assert(self@ =~= old(self)@.push(frame@));
    }

    /// Takes out the frame that has waited longest, to be written as a
    /// whole.
    pub fn next(&mut self) -> (frame: Option<Vec<u8>>)
        ensures
            match frame {
                Some(bytes) => old(self)@.len() > 0 && bytes@ == old(self)@[0] && final(self)@
                    == old(self)@.subrange(1, old(self)@.len() as int),
                None => old(self)@.len() == 0 && final(self)@ == old(self)@,
            },
    {
        let frame = self.frames.pop_front();
        assert(frame is Some ==> self@ =~= old(self)@.subrange(1, old(self)@.len() as int));
        frame
    }
}

/// What reaches the wire when frames go through the relay is the frames
/// one after the other, and whoever reads that stream line by line gets
/// each frame as it was handed in: none is cut, none is mixed with another.
pub proof fn lemma_frames_stay_whole(frames: Seq<Seq<u8>>)
    requires
        all_lines(frames),
    ensures
        lines_of(joined(frames)) == frames,
{
    lemma_lines_of_joined(frames, Seq::empty());
    assert(joined(frames) + Seq::<u8>::empty() =~= joined(frames));
}

} // verus!
