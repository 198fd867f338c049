//! The bytes that a serial line delivered and that wait to be handed out.
use std::collections::VecDeque;
use vstd::prelude::*;

verus! {

/// The bytes that the last read of a serial line delivered and that have not
/// been handed out yet, oldest first.
pub struct Backlog {
    waiting: VecDeque<u8>,
}

impl View for Backlog {
    type V = Seq<u8>;

    /// The bytes that wait, oldest first.
    closed spec fn view(&self) -> Seq<u8> {
        self.waiting@
    }
}

impl Backlog {
    /// A backlog in which nothing waits.
    pub fn new() -> (r: Self)
        ensures
            r@ == Seq::<u8>::empty(),
    {
        Backlog { waiting: VecDeque::new() }
    }

    /// Takes in what one read of the line delivered, and tells whether it
    /// delivered anything.
    ///
    /// Bytes that were delivered take the place of those that waited. A read
    /// that delivered nothing leaves the backlog as it was: the line is to
    /// be read again.
    pub fn refill(&mut self, delivered: &[u8]) -> (filled: bool)
        ensures
            filled == (delivered@.len() > 0),
            final(self)@ == if filled {
                delivered@
            } else {
                old(self)@
            },
    {
        if delivered.len() == 0 {
            return false;
        }
        let mut waiting: VecDeque<u8> = VecDeque::new();
        let mut i: usize = 0;
        while i < delivered.len()
            invariant
                i <= delivered.len(),
                waiting@ == delivered@.take(i as int),
            decreases delivered.len() - i,
        {
            waiting.push_back(delivered[i]);
            assert(delivered@.take(i + 1) =~= delivered@.take(i as int).push(delivered@[i as int]));
            i += 1;
        }
        assert(delivered@.take(i as int) =~= delivered@);
        self.waiting = waiting;
        true
    }

    /// Hands out the byte that has waited longest, if any waits.
    pub fn pop_front(&mut self) -> (byte: Option<u8>)
        ensures
            match byte {
                Some(byte) => old(self)@.len() > 0 && byte == old(self)@[0] && final(self)@ == old(
                    self,
                )@.skip(1),
                None => old(self)@.len() == 0 && final(self)@ == old(self)@,
            },
    {
        self.waiting.pop_front()
    }
}

} // verus!
