use vstd::prelude::*;

use crate::frame::{decode_at, Decoded, Frame, FrameError};

verus! {

broadcast use vstd::std_specs::vec::group_vec_axioms, vstd::seq::group_seq_axioms;

/// The bytes received on a connection that do not yet form a whole frame.
pub struct FrameReader {
    buffer: Vec<u8>,
}

impl FrameReader {
    /// The bytes waiting to be read.
    pub closed spec fn pending(&self) -> Seq<u8> {
        self.buffer@
    }

    pub fn new() -> (r: FrameReader)
        ensures
            r.pending() == Seq::<u8>::empty(),
    {
        FrameReader { buffer: Vec::new() }
    }

    /// Adds bytes that have just arrived.
    pub fn feed(&mut self, bytes: &[u8])
        ensures
            final(self).pending() == old(self).pending() + bytes@,
    {
        let mut i: usize = 0;
        while i < bytes.len()
            invariant
                i <= bytes.len(),
                self.buffer@ == old(self).buffer@ + bytes@.subrange(0, i as int),
            decreases bytes.len() - i,
        {
            self.buffer.push(bytes[i]);
            i += 1;
            assert(self.buffer@ =~= old(self).buffer@ + bytes@.subrange(0, i as int));
        }
        assert(bytes@.subrange(0, bytes.len() as int) =~= bytes@);
    }

    /// Whether no partial frame is waiting: the only place where the peer
    /// may close the connection cleanly.
    pub fn is_empty(&self) -> (r: bool)
        ensures
            r == (self.pending().len() == 0),
    {
        self.buffer.len() == 0
    }

    /// Takes the next whole frame out of the buffer. `Ok(None)` means more
    /// bytes are needed; the buffer is then left as it was.
    pub fn next_frame(&mut self) -> (r: Result<Option<Frame>, FrameError>)
        ensures
            match decode_at(old(self).pending(), 0) {
                Decoded::Done(fv, n) => match r {
                    Ok(Some(f)) => f@ == fv && final(self).pending() == old(self).pending().subrange(
                        n,
                        old(self).pending().len() as int,
                    ),
                    _ => false,
                },
                Decoded::Fail(FrameError::Incomplete) => r == Ok::<Option<Frame>, FrameError>(None)
                    && final(self).pending() == old(self).pending(),
                Decoded::Fail(k) => r == Err::<Option<Frame>, FrameError>(k)
                    && final(self).pending() == old(self).pending(),
            },
    {
        match Frame::parse(self.buffer.as_slice()) {
            Ok((f, n)) => {
                let mut rest: Vec<u8> = Vec::new();
                let mut i: usize = n;
                while i < self.buffer.len()
                    invariant
                        n <= i <= self.buffer.len(),
                        rest@ == self.buffer@.subrange(n as int, i as int),
                    decreases self.buffer.len() - i,
                {
                    rest.push(self.buffer[i]);
                    i += 1;
                    assert(rest@ =~= self.buffer@.subrange(n as int, i as int));
                }
                self.buffer = rest;
                Ok(Some(f))
            },
            Err(FrameError::Incomplete) => Ok(None),
            Err(k) => Err(k),
        }
    }
}

} // verus!
