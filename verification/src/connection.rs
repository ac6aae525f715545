//! The receive side of one connection: a growable buffer of arrived bytes,
//! from whose front whole frames are cut as soon as they are complete.
//!
//! The socket itself stays outside the library: the caller feeds every chunk
//! of bytes it reads into [`Connection::feed`] and asks
//! [`Connection::parse_frame`] for the next complete frame. Because `feed`
//! only appends, how the bytes were split across arrivals cannot matter:
//! the buffer holds exactly their concatenation.

use vstd::prelude::*;

use crate::frame::{Error, Frame};
use crate::wire::{decode_frame, Decoded};

verus! {

/// Buffered, unconsumed bytes of one connection, oldest first.
pub struct Connection {
    buffer: Vec<u8>,
}

impl View for Connection {
    type V = Seq<u8>;

    closed spec fn view(&self) -> Seq<u8> {
        self.buffer@
    }
}

impl Connection {
    /// A connection with nothing buffered yet.
    pub fn new() -> (c: Connection)
        ensures
            c@ == Seq::<u8>::empty(),
    {
        Connection { buffer: Vec::new() }
    }

    /// Append one arrived chunk of bytes to the buffer.
    pub fn feed(&mut self, bytes: &[u8])
        ensures
            final(self)@ == old(self)@ + bytes@,
    {
        self.buffer.extend_from_slice(bytes);
    }

    /// How many bytes are currently buffered.
    pub fn buffered(&self) -> (n: usize)
        ensures
            n == self@.len(),
    {
        self.buffer.len()
    }

    /// Cut one frame from the front of the buffer if a whole one is there:
    /// `Ok(Some(frame))` consumes exactly the frame's encoding and leaves
    /// the rest buffered, `Ok(None)` means more bytes must arrive first and
    /// leaves the buffer unchanged, and an error means the buffered bytes
    /// can never become a frame.
    pub fn parse_frame(&mut self) -> (r: Result<Option<Frame>, Error>)
        ensures
            match r {
                Ok(Some(f)) => (decode_frame(old(self)@, 0) matches Decoded::Found(v, end) && f@
                    == v && final(self)@ == old(self)@.subrange(end, old(self)@.len() as int)),
                Ok(None) => decode_frame(old(self)@, 0) is Incomplete
                    && final(self)@ == old(self)@,
                Err(e) => !(e is Incomplete) && decode_frame(old(self)@, 0) is Malformed
                    && final(self)@ == old(self)@,
            },
    {
        match Frame::check(self.buffer.as_slice(), 0) {
            Ok(_) => {
                match Frame::parse(self.buffer.as_slice(), 0) {
                    Ok((frame, len)) => {
                        let tail = self.buffer.split_off(len);
                        self.buffer = tail;
                        Ok(Some(frame))
                    },
                    Err(e) => {
                        proof {
                            assert(false);
                        }
                        Err(e)
                    },
                }
            },
            Err(Error::Incomplete) => Ok(None),
            Err(e) => {
                proof {
                    assert(!(e is Incomplete));
                }
                Err(e)
            },
        }
    }
}

} // verus!
