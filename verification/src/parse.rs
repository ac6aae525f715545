//! Forward-only cursor over the elements of one array frame, used to take
//! a command's arguments one by one.

use vstd::prelude::*;
use vstd::string::StrSliceExecFns;
use vstd::utf8::{decode_utf8, encode_utf8, valid_utf8};

use crate::frame::{bytes_to_string, frame_views, lemma_frame_views, Frame};
use crate::wire::FrameView;

verus! {

/// Error of the argument cursor: a command asked for more arguments than
/// the array holds, or an argument had the wrong shape.
#[derive(Debug)]
pub enum ParseError {
    EndOfStream,
    Other(String),
}

/// The character content an argument element yields: a simple frame's
/// text, or a bulk frame's bytes decoded as UTF-8 when they are valid.
pub open spec fn elem_string(f: FrameView) -> Option<Seq<char>> {
    match f {
        FrameView::Simple(t) => Some(t),
        FrameView::Bulk(b) => if valid_utf8(b) {
            Some(decode_utf8(b))
        } else {
            None
        },
        _ => None,
    }
}

/// The byte content an argument element yields: a simple frame's text as
/// UTF-8 bytes, or a bulk frame's bytes as they are.
pub open spec fn elem_bytes(f: FrameView) -> Option<Seq<u8>> {
    match f {
        FrameView::Simple(t) => Some(encode_utf8(t)),
        FrameView::Bulk(b) => Some(b),
        _ => None,
    }
}

/// Cursor over the not-yet-consumed elements of one array frame.
pub struct Parse {
    parts: Vec<Frame>,
}

impl View for Parse {
    type V = Seq<FrameView>;

    closed spec fn view(&self) -> Seq<FrameView> {
        frame_views(self.parts@)
    }
}

impl Parse {
    /// Start a cursor over the contents of `frame`, which must be an array.
    pub fn new(frame: Frame) -> (r: Result<Parse, ParseError>)
        ensures
            match r {
                Ok(p) => (frame@ matches FrameView::Array(items) && p@ == items),
                Err(e) => e is Other && !(frame@ is Array),
            },
    {
        match frame {
            Frame::Array(array) => Ok(Parse { parts: array }),
            _ => Err(ParseError::Other(String::from_str("protocol error; expected array"))),
        }
    }

    /// Take the next element.
    fn next(&mut self) -> (r: Result<Frame, ParseError>)
        ensures
            match r {
                Ok(f) => old(self)@.len() > 0 && f@ == old(self)@[0] && final(self)@ == old(self)@.drop_first(),
                Err(e) => e is EndOfStream && old(self)@.len() == 0 && final(self)@ == old(self)@,
            },
    {
        proof {
            lemma_frame_views(self.parts@);
        }
        if self.parts.len() > 0 {
            let ghost prev = self.parts@;
            let f = self.parts.remove(0);
            proof {
                lemma_frame_views(self.parts@);
                assert(self.parts@ =~= prev.drop_first());
                assert(frame_views(self.parts@) =~= frame_views(prev).drop_first());
            }
            Ok(f)
        } else {
            Err(ParseError::EndOfStream)
        }
    }

    /// Take the next element as text: a simple frame's line, or a bulk
    /// frame's payload decoded as UTF-8. The element is consumed even when
    /// it has the wrong shape.
    pub fn next_string(&mut self) -> (r: Result<String, ParseError>)
        ensures
            match r {
                Ok(s) => old(self)@.len() > 0 && elem_string(old(self)@[0]) == Some(s@) && final(self)@ == old(self)@.drop_first(),
                Err(ParseError::EndOfStream) => old(self)@.len() == 0 && final(self)@ == old(self)@,
                Err(ParseError::Other(_)) => old(self)@.len() > 0 && elem_string(old(self)@[0])
                    is None && final(self)@ == old(self)@.drop_first(),
            },
    {
        match self.next() {
            Err(_) => Err(ParseError::EndOfStream),
            Ok(Frame::Simple(s)) => Ok(s),
            Ok(Frame::Bulk(data)) => {
                match bytes_to_string(data.as_slice()) {
                    Some(s) => Ok(s),
                    None => Err(ParseError::Other(
                        String::from_str("protocol error, invalid string"),
                    )),
                }
            },
            Ok(_) => Err(ParseError::Other(
                String::from_str("protocol error; expected simple frame or bulk frame"),
            )),
        }
    }

    /// Take the next element as raw bytes: a simple frame's text as UTF-8,
    /// or a bulk frame's payload. The element is consumed even when it has
    /// the wrong shape.
    pub fn next_bytes(&mut self) -> (r: Result<Vec<u8>, ParseError>)
        ensures
            match r {
                Ok(b) => old(self)@.len() > 0 && elem_bytes(old(self)@[0]) == Some(b@) && final(self)@ == old(self)@.drop_first(),
                Err(ParseError::EndOfStream) => old(self)@.len() == 0 && final(self)@ == old(self)@,
                Err(ParseError::Other(_)) => old(self)@.len() > 0 && elem_bytes(old(self)@[0])
                    is None && final(self)@ == old(self)@.drop_first(),
            },
    {
        match self.next() {
            Err(_) => Err(ParseError::EndOfStream),
            Ok(Frame::Simple(s)) => Ok(s.as_str().as_bytes_vec()),
            Ok(Frame::Bulk(data)) => Ok(data),
            Ok(_) => Err(ParseError::Other(
                String::from_str("protocol error; expected simple frame or bulk frame"),
            )),
        }
    }

    /// Succeed only when every element has been consumed.
    pub fn finish(&mut self) -> (r: Result<(), ParseError>)
        ensures
            match r {
                Ok(_) => old(self)@.len() == 0 && final(self)@ == old(self)@,
                Err(e) => e is Other && old(self)@.len() > 0 && final(self)@ == old(self)@.drop_first(),
            },
    {
        match self.next() {
            Err(_) => Ok(()),
            Ok(_) => Err(ParseError::Other(
                String::from_str("protocol error; expected end of frame, but there was more"),
            )),
        }
    }
}

} // verus!
