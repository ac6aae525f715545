//! The `ping` command: answered with `PONG`, or by echoing its optional
//! payload.

use vstd::prelude::*;
use vstd::string::StrSliceExecFns;
use vstd::utf8::encode_utf8;

use crate::frame::Frame;
use crate::parse::{elem_bytes, Parse, ParseError};
use crate::wire::FrameView;

verus! {

/// A `ping` request, with its optional payload.
#[derive(Debug)]
pub struct Ping {
    msg: Option<Vec<u8>>,
}

impl View for Ping {
    type V = Option<Seq<u8>>;

    closed spec fn view(&self) -> Option<Seq<u8>> {
        match self.msg {
            Some(v) => Some(v@),
            None => None,
        }
    }
}

impl Ping {
    /// A `ping` with the given payload.
    pub fn new(msg: Option<Vec<u8>>) -> (p: Ping)
        ensures
            p@ == (match msg {
                Some(v) => Some(v@),
                None => None::<Seq<u8>>,
            }),
    {
        Ping { msg }
    }

    /// Take the optional payload argument from the cursor; no argument at
    /// all is a plain `ping`.
    pub fn parse_frames(parse: &mut Parse) -> (r: Result<Ping, ParseError>)
        ensures
            match r {
                Ok(p) => (match p@ {
                    None => old(parse)@.len() == 0 && final(parse)@ == old(parse)@,
                    Some(b) => old(parse)@.len() > 0 && elem_bytes(old(parse)@[0]) == Some(b)
                        && final(parse)@ == old(parse)@.drop_first(),
                }),
                Err(e) => e is Other && old(parse)@.len() > 0 && elem_bytes(old(parse)@[0])
                    is None && final(parse)@ == old(parse)@.drop_first(),
            },
    {
        match parse.next_bytes() {
            Ok(msg) => Ok(Ping { msg: Some(msg) }),
            Err(ParseError::EndOfStream) => Ok(Ping { msg: None }),
            Err(e) => Err(e),
        }
    }

    /// The request frame for this command: an array of bulk strings.
    pub fn into_frame(self) -> (f: Frame)
        ensures
            f@ == (match self@ {
                None => FrameView::Array(seq![FrameView::Bulk(encode_utf8("ping"@))]),
                Some(b) => FrameView::Array(
                    seq![FrameView::Bulk(encode_utf8("ping"@)), FrameView::Bulk(b)],
                ),
            }),
    {
        let mut frame = Frame::array();
        frame.push_bulk("ping".as_bytes_vec());
        proof {
            assert(Seq::<FrameView>::empty().push(FrameView::Bulk(encode_utf8("ping"@)))
                =~= seq![FrameView::Bulk(encode_utf8("ping"@))]);
        }
        match self.msg {
            Some(m) => {
                let ghost one = seq![FrameView::Bulk(encode_utf8("ping"@))];
                let ghost mv = m@;
                frame.push_bulk(m);
                proof {
                    assert(one.push(FrameView::Bulk(mv)) =~= seq![
                        FrameView::Bulk(encode_utf8("ping"@)),
                        FrameView::Bulk(mv),
                    ]);
                }
                frame
            },
            None => frame,
        }
    }

    /// The response owed to a `ping`: `PONG`, or the payload echoed back.
    pub fn apply(self) -> (resp: Frame)
        ensures
            resp@ == (match self@ {
                None => FrameView::Simple("PONG"@),
                Some(b) => FrameView::Bulk(b),
            }),
    {
        match self.msg {
            None => Frame::Simple(String::from_str("PONG")),
            Some(b) => Frame::Bulk(b),
        }
    }
}

} // verus!
