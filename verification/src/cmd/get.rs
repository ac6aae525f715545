//! The `get` command: look one key up in the store.

use vstd::prelude::*;
use vstd::string::StrSliceExecFns;
use vstd::utf8::encode_utf8;

use crate::db::Db;
use crate::frame::Frame;
use crate::parse::{elem_string, Parse, ParseError};
use crate::wire::FrameView;

verus! {

/// A `get` request, with the key to look up.
#[derive(Debug)]
pub struct Get {
    key: String,
}

impl View for Get {
    type V = Seq<char>;

    closed spec fn view(&self) -> Seq<char> {
        self.key@
    }
}

impl Get {
    /// A `get` for the given key.
    pub fn new(key: String) -> (g: Get)
        ensures
            g@ == key@,
    {
        Get { key }
    }

    /// The key to look up.
    pub fn key(&self) -> (r: &str)
        ensures
            r@ == self@,
    {
        self.key.as_str()
    }

    /// Take the key argument from the cursor.
    pub fn parse_frames(parse: &mut Parse) -> (r: Result<Get, ParseError>)
        ensures
            match r {
                Ok(g) => old(parse)@.len() > 0 && elem_string(old(parse)@[0]) == Some(g@) && final(parse)@ == old(parse)@.drop_first(),
                Err(ParseError::EndOfStream) => old(parse)@.len() == 0 && final(parse)@ == old(parse)@,
                Err(ParseError::Other(_)) => old(parse)@.len() > 0 && elem_string(old(parse)@[0])
                    is None && final(parse)@ == old(parse)@.drop_first(),
            },
    {
        match parse.next_string() {
            Ok(key) => Ok(Get { key }),
            Err(e) => Err(e),
        }
    }

    /// The request frame for this command: an array of bulk strings.
    pub fn into_frame(self) -> (f: Frame)
        ensures
            f@ == FrameView::Array(
                seq![FrameView::Bulk(encode_utf8("get"@)), FrameView::Bulk(encode_utf8(self@))],
            ),
    {
        let ghost kv = self.key@;
        let mut frame = Frame::array();
        frame.push_bulk("get".as_bytes_vec());
        frame.push_bulk(self.key.as_str().as_bytes_vec());
        proof {
            assert(Seq::<FrameView>::empty().push(FrameView::Bulk(encode_utf8("get"@))).push(
                FrameView::Bulk(encode_utf8(kv)),
            ) =~= seq![
                FrameView::Bulk(encode_utf8("get"@)),
                FrameView::Bulk(encode_utf8(kv)),
            ]);
        }
        frame
    }

    /// The response owed to a `get`: the stored value as a bulk frame, or
    /// the null frame when the key is absent — never an error.
    pub fn apply(self, db: &Db) -> (resp: Frame)
        requires
            db.inv(),
        ensures
            resp@ == (if db@.contains_key(self@) {
                FrameView::Bulk(db@[self@])
            } else {
                FrameView::Null
            }),
    {
        match db.get(self.key.as_str()) {
            Some(value) => Frame::Bulk(value),
            None => Frame::Null,
        }
    }
}

} // verus!
