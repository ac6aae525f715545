//! The `set` command: store a value under a key.

use vstd::prelude::*;
use vstd::string::StrSliceExecFns;
use vstd::utf8::encode_utf8;

use crate::db::Db;
use crate::frame::Frame;
use crate::parse::{elem_bytes, elem_string, Parse, ParseError};
use crate::wire::FrameView;

verus! {

/// A `set` request, with the key and the value to store.
#[derive(Debug)]
pub struct SetCmd {
    key: String,
    value: Vec<u8>,
}

impl View for SetCmd {
    type V = (Seq<char>, Seq<u8>);

    closed spec fn view(&self) -> (Seq<char>, Seq<u8>) {
        (self.key@, self.value@)
    }
}

impl SetCmd {
    /// A `set` of the given key to the given value.
    pub fn new(key: String, value: Vec<u8>) -> (s: SetCmd)
        ensures
            s@ == (key@, value@),
    {
        SetCmd { key, value }
    }

    /// The key to write.
    pub fn key(&self) -> (r: &str)
        ensures
            r@ == self@.0,
    {
        self.key.as_str()
    }

    /// The value to store.
    pub fn value(&self) -> (r: &Vec<u8>)
        ensures
            r@ == self@.1,
    {
        &self.value
    }

    /// Take the key and value arguments from the cursor.
    pub fn parse_frames(parse: &mut Parse) -> (r: Result<SetCmd, ParseError>)
        ensures
            match r {
                Ok(s) => {
                    &&& old(parse)@.len() > 1
                    &&& elem_string(old(parse)@[0]) == Some(s@.0)
                    &&& elem_bytes(old(parse)@[1]) == Some(s@.1)
                    &&& final(parse)@ == old(parse)@.drop_first().drop_first()
                },
                Err(ParseError::EndOfStream) => final(parse)@.len() == 0 && (
                (old(parse)@.len() == 0 && final(parse)@ == old(parse)@) || (old(parse)@.len() == 1
                    && elem_string(old(parse)@[0]) is Some && final(parse)@ == old(parse)@.drop_first())),
                Err(ParseError::Other(_)) => (old(parse)@.len() > 0 && elem_string(
                    old(parse)@[0],
                ) is None && final(parse)@ == old(parse)@.drop_first()) || (old(parse)@.len() > 1
                    && elem_string(old(parse)@[0]) is Some && elem_bytes(old(parse)@[1]) is None
                    && final(parse)@ == old(parse)@.drop_first().drop_first()),
            },
    {
        proof {
            assert(forall|j: int|
                0 <= j < old(parse)@.len() - 1 ==> #[trigger] old(parse)@.drop_first()[j] == old(parse)@[j + 1]);
        }
        let key = match parse.next_string() {
            Ok(k) => k,
            Err(e) => {
                return Err(e);
            },
        };
        let value = match parse.next_bytes() {
            Ok(v) => v,
            Err(e) => {
                return Err(e);
            },
        };
        Ok(SetCmd { key, value })
    }

    /// The request frame for this command: an array of bulk strings.
    pub fn into_frame(self) -> (f: Frame)
        ensures
            f@ == FrameView::Array(
                seq![
                    FrameView::Bulk(encode_utf8("set"@)),
                    FrameView::Bulk(encode_utf8(self@.0)),
                    FrameView::Bulk(self@.1),
                ],
            ),
    {
        let ghost kv = self.key@;
        let ghost vv = self.value@;
        let mut frame = Frame::array();
        frame.push_bulk("set".as_bytes_vec());
        frame.push_bulk(self.key.as_str().as_bytes_vec());
        frame.push_bulk(self.value);
        proof {
            assert(Seq::<FrameView>::empty().push(FrameView::Bulk(encode_utf8("set"@))).push(
                FrameView::Bulk(encode_utf8(kv)),
            ).push(FrameView::Bulk(vv)) =~= seq![
                FrameView::Bulk(encode_utf8("set"@)),
                FrameView::Bulk(encode_utf8(kv)),
                FrameView::Bulk(vv),
            ]);
        }
        frame
    }

    /// The response owed to a `set`: the store now holds the value under
    /// the key, everything else untouched, and the answer is `OK` — a
    /// write never fails.
    pub fn apply(self, db: &mut Db) -> (resp: Frame)
        requires
            old(db).inv(),
        ensures
            final(db).inv(),
            final(db)@ == old(db)@.insert(self@.0, self@.1),
            resp@ == FrameView::Simple("OK"@),
    {
        db.set(self.key, self.value);
        Frame::Simple(String::from_str("OK"))
    }
}

} // verus!
