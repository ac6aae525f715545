//! Typed commands: built once from an array frame, applied once against
//! the store to produce the response frame.
//!
//! The first array element names the command, compared after ASCII case
//! folding. Unknown names do not fail the parse: they become
//! [`Command::Unknown`], which `apply` answers with an error frame, so the
//! connection stays open.

use vstd::prelude::*;
use vstd::string::StrSliceExecFns;
use vstd::utf8::{encode_utf8, encode_utf8_decode_utf8, encode_utf8_valid_utf8};

use crate::db::Db;
use crate::frame::Frame;
use crate::parse::{elem_bytes, elem_string, Parse, ParseError};
use crate::wire::FrameView;

pub mod ping;

pub mod get;

pub mod set;

pub use get::Get;
pub use ping::Ping;
pub use set::SetCmd;

verus! {

/// One request, as decoded from an array frame.
#[derive(Debug)]
pub enum Command {
    Ping(Ping),
    SetCmd(SetCmd),
    Get(Get),
    Unknown(String),
}

/// Abstract value of a command.
pub enum CommandView {
    Ping(Option<Seq<u8>>),
    SetCmd(Seq<char>, Seq<u8>),
    Get(Seq<char>),
    Unknown(Seq<char>),
}

impl View for Command {
    type V = CommandView;

    open spec fn view(&self) -> CommandView {
        match self {
            Command::Ping(p) => CommandView::Ping(p@),
            Command::SetCmd(s) => CommandView::SetCmd(s@.0, s@.1),
            Command::Get(g) => CommandView::Get(g@),
            Command::Unknown(n) => CommandView::Unknown(n@),
        }
    }
}

/// ASCII case folding of one character: `A`..`Z` map to `a`..`z`, all
/// others stay.
pub open spec fn ascii_lower_char(c: char) -> char {
    if 65 <= c as u32 && c as u32 <= 90 {
        (((c as u32 + 32) as u8) as char)
    } else {
        c
    }
}

/// ASCII case folding of a character sequence.
pub open spec fn ascii_lower(t: Seq<char>) -> Seq<char> {
    t.map_values(|c: char| ascii_lower_char(c))
}

/// The command encoded by a frame, if any: the frame must be an array, its
/// first element must yield text, and the known names take their arguments
/// positionally — `ping` zero or one, `get` one, `set` two. Any other name
/// is the `Unknown` command, whatever follows it.
pub open spec fn command_of(f: FrameView) -> Option<CommandView> {
    match f {
        FrameView::Array(items) => {
            if items.len() == 0 {
                None
            } else {
                match elem_string(items[0]) {
                    None => None,
                    Some(name) => {
                        let low = ascii_lower(name);
                        if low == "ping"@ {
                            if items.len() == 1 {
                                Some(CommandView::Ping(None))
                            } else if items.len() == 2 {
                                match elem_bytes(items[1]) {
                                    Some(b) => Some(CommandView::Ping(Some(b))),
                                    None => None,
                                }
                            } else {
                                None
                            }
                        } else if low == "get"@ {
                            if items.len() == 2 {
                                match elem_string(items[1]) {
                                    Some(k) => Some(CommandView::Get(k)),
                                    None => None,
                                }
                            } else {
                                None
                            }
                        } else if low == "set"@ {
                            if items.len() == 3 {
                                match (elem_string(items[1]), elem_bytes(items[2])) {
                                    (Some(k), Some(v)) => Some(CommandView::SetCmd(k, v)),
                                    _ => None,
                                }
                            } else {
                                None
                            }
                        } else {
                            Some(CommandView::Unknown(name))
                        }
                    },
                }
            }
        },
        _ => None,
    }
}

/// The frames on which command parsing fails for want of further
/// arguments, rather than for malformed ones.
pub open spec fn command_eos(f: FrameView) -> bool {
    match f {
        FrameView::Array(items) => {
            if items.len() == 0 {
                true
            } else {
                match elem_string(items[0]) {
                    None => false,
                    Some(name) => {
                        let low = ascii_lower(name);
                        ||| (low == "get"@ && items.len() == 1)
                        ||| (low == "set"@ && items.len() == 1)
                        ||| (low == "set"@ && items.len() == 2 && elem_string(items[1]) is Some)
                    },
                }
            }
        },
        _ => false,
    }
}

/// The response owed to a command against store contents `m`.
pub open spec fn response_of(c: CommandView, m: Map<Seq<char>, Seq<u8>>) -> FrameView {
    match c {
        CommandView::Ping(None) => FrameView::Simple("PONG"@),
        CommandView::Ping(Some(b)) => FrameView::Bulk(b),
        CommandView::Get(k) => if m.contains_key(k) {
            FrameView::Bulk(m[k])
        } else {
            FrameView::Null
        },
        CommandView::SetCmd(_, _) => FrameView::Simple("OK"@),
        CommandView::Unknown(name) => FrameView::Error("ERR unknown command '"@ + name + "'"@),
    }
}

/// The store contents after a command: only `set` changes them.
pub open spec fn db_after(
    c: CommandView,
    m: Map<Seq<char>, Seq<u8>>,
) -> Map<Seq<char>, Seq<u8>> {
    match c {
        CommandView::SetCmd(k, v) => m.insert(k, v),
        _ => m,
    }
}

/// ASCII case folding of one character.
fn lower_char(c: char) -> (r: char)
    ensures
        r == ascii_lower_char(c),
{
    let u = c as u32;
    if 65 <= u && u <= 90 {
        ((u + 32) as u8) as char
    } else {
        c
    }
}

/// Whether `name` equals `pat` after ASCII case folding of `name`.
fn eq_ignore_ascii_case(name: &str, pat: &str) -> (r: bool)
    ensures
        r == (ascii_lower(name@) == pat@),
{
    let n = name.unicode_len();
    let m = pat.unicode_len();
    if n != m {
        proof {
            assert(ascii_lower(name@).len() == name@.len());
        }
        return false;
    }
    let mut i: usize = 0;
    while i < n
        invariant
            n == name@.len(),
            m == pat@.len(),
            n == m,
            0 <= i <= n,
            forall|j: int| 0 <= j < i ==> ascii_lower(name@)[j] == #[trigger] pat@[j],
        decreases n - i,
    {
        let c = name.get_char(i);
        let p = pat.get_char(i);
        let lc = lower_char(c);
        proof {
            assert(ascii_lower(name@)[i as int] == ascii_lower_char(name@[i as int]));
        }
        if lc != p {
            proof {
                if ascii_lower(name@) == pat@ {
                    assert(ascii_lower(name@)[i as int] == pat@[i as int]);
                }
            }
            return false;
        }
        i = i + 1;
    }
    proof {
        assert(ascii_lower(name@) =~= pat@);
    }
    true
}

/// An unknown command name is answered, never fatal: the response owed to
/// it is an error frame, and the store is left untouched, so the
/// connection can carry further requests.
pub proof fn lemma_unknown_is_answered(name: Seq<char>, m: Map<Seq<char>, Seq<u8>>)
    ensures
        response_of(CommandView::Unknown(name), m) is Error,
        db_after(CommandView::Unknown(name), m) == m,
{
}

/// The ASCII fold leaves the three lowercase command names as they are,
/// and the three names are pairwise distinct.
proof fn lemma_command_names()
    ensures
        ascii_lower("ping"@) == "ping"@,
        ascii_lower("get"@) == "get"@,
        ascii_lower("set"@) == "set"@,
        "get"@ != "ping"@,
        "set"@ != "ping"@,
        "set"@ != "get"@,
{
    reveal_strlit("ping");
    reveal_strlit("get");
    reveal_strlit("set");
    assert(ascii_lower("ping"@) =~= "ping"@) by {
        assert(forall|i: int|
            0 <= i < 4 ==> #[trigger] ascii_lower("ping"@)[i] == ascii_lower_char("ping"@[i]));
    }
    assert(ascii_lower("get"@) =~= "get"@) by {
        assert(forall|i: int|
            0 <= i < 3 ==> #[trigger] ascii_lower("get"@)[i] == ascii_lower_char("get"@[i]));
    }
    assert(ascii_lower("set"@) =~= "set"@) by {
        assert(forall|i: int|
            0 <= i < 3 ==> #[trigger] ascii_lower("set"@)[i] == ascii_lower_char("set"@[i]));
    }
    assert("set"@ != "get"@) by {
        if "set"@ == "get"@ {
            assert("set"@[0] == "get"@[0]);
        }
    }
}

/// A text element carrying the UTF-8 encoding of `t` yields `t` back.
proof fn lemma_bulk_text(t: Seq<char>)
    ensures
        elem_string(FrameView::Bulk(encode_utf8(t))) == Some(t),
{
    encode_utf8_valid_utf8(t);
    encode_utf8_decode_utf8(t);
}

/// The request frames that the command builders produce parse back to
/// exactly the commands they were built from: what a client sends, the
/// server's dispatcher reads the same way.
pub proof fn lemma_request_round_trip(
    msg: Option<Seq<u8>>,
    key: Seq<char>,
    value: Seq<u8>,
)
    ensures
        command_of(
            FrameView::Array(seq![FrameView::Bulk(encode_utf8("ping"@))]),
        ) == Some(CommandView::Ping(None)),
        command_of(
            FrameView::Array(
                match msg {
                    Some(b) => seq![
                        FrameView::Bulk(encode_utf8("ping"@)),
                        FrameView::Bulk(b),
                    ],
                    None => seq![FrameView::Bulk(encode_utf8("ping"@))],
                },
            ),
        ) == Some(CommandView::Ping(msg)),
        command_of(
            FrameView::Array(
                seq![FrameView::Bulk(encode_utf8("get"@)), FrameView::Bulk(encode_utf8(key))],
            ),
        ) == Some(CommandView::Get(key)),
        command_of(
            FrameView::Array(
                seq![
                    FrameView::Bulk(encode_utf8("set"@)),
                    FrameView::Bulk(encode_utf8(key)),
                    FrameView::Bulk(value),
                ],
            ),
        ) == Some(CommandView::SetCmd(key, value)),
{
    lemma_command_names();
    lemma_bulk_text("ping"@);
    lemma_bulk_text("get"@);
    lemma_bulk_text("set"@);
    lemma_bulk_text(key);
}

impl Command {
    /// Decode a request frame into a command. Unknown command names
    /// succeed as `Unknown`; only a frame that is not an array, a missing
    /// or malformed name, or wrong arguments for a known name fail.
    pub fn from_frame(frame: Frame) -> (r: Result<Command, ParseError>)
        ensures
            match r {
                Ok(c) => command_of(frame@) == Some(c@),
                Err(ParseError::EndOfStream) => command_of(frame@) is None && command_eos(frame@),
                Err(ParseError::Other(_)) => command_of(frame@) is None && !command_eos(frame@),
            },
    {
        let ghost fv = frame@;
        let mut parse = match Parse::new(frame) {
            Ok(p) => p,
            Err(e) => {
                return Err(e);
            },
        };
        let ghost items = parse@;
        let command_name = match parse.next_string() {
            Ok(s) => s,
            Err(e) => {
                return Err(e);
            },
        };
        proof {
            assert(forall|j: int|
                0 <= j < items.len() - 1 ==> #[trigger] items.drop_first()[j] == items[j + 1]);
        }
        if eq_ignore_ascii_case(command_name.as_str(), "ping") {
            let cmd = match Ping::parse_frames(&mut parse) {
                Ok(c) => c,
                Err(e) => {
                    return Err(e);
                },
            };
            match parse.finish() {
                Ok(_) => {},
                Err(e) => {
                    return Err(e);
                },
            }
            Ok(Command::Ping(cmd))
        } else if eq_ignore_ascii_case(command_name.as_str(), "get") {
            let cmd = match Get::parse_frames(&mut parse) {
                Ok(c) => c,
                Err(e) => {
                    return Err(e);
                },
            };
            match parse.finish() {
                Ok(_) => {},
                Err(e) => {
                    return Err(e);
                },
            }
            Ok(Command::Get(cmd))
        } else if eq_ignore_ascii_case(command_name.as_str(), "set") {
            let cmd = match SetCmd::parse_frames(&mut parse) {
                Ok(c) => c,
                Err(e) => {
                    return Err(e);
                },
            };
            match parse.finish() {
                Ok(_) => {},
                Err(e) => {
                    return Err(e);
                },
            }
            Ok(Command::SetCmd(cmd))
        } else {
            Ok(Command::Unknown(command_name))
        }
    }

    /// Answer this command against the store: the response frame owed to
    /// it, with the store updated exactly when the command is a write.
    pub fn apply(self, db: &mut Db) -> (resp: Frame)
        requires
            old(db).inv(),
        ensures
            final(db).inv(),
            resp@ == response_of(self@, old(db)@),
            final(db)@ == db_after(self@, old(db)@),
    {
        match self {
            Command::Ping(cmd) => cmd.apply(),
            Command::Get(cmd) => cmd.apply(db),
            Command::SetCmd(cmd) => cmd.apply(db),
            Command::Unknown(name) => {
                let text = String::from_str("ERR unknown command '").concat(name.as_str()).concat(
                    "'",
                );
                Frame::Error(text)
            },
        }
    }

    /// The lowercase name of this command.
    pub fn get_name(&self) -> (r: &'static str)
        ensures
            match self {
                Command::Ping(_) => r@ == "ping"@,
                Command::SetCmd(_) => r@ == "set"@,
                Command::Get(_) => r@ == "get"@,
                Command::Unknown(_) => r@ == "unknown"@,
            },
    {
        match self {
            Command::Ping(_) => "ping",
            Command::SetCmd(_) => "set",
            Command::Get(_) => "get",
            Command::Unknown(_) => "unknown",
        }
    }
}

} // verus!
