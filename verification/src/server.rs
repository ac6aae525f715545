//! One dispatch step of the server: turn a request frame into the response
//! frame, updating the store.
//!
//! The embedding program runs the loops around this: accepting
//! connections, reading frames, writing responses. A parse error here is
//! fatal to the one connection that sent the frame and to nothing else; an
//! unknown command is not a parse error and leaves the connection usable.

use vstd::prelude::*;

use crate::cmd::{command_eos, command_of, db_after, response_of, Command};
use crate::db::Db;
use crate::frame::Frame;
use crate::parse::ParseError;

verus! {

/// Serve one request: decode the frame into a command and answer it
/// against the store. `Ok` carries the response frame to send back —
/// for an unknown command an error frame, with the store untouched.
/// `Err` means the frame was no command at all; only then must the caller
/// drop the connection, and the store is untouched.
pub fn handle_frame(db: &mut Db, frame: Frame) -> (r: Result<Frame, ParseError>)
    requires
        old(db).inv(),
    ensures
        final(db).inv(),
        match r {
            Ok(resp) => (command_of(frame@) matches Some(c) && resp@ == response_of(
                c,
                old(db)@,
            ) && final(db)@ == db_after(c, old(db)@)),
            Err(ParseError::EndOfStream) => command_of(frame@) is None && command_eos(frame@)
                && final(db)@ == old(db)@,
            Err(ParseError::Other(_)) => command_of(frame@) is None && !command_eos(frame@)
                && final(db)@ == old(db)@,
        },
{
    let cmd = match Command::from_frame(frame) {
        Ok(c) => c,
        Err(e) => {
            return Err(e);
        },
    };
    Ok(cmd.apply(db))
}

} // verus!
