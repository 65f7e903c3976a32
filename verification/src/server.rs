//! From request to response.

use vstd::prelude::*;
use vstd::string::StringExecFns;
use bytes::Bytes;
use crate::cmd::{spec_command, spec_message, Command, CommandView};
use crate::db::Db;
use crate::frame::{Frame, FrameView};
use crate::store::payload_view;

verus! {

/// The answer to `GET`, given what the store found.
pub open spec fn spec_reply_get(found: Option<Seq<u8>>) -> FrameView {
    match found {
        Some(value) => FrameView::BulkString(value),
        None => FrameView::Null,
    }
}

/// Whether `reply` answers the request `c`. The answer to `GET` depends on
/// the store: it is the value found, or null.
pub open spec fn answers(c: CommandView, reply: FrameView) -> bool {
    match c {
        CommandView::Ping { msg: None } => reply == FrameView::SimpleString("PONG"@),
        CommandView::Ping { msg: Some(m) } => reply == FrameView::BulkString(m),
        CommandView::Echo { msg } => reply == FrameView::BulkString(msg),
        CommandView::Get { key } => reply is Null || reply is BulkString,
        CommandView::SetValue { key, value, expiry } => reply == FrameView::SimpleString("OK"@),
    }
}

/// The answer to `GET`, given what the store found: the value, or null.
pub fn reply_get(found: Option<Bytes>) -> (r: Frame)
    ensures
        r@ == spec_reply_get(payload_view(found)),
{
    match found {
        Some(value) => Frame::BulkString(value),
        None => Frame::Null,
    }
}

/// Carries out a request on the store and gives the answer.
pub fn execute(cmd: Command, db: &Db) -> (r: Frame)
    ensures
        answers(cmd@, r@),
{
    match cmd {
        Command::Ping { msg } => match msg {
            None => Frame::SimpleString(String::from_str("PONG")),
            Some(m) => Frame::BulkString(m),
        },
        Command::Echo { msg } => Frame::BulkString(msg),
        Command::Get { key } => reply_get(db.get(&key)),
        Command::SetValue { key, value, expiry } => {
            db.set(&key, value, expiry);
            Frame::SimpleString(String::from_str("OK"))
        },
    }
}

/// Answers one frame from a client: the answer to the request it makes, or
/// the error that says why it makes none.
pub fn respond(frame: Frame, db: &Db) -> (r: Frame)
    ensures
        match spec_command(frame@) {
            Ok(c) => answers(c, r@),
            Err(e) => r@ == FrameView::SimpleError(spec_message(e)),
        },
{
    match Command::from_frame(frame) {
        Ok(cmd) => execute(cmd, db),
        Err(e) => Frame::SimpleError(e.message()),
    }
}

} // verus!
