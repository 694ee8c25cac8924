//! The decisions of a connection handler: after each read, whether to run a
//! command, close, or stop with an error; after each reply, whether to
//! write it or stop.
use crate::command::{spec_from_frame, Apply, Command, CommandError};
use crate::connection::ConnectionError;
use crate::frame::Frame;
use crate::parse::ParseError;
use vstd::prelude::*;

verus! {

/// Why serving a connection stopped.
#[derive(Debug)]
pub enum HandlerError {
    Connection(ConnectionError),
    Parse(ParseError),
    Command(CommandError),
}

/// What the handler does next.
pub enum HandlerAction {
    /// Hand the command to the store and wait for its reply.
    Dispatch(Command),
    /// The client closed the connection cleanly.
    Close,
    /// Stop serving the connection with this error.
    Fail(HandlerError),
}

/// The handler's next step after trying to read a frame.
pub fn after_read(read: Result<Option<Frame>, ConnectionError>) -> (a: HandlerAction)
    ensures
        read matches Ok(None) ==> a is Close,
        read matches Err(e) ==> a == HandlerAction::Fail(HandlerError::Connection(e)),
        read matches Ok(Some(f)) ==> match spec_from_frame(f@) {
            Ok(c) => a matches HandlerAction::Dispatch(cmd) && cmd.command() == c,
            Err(pe) => a matches HandlerAction::Fail(HandlerError::Parse(x)) && x@ == pe,
        },
{
    match read {
        Ok(Some(frame)) => match Command::from_frame(frame) {
            Ok(command) => HandlerAction::Dispatch(command),
            Err(e) => HandlerAction::Fail(HandlerError::Parse(e)),
        },
        Ok(None) => HandlerAction::Close,
        Err(e) => HandlerAction::Fail(HandlerError::Connection(e)),
    }
}

/// The handler's next step after the store replied: the frame to write, or
/// the command's error, which ends the connection.
pub fn after_reply(reply: Result<Frame, CommandError>) -> (r: Result<Frame, HandlerError>)
    ensures
        reply matches Ok(f) ==> r == Ok::<Frame, HandlerError>(f),
        reply matches Err(e) ==> r == Err::<Frame, HandlerError>(HandlerError::Command(e)),
{
    match reply {
        Ok(frame) => Ok(frame),
        Err(e) => Err(HandlerError::Command(e)),
    }
}

} // verus!
