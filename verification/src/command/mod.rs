//! The commands the server understands: how they are read from a frame and
//! what they do to the store.
pub mod dbsize;
pub mod echo;
pub mod get;
pub mod ping;
pub mod set;
pub mod unknown;

use crate::buffers::bytes_as_slice;
use crate::db::{Db, SpecValue};
use crate::frame::{Frame, SpecFrame};
use crate::parse::{msg_expected_array, msg_expected_end, spec_next_bytes, ParseError, Parser, SpecParseError};
use crate::text::{ascii_lowercase, slice_eq, to_ascii_lowercase, utf8_lossy_text};
use dbsize::DbSize;
use echo::Echo;
use get::Get;
use ping::Ping;
use set::SetCommand;
use unknown::Unknown;
use vstd::prelude::*;
use vstd::string::StringSliceAdditionalSpecFns;
use vstd::utf8::encode_utf8;

verus! {

/// Why a command could not be carried out.
#[derive(Debug, Clone, Copy, PartialEq, Eq, Structural)]
pub enum CommandError {
    UnknownCommand,
    WrongNumberOfArguments,
    InvalidArgument,
    InternalError,
}

impl CommandError {
    /// The message this error displays as.
    pub fn to_string(&self) -> (s: String)
        ensures
            s@ == match *self {
                CommandError::UnknownCommand => "unknown command"@,
                CommandError::WrongNumberOfArguments => "wrong number of arguments"@,
                CommandError::InvalidArgument => "invalid argument"@,
                CommandError::InternalError => "internal error"@,
            },
    {
        match self {
            CommandError::UnknownCommand => "unknown command".to_owned(),
            CommandError::WrongNumberOfArguments => "wrong number of arguments".to_owned(),
            CommandError::InvalidArgument => "invalid argument".to_owned(),
            CommandError::InternalError => "internal error".to_owned(),
        }
    }
}

/// A command as a mathematical value.
pub enum SpecCommand {
    Echo(Seq<u8>),
    Get(Seq<u8>),
    Ping(Option<Seq<u8>>),
    SetCommand(Seq<u8>, Seq<u8>),
    Unknown(Seq<u8>),
    DbSize,
}

/// The reply to `PING` without a message.
pub open spec fn pong() -> Seq<u8> {
    "PONG".spec_bytes()
}

/// The reply to a successful `SET`.
pub open spec fn ok_reply() -> Seq<u8> {
    "OK".spec_bytes()
}

/// The error reply to `GET` on a key that holds something other than a string.
pub open spec fn wrong_type_reply() -> Seq<u8> {
    "WRONGTYPE Operation against a key holding the wrong kind of value".spec_bytes()
}

/// The error reply to a command named `name` that the server does not know.
pub open spec fn unknown_reply(name: Seq<u8>) -> Seq<u8> {
    encode_utf8("ERR unknown command '"@ + utf8_lossy_text(name) + "'"@)
}

/// The reply to `GET key`: the string stored under it, or null.
pub open spec fn get_reply(db: Map<Seq<u8>, SpecValue>, key: Seq<u8>) -> SpecFrame {
    if db.contains_key(key) {
        match db[key] {
            SpecValue::Str(v) => SpecFrame::Bulk(v),
            _ => SpecFrame::Error(wrong_type_reply()),
        }
    } else {
        SpecFrame::Null
    }
}

/// What a command does: the store after it, and its reply.
pub open spec fn apply_spec(cmd: SpecCommand, db: Map<Seq<u8>, SpecValue>) -> (
    Map<Seq<u8>, SpecValue>,
    Result<SpecFrame, CommandError>,
) {
    match cmd {
        SpecCommand::Echo(m) => (db, Ok(SpecFrame::Bulk(m))),
        SpecCommand::Get(k) => (db, Ok(get_reply(db, k))),
        SpecCommand::Ping(None) => (db, Ok(SpecFrame::Simple(pong()))),
        SpecCommand::Ping(Some(m)) => (db, Ok(SpecFrame::Bulk(m))),
        SpecCommand::SetCommand(k, v) => (db.insert(k, SpecValue::Str(v)), Ok(SpecFrame::Simple(ok_reply()))),
        SpecCommand::Unknown(name) => (db, Ok(SpecFrame::Error(unknown_reply(name)))),
        SpecCommand::DbSize => (db, Ok(SpecFrame::Integer(db.len() as i64))),
    }
}

/// The value of a command's reply.
pub open spec fn reply_view(r: Result<Frame, CommandError>) -> Result<SpecFrame, CommandError> {
    match r {
        Ok(f) => Ok(f@),
        Err(e) => Err(e),
    }
}

/// What a parser holds after one part has been taken, if there was one.
pub open spec fn after_next(parts: Seq<SpecFrame>) -> Seq<SpecFrame> {
    if parts.len() == 0 {
        parts
    } else {
        parts.drop_first()
    }
}

/// Carrying out a command on the store.
pub trait Apply: Sized {
    /// The command as a mathematical value.
    spec fn command(&self) -> SpecCommand;

    /// Carries out the command: the store and the reply are as `apply_spec` says.
    fn apply(self, db: &mut Db) -> (r: Result<Frame, CommandError>)
        ensures
            (final(db)@, reply_view(r)) == apply_spec(self.command(), old(db)@),
            final(db)@.dom().finite(),
    ;
}

/// A command the server can carry out.
pub enum Command {
    Echo(Echo),
    Get(Get),
    Ping(Ping),
    SetCommand(SetCommand),
    Unknown(Unknown),
    DbSize(DbSize),
}

impl Apply for Command {
    open spec fn command(&self) -> SpecCommand {
        match self {
            Command::Echo(c) => c.command(),
            Command::Get(c) => c.command(),
            Command::Ping(c) => c.command(),
            Command::SetCommand(c) => c.command(),
            Command::Unknown(c) => c.command(),
            Command::DbSize(c) => c.command(),
        }
    }

    fn apply(self, db: &mut Db) -> (r: Result<Frame, CommandError>) {
        match self {
            Command::Echo(c) => c.apply(db),
            Command::Get(c) => c.apply(db),
            Command::Ping(c) => c.apply(db),
            Command::SetCommand(c) => c.apply(db),
            Command::Unknown(c) => c.apply(db),
            Command::DbSize(c) => c.apply(db),
        }
    }
}

/// `GET`, `SET`, `ECHO`, `PING` and `DBSIZE`, as lower-case bytes.
pub open spec fn name_get() -> Seq<u8> {
    "get".spec_bytes()
}

pub open spec fn name_set() -> Seq<u8> {
    "set".spec_bytes()
}

pub open spec fn name_echo() -> Seq<u8> {
    "echo".spec_bytes()
}

pub open spec fn name_ping() -> Seq<u8> {
    "ping".spec_bytes()
}

pub open spec fn name_dbsize() -> Seq<u8> {
    "dbsize".spec_bytes()
}

/// `cmd` when no part is left over, else the error for leftovers.
pub open spec fn spec_finish(rest: Seq<SpecFrame>, cmd: SpecCommand) -> Result<SpecCommand, SpecParseError> {
    if rest.len() == 0 {
        Ok(cmd)
    } else {
        Err(SpecParseError::Other(msg_expected_end()))
    }
}

/// The command that a frame holds: an array whose first part names the
/// command (in any case) and whose other parts are its arguments.
pub open spec fn spec_from_frame(f: SpecFrame) -> Result<SpecCommand, SpecParseError> {
    match f {
        SpecFrame::Array(parts) => match spec_next_bytes(parts) {
            Err(e) => Err(e),
            Ok((name, rest)) => {
                let lower = ascii_lowercase(name);
                if lower == name_get() {
                    match spec_next_bytes(rest) {
                        Ok((key, r2)) => spec_finish(r2, SpecCommand::Get(key)),
                        Err(e) => Err(e),
                    }
                } else if lower == name_set() {
                    match spec_next_bytes(rest) {
                        Ok((key, r2)) => match spec_next_bytes(r2) {
                            Ok((value, r3)) => spec_finish(r3, SpecCommand::SetCommand(key, value)),
                            Err(e) => Err(e),
                        },
                        Err(e) => Err(e),
                    }
                } else if lower == name_echo() {
                    match spec_next_bytes(rest) {
                        Ok((m, r2)) => spec_finish(r2, SpecCommand::Echo(m)),
                        Err(e) => Err(e),
                    }
                } else if lower == name_ping() {
                    match spec_next_bytes(rest) {
                        Ok((m, r2)) => spec_finish(r2, SpecCommand::Ping(Some(m))),
                        Err(SpecParseError::EndOfStream) => spec_finish(rest, SpecCommand::Ping(None)),
                        Err(e) => Err(e),
                    }
                } else if lower == name_dbsize() {
                    spec_finish(rest, SpecCommand::DbSize)
                } else {
                    Ok(SpecCommand::Unknown(name))
                }
            },
        },
        other => Err(SpecParseError::Other(msg_expected_array(other))),
    }
}

/// Whether `lower` is the name `name`.
fn is_name(lower: &[u8], name: &str) -> (b: bool)
    ensures
        b == (lower@ == name.spec_bytes()),
{
    slice_eq(lower, name.as_bytes())
}

impl Command {
    /// Reads a command from a received frame, which must be an array whose
    /// parts are strings. A command name the server does not know gives an
    /// `Unknown` command; arguments beyond what a known command takes are an
    /// error.
    pub fn from_frame(frame: Frame) -> (r: Result<Command, ParseError>)
        ensures
            match spec_from_frame(frame@) {
                Ok(c) => r matches Ok(cmd) && cmd.command() == c,
                Err(e) => r matches Err(pe) && pe@ == e,
            },
    {
        let mut parse = Parser::new(frame)?;
        let command_name = parse.next_bytes()?;
        let lower = to_ascii_lowercase(bytes_as_slice(&command_name));
        let ghost rest = parse@;
        let command = if is_name(lower.as_slice(), "get") {
            Command::Get(Get::parse(&mut parse)?)
        } else if is_name(lower.as_slice(), "set") {
            Command::SetCommand(SetCommand::parse(&mut parse)?)
        } else if is_name(lower.as_slice(), "echo") {
            Command::Echo(Echo::parse(&mut parse)?)
        } else if is_name(lower.as_slice(), "ping") {
            Command::Ping(Ping::parse(&mut parse)?)
        } else if is_name(lower.as_slice(), "dbsize") {
            Command::DbSize(DbSize::parse(&mut parse)?)
        } else {
            return Ok(Command::Unknown(Unknown::new(command_name)));
        };
        parse.finish()?;
        Ok(command)
    }
}

} // verus!
