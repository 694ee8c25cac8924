//! `SET key value`: stores the value under the key.
use super::{after_next, Apply, CommandError, SpecCommand};
use crate::buffers::{bytes_copy_from_slice, bytes_seq};
use crate::db::{Db, Value};
use crate::frame::Frame;
use crate::parse::{spec_next_bytes, ParseError, Parser};
use bytes::Bytes;
use vstd::prelude::*;

verus! {

/// The `SET` command.
pub struct SetCommand {
    key: Bytes,
    value: Bytes,
}

impl Apply for SetCommand {
    closed spec fn command(&self) -> SpecCommand {
        SpecCommand::SetCommand(bytes_seq(self.key), bytes_seq(self.value))
    }

    fn apply(self, db: &mut Db) -> (r: Result<Frame, CommandError>) {
        db.insert(self.key, Value::String(self.value));
        Ok(Frame::Simple(bytes_copy_from_slice("OK".as_bytes())))
    }
}

impl SetCommand {
    /// Reads the key and then the value, which follow the command name.
    pub fn parse(parser: &mut Parser) -> (r: Result<Self, ParseError>)
        ensures
            match spec_next_bytes(old(parser)@) {
                Ok((k, rest)) => final(parser)@ == after_next(rest) && match spec_next_bytes(rest) {
                    Ok((v, _)) => r matches Ok(c) && c.command() == SpecCommand::SetCommand(k, v),
                    Err(e) => r matches Err(pe) && pe@ == e,
                },
                Err(e) => final(parser)@ == after_next(old(parser)@) && (r matches Err(pe) && pe@ == e),
            },
    {
        // Both the key and the value are required.
        let key = parser.next_bytes()?;
        let value = parser.next_bytes()?;
        Ok(Self { key, value })
    }
}

} // verus!
