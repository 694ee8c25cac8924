//! `GET key`: replies with the string stored under the key, or null.
use super::{after_next, Apply, CommandError, SpecCommand};
use crate::buffers::{bytes_as_slice, bytes_clone, bytes_copy_from_slice, bytes_seq};
use crate::db::{Db, Value};
use crate::frame::Frame;
use crate::parse::{spec_next_bytes, ParseError, Parser};
use bytes::Bytes;
use vstd::prelude::*;

verus! {

/// The `GET` command.
pub struct Get {
    key: Bytes,
}

impl Apply for Get {
    closed spec fn command(&self) -> SpecCommand {
        SpecCommand::Get(bytes_seq(self.key))
    }

    fn apply(self, db: &mut Db) -> (r: Result<Frame, CommandError>) {
        proof {
            db.lemma_view_finite();
        }
        match db.get(bytes_as_slice(&self.key)) {
            Some(Value::String(v)) => Ok(Frame::Bulk(bytes_clone(v))),
            Some(_) => Ok(
                Frame::Error(
                    bytes_copy_from_slice(
                        "WRONGTYPE Operation against a key holding the wrong kind of value".as_bytes(),
                    ),
                ),
            ),
            None => Ok(Frame::Null),
        }
    }
}

impl Get {
    /// Reads the key, which follows the command name.
    pub fn parse(parser: &mut Parser) -> (r: Result<Self, ParseError>)
        ensures
            final(parser)@ == after_next(old(parser)@),
            match spec_next_bytes(old(parser)@) {
                Ok((k, _)) => r matches Ok(c) && c.command() == SpecCommand::Get(k),
                Err(e) => r matches Err(pe) && pe@ == e,
            },
    {
        // The `GET` string has already been consumed. The next value is the
        // name of the key to get.
        let key = parser.next_bytes()?;
        Ok(Self { key })
    }
}

} // verus!
