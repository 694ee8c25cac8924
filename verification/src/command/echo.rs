//! `ECHO message`: replies with the message.
use super::{after_next, Apply, CommandError, SpecCommand};
use crate::buffers::bytes_seq;
use crate::db::Db;
use crate::frame::Frame;
use crate::parse::{spec_next_bytes, ParseError, Parser};
use bytes::Bytes;
use vstd::prelude::*;

verus! {

/// The `ECHO` command.
pub struct Echo {
    message: Bytes,
}

impl Apply for Echo {
    closed spec fn command(&self) -> SpecCommand {
        SpecCommand::Echo(bytes_seq(self.message))
    }

    fn apply(self, db: &mut Db) -> (r: Result<Frame, CommandError>) {
        proof {
            db.lemma_view_finite();
        }
        Ok(Frame::Bulk(self.message))
    }
}

impl Echo {
    /// Reads the message, which follows the command name.
    pub fn parse(parser: &mut Parser) -> (r: Result<Self, ParseError>)
        ensures
            final(parser)@ == after_next(old(parser)@),
            match spec_next_bytes(old(parser)@) {
                Ok((m, _)) => r matches Ok(c) && c.command() == SpecCommand::Echo(m),
                Err(e) => r matches Err(pe) && pe@ == e,
            },
    {
        let message = parser.next_bytes()?;
        Ok(Self { message })
    }
}

} // verus!
