//! `PING [message]`: replies with `PONG`, or with the message.
use super::{after_next, Apply, CommandError, SpecCommand};
use crate::buffers::{bytes_copy_from_slice, bytes_seq};
use crate::db::Db;
use crate::frame::Frame;
use crate::parse::{spec_next_bytes, ParseError, Parser, SpecParseError};
use bytes::Bytes;
use vstd::prelude::*;

verus! {

/// The `PING` command.
#[derive(Debug)]
pub struct Ping {
    msg: Option<Bytes>,
}

impl Default for Ping {
    fn default() -> (p: Self)
        ensures
            p.command() == SpecCommand::Ping(None),
    {
        Ping { msg: None }
    }
}

impl Apply for Ping {
    closed spec fn command(&self) -> SpecCommand {
        match self.msg {
            Some(m) => SpecCommand::Ping(Some(bytes_seq(m))),
            None => SpecCommand::Ping(None),
        }
    }

    fn apply(self, db: &mut Db) -> (r: Result<Frame, CommandError>) {
        proof {
            db.lemma_view_finite();
        }
        match self.msg {
            Some(msg) => Ok(Frame::Bulk(msg)),
            None => Ok(Frame::Simple(bytes_copy_from_slice("PONG".as_bytes()))),
        }
    }
}

impl Ping {
    fn new(message: Option<Bytes>) -> (p: Self)
        ensures
            p.msg == message,
    {
        Self { msg: message }
    }

    /// Reads the optional message that follows the command name.
    pub fn parse(parser: &mut Parser) -> (r: Result<Self, ParseError>)
        ensures
            final(parser)@ == after_next(old(parser)@),
            match spec_next_bytes(old(parser)@) {
                Ok((m, _)) => r matches Ok(c) && c.command() == SpecCommand::Ping(Some(m)),
                Err(SpecParseError::EndOfStream) => r matches Ok(c) && c.command() == SpecCommand::Ping(None),
                Err(e) => r matches Err(pe) && pe@ == e,
            },
    {
        match parser.next_bytes() {
            Ok(msg) => Ok(Ping::new(Some(msg))),
            Err(ParseError::EndOfStream) => Ok(Ping::default()),
            Err(e) => Err(e),
        }
    }
}

} // verus!
