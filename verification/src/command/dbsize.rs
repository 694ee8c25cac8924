//! `DBSIZE`: replies with the number of keys in the store.
use super::{Apply, CommandError, SpecCommand};
use crate::db::Db;
use crate::frame::Frame;
use crate::parse::{ParseError, Parser};
use vstd::prelude::*;

verus! {

/// The `DBSIZE` command.
#[derive(Debug)]
pub struct DbSize {}

impl Default for DbSize {
    fn default() -> (d: Self)
        ensures
            d.command() == SpecCommand::DbSize,
    {
        DbSize {}
    }
}

impl Apply for DbSize {
    open spec fn command(&self) -> SpecCommand {
        SpecCommand::DbSize
    }

    fn apply(self, db: &mut Db) -> (r: Result<Frame, CommandError>) {
        Ok(Frame::Integer(db.len() as i64))
    }
}

impl DbSize {
    /// `DBSIZE` takes no arguments; nothing is read.
    pub fn parse(_parser: &mut Parser) -> (r: Result<Self, ParseError>)
        ensures
            *final(_parser) == *old(_parser),
            r matches Ok(c) && c.command() == SpecCommand::DbSize,
    {
        Ok(Self::default())
    }
}

} // verus!
