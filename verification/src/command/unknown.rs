//! A command the server does not know. This is not a real Redis command.
use super::{Apply, CommandError, SpecCommand};
use crate::buffers::{bytes_as_slice, bytes_copy_from_slice, bytes_seq};
use crate::db::Db;
use crate::frame::Frame;
use crate::text::utf8_lossy;
use bytes::Bytes;
use vstd::prelude::*;
use vstd::string::StringExecFns;

verus! {

/// A command with a name the server does not know.
#[derive(Debug)]
pub struct Unknown {
    command_name: Bytes,
}

impl Apply for Unknown {
    closed spec fn command(&self) -> SpecCommand {
        SpecCommand::Unknown(bytes_seq(self.command_name))
    }

    /// Replies with the error `ERR unknown command '<name>'`.
    fn apply(self, db: &mut Db) -> (r: Result<Frame, CommandError>) {
        proof {
            db.lemma_view_finite();
        }
        let mut msg = "ERR unknown command '".to_owned();
        let name = utf8_lossy(bytes_as_slice(&self.command_name));
        msg.append(name.as_str());
        msg.append("'");
        Ok(Frame::Error(bytes_copy_from_slice(msg.as_str().as_bytes())))
    }
}

impl Unknown {
    /// The unknown command named `command_name`.
    pub fn new(command_name: Bytes) -> (u: Self)
        ensures
            u.command() == SpecCommand::Unknown(bytes_seq(command_name)),
    {
        Self { command_name }
    }
}

} // verus!
