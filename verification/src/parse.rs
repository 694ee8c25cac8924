//! Reading the parts of a command frame one at a time.
use crate::buffers::{bytes_clone, bytes_seq};
use crate::frame::{display, frames_view, lemma_frames_view_len, Frame, SpecFrame};
use bytes::Bytes;
use vstd::prelude::*;
use vstd::string::StringExecFns;

verus! {

/// Why the parts of a command could not be read.
#[derive(Debug)]
pub enum ParseError {
    /// All parts have been read.
    EndOfStream,
    /// A part, or the frame itself, is not what a command needs.
    Other(String),
}

/// A parse error as a mathematical value.
pub enum SpecParseError {
    EndOfStream,
    Other(Seq<char>),
}

impl View for ParseError {
    type V = SpecParseError;

    open spec fn view(&self) -> SpecParseError {
        match self {
            ParseError::EndOfStream => SpecParseError::EndOfStream,
            ParseError::Other(s) => SpecParseError::Other(s@),
        }
    }
}

/// The error for a command frame that is not an array.
pub open spec fn msg_expected_array(f: SpecFrame) -> Seq<char> {
    "protocol error; expected array, got "@ + display(f)
}

/// The error for a part that is neither a simple nor a bulk string.
pub open spec fn msg_expected_string(f: SpecFrame) -> Seq<char> {
    "protocol error; expected simple frame or bulk frame, got "@ + display(f)
}

/// The error for parts left over after a command.
pub open spec fn msg_expected_end() -> Seq<char> {
    "protocol error; expected end of frame, but there was more"@
}

/// Reading the next part of `parts` as a byte string: the bytes and the
/// parts after it, or why that is not possible.
pub open spec fn spec_next_bytes(parts: Seq<SpecFrame>) -> Result<(Seq<u8>, Seq<SpecFrame>), SpecParseError> {
    if parts.len() == 0 {
        Err(SpecParseError::EndOfStream)
    } else {
        match parts[0] {
            SpecFrame::Simple(b) => Ok((b, parts.drop_first())),
            SpecFrame::Bulk(b) => Ok((b, parts.drop_first())),
            other => Err(SpecParseError::Other(msg_expected_string(other))),
        }
    }
}

/// The parts of an array frame, read front to back.
pub struct Parser {
    parts: Vec<Frame>,
    next: usize,
}

impl View for Parser {
    /// The parts not read yet.
    type V = Seq<SpecFrame>;

    closed spec fn view(&self) -> Seq<SpecFrame> {
        frames_view(self.parts@).skip(self.next as int)
    }
}

impl Parser {
    /// Internal consistency: the read position lies within the parts.
    #[verifier::type_invariant]
    closed spec fn wf(&self) -> bool {
        self.next <= self.parts@.len()
    }

    /// A parser over the parts of `frame`, which must be an array.
    pub fn new(frame: Frame) -> (r: Result<Parser, ParseError>)
        ensures
            match frame@ {
                SpecFrame::Array(parts) => r matches Ok(p) && p@ == parts,
                other => r matches Err(e) && e@ == SpecParseError::Other(msg_expected_array(other)),
            },
    {
        match frame {
            Frame::Array(parts) => {
                let p = Parser { parts, next: 0 };
                assert(p@ =~= frames_view(p.parts@));
                Ok(p)
            },
            other => {
                let mut msg = "protocol error; expected array, got ".to_owned();
                let text = other.to_string();
                msg.append(text.as_str());
                Err(ParseError::Other(msg))
            },
        }
    }

    /// Reads the next part as a byte string. The part is consumed even where
    /// it is of another kind.
    pub fn next_bytes(&mut self) -> (r: Result<Bytes, ParseError>)
        ensures
            match spec_next_bytes(old(self)@) {
                Ok((b, rest)) => r matches Ok(v) && bytes_seq(v) == b && final(self)@ == rest,
                Err(SpecParseError::EndOfStream) => r matches Err(ParseError::EndOfStream)
                    && final(self)@ == old(self)@,
                Err(e) => r matches Err(pe) && pe@ == e && final(self)@ == old(self)@.drop_first(),
            },
    {
        proof {
            use_type_invariant(&*self);
            lemma_frames_view_len(self.parts@);
        }
        if self.next >= self.parts.len() {
            return Err(ParseError::EndOfStream);
        }
        let i = self.next;
        self.next = self.next + 1;
        proof {
            assert(frames_view(self.parts@).skip(i + 1) =~= frames_view(self.parts@).skip(
                i as int,
            ).drop_first());
        }
        match &self.parts[i] {
            Frame::Simple(s) => Ok(bytes_clone(s)),
            Frame::Bulk(data) => Ok(bytes_clone(data)),
            other => {
                let mut msg = "protocol error; expected simple frame or bulk frame, got ".to_owned();
                let text = other.to_string();
                msg.append(text.as_str());
                Err(ParseError::Other(msg))
            },
        }
    }

    /// Succeeds when every part has been read; otherwise consumes the next
    /// part and fails.
    pub fn finish(&mut self) -> (r: Result<(), ParseError>)
        ensures
            old(self)@.len() == 0 ==> r is Ok && final(self)@ == old(self)@,
            old(self)@.len() > 0 ==> (r matches Err(e) && e@ == SpecParseError::Other(msg_expected_end())
                && final(self)@ == old(self)@.drop_first()),
    {
        proof {
            use_type_invariant(&*self);
            lemma_frames_view_len(self.parts@);
        }
        if self.next >= self.parts.len() {
            Ok(())
        } else {
            self.next = self.next + 1;
            proof {
                assert(frames_view(self.parts@).skip(self.next as int) =~= frames_view(
                    self.parts@,
                ).skip(self.next - 1).drop_first());
            }
            Err(ParseError::Other("protocol error; expected end of frame, but there was more".to_owned()))
        }
    }
}

} // verus!
