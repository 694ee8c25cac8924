//! A connection's read side: the bytes received and not yet parsed, and how
//! whole frames are taken from them.
use crate::buffers::{
    bytes_mut_advance, bytes_mut_as_slice, bytes_mut_extend_from_slice, bytes_mut_seq,
    bytes_mut_with_capacity,
};
use crate::cursor::Cursor;
use crate::frame::{spec_check, spec_parse, Frame, FrameError, SpecFrame, SpecFrameError};
use crate::frame_laws::lemma_checked_frame_parses;
use crate::frame::lemma_check_advances;
use bytes::BytesMut;
use vstd::prelude::*;

verus! {

#[verifier::external_type_specification]
#[verifier::external_body]
pub struct ExIoError(std::io::Error);

/// Why a frame could not be read from a connection.
#[derive(Debug)]
pub enum ConnectionError {
    Parse(FrameError),
    Io(std::io::Error),
}

impl From<std::io::Error> for ConnectionError {
    fn from(value: std::io::Error) -> (e: Self) {
        Self::Io(value)
    }
}

impl vstd::std_specs::convert::FromSpecImpl<std::io::Error> for ConnectionError {
    open spec fn obeys_from_spec() -> bool {
        true
    }

    open spec fn from_spec(value: std::io::Error) -> ConnectionError {
        ConnectionError::Io(value)
    }
}

impl From<FrameError> for ConnectionError {
    fn from(value: FrameError) -> (e: Self) {
        Self::Parse(value)
    }
}

impl vstd::std_specs::convert::FromSpecImpl<FrameError> for ConnectionError {
    open spec fn obeys_from_spec() -> bool {
        true
    }

    open spec fn from_spec(value: FrameError) -> ConnectionError {
        ConnectionError::Parse(value)
    }
}

/// `<std::io::Error as Display>::fmt`, as `to_string` gives it. The text
/// depends on the platform's messages; nothing is stated of it.
#[verifier::external_body]
fn io_error_text(e: &std::io::Error) -> String {
    e.to_string()
}

impl ConnectionError {
    /// The message this error displays as: that of the frame error, or of
    /// the I/O error.
    pub fn to_string(&self) -> (s: String)
        ensures
            self matches ConnectionError::Parse(e) ==> s@ == match e@ {
                SpecFrameError::Incomplete => "stream ended early"@,
                SpecFrameError::Invalid(m) => m,
            },
    {
        match self {
            ConnectionError::Parse(e) => e.to_string(),
            ConnectionError::Io(e) => io_error_text(e),
        }
    }
}

/// What reading a frame from the bytes `buf` gives: the frame and how many
/// bytes it took, nothing while the frame is incomplete, or the error.
pub open spec fn spec_parse_frame(buf: Seq<u8>) -> Result<Option<(SpecFrame, int)>, SpecFrameError> {
    match spec_check(buf, 0) {
        Ok(n) => match spec_parse(buf, 0) {
            Some(Ok((f, _))) => Ok(Some((f, n))),
            Some(Err(e)) => Err(e),
            None => Err(SpecFrameError::Incomplete),
        },
        Err(SpecFrameError::Incomplete) => Ok(None),
        Err(e) => Err(e),
    }
}

/// What a connection reads when it starts with `buf` buffered and its peer
/// then sends `chunks` one after another and closes: the frames that
/// `parse_frame` takes, in order, receiving the next chunk each time the
/// frame is incomplete; and how reading ended, `None` at the close or the
/// error that `parse_frame` met. An empty chunk is a close, as a read of no
/// bytes is.
pub open spec fn read_stream(buf: Seq<u8>, chunks: Seq<Seq<u8>>) -> (
    Seq<SpecFrame>,
    Option<SpecFrameError>,
)
    decreases chunks.len(), buf.len(),
{
    match spec_parse_frame(buf) {
        Ok(Some((f, n))) => {
            proof {
                lemma_check_advances(buf, 0);
            }
            let next = read_stream(buf.skip(n), chunks);
            (seq![f] + next.0, next.1)
        },
        Ok(None) => if chunks.len() == 0 || chunks[0].len() == 0 {
            (Seq::empty(), None)
        } else {
            read_stream(buf + chunks[0], chunks.drop_first())
        },
        Err(e) => (Seq::empty(), Some(e)),
    }
}

/// A connection: the stream it talks over, and the bytes received on it
/// that are not yet parsed. The stream is handed in by the caller, which
/// does the reading and writing.
pub struct Connection<S> {
    pub stream: S,
    buffer: BytesMut,
}

impl<S> Connection<S> {
    /// The stream.
    pub closed spec fn stream_of(&self) -> S {
        self.stream
    }

    /// The bytes received and not yet parsed.
    pub closed spec fn buffered(&self) -> Seq<u8> {
        bytes_mut_seq(self.buffer)
    }

    /// A connection over `stream`, with nothing buffered.
    pub fn new(stream: S) -> (c: Self)
        ensures
            c.stream_of() == stream,
            c.buffered() == Seq::<u8>::empty(),
    {
        Self { stream, buffer: bytes_mut_with_capacity(4096) }
    }

    /// How many bytes are buffered.
    pub fn buffered_len(&self) -> (n: usize)
        ensures
            n == self.buffered().len(),
    {
        bytes_mut_as_slice(&self.buffer).len()
    }

    /// Adds bytes received from the stream to the buffer.
    pub fn receive(&mut self, data: &[u8])
        requires
            old(self).buffered().len() + data@.len() <= isize::MAX,
        ensures
            final(self).stream_of() == old(self).stream_of(),
            final(self).buffered() == old(self).buffered() + data@,
    {
        bytes_mut_extend_from_slice(&mut self.buffer, data);
    }

    /// Takes one whole frame from the front of the buffer, if there is one.
    /// While the frame is incomplete nothing is taken and `None` returned;
    /// on an error the buffer stays as it was.
    pub fn parse_frame(&mut self) -> (r: Result<Option<Frame>, FrameError>)
        ensures
            final(self).stream_of() == old(self).stream_of(),
            match spec_parse_frame(old(self).buffered()) {
                Ok(Some((f, n))) => r matches Ok(Some(fr)) && fr@ == f
                    && final(self).buffered() == old(self).buffered().skip(n),
                Ok(None) => r matches Ok(None) && final(self).buffered() == old(self).buffered(),
                Err(e) => r matches Err(fe) && fe@ == e && final(self).buffered() == old(self).buffered(),
            },
    {
        let buf = bytes_mut_as_slice(&self.buffer);
        let total = buf.len();
        let mut cursor = Cursor::new(buf);
        match Frame::check(&mut cursor) {
            Ok(()) => {
                proof {
                    lemma_check_advances(buf@, 0);
                    lemma_checked_frame_parses(buf@, 0);
                }
                assert(cursor@.1 <= total);
                let consumed = cursor.position() as usize;
                cursor.set_position(0);
                let frame = Frame::parse(&mut cursor)?;
                bytes_mut_advance(&mut self.buffer, consumed);
                Ok(Some(frame))
            },
            Err(FrameError::Incomplete) => Ok(None),
            Err(e) => Err(e),
        }
    }
}

} // verus!
