//! RESP frames: the values that travel between client and server, how they
//! are recognised in a byte stream, read, written and displayed.
use crate::buffers::{
    bytes_as_slice, bytes_copy_from_slice, bytes_debug, bytes_debug_text, bytes_eq_str, bytes_seq,
};
use crate::cursor::{remaining_after, Cursor};
use crate::decimal::{atoi_i64, atoi_i64_spec, decimal, decimal_of_u64, push_decimal, push_digits};
use crate::text::{all_ascii, ascii_chars, ascii_str, extend_bytes, str_from_utf8};
use vstd::string::StringSliceAdditionalSpecFns;
use vstd::utf8::{decode_utf8, encode_utf8_decode_utf8, valid_utf8};
use vstd::string::StringExecFns;
use bytes::Bytes;
use vstd::prelude::*;
use vstd::std_specs::cmp::PartialEqSpec;

verus! {

/// A RESP value.
#[derive(Debug)]
pub enum Frame {
    Simple(Bytes),
    Error(Bytes),
    Integer(i64),
    Bulk(Bytes),
    Array(Vec<Frame>),
    Null,
}

/// A frame as a mathematical value: payloads are byte sequences.
pub enum SpecFrame {
    Simple(Seq<u8>),
    Error(Seq<u8>),
    Integer(i64),
    Bulk(Seq<u8>),
    Array(Seq<SpecFrame>),
    Null,
}

/// The value of a frame.
pub open spec fn frame_view(f: Frame) -> SpecFrame
    decreases f,
{
    match f {
        Frame::Simple(b) => SpecFrame::Simple(bytes_seq(b)),
        Frame::Error(b) => SpecFrame::Error(bytes_seq(b)),
        Frame::Integer(n) => SpecFrame::Integer(n),
        Frame::Bulk(b) => SpecFrame::Bulk(bytes_seq(b)),
        Frame::Array(v) => SpecFrame::Array(frames_view(v@)),
        Frame::Null => SpecFrame::Null,
    }
}

/// The values of a sequence of frames.
pub open spec fn frames_view(s: Seq<Frame>) -> Seq<SpecFrame>
    decreases s,
{
    if s.len() == 0 {
        Seq::empty()
    } else {
        frames_view(s.drop_last()).push(frame_view(s.last()))
    }
}

impl View for Frame {
    type V = SpecFrame;

    open spec fn view(&self) -> SpecFrame {
        frame_view(*self)
    }
}


/// Why a frame could not be read.
#[derive(Debug)]
pub enum FrameError {
    /// More bytes are needed.
    Incomplete,
    /// The bytes are not valid RESP.
    Invalid(String),
}

/// A frame error as a mathematical value.
pub enum SpecFrameError {
    Incomplete,
    Invalid(Seq<char>),
}

impl View for FrameError {
    type V = SpecFrameError;

    open spec fn view(&self) -> SpecFrameError {
        match self {
            FrameError::Incomplete => SpecFrameError::Incomplete,
            FrameError::Invalid(s) => SpecFrameError::Invalid(s@),
        }
    }
}

impl From<String> for FrameError {
    fn from(src: String) -> (e: FrameError) {
        FrameError::Invalid(src)
    }
}

impl vstd::std_specs::convert::FromSpecImpl<String> for FrameError {
    open spec fn obeys_from_spec() -> bool {
        true
    }

    open spec fn from_spec(src: String) -> FrameError {
        FrameError::Invalid(src)
    }
}


/// The message of an `Invalid` error for a malformed frame.
pub open spec fn msg_invalid_format() -> Seq<char> {
    "protocol error; invalid frame format"@
}

/// The message of an `Invalid` error for a line that is not a number.
pub open spec fn msg_invalid_number() -> Seq<char> {
    "invalid number"@
}

/// The message of an `Invalid` error for an unknown type byte `t`.
pub open spec fn msg_invalid_type(t: u8) -> Seq<char> {
    "protocol error; invalid frame type byte `"@ + ascii_chars(decimal(t as int)) + "`"@
}

/// The first `\r\n` in `buf` that starts at index `i` or later.
pub open spec fn find_crlf(buf: Seq<u8>, i: int) -> Option<int>
    decreases buf.len() - i,
{
    if i < 0 || i + 1 >= buf.len() {
        None
    } else if buf[i] == 13 && buf[i + 1] == 10 {
        Some(i)
    } else {
        find_crlf(buf, i + 1)
    }
}

/// A `\r\n` found from `i` on lies at or after `i` and inside `buf`, and no
/// `\r\n` starts between `i` and it.
pub proof fn lemma_find_crlf(buf: Seq<u8>, i: int)
    ensures
        find_crlf(buf, i) matches Some(j) ==> {
            &&& 0 <= i <= j
            &&& j + 1 < buf.len()
            &&& buf[j] == 13 && buf[j + 1] == 10
            &&& forall|k: int| i <= k < j ==> !(buf[k] == 13 && #[trigger] buf[k + 1] == 10)
        },
        find_crlf(buf, i) is None ==> forall|k: int|
            0 <= i <= k && k + 1 < buf.len() ==> !(buf[k] == 13 && #[trigger] buf[k + 1] == 10),
    decreases buf.len() - i,
{
    if i < 0 || i + 1 >= buf.len() {
    } else if buf[i] == 13 && buf[i + 1] == 10 {
    } else {
        lemma_find_crlf(buf, i + 1);
    }
}

/// The line that starts at `pos` and the position after its `\r\n`.
pub open spec fn spec_line(buf: Seq<u8>, pos: int) -> Result<(Seq<u8>, int), SpecFrameError> {
    match find_crlf(buf, pos) {
        Some(i) => Ok((buf.subrange(pos, i), i + 2)),
        None => Err(SpecFrameError::Incomplete),
    }
}

/// The number written on the line that starts at `pos`, and the position after it.
pub open spec fn spec_integer(buf: Seq<u8>, pos: int) -> Result<(i64, int), SpecFrameError> {
    match spec_line(buf, pos) {
        Ok((line, next)) => match atoi_i64_spec(line) {
            Some(n) => Ok((n, next)),
            None => Err(SpecFrameError::Invalid(msg_invalid_number())),
        },
        Err(e) => Err(e),
    }
}

/// A line read at `pos` ends at least three bytes later and inside `buf`.
pub proof fn lemma_line_advances(buf: Seq<u8>, pos: int)
    ensures
        spec_line(buf, pos) matches Ok((l, q)) ==> pos + 2 <= q <= buf.len() && l.len() == q - pos - 2,
        spec_integer(buf, pos) matches Ok((n, q)) ==> pos + 2 <= q <= buf.len(),
{
    lemma_find_crlf(buf, pos);
}

/// Whether `n` is a length that `try_into::<usize>` accepts.
pub open spec fn fits_usize(n: i64) -> bool {
    0 <= n && n <= usize::MAX
}

/// What `Frame::check` finds at `pos`: the position just after one whole
/// frame, or why there is none.
pub open spec fn spec_check(buf: Seq<u8>, pos: int) -> Result<int, SpecFrameError>
    decreases buf.len() - pos, 1int,
{
    if pos < 0 || pos >= buf.len() {
        Err(SpecFrameError::Incomplete)
    } else {
        let t = buf[pos];
        let p = pos + 1;
        if t == 43 || t == 45 {
            match spec_line(buf, p) {
                Ok((_, q)) => Ok(q),
                Err(e) => Err(e),
            }
        } else if t == 58 {
            match spec_integer(buf, p) {
                Ok((_, q)) => Ok(q),
                Err(e) => Err(e),
            }
        } else if t == 36 {
            if p >= buf.len() {
                Err(SpecFrameError::Incomplete)
            } else if buf[p] == 45 {
                match spec_line(buf, p) {
                    Ok((l, q)) => if l == seq![45u8, 49u8] {
                        Ok(q)
                    } else {
                        Err(SpecFrameError::Invalid(msg_invalid_format()))
                    },
                    Err(e) => Err(e),
                }
            } else {
                match spec_integer(buf, p) {
                    Ok((n, q)) => if !fits_usize(n) {
                        Err(SpecFrameError::Invalid(msg_invalid_format()))
                    } else if remaining_after(buf, q) < n + 2 {
                        Err(SpecFrameError::Incomplete)
                    } else {
                        Ok(q + n + 2)
                    },
                    Err(e) => Err(e),
                }
            }
        } else if t == 42 {
            match spec_integer(buf, p) {
                Ok((n, q)) => {
                    proof {
                        lemma_line_advances(buf, p);
                    }
                    spec_check_array(buf, q, n as int)
                },
                Err(e) => Err(e),
            }
        } else {
            Err(SpecFrameError::Invalid(msg_invalid_type(t)))
        }
    }
}

/// What checking `n` frames in a row from `pos` finds.
pub open spec fn spec_check_array(buf: Seq<u8>, pos: int, n: int) -> Result<int, SpecFrameError>
    decreases buf.len() - pos, 2int,
{
    if n <= 0 {
        Ok(pos)
    } else {
        match spec_check(buf, pos) {
            Ok(q) => if pos < q <= buf.len() {
                spec_check_array(buf, q, n - 1)
            } else {
                Err(SpecFrameError::Incomplete)
            },
            Err(e) => Err(e),
        }
    }
}


/// Where reading a line from `pos` leaves the position: after the line's
/// `\r\n`, or where it was when there is none.
pub open spec fn spec_line_stop(buf: Seq<u8>, pos: int) -> int {
    match find_crlf(buf, pos) {
        Some(i) => i + 2,
        None => pos,
    }
}

/// Where `Frame::check` leaves the position, whether it succeeds or not.
pub open spec fn spec_check_stop(buf: Seq<u8>, pos: int) -> int
    decreases buf.len() - pos, 1int,
{
    if pos < 0 || pos >= buf.len() {
        pos
    } else {
        let t = buf[pos];
        let p = pos + 1;
        if t == 43 || t == 45 || t == 58 {
            spec_line_stop(buf, p)
        } else if t == 36 {
            if p >= buf.len() {
                p
            } else if buf[p] == 45 {
                spec_line_stop(buf, p)
            } else {
                match spec_integer(buf, p) {
                    Ok((n, q)) => if fits_usize(n) && remaining_after(buf, q) >= n + 2 {
                        q + n + 2
                    } else {
                        q
                    },
                    Err(_) => spec_line_stop(buf, p),
                }
            }
        } else if t == 42 {
            match spec_integer(buf, p) {
                Ok((n, q)) => {
                    proof {
                        lemma_line_advances(buf, p);
                    }
                    spec_check_array_stop(buf, q, n as int)
                },
                Err(_) => spec_line_stop(buf, p),
            }
        } else {
            p
        }
    }
}

/// Where checking `n` frames in a row from `pos` leaves the position.
pub open spec fn spec_check_array_stop(buf: Seq<u8>, pos: int, n: int) -> int
    decreases buf.len() - pos, 2int,
{
    if n <= 0 {
        pos
    } else {
        match spec_check(buf, pos) {
            Ok(q) => if pos < q <= buf.len() {
                spec_check_array_stop(buf, q, n - 1)
            } else {
                pos
            },
            Err(_) => spec_check_stop(buf, pos),
        }
    }
}

/// A frame that `spec_check` accepts ends after its start and inside `buf`.
pub proof fn lemma_check_advances(buf: Seq<u8>, pos: int)
    ensures
        spec_check(buf, pos) matches Ok(q) ==> pos < q <= buf.len(),
    decreases buf.len() - pos, 1int,
{
    if 0 <= pos < buf.len() {
        let p = pos + 1;
        lemma_line_advances(buf, p);
        if buf[pos] == 42 {
            if let Ok((n, q)) = spec_integer(buf, p) {
                lemma_check_array_advances(buf, q, n as int);
            }
        }
    }
}

/// Checking frames in a row from `pos` ends at or after `pos` and inside `buf`.
pub proof fn lemma_check_array_advances(buf: Seq<u8>, pos: int, n: int)
    requires
        pos <= buf.len(),
    ensures
        spec_check_array(buf, pos, n) matches Ok(q) ==> pos <= q <= buf.len(),
    decreases buf.len() - pos, 2int,
{
    if n > 0 {
        lemma_check_advances(buf, pos);
        if let Ok(q) = spec_check(buf, pos) {
            lemma_check_array_advances(buf, q, n - 1);
        }
    }
}

/// What `Frame::parse` reads at `pos`: the frame and the position after it,
/// or why there is none. `None` where the reader meets a type byte it does
/// not know, which it does not handle.
pub open spec fn spec_parse(buf: Seq<u8>, pos: int) -> Option<Result<(SpecFrame, int), SpecFrameError>>
    decreases buf.len() - pos, 1int,
{
    if pos < 0 || pos >= buf.len() {
        Some(Err(SpecFrameError::Incomplete))
    } else {
        let t = buf[pos];
        let p = pos + 1;
        if t == 43 {
            Some(
                match spec_line(buf, p) {
                    Ok((l, q)) => Ok((SpecFrame::Simple(l), q)),
                    Err(e) => Err(e),
                },
            )
        } else if t == 45 {
            Some(
                match spec_line(buf, p) {
                    Ok((l, q)) => Ok((SpecFrame::Error(l), q)),
                    Err(e) => Err(e),
                },
            )
        } else if t == 58 {
            Some(
                match spec_integer(buf, p) {
                    Ok((n, q)) => Ok((SpecFrame::Integer(n), q)),
                    Err(e) => Err(e),
                },
            )
        } else if t == 36 {
            if p >= buf.len() {
                Some(Err(SpecFrameError::Incomplete))
            } else if buf[p] == 45 {
                Some(
                    match spec_line(buf, p) {
                        Ok((l, q)) => if l == seq![45u8, 49u8] {
                            Ok((SpecFrame::Null, q))
                        } else {
                            Err(SpecFrameError::Invalid(msg_invalid_format()))
                        },
                        Err(e) => Err(e),
                    },
                )
            } else {
                Some(
                    match spec_integer(buf, p) {
                        Ok((n, q)) => if !fits_usize(n) {
                            Err(SpecFrameError::Invalid(msg_invalid_format()))
                        } else if remaining_after(buf, q) < n + 2 {
                            Err(SpecFrameError::Incomplete)
                        } else {
                            Ok((SpecFrame::Bulk(buf.subrange(q, q + n)), q + n + 2))
                        },
                        Err(e) => Err(e),
                    },
                )
            }
        } else if t == 42 {
            match spec_integer(buf, p) {
                Ok((n, q)) => if !fits_usize(n) {
                    Some(Err(SpecFrameError::Invalid(msg_invalid_format())))
                } else {
                    proof {
                        lemma_line_advances(buf, p);
                    }
                    match spec_parse_array(buf, q, n as int) {
                        Some(Ok((fs, r))) => Some(Ok((SpecFrame::Array(fs), r))),
                        Some(Err(e)) => Some(Err(e)),
                        None => None,
                    }
                },
                Err(e) => Some(Err(e)),
            }
        } else {
            None
        }
    }
}

/// What reading `n` frames in a row from `pos` gives.
pub open spec fn spec_parse_array(buf: Seq<u8>, pos: int, n: int) -> Option<
    Result<(Seq<SpecFrame>, int), SpecFrameError>,
>
    decreases buf.len() - pos, 2int,
{
    if n <= 0 {
        Some(Ok((Seq::empty(), pos)))
    } else {
        match spec_parse(buf, pos) {
            Some(Ok((f, q))) => if pos < q <= buf.len() {
                match spec_parse_array(buf, q, n - 1) {
                    Some(Ok((fs, r))) => Some(Ok((seq![f] + fs, r))),
                    Some(Err(e)) => Some(Err(e)),
                    None => None,
                }
            } else {
                Some(Err(SpecFrameError::Incomplete))
            },
            Some(Err(e)) => Some(Err(e)),
            None => None,
        }
    }
}

/// Where `Frame::parse` leaves the position, whether it succeeds or not.
pub open spec fn spec_parse_stop(buf: Seq<u8>, pos: int) -> int
    decreases buf.len() - pos, 1int,
{
    if pos < 0 || pos >= buf.len() {
        pos
    } else {
        let t = buf[pos];
        let p = pos + 1;
        if t == 43 || t == 45 || t == 58 {
            spec_line_stop(buf, p)
        } else if t == 36 {
            if p >= buf.len() {
                p
            } else if buf[p] == 45 {
                spec_line_stop(buf, p)
            } else {
                match spec_integer(buf, p) {
                    Ok((n, q)) => if fits_usize(n) && remaining_after(buf, q) >= n + 2 {
                        q + n + 2
                    } else {
                        q
                    },
                    Err(_) => spec_line_stop(buf, p),
                }
            }
        } else if t == 42 {
            match spec_integer(buf, p) {
                Ok((n, q)) => if !fits_usize(n) {
                    q
                } else {
                    proof {
                        lemma_line_advances(buf, p);
                    }
                    spec_parse_array_stop(buf, q, n as int)
                },
                Err(_) => spec_line_stop(buf, p),
            }
        } else {
            p
        }
    }
}

/// Where reading `n` frames in a row from `pos` leaves the position.
pub open spec fn spec_parse_array_stop(buf: Seq<u8>, pos: int, n: int) -> int
    decreases buf.len() - pos, 2int,
{
    if n <= 0 {
        pos
    } else {
        match spec_parse(buf, pos) {
            Some(Ok((_, q))) => if pos < q <= buf.len() {
                spec_parse_array_stop(buf, q, n - 1)
            } else {
                pos
            },
            _ => spec_parse_stop(buf, pos),
        }
    }
}

/// A frame that `spec_parse` reads ends after its start and inside `buf`.
pub proof fn lemma_parse_advances(buf: Seq<u8>, pos: int)
    ensures
        spec_parse(buf, pos) matches Some(Ok((_, q))) ==> pos < q <= buf.len(),
    decreases buf.len() - pos, 1int,
{
    if 0 <= pos < buf.len() {
        let p = pos + 1;
        lemma_line_advances(buf, p);
        if buf[pos] == 42 {
            if let Ok((n, q)) = spec_integer(buf, p) {
                lemma_parse_array_advances(buf, q, n as int);
            }
        }
    }
}

/// Reading frames in a row from `pos` ends at or after `pos` and inside `buf`.
pub proof fn lemma_parse_array_advances(buf: Seq<u8>, pos: int, n: int)
    requires
        pos <= buf.len(),
    ensures
        spec_parse_array(buf, pos, n) matches Some(Ok((_, q))) ==> pos <= q <= buf.len(),
    decreases buf.len() - pos, 2int,
{
    if n > 0 {
        lemma_parse_advances(buf, pos);
        if let Some(Ok((_, q))) = spec_parse(buf, pos) {
            lemma_parse_array_advances(buf, q, n - 1);
        }
    }
}


/// The error for a malformed frame.
fn invalid_format() -> (e: FrameError)
    ensures
        e@ == SpecFrameError::Invalid(msg_invalid_format()),
{
    FrameError::Invalid("protocol error; invalid frame format".to_owned())
}

/// The error for a line that is not a number.
fn invalid_number() -> (e: FrameError)
    ensures
        e@ == SpecFrameError::Invalid(msg_invalid_number()),
{
    FrameError::Invalid("invalid number".to_owned())
}

/// The error for the unknown type byte `t`.
fn invalid_type_byte(t: u8) -> (e: FrameError)
    ensures
        e@ == SpecFrameError::Invalid(msg_invalid_type(t)),
{
    let digits = decimal_of_u64(t as u64);
    proof {
        crate::decimal::lemma_nat_digits(t as nat);
        assert(all_ascii(digits@)) by {
            assert forall|i: int| 0 <= i < digits@.len() implies #[trigger] digits@[i] < 128 by {
                assert(crate::decimal::is_digit(crate::decimal::nat_digits(t as nat)[i]));
            }
        }
    }
    let mut s = "protocol error; invalid frame type byte `".to_owned();
    s.append(ascii_str(digits.as_slice()));
    s.append("`");
    FrameError::Invalid(s)
}

/// The byte at the position, without moving.
fn peek_u8(src: &mut Cursor) -> (r: Result<u8, FrameError>)
    ensures
        final(src)@ == old(src)@,
        remaining_after(old(src)@.0, old(src)@.1 as int) > 0 ==> r == Ok::<u8, FrameError>(old(src)@.0[old(src)@.1 as int]),
        remaining_after(old(src)@.0, old(src)@.1 as int) == 0 ==> r matches Err(FrameError::Incomplete),
{
    if !src.has_remaining() {
        return Err(FrameError::Incomplete);
    }
    let c = src.chunk();
    assert(c@ =~= src@.0.skip(src@.1 as int));
    assert(c@[0] == src@.0[src@.1 as int]);
    Ok(c[0])
}

/// The byte at the position, moving past it.
fn get_u8(src: &mut Cursor) -> (r: Result<u8, FrameError>)
    ensures
        final(src)@.0 == old(src)@.0,
        remaining_after(old(src)@.0, old(src)@.1 as int) > 0 ==> r == Ok::<u8, FrameError>(old(src)@.0[old(src)@.1 as int])
            && final(src)@.1 == old(src)@.1 + 1,
        remaining_after(old(src)@.0, old(src)@.1 as int) == 0 ==> (r matches Err(FrameError::Incomplete)
            && final(src)@ == old(src)@),
{
    if !src.has_remaining() {
        return Err(FrameError::Incomplete);
    }
    Ok(src.get_u8())
}

/// Moves `n` bytes forward, if that many remain.
fn skip(src: &mut Cursor, n: usize) -> (r: Result<(), FrameError>)
    ensures
        final(src)@.0 == old(src)@.0,
        n <= remaining_after(old(src)@.0, old(src)@.1 as int) ==> r is Ok && final(src)@.1 == old(src)@.1 + n,
        n > remaining_after(old(src)@.0, old(src)@.1 as int) ==> (r matches Err(FrameError::Incomplete)
            && final(src)@ == old(src)@),
{
    if src.remaining() < n {
        return Err(FrameError::Incomplete);
    }
    src.advance(n);
    Ok(())
}

/// Reads a line ended by `\r\n` and moves past it.
fn get_line<'a>(src: &mut Cursor<'a>) -> (r: Result<&'a [u8], FrameError>)
    ensures
        final(src)@.0 == old(src)@.0,
        match spec_line(old(src)@.0, old(src)@.1 as int) {
            Ok((l, q)) => r matches Ok(s) && s@ == l && final(src)@.1 == q,
            Err(_) => r matches Err(FrameError::Incomplete) && final(src)@ == old(src)@,
        },
{
    let data = src.get_ref();
    let len = data.len();
    let pos = src.position();
    if len == 0 || pos >= len as u64 {
        return Err(FrameError::Incomplete);
    }
    let start = pos as usize;
    let end = len - 1;
    let mut i = start;
    while i < end
        invariant
            data@ == src@.0,
            src@ == old(src)@,
            start == src@.1,
            len == data@.len(),
            end == len - 1,
            start <= i,
            find_crlf(data@, start as int) == find_crlf(data@, i as int),
        decreases end - i,
    {
        if data[i] == 13 && data[i + 1] == 10 {
            src.set_position((i + 2) as u64);
            return Ok(vstd::slice::slice_subrange(data, start, i));
        }
        i = i + 1;
    }
    Err(FrameError::Incomplete)
}

/// Reads a line that holds a decimal number.
fn get_integer(src: &mut Cursor) -> (r: Result<i64, FrameError>)
    ensures
        final(src)@.0 == old(src)@.0,
        match spec_integer(old(src)@.0, old(src)@.1 as int) {
            Ok((n, q)) => r == Ok::<i64, FrameError>(n) && final(src)@.1 == q,
            Err(e) => r matches Err(fe) && fe@ == e,
        },
        final(src)@.1 == spec_line_stop(old(src)@.0, old(src)@.1 as int),
{
    let line = get_line(src)?;
    match atoi_i64(line) {
        Some(n) => Ok(n),
        None => Err(invalid_number()),
    }
}


/// `fs` in front of the frames that a reading result holds.
pub open spec fn prepend_frames(
    fs: Seq<SpecFrame>,
    r: Option<Result<(Seq<SpecFrame>, int), SpecFrameError>>,
) -> Option<Result<(Seq<SpecFrame>, int), SpecFrameError>> {
    match r {
        Some(Ok((gs, p))) => Some(Ok((fs + gs, p))),
        other => other,
    }
}

/// Whether `line` is `-1`, the length line of a null bulk string.
fn is_null_length(line: &[u8]) -> (b: bool)
    ensures
        b == (line@ == seq![45u8, 49u8]),
{
    let b = line.len() == 2 && line[0] == 45 && line[1] == 49;
    proof {
        if b {
            assert(line@ =~= seq![45u8, 49u8]);
        }
    }
    b
}

impl Frame {
    /// Checks whether one whole frame can be read from `cursor`. On success the
    /// cursor stands just after the frame.
    pub fn check(cursor: &mut Cursor) -> (r: Result<(), FrameError>)
        ensures
            final(cursor)@.0 == old(cursor)@.0,
            match spec_check(old(cursor)@.0, old(cursor)@.1 as int) {
                Ok(q) => r is Ok && final(cursor)@.1 == q,
                Err(e) => r matches Err(fe) && fe@ == e,
            },
            final(cursor)@.1 == spec_check_stop(old(cursor)@.0, old(cursor)@.1 as int),
        decreases old(cursor)@.0.len() - old(cursor)@.1,
    {
        let ghost data = cursor@.0;
        let ghost pos0 = cursor@.1 as int;
        let t = get_u8(cursor)?;
        if t == 43 || t == 45 {
            get_line(cursor)?;
            Ok(())
        } else if t == 58 {
            let _ = get_integer(cursor)?;
            Ok(())
        } else if t == 36 {
            // A bulk string: `$<length>\r\n<data>\r\n`, or `$-1\r\n` for null.
            if 45 == peek_u8(cursor)? {
                let line = get_line(cursor)?;
                if !is_null_length(line) {
                    return Err(invalid_format());
                }
                Ok(())
            } else {
                let n = get_integer(cursor)?;
                if n < 0 || n as u64 > usize::MAX as u64 {
                    return Err(invalid_format());
                }
                let len = n as usize;
                let remaining = cursor.remaining();
                if len > remaining || remaining - len < 2 {
                    return Err(FrameError::Incomplete);
                }
                skip(cursor, len + 2)
            }
        } else if t == 42 {
            let len = get_integer(cursor)?;
            let ghost q0 = cursor@.1 as int;
            proof {
                lemma_line_advances(data, pos0 + 1);
            }
            let mut k: i64 = 0;
            while k < len
                invariant
                    cursor@.0 == data,
                    data == old(cursor)@.0,
                    pos0 == old(cursor)@.1,
                    0 <= k,
                    len > 0 ==> k <= len,
                    pos0 < cursor@.1 <= data.len(),
                    spec_check(data, pos0) == spec_check_array(data, q0, len as int),
                    spec_check_array(data, q0, len as int) == spec_check_array(
                        data,
                        cursor@.1 as int,
                        len - k,
                    ),
                    spec_check_stop(data, pos0) == spec_check_array_stop(data, q0, len as int),
                    spec_check_array_stop(data, q0, len as int) == spec_check_array_stop(
                        data,
                        cursor@.1 as int,
                        len - k,
                    ),
                decreases len - k,
            {
                let ghost cur = cursor@.1 as int;
                proof {
                    lemma_check_advances(data, cur);
                }
                Frame::check(cursor)?;
                k = k + 1;
            }
            Ok(())
        } else {
            Err(invalid_type_byte(t))
        }
    }
}


impl Frame {
    /// Reads one frame from `cursor`. The bytes are meant to have passed
    /// `check`; what is required is only that no unknown type byte is met.
    pub fn parse(cursor: &mut Cursor) -> (r: Result<Frame, FrameError>)
        requires
            spec_parse(old(cursor)@.0, old(cursor)@.1 as int) is Some,
        ensures
            final(cursor)@.0 == old(cursor)@.0,
            match spec_parse(old(cursor)@.0, old(cursor)@.1 as int).unwrap() {
                Ok((f, q)) => r matches Ok(fr) && fr@ == f && final(cursor)@.1 == q,
                Err(e) => r matches Err(fe) && fe@ == e,
            },
            final(cursor)@.1 == spec_parse_stop(old(cursor)@.0, old(cursor)@.1 as int),
        decreases old(cursor)@.0.len() - old(cursor)@.1,
    {
        let ghost data = cursor@.0;
        let ghost pos0 = cursor@.1 as int;
        let t = get_u8(cursor)?;
        if t == 43 {
            let line = get_line(cursor)?;
            Ok(Frame::Simple(bytes_copy_from_slice(line)))
        } else if t == 45 {
            let line = get_line(cursor)?;
            Ok(Frame::Error(bytes_copy_from_slice(line)))
        } else if t == 58 {
            Ok(Frame::Integer(get_integer(cursor)?))
        } else if t == 36 {
            if 45 == peek_u8(cursor)? {
                let line = get_line(cursor)?;
                if !is_null_length(line) {
                    return Err(invalid_format());
                }
                Ok(Frame::Null)
            } else {
                let n = get_integer(cursor)?;
                if n < 0 || n as u64 > usize::MAX as u64 {
                    return Err(invalid_format());
                }
                let len = n as usize;
                let remaining = cursor.remaining();
                if len > remaining || remaining - len < 2 {
                    return Err(FrameError::Incomplete);
                }
                let chunk = cursor.chunk();
                let payload = bytes_copy_from_slice(vstd::slice::slice_subrange(chunk, 0, len));
                assert(chunk@.subrange(0, len as int) =~= data.subrange(
                    cursor@.1 as int,
                    cursor@.1 + len,
                ));
                skip(cursor, len + 2)?;
                Ok(Frame::Bulk(payload))
            }
        } else if t == 42 {
            let n = get_integer(cursor)?;
            if n < 0 || n as u64 > usize::MAX as u64 {
                return Err(invalid_format());
            }
            let len = n as usize;
            let ghost q0 = cursor@.1 as int;
            proof {
                lemma_line_advances(data, pos0 + 1);
            }
            let mut out: Vec<Frame> = Vec::new();
            let mut k: usize = 0;
            while k < len
                invariant
                    cursor@.0 == data,
                    data == old(cursor)@.0,
                    pos0 == old(cursor)@.1,
                    k <= len,
                    pos0 < cursor@.1 <= data.len(),
                    spec_parse(data, pos0) == match spec_parse_array(data, q0, len as int) {
                        Some(Ok((fs, r))) => Some(Ok((SpecFrame::Array(fs), r))),
                        Some(Err(e)) => Some(Err(e)),
                        None => None::<Result<(SpecFrame, int), SpecFrameError>>,
                    },
                    spec_parse_array(data, q0, len as int) == prepend_frames(
                        frames_view(out@),
                        spec_parse_array(data, cursor@.1 as int, len - k),
                    ),
                    spec_parse_array(data, cursor@.1 as int, len - k) is Some,
                    spec_parse_stop(data, pos0) == spec_parse_array_stop(data, q0, len as int),
                    spec_parse_array_stop(data, q0, len as int) == spec_parse_array_stop(
                        data,
                        cursor@.1 as int,
                        len - k,
                    ),
                decreases len - k,
            {
                let ghost cur = cursor@.1 as int;
                proof {
                    lemma_parse_advances(data, cur);
                }
                let f = Frame::parse(cursor)?;
                proof {
                    let fv = f@;
                    let q = cursor@.1 as int;
                    let rest = spec_parse_array(data, q, len - k - 1);
                    assert(out@.push(f).drop_last() =~= out@);
                    if let Some(Ok((gs, p))) = rest {
                        assert(frames_view(out@) + (seq![fv] + gs) =~= frames_view(out@).push(fv)
                            + gs);
                    }
                }
                out.push(f);
                k = k + 1;
            }
            assert(spec_parse_array(data, cursor@.1 as int, 0) == Some(
                Ok::<(Seq<SpecFrame>, int), SpecFrameError>((Seq::<SpecFrame>::empty(), cursor@.1 as int)),
            ));
            assert(frames_view(out@) + Seq::<SpecFrame>::empty() =~= frames_view(out@));
            Ok(Frame::Array(out))
        } else {
            proof {
                assert(spec_parse(data, pos0) is None);
            }
            Err(FrameError::Incomplete)
        }
    }
}


/// The line terminator `\r\n`.
pub open spec fn crlf() -> Seq<u8> {
    seq![13u8, 10u8]
}

/// The RESP bytes of a frame.
pub open spec fn encode(f: SpecFrame) -> Seq<u8>
    decreases f,
{
    match f {
        SpecFrame::Simple(s) => seq![43u8] + s + crlf(),
        SpecFrame::Error(s) => seq![45u8] + s + crlf(),
        SpecFrame::Integer(n) => seq![58u8] + decimal(n as int) + crlf(),
        SpecFrame::Bulk(s) => seq![36u8] + decimal(s.len() as int) + crlf() + s + crlf(),
        SpecFrame::Null => seq![36u8, 45u8, 49u8, 13u8, 10u8],
        SpecFrame::Array(fs) => seq![42u8] + decimal(fs.len() as int) + crlf() + encode_all(fs),
    }
}

/// The RESP bytes of frames written one after the other.
pub open spec fn encode_all(fs: Seq<SpecFrame>) -> Seq<u8>
    decreases fs,
{
    if fs.len() == 0 {
        Seq::empty()
    } else {
        encode(fs[0]) + encode_all(fs.drop_first())
    }
}

/// Writing frames one more at a time.
pub proof fn lemma_encode_all_push(fs: Seq<SpecFrame>, f: SpecFrame)
    ensures
        encode_all(fs.push(f)) == encode_all(fs) + encode(f),
    decreases fs.len(),
{
    if fs.len() == 0 {
        assert(fs.push(f).drop_first() =~= Seq::<SpecFrame>::empty());
        assert(encode_all(Seq::<SpecFrame>::empty()) =~= Seq::<u8>::empty());
        assert(encode_all(fs.push(f)) =~= encode(f));
    } else {
        lemma_encode_all_push(fs.drop_first(), f);
        assert(fs.push(f).drop_first() =~= fs.drop_first().push(f));
        assert(encode_all(fs.push(f)) =~= encode_all(fs) + encode(f));
    }
}

/// The values of the first `k` frames of a vector, and of one more.
proof fn lemma_frames_view_take(s: Seq<Frame>, k: int)
    requires
        0 <= k < s.len(),
    ensures
        frames_view(s.take(k + 1)) == frames_view(s.take(k)).push(frame_view(s[k])),
{
    assert(s.take(k + 1).drop_last() =~= s.take(k));
}

/// The view of a sequence of frames has one value per frame.
pub proof fn lemma_frames_view_len(s: Seq<Frame>)
    ensures
        frames_view(s).len() == s.len(),
        forall|i: int| 0 <= i < s.len() ==> #[trigger] frames_view(s)[i] == frame_view(s[i]),
    decreases s.len(),
{
    if s.len() > 0 {
        lemma_frames_view_len(s.drop_last());
    }
}

/// No length in the frame exceeds `isize::MAX`: neither a bulk string's nor
/// an array's, at any depth. Every frame in memory meets this.
pub open spec fn lengths_fit(f: SpecFrame) -> bool
    decreases f,
{
    match f {
        SpecFrame::Bulk(s) => s.len() <= isize::MAX,
        SpecFrame::Array(fs) => fs.len() <= isize::MAX && forall|i: int|
            0 <= i < fs.len() ==> lengths_fit(#[trigger] fs[i]),
        _ => true,
    }
}

/// `<Vec<Frame>>::len`: the number of frames. A vector never allocates more
/// than `isize::MAX` bytes (`Vec::push` and `Vec::with_capacity` panic
/// before), and a frame takes at least one byte, so the number is at most
/// `isize::MAX`.
#[verifier::external_body]
fn frame_count(v: &Vec<Frame>) -> (n: usize)
    ensures
        n == v@.len(),
        n <= isize::MAX,
{
    v.len()
}

impl Frame {
    /// Appends the RESP bytes of this frame to `out`.
    pub fn write_to(&self, out: &mut Vec<u8>)
        ensures
            final(out)@ == old(out)@ + encode(self@),
            lengths_fit(self@),
        decreases self,
    {
        match self {
            Frame::Simple(s) => {
                out.push(43u8);
                extend_bytes(out, bytes_as_slice(s));
                out.push(13u8);
                out.push(10u8);
            },
            Frame::Error(s) => {
                out.push(45u8);
                extend_bytes(out, bytes_as_slice(s));
                out.push(13u8);
                out.push(10u8);
            },
            Frame::Integer(n) => {
                out.push(58u8);
                push_decimal(out, *n);
                out.push(13u8);
                out.push(10u8);
            },
            Frame::Bulk(s) => {
                let data = bytes_as_slice(s);
                out.push(36u8);
                push_digits(out, data.len() as u64);
                out.push(13u8);
                out.push(10u8);
                extend_bytes(out, data);
                out.push(13u8);
                out.push(10u8);
            },
            Frame::Null => {
                out.push(36u8);
                out.push(45u8);
                out.push(49u8);
                out.push(13u8);
                out.push(10u8);
            },
            Frame::Array(parts) => {
                let count = frame_count(parts);
                out.push(42u8);
                push_digits(out, count as u64);
                out.push(13u8);
                out.push(10u8);
                let ghost head = out@;
                proof {
                    lemma_frames_view_len(parts@);
                }
                let mut i: usize = 0;
                while i < count
                    invariant
                        *self == Frame::Array(*parts),
                        count == parts@.len(),
                        i <= parts@.len(),
                        out@ == head + encode_all(frames_view(parts@.take(i as int))),
                        forall|j: int| 0 <= j < i ==> lengths_fit(#[trigger] frame_view(parts@[j])),
                    decreases parts@.len() - i,
                {
                    proof {
                        assert(decreases_to!(*self => (*self)->Array_0));
                        assert(decreases_to!(*parts => parts@));
                        assert(decreases_to!(parts@ => parts@[i as int]));
                        assert(decreases_to!(*self => parts@[i as int]));
                    }
                    parts[i].write_to(out);
                    proof {
                        lemma_frames_view_take(parts@, i as int);
                        lemma_encode_all_push(frames_view(parts@.take(i as int)), frame_view(parts@[i as int]));
                    }
                    i = i + 1;
                }
                assert(parts@.take(i as int) =~= parts@);
                assert forall|j: int| 0 <= j < frames_view(parts@).len() implies lengths_fit(
                    #[trigger] frames_view(parts@)[j],
                ) by {
                    assert(frames_view(parts@)[j] == frame_view(parts@[j]));
                }
            },
        }
        assert(out@ =~= old(out)@ + encode(self@));
    }

    /// The RESP bytes of this frame.
    pub fn encode(&self) -> (v: Vec<u8>)
        ensures
            v@ == encode(self@),
            lengths_fit(self@),
    {
        let mut v: Vec<u8> = Vec::new();
        self.write_to(&mut v);
        assert(v@ =~= encode(self@));
        v
    }
}


/// How the payload `b` of a simple string or bulk string is displayed: as
/// text where it is UTF-8, else as a byte-string literal.
pub open spec fn payload_text(b: Seq<u8>) -> Seq<char> {
    if valid_utf8(b) {
        decode_utf8(b)
    } else {
        bytes_debug_text(b)
    }
}

/// The text a frame displays as.
pub open spec fn display(f: SpecFrame) -> Seq<char>
    decreases f,
{
    match f {
        SpecFrame::Simple(b) => payload_text(b),
        SpecFrame::Error(b) => "error: "@ + bytes_debug_text(b),
        SpecFrame::Integer(n) => ascii_chars(decimal(n as int)),
        SpecFrame::Bulk(b) => payload_text(b),
        SpecFrame::Null => "(nil)"@,
        SpecFrame::Array(fs) => display_joined(fs),
    }
}

/// The texts of frames, separated by single spaces.
pub open spec fn display_joined(fs: Seq<SpecFrame>) -> Seq<char>
    decreases fs,
{
    if fs.len() == 0 {
        Seq::empty()
    } else if fs.len() == 1 {
        display(fs[0])
    } else {
        display_joined(fs.drop_last()) + " "@ + display(fs.last())
    }
}

/// The numeral of an integer is ASCII.
pub proof fn lemma_decimal_ascii(n: int)
    ensures
        all_ascii(decimal(n)),
{
    let m: nat = if n < 0 { (-n) as nat } else { n as nat };
    crate::decimal::lemma_nat_digits(m);
    let d = decimal(n);
    assert forall|i: int| 0 <= i < d.len() implies #[trigger] d[i] < 128 by {
        if n < 0 {
            if i > 0 {
                assert(d[i] == crate::decimal::nat_digits(m)[i - 1]);
            }
        } else {
            assert(crate::decimal::is_digit(crate::decimal::nat_digits(m)[i]));
        }
    }
}

/// Appends the display text of a payload to `s`.
fn push_payload_text(s: &mut String, b: &Bytes)
    ensures
        final(s)@ == old(s)@ + payload_text(bytes_seq(*b)),
{
    match str_from_utf8(bytes_as_slice(b)) {
        Some(text) => {
            proof {
                encode_utf8_decode_utf8(text@);
            }
            s.append(text);
        },
        None => {
            let text = bytes_debug(b);
            s.append(text.as_str());
        },
    }
}

impl Frame {
    /// The text this frame displays as: payloads as text (or as byte-string
    /// literals where they are not UTF-8), errors as `error: ` and the
    /// literal, integers in decimal, null as `(nil)`, arrays as their
    /// elements separated by spaces.
    pub fn to_string(&self) -> (s: String)
        ensures
            s@ == display(self@),
        decreases self,
    {
        let mut s = String::new();
        match self {
            Frame::Simple(b) => push_payload_text(&mut s, b),
            Frame::Error(b) => {
                s.append("error: ");
                let text = bytes_debug(b);
                s.append(text.as_str());
            },
            Frame::Integer(n) => {
                let mut digits: Vec<u8> = Vec::new();
                push_decimal(&mut digits, *n);
                proof {
                    lemma_decimal_ascii(*n as int);
                    assert(digits@ =~= decimal(*n as int));
                }
                s.append(ascii_str(digits.as_slice()));
            },
            Frame::Bulk(b) => push_payload_text(&mut s, b),
            Frame::Null => s.append("(nil)"),
            Frame::Array(parts) => {
                proof {
                    lemma_frames_view_len(parts@);
                }
                let mut i: usize = 0;
                while i < parts.len()
                    invariant
                        *self == Frame::Array(*parts),
                        i <= parts@.len(),
                        s@ == display_joined(frames_view(parts@.take(i as int))),
                    decreases parts@.len() - i,
                {
                    proof {
                        assert(decreases_to!(*self => (*self)->Array_0));
                        assert(decreases_to!(*parts => parts@));
                        assert(decreases_to!(parts@ => parts@[i as int]));
                        lemma_frames_view_take(parts@, i as int);
                        let fs = frames_view(parts@.take(i as int));
                        assert(fs.push(frame_view(parts@[i as int])).drop_last() =~= fs);
                        if i == 0 {
                            assert(fs =~= Seq::<SpecFrame>::empty());
                        }
                    }
                    let part = parts[i].to_string();
                    if i > 0 {
                        s.append(" ");
                    }
                    s.append(part.as_str());
                    i = i + 1;
                }
                assert(parts@.take(i as int) =~= parts@);
            },
        }
        assert(s@ =~= display(self@));
        s
    }

    /// The message of an "unexpected frame" error about this frame.
    pub fn to_error(&self) -> (s: String)
        ensures
            s@ == "unexpected frame: "@ + display(self@),
    {
        let mut s = "unexpected frame: ".to_owned();
        let text = self.to_string();
        s.append(text.as_str());
        s
    }
}

impl PartialEq<&str> for Frame {
    fn eq(&self, other: &&str) -> (r: bool) {
        match self {
            Frame::Simple(s) => bytes_eq_str(s, other),
            Frame::Bulk(s) => bytes_eq_str(s, other),
            _ => false,
        }
    }
}

impl vstd::std_specs::cmp::PartialEqSpecImpl<&str> for Frame {
    open spec fn obeys_eq_spec() -> bool {
        true
    }

    /// A simple or bulk string equals a string slice that has its bytes.
    open spec fn eq_spec(&self, other: &&str) -> bool {
        match self@ {
            SpecFrame::Simple(b) => b == other.spec_bytes(),
            SpecFrame::Bulk(b) => b == other.spec_bytes(),
            _ => false,
        }
    }
}

/// A frame equals a string slice exactly when it is a simple or bulk string
/// whose payload is the slice's bytes; no other kind of frame equals one.
pub proof fn law_frame_equals_str(f: Frame, t: &str)
    ensures
        f@ is Simple ==> (f.eq_spec(&t) <==> f@->Simple_0 == t.spec_bytes()),
        f@ is Bulk ==> (f.eq_spec(&t) <==> f@->Bulk_0 == t.spec_bytes()),
        !(f@ is Simple) && !(f@ is Bulk) ==> !f.eq_spec(&t),
{
}

impl FrameError {
    /// The message this error displays as.
    pub fn to_string(&self) -> (s: String)
        ensures
            s@ == match self@ {
                SpecFrameError::Incomplete => "stream ended early"@,
                SpecFrameError::Invalid(m) => m,
            },
    {
        match self {
            FrameError::Incomplete => "stream ended early".to_owned(),
            FrameError::Invalid(err) => err.clone(),
        }
    }
}

} // verus!
