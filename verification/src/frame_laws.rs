//! What holds across the frame functions: a written frame is read back as
//! itself, what `check` accepts does not depend on what follows it and a cut
//! before its end is incomplete, a frame that `check` accepts is read by
//! `parse` unless an array in it has a negative count, and frames written
//! one after another reach a connection's reader in order however the bytes
//! are split.
use crate::connection::{read_stream, spec_parse_frame};
use crate::decimal::{decimal, is_digit, lemma_atoi_decimal, lemma_nat_digits, nat_digits};
use crate::buffers::bytes_debug_text;
use crate::text::ascii_chars;
use vstd::utf8::{decode_utf8, valid_utf8};
use crate::frame::{
    display, crlf, encode, encode_all, find_crlf, fits_usize, lemma_check_advances, lengths_fit,
    lemma_check_array_advances, lemma_find_crlf, lemma_line_advances, lemma_parse_advances,
    msg_invalid_format,
    spec_check, spec_check_array, spec_integer, spec_line, spec_parse, spec_parse_array, SpecFrame,
    SpecFrameError,
};
use vstd::prelude::*;

verus! {

/// `s` holds no `\r\n`.
pub open spec fn no_crlf(s: Seq<u8>) -> bool {
    forall|i: int| 0 <= i && i + 1 < s.len() ==> !(s[i] == 13 && #[trigger] s[i + 1] == 10)
}

/// A frame that RESP can carry: simple strings and errors hold no `\r\n`,
/// and every length fits the integers that carry it.
pub open spec fn encodable(f: SpecFrame) -> bool
    decreases f,
{
    match f {
        SpecFrame::Simple(s) => no_crlf(s),
        SpecFrame::Error(s) => no_crlf(s),
        SpecFrame::Integer(_) => true,
        SpecFrame::Bulk(s) => s.len() <= i64::MAX && s.len() <= usize::MAX,
        SpecFrame::Null => true,
        SpecFrame::Array(fs) => fs.len() <= i64::MAX && fs.len() <= usize::MAX && encodable_all(fs),
    }
}

/// Every frame of `fs` is encodable.
pub open spec fn encodable_all(fs: Seq<SpecFrame>) -> bool
    decreases fs,
{
    if fs.len() == 0 {
        true
    } else {
        encodable(fs[0]) && encodable_all(fs.drop_first())
    }
}

/// Simple strings and errors, at any depth of the frame, hold no `\r\n`.
pub open spec fn no_crlf_payloads(f: SpecFrame) -> bool
    decreases f,
{
    match f {
        SpecFrame::Simple(s) => no_crlf(s),
        SpecFrame::Error(s) => no_crlf(s),
        SpecFrame::Array(fs) => forall|i: int| 0 <= i < fs.len() ==> no_crlf_payloads(#[trigger] fs[i]),
        _ => true,
    }
}

/// A frame whose simple strings and errors hold no `\r\n`, and whose
/// lengths fit in memory, is encodable.
pub proof fn lemma_fitting_frame_encodable(f: SpecFrame)
    requires
        no_crlf_payloads(f),
        lengths_fit(f),
    ensures
        encodable(f),
    decreases f,
{
    if let SpecFrame::Array(fs) = f {
        lemma_fitting_frames_encodable(fs);
    }
}

/// The same, for frames in a row.
pub proof fn lemma_fitting_frames_encodable(fs: Seq<SpecFrame>)
    requires
        forall|i: int| 0 <= i < fs.len() ==> no_crlf_payloads(#[trigger] fs[i]) && lengths_fit(fs[i]),
    ensures
        encodable_all(fs),
    decreases fs,
{
    if fs.len() > 0 {
        lemma_fitting_frame_encodable(fs[0]);
        let rest = fs.drop_first();
        assert forall|i: int| 0 <= i < rest.len() implies no_crlf_payloads(#[trigger] rest[i]) && lengths_fit(
            rest[i],
        ) by {
            assert(rest[i] == fs[i + 1]);
        }
        lemma_fitting_frames_encodable(rest);
    }
}

/// `buf` holds `s` from `pos` on.
pub open spec fn holds_at(buf: Seq<u8>, pos: int, s: Seq<u8>) -> bool {
    0 <= pos && pos + s.len() <= buf.len() && buf.subrange(pos, pos + s.len()) == s
}

/// What a buffer holds at `pos` of `a + b` it holds of `a` at `pos` and of
/// `b` right after.
proof fn lemma_holds_split(buf: Seq<u8>, pos: int, a: Seq<u8>, b: Seq<u8>)
    requires
        holds_at(buf, pos, a + b),
    ensures
        holds_at(buf, pos, a),
        holds_at(buf, pos + a.len(), b),
        forall|k: int| 0 <= k < a.len() ==> buf[pos + k] == #[trigger] a[k],
        forall|k: int| 0 <= k < b.len() ==> buf[pos + a.len() + k] == #[trigger] b[k],
{
    let ab = a + b;
    assert forall|k: int| 0 <= k < a.len() implies buf[pos + k] == a[k] by {
        assert(buf.subrange(pos, pos + ab.len())[k] == ab[k]);
    }
    assert forall|k: int| 0 <= k < b.len() implies buf[pos + a.len() + k] == b[k] by {
        assert(buf.subrange(pos, pos + ab.len())[a.len() + k] == ab[a.len() + k]);
    }
    assert(buf.subrange(pos, pos + a.len()) =~= a);
    assert(buf.subrange(pos + a.len(), pos + a.len() + b.len()) =~= b);
}

proof fn lemma_find_crlf_first(buf: Seq<u8>, i: int, j: int)
    requires
        0 <= i <= j,
        j + 1 < buf.len(),
        buf[j] == 13 && buf[j + 1] == 10,
        forall|k: int| i <= k < j ==> !(buf[k] == 13 && #[trigger] buf[k + 1] == 10),
    ensures
        find_crlf(buf, i) == Some(j),
    decreases j - i,
{
    if i < j {
        lemma_find_crlf_first(buf, i + 1, j);
    }
}

/// A line without `\r\n` followed by `\r\n` is read as that line.
proof fn lemma_line_of(buf: Seq<u8>, pos: int, content: Seq<u8>)
    requires
        no_crlf(content),
        holds_at(buf, pos, content + crlf()),
    ensures
        spec_line(buf, pos) == Ok::<(Seq<u8>, int), SpecFrameError>(
            (content, pos + content.len() + 2),
        ),
{
    let s = content + crlf();
    let j = pos + content.len();
    assert forall|k: int| 0 <= k < s.len() implies buf[pos + k] == s[k] by {
        assert(buf.subrange(pos, pos + s.len())[k] == s[k]);
    }
    assert forall|k: int| pos <= k < j implies !(buf[k] == 13 && #[trigger] buf[k + 1] == 10) by {
        let i = k - pos;
        assert(buf[pos + i] == s[i]);
        assert(buf[pos + (i + 1)] == s[i + 1]);
        assert(s[i] == content[i]);
        if i + 1 < content.len() {
            assert(s[i + 1] == content[i + 1]);
            assert(!(content[i] == 13 && content[i + 1] == 10));
        } else {
            assert(s[i + 1] == 13);
        }
    }
    assert(buf[pos + content.len()] == s[content.len() as int]);
    assert(buf[pos + content.len() + 1] == s[content.len() as int + 1]);
    lemma_find_crlf_first(buf, pos, j);
    assert(buf.subrange(pos, j) =~= content);
}

/// The numeral of an integer holds no `\r\n`, and neither starts with `-`
/// unless the integer is negative.
proof fn lemma_decimal_shape(n: int)
    ensures
        no_crlf(decimal(n)),
        decimal(n).len() >= 1,
        n >= 0 ==> is_digit(decimal(n)[0]),
{
    if n < 0 {
        lemma_nat_digits((-n) as nat);
        let d = decimal(n);
        assert forall|i: int| 0 <= i && i + 1 < d.len() implies !(d[i] == 13 && #[trigger] d[i + 1] == 10) by {
            if i == 0 {
                assert(d[0] == 45);
            } else {
                assert(d[i] == nat_digits((-n) as nat)[i - 1]);
            }
        }
    } else {
        lemma_nat_digits(n as nat);
        let d = decimal(n);
        assert forall|i: int| 0 <= i && i + 1 < d.len() implies !(d[i] == 13 && #[trigger] d[i + 1] == 10) by {
            assert(is_digit(d[i]));
        }
    }
}

/// A numeral followed by `\r\n` is read as its integer.
proof fn lemma_integer_of(buf: Seq<u8>, pos: int, n: i64)
    requires
        holds_at(buf, pos, decimal(n as int) + crlf()),
    ensures
        spec_integer(buf, pos) == Ok::<(i64, int), SpecFrameError>(
            (n, pos + decimal(n as int).len() + 2),
        ),
{
    lemma_decimal_shape(n as int);
    lemma_line_of(buf, pos, decimal(n as int));
    lemma_atoi_decimal(n, Seq::empty());
    assert(decimal(n as int) + Seq::<u8>::empty() =~= decimal(n as int));
}

/// A written frame is checked and read back as itself, whatever follows it.
pub proof fn lemma_read_encoded(f: SpecFrame, buf: Seq<u8>, pos: int)
    requires
        encodable(f),
        holds_at(buf, pos, encode(f)),
    ensures
        spec_check(buf, pos) == Ok::<int, SpecFrameError>(pos + encode(f).len()),
        spec_parse(buf, pos) == Some(
            Ok::<(SpecFrame, int), SpecFrameError>((f, pos + encode(f).len())),
        ),
    decreases f,
{
    let e = encode(f);
    let p = pos + 1;
    match f {
        SpecFrame::Simple(s) => {
            assert(e =~= seq![43u8] + (s + crlf()));
            lemma_holds_split(buf, pos, seq![43u8], s + crlf());
            assert(buf[pos + 0] == seq![43u8][0]);
            lemma_line_of(buf, p, s);
        },
        SpecFrame::Error(s) => {
            assert(e =~= seq![45u8] + (s + crlf()));
            lemma_holds_split(buf, pos, seq![45u8], s + crlf());
            assert(buf[pos + 0] == seq![45u8][0]);
            lemma_line_of(buf, p, s);
        },
        SpecFrame::Integer(n) => {
            let d = decimal(n as int);
            assert(e =~= seq![58u8] + (d + crlf()));
            lemma_holds_split(buf, pos, seq![58u8], d + crlf());
            assert(buf[pos + 0] == seq![58u8][0]);
            lemma_integer_of(buf, p, n);
        },
        SpecFrame::Bulk(s) => {
            let n = s.len() as i64;
            let d = decimal(n as int);
            lemma_decimal_shape(n as int);
            assert(e =~= seq![36u8] + ((d + crlf()) + (s + crlf())));
            lemma_holds_split(buf, pos, seq![36u8], (d + crlf()) + (s + crlf()));
            lemma_holds_split(buf, p, d + crlf(), s + crlf());
            lemma_holds_split(buf, p + d.len() + 2, s, crlf());
            lemma_holds_split(buf, p, d, crlf());
            assert(buf[pos + 0] == seq![36u8][0]);
            assert(buf[p] == d[0]);
            lemma_integer_of(buf, p, n);
            assert(fits_usize(n));
        },
        SpecFrame::Null => {
            let t = seq![45u8, 49u8];
            assert(e =~= seq![36u8] + (t + crlf()));
            lemma_holds_split(buf, pos, seq![36u8], t + crlf());
            lemma_holds_split(buf, p, t, crlf());
            assert(buf[pos + 0] == seq![36u8][0]);
            assert(buf[p] == 45);
            assert(no_crlf(t));
            lemma_line_of(buf, p, t);
        },
        SpecFrame::Array(fs) => {
            let n = fs.len() as i64;
            let d = decimal(n as int);
            let rest = encode_all(fs);
            assert(e =~= seq![42u8] + ((d + crlf()) + rest));
            lemma_holds_split(buf, pos, seq![42u8], (d + crlf()) + rest);
            lemma_holds_split(buf, p, d + crlf(), rest);
            assert(buf[pos + 0] == seq![42u8][0]);
            lemma_integer_of(buf, p, n);
            let q = p + d.len() + 2;
            lemma_read_encoded_all(fs, buf, q);
            assert(fits_usize(n));
        },
    }
}

/// Written frames are checked and read back one after the other.
pub proof fn lemma_read_encoded_all(fs: Seq<SpecFrame>, buf: Seq<u8>, pos: int)
    requires
        encodable_all(fs),
        holds_at(buf, pos, encode_all(fs)),
    ensures
        spec_check_array(buf, pos, fs.len() as int) == Ok::<int, SpecFrameError>(
            pos + encode_all(fs).len(),
        ),
        spec_parse_array(buf, pos, fs.len() as int) == Some(
            Ok::<(Seq<SpecFrame>, int), SpecFrameError>((fs, pos + encode_all(fs).len())),
        ),
    decreases fs,
{
    if fs.len() > 0 {
        let e0 = encode(fs[0]);
        let rest = encode_all(fs.drop_first());
        assert(encode_all(fs) == e0 + rest);
        lemma_holds_split(buf, pos, e0, rest);
        lemma_read_encoded(fs[0], buf, pos);
        let q = pos + e0.len();
        lemma_read_encoded_all(fs.drop_first(), buf, q);
        assert(e0.len() > 0) by {
            reveal_with_fuel(encode, 1);
        }
        assert(seq![fs[0]] + fs.drop_first() =~= fs);
    } else {
        assert(fs =~= Seq::<SpecFrame>::empty());
    }
}


/// Every array that `check` passes over from `pos` has a count that `parse`
/// takes: none is negative.
pub open spec fn array_counts_fit(buf: Seq<u8>, pos: int) -> bool
    decreases buf.len() - pos, 1int,
{
    if 0 <= pos < buf.len() && buf[pos] == 42 {
        match spec_integer(buf, pos + 1) {
            Ok((n, q)) => {
                proof {
                    lemma_line_advances(buf, pos + 1);
                }
                fits_usize(n) && array_counts_fit_all(buf, q, n as int)
            },
            Err(_) => true,
        }
    } else {
        true
    }
}

/// The same, for `n` frames in a row from `pos`.
pub open spec fn array_counts_fit_all(buf: Seq<u8>, pos: int, n: int) -> bool
    decreases buf.len() - pos, 2int,
{
    if n <= 0 {
        true
    } else {
        match spec_check(buf, pos) {
            Ok(q) => if pos < q <= buf.len() {
                array_counts_fit(buf, pos) && array_counts_fit_all(buf, q, n - 1)
            } else {
                true
            },
            Err(_) => true,
        }
    }
}

/// Where `check` accepts a frame, `parse` does not fail for want of bytes or
/// meet an unknown type byte: where no array in the frame has a negative
/// count it reads a frame that ends where `check` said, and otherwise it
/// rejects the frame as malformed.
pub proof fn lemma_checked_frame_parses(buf: Seq<u8>, pos: int)
    requires
        spec_check(buf, pos) is Ok,
    ensures
        spec_parse(buf, pos) is Some,
        spec_parse(buf, pos) matches Some(Ok((_, q))) ==> spec_check(buf, pos) == Ok::<
            int,
            SpecFrameError,
        >(q),
        spec_parse(buf, pos) matches Some(Err(e)) ==> e == SpecFrameError::Invalid(
            msg_invalid_format(),
        ),
        array_counts_fit(buf, pos) <==> spec_parse(buf, pos) matches Some(Ok(_)),
    decreases buf.len() - pos, 1int,
{
    let p = pos + 1;
    lemma_line_advances(buf, p);
    if buf[pos] == 42 {
        if let Ok((n, q)) = spec_integer(buf, p) {
            if fits_usize(n) {
                lemma_checked_frames_parse(buf, q, n as int);
            }
        }
    }
}

/// The same, for frames in a row.
pub proof fn lemma_checked_frames_parse(buf: Seq<u8>, pos: int, n: int)
    requires
        spec_check_array(buf, pos, n) is Ok,
        pos <= buf.len(),
    ensures
        spec_parse_array(buf, pos, n) is Some,
        spec_parse_array(buf, pos, n) matches Some(Ok((_, q))) ==> spec_check_array(buf, pos, n)
            == Ok::<int, SpecFrameError>(q),
        spec_parse_array(buf, pos, n) matches Some(Err(e)) ==> e == SpecFrameError::Invalid(
            msg_invalid_format(),
        ),
        array_counts_fit_all(buf, pos, n) <==> spec_parse_array(buf, pos, n) matches Some(Ok(_)),
    decreases buf.len() - pos, 2int,
{
    if n > 0 {
        lemma_check_advances(buf, pos);
        lemma_checked_frame_parses(buf, pos);
        lemma_parse_advances(buf, pos);
        if let Ok(q) = spec_check(buf, pos) {
            if let Some(Ok((_, q2))) = spec_parse(buf, pos) {
                assert(q2 == q);
                lemma_checked_frames_parse(buf, q, n - 1);
            }
        }
    }
}

/// A frame that `check` accepts is read by `parse`, which ends where
/// `check` did, exactly when no array in it has a negative count (such as
/// `*-1\r\n`); otherwise `parse` rejects it as malformed. `parse` never asks
/// for more bytes or meets an unknown type byte there.
pub proof fn law_checked_frame_parses(buf: Seq<u8>, pos: int)
    requires
        spec_check(buf, pos) is Ok,
    ensures
        array_counts_fit(buf, pos) ==> (spec_parse(buf, pos) matches Some(Ok((_, q)))
            && spec_check(buf, pos) == Ok::<int, SpecFrameError>(q)),
        !array_counts_fit(buf, pos) ==> spec_parse(buf, pos) == Some(
            Err::<(SpecFrame, int), SpecFrameError>(SpecFrameError::Invalid(msg_invalid_format())),
        ),
{
    lemma_checked_frame_parses(buf, pos);
}


/// `buf` ends `k` bytes after `pos`, and those bytes are the first `k` of `s`.
pub open spec fn holds_prefix(buf: Seq<u8>, pos: int, s: Seq<u8>, k: int) -> bool {
    &&& 0 <= pos
    &&& 0 <= k <= s.len()
    &&& buf.len() == pos + k
    &&& buf.subrange(pos, pos + k) == s.take(k)
}

/// A cut-off `a + b` is a cut-off `a`, or a whole `a` and a cut-off `b`.
proof fn lemma_prefix_split(buf: Seq<u8>, pos: int, a: Seq<u8>, b: Seq<u8>, k: int)
    requires
        holds_prefix(buf, pos, a + b, k),
    ensures
        k <= a.len() ==> holds_prefix(buf, pos, a, k),
        k >= a.len() ==> holds_at(buf, pos, a) && holds_prefix(buf, pos + a.len(), b, k - a.len()),
        forall|i: int| 0 <= i < k ==> buf[pos + i] == #[trigger] (a + b)[i],
{
    let ab = a + b;
    assert forall|i: int| 0 <= i < k implies buf[pos + i] == #[trigger] ab[i] by {
        assert(buf.subrange(pos, pos + k)[i] == ab.take(k)[i]);
    }
    if k <= a.len() {
        assert(buf.subrange(pos, pos + k) =~= a.take(k)) by {
            assert forall|i: int| 0 <= i < k implies buf.subrange(pos, pos + k)[i] == a.take(k)[i] by {
                assert(ab[i] == a[i]);
            }
        }
    }
    if k >= a.len() {
        assert(buf.subrange(pos, pos + a.len()) =~= a) by {
            assert forall|i: int| 0 <= i < a.len() implies buf.subrange(pos, pos + a.len())[i] == a[i] by {
                assert(buf[pos + i] == ab[i]);
            }
        }
        let m = k - a.len();
        assert(buf.subrange(pos + a.len(), pos + a.len() + m) =~= b.take(m)) by {
            assert forall|i: int| 0 <= i < m implies buf.subrange(pos + a.len(), pos + a.len() + m)[i]
                == b.take(m)[i] by {
                assert(buf[pos + (a.len() + i)] == ab[a.len() + i]);
            }
        }
    }
}

/// No `\r\n` from `i` on: none is found.
proof fn lemma_find_crlf_none(buf: Seq<u8>, i: int)
    requires
        0 <= i,
        forall|k: int| i <= k && k + 1 < buf.len() ==> !(buf[k] == 13 && #[trigger] buf[k + 1] == 10),
    ensures
        find_crlf(buf, i) is None,
    decreases buf.len() - i,
{
    if i + 1 < buf.len() {
        assert(!(buf[i] == 13 && buf[i + 1] == 10));
        lemma_find_crlf_none(buf, i + 1);
    }
}

/// A line cut off before its `\r\n` is complete is not found.
proof fn lemma_line_cut(buf: Seq<u8>, pos: int, content: Seq<u8>, k: int)
    requires
        no_crlf(content),
        holds_prefix(buf, pos, content + crlf(), k),
        k < content.len() + 2,
    ensures
        spec_line(buf, pos) == Err::<(Seq<u8>, int), SpecFrameError>(SpecFrameError::Incomplete),
        spec_integer(buf, pos) == Err::<(i64, int), SpecFrameError>(SpecFrameError::Incomplete),
{
    let s = content + crlf();
    lemma_prefix_split(buf, pos, content, crlf(), k);
    assert forall|j: int| pos <= j && j + 1 < buf.len() implies !(buf[j] == 13 && #[trigger] buf[j + 1] == 10) by {
        let i = j - pos;
        assert(buf[pos + i] == s[i]);
        assert(buf[pos + (i + 1)] == s[i + 1]);
        assert(s[i] == content[i]);
        if i + 1 < content.len() {
            assert(s[i + 1] == content[i + 1]);
            assert(!(content[i] == 13 && content[i + 1] == 10));
        } else {
            assert(s[i + 1] == 13);
        }
    }
    lemma_find_crlf_none(buf, pos);
}

/// A written frame cut off anywhere before its end is incomplete: `check`
/// asks for more bytes.
pub proof fn lemma_cut_encoded_incomplete(f: SpecFrame, buf: Seq<u8>, pos: int, k: int)
    requires
        encodable(f),
        holds_prefix(buf, pos, encode(f), k),
        k < encode(f).len(),
    ensures
        spec_check(buf, pos) == Err::<int, SpecFrameError>(SpecFrameError::Incomplete),
    decreases f,
{
    if k > 0 {
        let e = encode(f);
        let p = pos + 1;
        match f {
            SpecFrame::Simple(s) => {
                assert(e =~= seq![43u8] + (s + crlf()));
                lemma_prefix_split(buf, pos, seq![43u8], s + crlf(), k);
                assert(buf[pos + 0] == e[0]);
                lemma_line_cut(buf, p, s, k - 1);
            },
            SpecFrame::Error(s) => {
                assert(e =~= seq![45u8] + (s + crlf()));
                lemma_prefix_split(buf, pos, seq![45u8], s + crlf(), k);
                assert(buf[pos + 0] == e[0]);
                lemma_line_cut(buf, p, s, k - 1);
            },
            SpecFrame::Integer(n) => {
                let d = decimal(n as int);
                lemma_decimal_shape(n as int);
                assert(e =~= seq![58u8] + (d + crlf()));
                lemma_prefix_split(buf, pos, seq![58u8], d + crlf(), k);
                assert(buf[pos + 0] == e[0]);
                lemma_line_cut(buf, p, d, k - 1);
            },
            SpecFrame::Null => {
                let t = seq![45u8, 49u8];
                assert(e =~= seq![36u8] + (t + crlf()));
                lemma_prefix_split(buf, pos, seq![36u8], t + crlf(), k);
                assert(buf[pos + 0] == e[0]);
                if k > 1 {
                    assert(buf[pos + 1] == e[1]);
                    assert(no_crlf(t));
                    lemma_line_cut(buf, p, t, k - 1);
                }
            },
            SpecFrame::Bulk(s) => {
                let n = s.len() as i64;
                let d = decimal(n as int);
                lemma_decimal_shape(n as int);
                assert(e =~= seq![36u8] + ((d + crlf()) + (s + crlf())));
                lemma_prefix_split(buf, pos, seq![36u8], (d + crlf()) + (s + crlf()), k);
                assert(buf[pos + 0] == e[0]);
                if k > 1 {
                    assert(buf[pos + 1] == e[1]);
                    assert(e[1] == d[0]);
                    lemma_prefix_split(buf, p, d + crlf(), s + crlf(), k - 1);
                    if k - 1 < d.len() + 2 {
                        lemma_line_cut(buf, p, d, k - 1);
                    } else {
                        lemma_integer_of(buf, p, n);
                        assert(fits_usize(n));
                    }
                }
            },
            SpecFrame::Array(fs) => {
                let n = fs.len() as i64;
                let d = decimal(n as int);
                let rest = encode_all(fs);
                lemma_decimal_shape(n as int);
                assert(e =~= seq![42u8] + ((d + crlf()) + rest));
                lemma_prefix_split(buf, pos, seq![42u8], (d + crlf()) + rest, k);
                assert(buf[pos + 0] == e[0]);
                lemma_prefix_split(buf, p, d + crlf(), rest, k - 1);
                if k - 1 < d.len() + 2 {
                    lemma_line_cut(buf, p, d, k - 1);
                } else {
                    lemma_integer_of(buf, p, n);
                    let q = p + d.len() + 2;
                    lemma_cut_encoded_all_incomplete(fs, buf, q, k - 1 - d.len() - 2);
                }
            },
        }
    }
}

/// Written frames cut off anywhere before the end of the last are incomplete.
pub proof fn lemma_cut_encoded_all_incomplete(fs: Seq<SpecFrame>, buf: Seq<u8>, pos: int, k: int)
    requires
        encodable_all(fs),
        holds_prefix(buf, pos, encode_all(fs), k),
        k < encode_all(fs).len(),
    ensures
        spec_check_array(buf, pos, fs.len() as int) == Err::<int, SpecFrameError>(
            SpecFrameError::Incomplete,
        ),
    decreases fs,
{
    if fs.len() == 0 {
        assert(encode_all(fs).len() == 0);
    } else {
        let e0 = encode(fs[0]);
        let rest = encode_all(fs.drop_first());
        assert(encode_all(fs) == e0 + rest);
        lemma_prefix_split(buf, pos, e0, rest, k);
        if k < e0.len() {
            lemma_cut_encoded_incomplete(fs[0], buf, pos, k);
        } else {
            lemma_read_encoded(fs[0], buf, pos);
            assert(e0.len() > 0) by {
                reveal_with_fuel(encode, 1);
            }
            lemma_cut_encoded_all_incomplete(fs.drop_first(), buf, pos + e0.len(), k - e0.len());
        }
    }
}


/// A connection whose buffer holds a written frame, then anything, reads
/// that frame and takes exactly its bytes.
pub proof fn law_connection_reads_written_frame(f: SpecFrame, rest: Seq<u8>)
    requires
        encodable(f),
    ensures
        spec_parse_frame(encode(f) + rest) == Ok::<Option<(SpecFrame, int)>, SpecFrameError>(
            Some((f, encode(f).len() as int)),
        ),
{
    let buf = encode(f) + rest;
    assert(buf.subrange(0, encode(f).len() as int) =~= encode(f));
    lemma_read_encoded(f, buf, 0);
}

/// A connection whose buffer holds only part of a written frame reads
/// nothing yet.
pub proof fn law_connection_waits_for_whole_frame(f: SpecFrame, k: int)
    requires
        encodable(f),
        0 <= k < encode(f).len(),
    ensures
        spec_parse_frame(encode(f).take(k)) == Ok::<Option<(SpecFrame, int)>, SpecFrameError>(None),
{
    let buf = encode(f).take(k);
    assert(buf.subrange(0, k) =~= encode(f).take(k));
    lemma_cut_encoded_incomplete(f, buf, 0, k);
}

/// The bytes that `Frame::encode` writes for a frame are accepted by
/// `check`, all of them and no more, and `parse` reads them back as the same
/// frame, provided its simple strings and errors hold no `\r\n`. (Its
/// lengths fit: `encode` ensures so of every frame.)
pub proof fn law_encoded_frame_reads_back(f: SpecFrame)
    requires
        no_crlf_payloads(f),
        lengths_fit(f),
    ensures
        spec_check(encode(f), 0) == Ok::<int, SpecFrameError>(encode(f).len() as int),
        spec_parse(encode(f), 0) == Some(
            Ok::<(SpecFrame, int), SpecFrameError>((f, encode(f).len() as int)),
        ),
{
    lemma_fitting_frame_encodable(f);
    assert(encode(f).subrange(0, encode(f).len() as int) =~= encode(f));
    lemma_read_encoded(f, encode(f), 0);
}

/// `a` and `b` both reach `p`, and agree on their first `p` bytes.
pub open spec fn agree_to(a: Seq<u8>, b: Seq<u8>, p: int) -> bool {
    &&& 0 <= p <= a.len()
    &&& p <= b.len()
    &&& forall|i: int| 0 <= i < p ==> a[i] == b[i]
}

/// A `\r\n` found in `a` is found in `b` too where `b` agrees with `a` up to it.
proof fn lemma_find_crlf_agree(a: Seq<u8>, b: Seq<u8>, i: int, j: int)
    requires
        0 <= i,
        find_crlf(a, i) == Some(j),
        agree_to(a, b, j + 2),
    ensures
        find_crlf(b, i) == Some(j),
    decreases j - i,
{
    lemma_find_crlf(a, i);
    assert(a[i] == b[i] && a[i + 1] == b[i + 1]);
    if i < j {
        assert(!(a[i] == 13 && a[i + 1] == 10));
        lemma_find_crlf_agree(a, b, i + 1, j);
    }
}

/// A line, and the number on it, read from `a` is read the same from `b`
/// where `b` agrees with `a` up to its end.
proof fn lemma_line_agree(a: Seq<u8>, b: Seq<u8>, pos: int, q: int)
    requires
        0 <= pos,
        spec_line(a, pos) matches Ok((_, r)) && r == q,
        agree_to(a, b, q),
    ensures
        spec_line(b, pos) == spec_line(a, pos),
        spec_integer(b, pos) == spec_integer(a, pos),
{
    lemma_find_crlf(a, pos);
    let j = q - 2;
    lemma_find_crlf_agree(a, b, pos, j);
    assert(b.subrange(pos, j) =~= a.subrange(pos, j));
}

/// A line cut off before its `\r\n` is complete is not found.
proof fn lemma_line_cut_general(a: Seq<u8>, pos: int, k: int)
    requires
        0 <= pos,
        spec_line(a, pos) matches Ok((_, q)) && 0 <= k < q,
    ensures
        spec_line(a.take(k), pos) == Err::<(Seq<u8>, int), SpecFrameError>(SpecFrameError::Incomplete),
        spec_integer(a.take(k), pos) == Err::<(i64, int), SpecFrameError>(SpecFrameError::Incomplete),
{
    lemma_find_crlf(a, pos);
    lemma_line_advances(a, pos);
    let t = a.take(k);
    assert forall|m: int| pos <= m && m + 1 < t.len() implies !(t[m] == 13 && #[trigger] t[m + 1] == 10) by {
        assert(t[m] == a[m] && t[m + 1] == a[m + 1]);
    }
    lemma_find_crlf_none(t, pos);
}

/// What `check` accepts in `a` at `pos`, it accepts the same way in `b`
/// where `b` agrees with `a` up to the end of the frame.
pub proof fn lemma_check_agree(a: Seq<u8>, b: Seq<u8>, pos: int)
    requires
        spec_check(a, pos) matches Ok(p) && agree_to(a, b, p),
    ensures
        spec_check(b, pos) == spec_check(a, pos),
    decreases a.len() - pos, 1int,
{
    let p0 = pos + 1;
    lemma_check_advances(a, pos);
    lemma_line_advances(a, p0);
    let end = spec_check(a, pos)->Ok_0;
    assert(a[pos] == b[pos]);
    let t = a[pos];
    if t == 43 || t == 45 || t == 58 {
        lemma_line_agree(a, b, p0, end);
    } else if t == 36 {
        assert(a[p0] == b[p0]);
        if a[p0] == 45 {
            lemma_line_agree(a, b, p0, end);
        } else {
            let q = spec_integer(a, p0)->Ok_0.1;
            lemma_line_agree(a, b, p0, q);
        }
    } else {
        let (n, q) = spec_integer(a, p0)->Ok_0;
        lemma_check_array_advances(a, q, n as int);
        lemma_line_agree(a, b, p0, q);
        lemma_check_array_agree(a, b, q, n as int);
    }
}

/// The same, for frames in a row.
pub proof fn lemma_check_array_agree(a: Seq<u8>, b: Seq<u8>, pos: int, n: int)
    requires
        0 <= pos,
        spec_check_array(a, pos, n) matches Ok(r) && agree_to(a, b, r),
    ensures
        spec_check_array(b, pos, n) == spec_check_array(a, pos, n),
    decreases a.len() - pos, 2int,
{
    if n > 0 {
        let q = spec_check(a, pos)->Ok_0;
        lemma_check_array_advances(a, q, n - 1);
        lemma_check_agree(a, b, pos);
        lemma_check_array_agree(a, b, q, n - 1);
    }
}

/// A frame that `check` accepts, cut off anywhere before its end: `check`
/// asks for more bytes.
pub proof fn lemma_check_cut(a: Seq<u8>, pos: int, k: int)
    requires
        spec_check(a, pos) matches Ok(p) && 0 <= k < p,
    ensures
        spec_check(a.take(k), pos) == Err::<int, SpecFrameError>(SpecFrameError::Incomplete),
    decreases a.len() - pos, 1int,
{
    let tk = a.take(k);
    let p0 = pos + 1;
    lemma_check_advances(a, pos);
    lemma_line_advances(a, p0);
    if pos < k {
        let t = a[pos];
        assert(tk[pos] == t);
        if t == 43 || t == 45 || t == 58 {
            lemma_line_cut_general(a, p0, k);
        } else if t == 36 {
            if p0 < k {
                assert(tk[p0] == a[p0]);
                let q = spec_line(a, p0)->Ok_0.1;
                if k < q {
                    lemma_line_cut_general(a, p0, k);
                } else {
                    lemma_line_agree(a, tk, p0, q);
                }
            }
        } else {
            let (n, q) = spec_integer(a, p0)->Ok_0;
            if k < q {
                lemma_line_cut_general(a, p0, k);
            } else {
                lemma_line_agree(a, tk, p0, q);
                lemma_check_array_cut(a, q, n as int, k);
            }
        }
    }
}

/// The same, for frames in a row cut off before the end of the last.
pub proof fn lemma_check_array_cut(a: Seq<u8>, pos: int, n: int, k: int)
    requires
        0 <= pos <= k,
        spec_check_array(a, pos, n) matches Ok(r) && k < r,
    ensures
        spec_check_array(a.take(k), pos, n) == Err::<int, SpecFrameError>(SpecFrameError::Incomplete),
    decreases a.len() - pos, 2int,
{
    let tk = a.take(k);
    let q = spec_check(a, pos)->Ok_0;
    lemma_check_array_advances(a, q, n - 1);
    if k < q {
        lemma_check_cut(a, pos, k);
    } else {
        lemma_check_agree(a, tk, pos);
        lemma_check_array_cut(a, q, n - 1, k);
    }
}

/// What `check` accepts at `pos`, it accepts the same way whatever bytes
/// follow: the frame ends at the same place.
pub proof fn law_check_ignores_what_follows(buf: Seq<u8>, pos: int, extra: Seq<u8>)
    requires
        spec_check(buf, pos) is Ok,
    ensures
        spec_check(buf + extra, pos) == spec_check(buf, pos),
{
    lemma_check_advances(buf, pos);
    lemma_check_agree(buf, buf + extra, pos);
}

/// A buffer that holds a frame `check` accepts, cut off anywhere before the
/// end of that frame: `check` asks for more bytes.
pub proof fn law_check_cut_is_incomplete(buf: Seq<u8>, pos: int, k: int)
    requires
        spec_check(buf, pos) matches Ok(p) && 0 <= k < p,
    ensures
        spec_check(buf.take(k), pos) == Err::<int, SpecFrameError>(SpecFrameError::Incomplete),
{
    lemma_check_cut(buf, pos, k);
}

/// Reading from `buf` and then `chunks`, whose bytes together are written
/// frames: the frames come out in order and then the close.
proof fn lemma_read_stream(buf: Seq<u8>, chunks: Seq<Seq<u8>>, fs: Seq<SpecFrame>)
    requires
        encodable_all(fs),
        buf + chunks.flatten() == encode_all(fs),
        forall|i: int| 0 <= i < chunks.len() ==> (#[trigger] chunks[i]).len() > 0,
    ensures
        read_stream(buf, chunks) == (fs, None::<SpecFrameError>),
    decreases chunks.len(), buf.len(),
{
    if chunks.len() > 0 {
        assert(chunks.flatten() == chunks[0] + chunks.drop_first().flatten());
    }
    if fs.len() == 0 {
        assert(encode_all(fs).len() == 0);
        assert(buf =~= Seq::<u8>::empty());
        assert(chunks.len() == 0);
        assert(fs =~= Seq::<SpecFrame>::empty());
    } else {
        let e0 = encode(fs[0]);
        let rest = encode_all(fs.drop_first());
        assert(encode_all(fs) == e0 + rest);
        assert(e0.len() > 0) by {
            reveal_with_fuel(encode, 1);
        }
        let whole = buf + chunks.flatten();
        if buf.len() >= e0.len() {
            let tail = buf.skip(e0.len() as int);
            assert(buf =~= e0 + tail) by {
                assert forall|i: int| 0 <= i < e0.len() implies buf[i] == e0[i] by {
                    assert(whole[i] == buf[i]);
                    assert((e0 + rest)[i] == e0[i]);
                }
            }
            law_connection_reads_written_frame(fs[0], tail);
            assert(tail + chunks.flatten() =~= rest) by {
                assert forall|i: int| 0 <= i < rest.len() implies (tail + chunks.flatten())[i] == rest[i] by {
                    assert(whole[e0.len() + i] == (e0 + rest)[e0.len() + i]);
                    if i < tail.len() {
                        assert(whole[e0.len() + i] == buf[e0.len() + i]);
                    } else {
                        assert(whole[e0.len() + i] == chunks.flatten()[e0.len() + i - buf.len()]);
                    }
                }
            }
            lemma_read_stream(tail, chunks, fs.drop_first());
            assert(seq![fs[0]] + fs.drop_first() =~= fs);
        } else {
            let k = buf.len() as int;
            assert(buf =~= e0.take(k)) by {
                assert forall|i: int| 0 <= i < k implies buf[i] == e0[i] by {
                    assert(whole[i] == buf[i]);
                    assert((e0 + rest)[i] == e0[i]);
                }
            }
            law_connection_waits_for_whole_frame(fs[0], k);
            assert(chunks.len() > 0) by {
                if chunks.len() == 0 {
                    assert(whole =~= buf);
                }
            }
            let c0 = chunks[0];
            let later = chunks.drop_first();
            assert((buf + c0) + later.flatten() =~= whole);
            assert forall|i: int| 0 <= i < later.len() implies (#[trigger] later[i]).len() > 0 by {
                assert(later[i] == chunks[i + 1]);
            }
            lemma_read_stream(buf + c0, later, fs);
        }
    }
}

/// Frames written one after another are read back one after another, in
/// order and each whole, however the bytes are split into reads, and then
/// the close ends the stream; provided no simple string or error in them
/// holds `\r\n`. (Their lengths fit: `encode` ensures so of every frame.)
pub proof fn law_frames_read_in_order(fs: Seq<SpecFrame>, chunks: Seq<Seq<u8>>)
    requires
        forall|i: int| 0 <= i < fs.len() ==> no_crlf_payloads(#[trigger] fs[i]) && lengths_fit(fs[i]),
        chunks.flatten() == encode_all(fs),
        forall|i: int| 0 <= i < chunks.len() ==> (#[trigger] chunks[i]).len() > 0,
    ensures
        read_stream(Seq::empty(), chunks) == (fs, None::<SpecFrameError>),
{
    lemma_fitting_frames_encodable(fs);
    assert(Seq::<u8>::empty() + chunks.flatten() =~= chunks.flatten());
    lemma_read_stream(Seq::empty(), chunks, fs);
}

/// Every frame is written ending in `\r\n`, at any depth: a reader that
/// has a whole frame has its final `\r\n`.
pub proof fn law_encoded_frame_ends_in_crlf(f: SpecFrame)
    ensures
        encode(f).len() >= 3,
        encode(f).subrange(encode(f).len() - 2, encode(f).len() as int) == seq![13u8, 10u8],
    decreases f,
{
    let e = encode(f);
    match f {
        SpecFrame::Integer(n) => {
            lemma_decimal_shape(n as int);
        },
        SpecFrame::Bulk(s) => {
            lemma_decimal_shape(s.len() as int);
        },
        SpecFrame::Array(fs) => {
            lemma_decimal_shape(fs.len() as int);
            if fs.len() > 0 {
                let last = fs[fs.len() - 1];
                assert(decreases_to!(f => fs));
                assert(decreases_to!(fs => fs[fs.len() - 1]));
                law_encoded_frame_ends_in_crlf(last);
                assert(fs.drop_last().push(last) =~= fs);
                crate::frame::lemma_encode_all_push(fs.drop_last(), last);
                let head = seq![42u8] + decimal(fs.len() as int) + crlf() + encode_all(fs.drop_last());
                assert(e =~= head + encode(last));
                assert(e.subrange(e.len() - 2, e.len() as int) =~= encode(last).subrange(
                    encode(last).len() - 2,
                    encode(last).len() as int,
                ));
            }
        },
        _ => {},
    }
    assert(e.subrange(e.len() - 2, e.len() as int) =~= seq![13u8, 10u8]);
}

/// A bulk string is written as `$`, the decimal numeral of its length,
/// `\r\n`, the payload, and `\r\n`: the two bytes that a reader skips after
/// the payload are `\r\n`.
pub proof fn law_bulk_layout(s: Seq<u8>)
    ensures
        ({
            let e = encode(SpecFrame::Bulk(s));
            let d = decimal(s.len() as int);
            let m = d.len() as int;
            &&& e.len() == 1 + d.len() + 2 + s.len() + 2
            &&& e[0] == 36u8
            &&& e.subrange(1, 1 + m) == d
            &&& e.subrange(1 + m, 3 + m) == seq![13u8, 10u8]
            &&& e.subrange(3 + m, 3 + m + s.len()) == s
            &&& e.subrange(e.len() - 2, e.len() as int) == seq![13u8, 10u8]
        }),
{
    let e = encode(SpecFrame::Bulk(s));
    let d = decimal(s.len() as int);
    let m = d.len() as int;
    assert(e.subrange(1, 1 + m) =~= d);
    assert(e.subrange(1 + m, 3 + m) =~= seq![13u8, 10u8]);
    assert(e.subrange(3 + m, 3 + m + s.len()) =~= s);
    assert(e.subrange(e.len() - 2, e.len() as int) =~= seq![13u8, 10u8]);
}

/// Each kind of frame is written as its type byte (`+` simple, `-` error,
/// `:` integer, `$` bulk or null, `*` array), then its line; a null is
/// `$-1\r\n`; an array's line is its count, and its elements follow.
pub proof fn law_encode_layout(s: Seq<u8>, n: i64, fs: Seq<SpecFrame>)
    ensures
        encode(SpecFrame::Simple(s)) == seq![43u8] + s + seq![13u8, 10u8],
        encode(SpecFrame::Error(s)) == seq![45u8] + s + seq![13u8, 10u8],
        encode(SpecFrame::Integer(n)) == seq![58u8] + decimal(n as int) + seq![13u8, 10u8],
        encode(SpecFrame::Null) == seq![36u8, 45u8, 49u8, 13u8, 10u8],
        encode(SpecFrame::Array(fs)) == seq![42u8] + decimal(fs.len() as int) + seq![13u8, 10u8]
            + encode_all(fs),
        encode_all(Seq::<SpecFrame>::empty()) == Seq::<u8>::empty(),
        fs.len() > 0 ==> encode_all(fs) == encode(fs[0]) + encode_all(fs.drop_first()),
{
}

/// How each kind of frame displays: simple and bulk strings as their text
/// when the payload is UTF-8 and as a byte-string literal otherwise, errors
/// as `error: ` and the literal, integers as their decimal numeral, null as
/// `(nil)`.
pub proof fn law_display_by_kind(b: Seq<u8>, n: i64)
    ensures
        valid_utf8(b) ==> display(SpecFrame::Simple(b)) == decode_utf8(b),
        valid_utf8(b) ==> display(SpecFrame::Bulk(b)) == decode_utf8(b),
        !valid_utf8(b) ==> display(SpecFrame::Simple(b)) == bytes_debug_text(b),
        !valid_utf8(b) ==> display(SpecFrame::Bulk(b)) == bytes_debug_text(b),
        display(SpecFrame::Error(b)) == "error: "@ + bytes_debug_text(b),
        display(SpecFrame::Integer(n)) == ascii_chars(decimal(n as int)),
        display(SpecFrame::Null) == "(nil)"@,
{
}

/// An array displays as its elements separated by single spaces: nothing for
/// none, the element itself for one, and one more element after a space.
pub proof fn law_display_array(fs: Seq<SpecFrame>, f: SpecFrame)
    ensures
        display(SpecFrame::Array(Seq::empty())) == Seq::<char>::empty(),
        display(SpecFrame::Array(seq![f])) == display(f),
        fs.len() > 0 ==> display(SpecFrame::Array(fs.push(f))) == display(SpecFrame::Array(fs)) + " "@
            + display(f),
{
    assert(fs.push(f).drop_last() =~= fs);
}

} // verus!
