//! Byte strings and text: UTF-8 decoding, ASCII case folding and the
//! conversions that build human-readable messages.
use vstd::prelude::*;
use vstd::string::*;
use vstd::utf8::*;

verus! {

/// The characters of a sequence of ASCII bytes, one per byte.
pub open spec fn ascii_chars(b: Seq<u8>) -> Seq<char> {
    Seq::new(b.len(), |i: int| b[i] as char)
}

/// Every byte is below 128.
pub open spec fn all_ascii(b: Seq<u8>) -> bool {
    forall|i: int| 0 <= i < b.len() ==> #[trigger] b[i] < 128
}

/// ASCII bytes are valid UTF-8 and decode to one character per byte.
pub proof fn lemma_ascii_utf8(b: Seq<u8>)
    requires
        all_ascii(b),
    ensures
        valid_utf8(b),
        decode_utf8(b) == ascii_chars(b),
        encode_utf8(ascii_chars(b)) == b,
{
    let c = ascii_chars(b);
    assert forall|i: int| 0 <= i < c.len() implies '\0' <= #[trigger] c[i] <= '\u{7f}' by {
        assert(b[i] < 128);
    }
    assert(is_ascii_chars(c));
    is_ascii_chars_encode_utf8(c);
    assert forall|i: int| 0 <= i < b.len() implies encode_utf8(c)[i] == b[i] by {
        assert(c[i] as u8 == encode_utf8(c)[i]);
        assert(c[i] == b[i] as char);
    }
    assert(encode_utf8(c) =~= b);
    encode_utf8_valid_utf8(c);
    encode_utf8_decode_utf8(c);
}

/// `std::str::from_utf8`: the string slice that `v` encodes, when `v` is
/// valid UTF-8.
#[verifier::external_body]
pub fn str_from_utf8(v: &[u8]) -> (r: Option<&str>)
    ensures
        r is Some <==> valid_utf8(v@),
        r matches Some(s) ==> s.spec_bytes() == v@,
{
    std::str::from_utf8(v).ok()
}

/// The text of ASCII bytes, as a string slice.
pub fn ascii_str(v: &[u8]) -> (s: &str)
    requires
        all_ascii(v@),
    ensures
        s@ == ascii_chars(v@),
{
    proof {
        lemma_ascii_utf8(v@);
    }
    match str_from_utf8(v) {
        Some(s) => {
            proof {
                decode_utf8_encode_utf8(v@);
                encode_utf8_decode_utf8(s@);
            }
            s
        },
        None => {
            proof {
                assert(false);
            }
            ""
        },
    }
}

/// What `String::from_utf8_lossy` makes of `v`.
pub uninterp spec fn utf8_lossy_text(v: Seq<u8>) -> Seq<char>;

/// `String::from_utf8_lossy`: the text of `v`, with each invalid sequence
/// replaced by U+FFFD. Stated: the result is a function of `v`, and is the
/// decoded text when `v` is valid UTF-8. How invalid input is repaired is not
/// stated.
#[verifier::external_body]
pub fn utf8_lossy(v: &[u8]) -> (s: String)
    ensures
        s@ == utf8_lossy_text(v@),
        valid_utf8(v@) ==> s@ == decode_utf8(v@),
{
    String::from_utf8_lossy(v).into_owned()
}

/// ASCII upper-case letters become lower-case; other bytes stay.
pub open spec fn ascii_lower(b: u8) -> u8 {
    if 65 <= b <= 90 {
        (b + 32) as u8
    } else {
        b
    }
}

/// `[u8]::to_ascii_lowercase` on a whole sequence.
pub open spec fn ascii_lowercase(s: Seq<u8>) -> Seq<u8> {
    Seq::new(s.len(), |i: int| ascii_lower(s[i]))
}

/// Lower-casing keeps the length, turns each ASCII upper-case letter into
/// its lower-case letter and keeps every other byte; so lower-casing twice
/// is lower-casing once, and a name already in lower case is kept.
pub proof fn law_ascii_lowercase(s: Seq<u8>)
    ensures
        ascii_lowercase(s).len() == s.len(),
        forall|i: int| 0 <= i < s.len() && 65 <= s[i] <= 90 ==> #[trigger] ascii_lowercase(s)[i] == s[i] + 32,
        forall|i: int| 0 <= i < s.len() && !(65 <= s[i] <= 90) ==> #[trigger] ascii_lowercase(s)[i] == s[i],
        ascii_lowercase(ascii_lowercase(s)) == ascii_lowercase(s),
        (forall|i: int| 0 <= i < s.len() ==> !(65 <= #[trigger] s[i] <= 90)) ==> ascii_lowercase(s) == s,
{
    assert(ascii_lowercase(ascii_lowercase(s)) =~= ascii_lowercase(s));
    if forall|i: int| 0 <= i < s.len() ==> !(65 <= #[trigger] s[i] <= 90) {
        assert(ascii_lowercase(s) =~= s);
    }
}

/// A copy of `s` with ASCII letters in lower case.
pub fn to_ascii_lowercase(s: &[u8]) -> (r: Vec<u8>)
    ensures
        r@ == ascii_lowercase(s@),
{
    let mut r: Vec<u8> = Vec::new();
    let mut i: usize = 0;
    while i < s.len()
        invariant
            i <= s@.len(),
            r@ == ascii_lowercase(s@.take(i as int)),
        decreases s@.len() - i,
    {
        let b = s[i];
        let l = if 65 <= b && b <= 90 {
            b + 32
        } else {
            b
        };
        r.push(l);
        i = i + 1;
        assert(r@ =~= ascii_lowercase(s@.take(i as int)));
    }
    assert(s@.take(i as int) =~= s@);
    r
}

/// Whether two byte slices hold the same bytes.
pub fn slice_eq(a: &[u8], b: &[u8]) -> (r: bool)
    ensures
        r == (a@ == b@),
{
    if a.len() != b.len() {
        return false;
    }
    let mut i: usize = 0;
    while i < a.len()
        invariant
            a@.len() == b@.len(),
            i <= a@.len(),
            forall|j: int| 0 <= j < i ==> a@[j] == b@[j],
        decreases a@.len() - i,
    {
        if a[i] != b[i] {
            return false;
        }
        i = i + 1;
    }
    assert(a@ =~= b@);
    true
}


/// Appends the bytes of `s` to `out`.
pub fn extend_bytes(out: &mut Vec<u8>, s: &[u8])
    ensures
        final(out)@ == old(out)@ + s@,
{
    let mut i: usize = 0;
    while i < s.len()
        invariant
            i <= s@.len(),
            out@ == old(out)@ + s@.take(i as int),
        decreases s@.len() - i,
    {
        out.push(s[i]);
        i = i + 1;
        assert(out@ =~= old(out)@ + s@.take(i as int));
    }
    assert(s@.take(i as int) =~= s@);
}

} // verus!
