//! Decimal numerals: how RESP writes integers and how it reads them back.
use vstd::prelude::*;

verus! {

/// An ASCII digit `0`..`9`.
pub open spec fn is_digit(b: u8) -> bool {
    48 <= b <= 57
}

/// The number of ASCII digits at the start of `s`.
pub open spec fn digit_run(s: Seq<u8>) -> nat
    decreases s.len(),
{
    if s.len() > 0 && is_digit(s[0]) {
        1 + digit_run(s.drop_first())
    } else {
        0
    }
}

/// The value of a string of ASCII digits, most significant digit first.
pub open spec fn digits_value(s: Seq<u8>) -> int
    decreases s.len(),
{
    if s.len() == 0 {
        0
    } else {
        digits_value(s.drop_last()) * 10 + (s.last() - 48)
    }
}

/// What `atoi::atoi::<i64>` returns for `s`: an optional `+` or `-`, then the
/// longest run of digits; `None` when `s` starts with neither a sign nor a
/// digit, or when the value does not fit in an `i64`. A lone sign reads as 0.
pub open spec fn atoi_i64_spec(s: Seq<u8>) -> Option<i64> {
    let neg = s.len() > 0 && s[0] == 45;
    let off: int = if s.len() > 0 && (s[0] == 45 || s[0] == 43) { 1 } else { 0 };
    let rest = s.skip(off);
    let d = digit_run(rest);
    let m = digits_value(rest.take(d as int));
    let v = if neg { -m } else { m };
    if off == 0 && d == 0 {
        None
    } else if i64::MIN <= v <= i64::MAX {
        Some(v as i64)
    } else {
        None
    }
}

/// `atoi::atoi::<i64>`: reads a signed decimal number at the start of `text`.
/// The contract restates the crate's documented and implemented behaviour:
/// sign, digits up to the first non-digit, `None` on overflow or when nothing
/// numeric starts the slice.
#[verifier::external_body]
pub fn atoi_i64(text: &[u8]) -> (r: Option<i64>)
    ensures
        r == atoi_i64_spec(text@),
{
    atoi::atoi::<i64>(text)
}

/// The decimal digits of `n`, without sign or leading zeros.
pub open spec fn nat_digits(n: nat) -> Seq<u8>
    decreases n,
{
    if n < 10 {
        seq![(48 + n) as u8]
    } else {
        nat_digits(n / 10).push((48 + n % 10) as u8)
    }
}

/// The decimal numeral of `n`, as `i64::to_string` writes it.
pub open spec fn decimal(n: int) -> Seq<u8> {
    if n < 0 {
        seq![45u8] + nat_digits((-n) as nat)
    } else {
        nat_digits(n as nat)
    }
}

/// Every byte of `nat_digits(n)` is a digit, and their value is `n`.
pub proof fn lemma_nat_digits(n: nat)
    ensures
        nat_digits(n).len() >= 1,
        forall|i: int| 0 <= i < nat_digits(n).len() ==> is_digit(#[trigger] nat_digits(n)[i]),
        digits_value(nat_digits(n)) == n,
    decreases n,
{
    let s = nat_digits(n);
    if n >= 10 {
        lemma_nat_digits(n / 10);
        assert(s.drop_last() =~= nat_digits(n / 10));
        vstd::arithmetic::div_mod::lemma_fundamental_div_mod(n as int, 10);
        assert(digits_value(s) == digits_value(nat_digits(n / 10)) * 10 + n % 10);
    } else {
        assert(digits_value(s.drop_last()) == 0);
    }
}

/// The numeral of a positive number does not start with `0`.
proof fn lemma_nat_digits_leading(n: nat)
    requires
        n >= 1,
    ensures
        nat_digits(n)[0] != 48,
    decreases n,
{
    if n >= 10 {
        lemma_nat_digits_leading(n / 10);
        lemma_nat_digits(n / 10);
    }
}

/// The decimal numeral of an integer: `-` exactly when it is negative, then
/// digits whose value is its magnitude, with no leading `0` except for zero
/// itself, which is `0`.
pub proof fn law_decimal_numeral(n: int)
    ensures
        ({
            let d = decimal(n);
            let m: int = if n < 0 { -n } else { n };
            let digits = if n < 0 { d.drop_first() } else { d };
            &&& (n < 0 <==> (d.len() > 0 && d[0] == 45))
            &&& digits.len() >= 1
            &&& forall|i: int| 0 <= i < digits.len() ==> is_digit(#[trigger] digits[i])
            &&& digits_value(digits) == m
            &&& (m > 0 ==> digits[0] != 48)
            &&& (m == 0 ==> d == seq![48u8])
        }),
{
    let m: nat = if n < 0 { (-n) as nat } else { n as nat };
    lemma_nat_digits(m);
    if m > 0 {
        lemma_nat_digits_leading(m);
    }
    if n < 0 {
        assert(decimal(n).drop_first() =~= nat_digits(m));
    } else {
        assert(is_digit(nat_digits(m)[0]));
    }
}

/// The run of digits at the start of `digits + rest` is `digits` when `rest`
/// does not start with a digit.
pub proof fn lemma_digit_run_concat(digits: Seq<u8>, rest: Seq<u8>)
    requires
        forall|i: int| 0 <= i < digits.len() ==> is_digit(#[trigger] digits[i]),
        rest.len() == 0 || !is_digit(rest[0]),
    ensures
        digit_run(digits + rest) == digits.len(),
    decreases digits.len(),
{
    if digits.len() == 0 {
        assert(digits + rest =~= rest);
    } else {
        lemma_digit_run_concat(digits.drop_first(), rest);
        assert((digits + rest).drop_first() =~= digits.drop_first() + rest);
    }
}

/// `atoi` reads back what `decimal` writes, when a non-digit follows.
pub proof fn lemma_atoi_decimal(n: i64, rest: Seq<u8>)
    requires
        rest.len() == 0 || !is_digit(rest[0]),
        rest.len() == 0 || (rest[0] != 43 && rest[0] != 45),
    ensures
        atoi_i64_spec(decimal(n as int) + rest) == Some(n),
{
    let s = decimal(n as int) + rest;
    if n < 0 {
        let m = (-n) as nat;
        lemma_nat_digits(m);
        lemma_digit_run_concat(nat_digits(m), rest);
        assert(s.skip(1) =~= nat_digits(m) + rest);
        assert((nat_digits(m) + rest).take(nat_digits(m).len() as int) =~= nat_digits(m));
    } else {
        let m = n as nat;
        lemma_nat_digits(m);
        lemma_digit_run_concat(nat_digits(m), rest);
        assert(s[0] == nat_digits(m)[0]);
        assert(s.skip(0) =~= nat_digits(m) + rest);
        assert((nat_digits(m) + rest).take(nat_digits(m).len() as int) =~= nat_digits(m));
    }
}

/// Appends the decimal digits of `m` to `out`.
pub fn push_digits(out: &mut Vec<u8>, m: u64)
    ensures
        final(out)@ == old(out)@ + nat_digits(m as nat),
    decreases m,
{
    if m >= 10 {
        push_digits(out, m / 10);
    }
    out.push(48u8 + (m % 10) as u8);
    proof {
        if m >= 10 {
            assert(old(out)@ + nat_digits(m as nat) =~= old(out)@ + nat_digits((m / 10) as nat) + seq![(48 + m % 10) as u8]);
        }
    }
}

/// Appends the decimal numeral of `n` to `out`.
pub fn push_decimal(out: &mut Vec<u8>, n: i64)
    ensures
        final(out)@ == old(out)@ + decimal(n as int),
{
    if n < 0 {
        out.push(45u8);
        let m: u64 = (0i128 - (n as i128)) as u64;
        push_digits(out, m);
        assert(final(out)@ =~= old(out)@ + decimal(n as int));
    } else {
        push_digits(out, n as u64);
    }
}

/// The decimal numeral of `n`.
pub fn decimal_of_u64(n: u64) -> (v: Vec<u8>)
    ensures
        v@ == decimal(n as int),
{
    let mut v: Vec<u8> = Vec::new();
    push_digits(&mut v, n);
    assert(v@ =~= decimal(n as int));
    v
}

} // verus!
