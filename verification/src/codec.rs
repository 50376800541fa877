//! Encodings the HTTP layer relies on, each computed by an outside crate or by
//! std: decimal rendering (itoa), content types (mime_guess), percent-decoding
//! (percent-encoding) and UTF-8 validation (std).
use vstd::prelude::*;

verus! {

/// The ASCII decimal digits of `n`, without leading zeros.
pub open spec fn decimal(n: nat) -> Seq<u8>
    decreases n,
{
    if n < 10 {
        seq![(48 + n) as u8]
    } else {
        decimal(n / 10).push((48 + n % 10) as u8)
    }
}

/// `itoa::Buffer::format`: renders `n` in decimal.
#[verifier::external_body]
pub(crate) fn decimal_bytes(n: usize) -> (r: Vec<u8>)
    ensures
        r@ == decimal(n as nat),
{
    let mut buf = itoa::Buffer::new();
    buf.format(n).as_bytes().to_vec()
}

/// The first MIME type that mime_guess's table lists for a file extension,
/// looked up without regard to ASCII case.
pub uninterp spec fn guessed_mime(ext: Seq<char>) -> Option<Seq<char>>;

/// `mime_guess::from_ext(ext).first_raw()`: the first MIME type known for an
/// extension. The table is static, so the answer depends on `ext` alone; an
/// empty extension has none.
#[verifier::external_body]
pub(crate) fn mime_for_extension(ext: &str) -> (r: Option<&'static str>)
    ensures
        match r {
            Some(m) => guessed_mime(ext@) == Some(m@),
            None => guessed_mime(ext@) == None::<Seq<char>>,
        },
        ext@.len() == 0 ==> r is None,
{
    mime_guess::from_ext(ext).first_raw()
}

pub open spec fn is_hex_digit(b: u8) -> bool {
    (48 <= b <= 57) || (65 <= b <= 70) || (97 <= b <= 102)
}

pub open spec fn hex_value(b: u8) -> nat {
    if 48 <= b <= 57 {
        (b - 48) as nat
    } else if 65 <= b <= 70 {
        (b - 55) as nat
    } else {
        (b - 87) as nat
    }
}

/// Percent-decoding: every `%` followed by two hexadecimal digits becomes the
/// byte they denote; every other byte, a lone `%` among them, stays as it is.
pub open spec fn percent_decoded(b: Seq<u8>) -> Seq<u8>
    decreases b.len(),
{
    if b.len() == 0 {
        Seq::<u8>::empty()
    } else if b[0] == 37 && b.len() >= 3 && is_hex_digit(b[1]) && is_hex_digit(b[2]) {
        seq![(hex_value(b[1]) * 16 + hex_value(b[2])) as u8] + percent_decoded(b.skip(3))
    } else {
        seq![b[0]] + percent_decoded(b.skip(1))
    }
}

/// `percent_encoding::percent_decode`, collected into a vector.
#[verifier::external_body]
pub(crate) fn percent_decode_bytes(input: &[u8]) -> (r: Vec<u8>)
    ensures
        r@ == percent_decoded(input@),
{
    percent_encoding::percent_decode(input).collect()
}

/// `String::from_utf8`: the text that `bytes` encode, when they are valid UTF-8.
#[verifier::external_body]
pub(crate) fn utf8_text(bytes: Vec<u8>) -> (r: Option<String>)
    ensures
        r is Some <==> vstd::utf8::valid_utf8(bytes@),
        r matches Some(s) ==> s@ == vstd::utf8::decode_utf8(bytes@),
{
    String::from_utf8(bytes).ok()
}

} // verus!

verus! {

pub open spec fn pow10(k: nat) -> nat
    decreases k,
{
    if k == 0 {
        1
    } else {
        10 * pow10((k - 1) as nat)
    }
}

proof fn lemma_decimal_len_below(n: nat, k: nat)
    requires
        1 <= k,
        n < pow10(k),
    ensures
        decimal(n).len() <= k,
    decreases k,
{
    if n >= 10 {
        assert(k >= 2) by {
            if k == 1 {
                assert(pow10(1) == 10 * pow10(0));
            }
        }
        assert(pow10(k) == 10 * pow10((k - 1) as nat));
        assert(n / 10 < pow10((k - 1) as nat));
        lemma_decimal_len_below(n / 10, (k - 1) as nat);
    }
}

/// A `usize` has at most twenty decimal digits, and at least one.
pub proof fn lemma_decimal_len(n: usize)
    ensures
        1 <= decimal(n as nat).len() <= 20,
{
    assert(pow10(20) == 100000000000000000000) by {
        reveal_with_fuel(pow10, 21);
    }
    lemma_decimal_len_below(n as nat, 20);
    assert(decimal(n as nat).len() >= 1);
}

} // verus!
