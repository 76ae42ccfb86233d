//! SHA-1 digests and their hexadecimal form.

use sha1::{Digest, Sha1};
use vstd::prelude::*;

verus! {

/// The SHA-1 digest of `data`, as the `sha1` crate computes it.
pub uninterp spec fn sha1_digest(data: Seq<u8>) -> Seq<u8>;

/// The lower-case hexadecimal digit for `n`, which is below 16.
pub open spec fn hex_digit(n: int) -> u8 {
    if n < 10 {
        (48 + n) as u8
    } else {
        (87 + n) as u8
    }
}

/// The hexadecimal form of `data` as ASCII bytes: for each byte its high
/// digit, then its low digit, in lower case.
pub open spec fn hex_bytes(data: Seq<u8>) -> Seq<u8> {
    Seq::new(
        2 * data.len(),
        |i: int|
            if i % 2 == 0 {
                hex_digit(data[i / 2] as int / 16)
            } else {
                hex_digit(data[i / 2] as int % 16)
            },
    )
}

/// The hexadecimal form of `data` as text.
pub open spec fn hex_chars(data: Seq<u8>) -> Seq<char> {
    Seq::new(2 * data.len(), |i: int| hex_bytes(data)[i] as char)
}

/// The value of the hexadecimal digit `b`, in either case.
pub open spec fn hex_value(b: u8) -> Option<int> {
    if 48 <= b <= 57 {
        Some(b - 48)
    } else if 97 <= b <= 102 {
        Some(b - 87)
    } else if 65 <= b <= 70 {
        Some(b - 55)
    } else {
        None
    }
}

/// Whether `text` is hexadecimal: an even number of hexadecimal digits.
pub open spec fn is_hex(text: Seq<u8>) -> bool {
    text.len() % 2 == 0 && forall|i: int| 0 <= i < text.len() ==> hex_value(#[trigger] text[i])
        is Some
}

/// The bytes that the hexadecimal `text` denotes.
pub open spec fn unhex(text: Seq<u8>) -> Seq<u8> {
    Seq::new(
        text.len() / 2,
        |i: int| (hex_value(text[2 * i]).unwrap() * 16 + hex_value(text[2 * i + 1]).unwrap()) as u8,
    )
}

/// The error of `hex::decode`.
#[verifier::external_type_specification]
#[verifier::external_body]
pub struct ExFromHexError(hex::FromHexError);

/// `Sha1::new`, `update` and `finalize` of the `sha1` crate: the result is
/// the SHA-1 digest of `data`, a function of `data` alone.
#[verifier::external_body]
pub(crate) fn sha1(data: &[u8]) -> (digest: [u8; 20])
    ensures
        digest@ == sha1_digest(data@),
{
    let mut hasher = Sha1::new();
    hasher.update(data);
    hasher.finalize().into()
}

/// `hex::encode`: two lower-case hexadecimal digits for each byte of `data`,
/// the high digit first.
#[verifier::external_body]
pub(crate) fn hex_encode(data: &[u8]) -> (text: String)
    ensures
        text@ == hex_chars(data@),
{
    hex::encode(data)
}

/// `hex::decode`: the bytes that `text` denotes when it is an even number of
/// hexadecimal digits of either case, and an error otherwise.
#[verifier::external_body]
pub(crate) fn hex_decode(text: &[u8]) -> (r: Result<Vec<u8>, hex::FromHexError>)
    ensures
        match r {
            Ok(bytes) => is_hex(text@) && bytes@ == unhex(text@),
            Err(_) => !is_hex(text@),
        },
{
    hex::decode(text)
}

/// The hexadecimal form of `data` denotes `data`.
pub proof fn lemma_unhex_hex(data: Seq<u8>)
    ensures
        is_hex(hex_bytes(data)),
        unhex(hex_bytes(data)) == data,
{
    let text = hex_bytes(data);
    assert forall|i: int| 0 <= i < text.len() implies hex_value(#[trigger] text[i]) is Some by {
        let b = data[i / 2];
        assert(0 <= b as int / 16 < 16 && 0 <= b as int % 16 < 16);
    }
    assert forall|i: int| 0 <= i < data.len() implies #[trigger] unhex(text)[i] == data[i] by {
        let b = data[i];
        assert((2 * i) / 2 == i && (2 * i) % 2 == 0);
        assert((2 * i + 1) / 2 == i && (2 * i + 1) % 2 == 1);
        assert(0 <= b as int / 16 < 16 && 0 <= b as int % 16 < 16);
        assert(hex_value(text[2 * i]).unwrap() == b as int / 16);
        assert(hex_value(text[2 * i + 1]).unwrap() == b as int % 16);
    }
    assert(unhex(text) =~= data);
}

/// Two byte strings with the same hexadecimal form are the same.
pub proof fn lemma_hex_injective(a: Seq<u8>, b: Seq<u8>)
    requires
        hex_chars(a) == hex_chars(b),
    ensures
        a == b,
{
    assert(hex_chars(a).len() == 2 * a.len());
    assert(hex_chars(b).len() == 2 * b.len());
    assert forall|i: int| 0 <= i < 2 * a.len() implies hex_bytes(a)[i] == hex_bytes(b)[i] by {
        let x = hex_bytes(a)[i];
        let y = hex_bytes(b)[i];
        assert(hex_chars(a)[i] == x as char);
        assert(hex_chars(b)[i] == y as char);
        let p = a[i / 2];
        let q = b[i / 2];
        assert(0 <= p as int / 16 < 16 && 0 <= p as int % 16 < 16);
        assert(0 <= q as int / 16 < 16 && 0 <= q as int % 16 < 16);
        assert(x as char as u8 == x);
        assert(y as char as u8 == y);
    }
    assert(hex_bytes(a) =~= hex_bytes(b));
    lemma_unhex_hex(a);
    lemma_unhex_hex(b);
}

} // verus!
