//! The cryptographic digest behind content addressing, and the 40-hex
//! external representation of object identifiers.

use sha1::Digest;
use vstd::prelude::*;

verus! {

/// The 20-byte digest of a byte sequence. The hash is computed by an
/// outside primitive; this name stands for its result, which depends on
/// the input bytes alone.
pub uninterp spec fn digest_of(data: Seq<u8>) -> Seq<u8>;

/// Relies on sha1::Sha1::digest: a 20-byte digest that is a function of
/// the input bytes alone.
#[verifier::external_body]
pub fn sha1_digest(data: &Vec<u8>) -> (r: Vec<u8>)
    ensures
        r@ == digest_of(data@),
        r@.len() == 20,
{
    sha1::Sha1::digest(data.as_slice()).to_vec()
}

/// The lowercase hex digit for a value below 16.
pub open spec fn hex_digit(v: u8) -> u8 {
    if v < 10 {
        (48 + v) as u8
    } else {
        (87 + v) as u8
    }
}

/// The lowercase hex rendering of a byte sequence: two digits per byte,
/// high nibble first.
pub open spec fn hex_of(s: Seq<u8>) -> Seq<u8> {
    Seq::new(2 * s.len(), |i: int| if i % 2 == 0 {
        hex_digit(s[i / 2] / 16)
    } else {
        hex_digit(s[i / 2] % 16)
    })
}

/// True for an ASCII hex digit of either case.
pub open spec fn is_hex_digit(b: u8) -> bool {
    48 <= b <= 57 || 97 <= b <= 102 || 65 <= b <= 70
}

/// The value of an ASCII hex digit of either case.
pub open spec fn hex_digit_val(b: u8) -> u8 {
    if 48 <= b <= 57 {
        (b - 48) as u8
    } else if 97 <= b <= 102 {
        (b - 87) as u8
    } else if 65 <= b <= 70 {
        (b - 55) as u8
    } else {
        0
    }
}

/// The bytes denoted by a hex string of even length.
pub open spec fn hex_val_of(s: Seq<u8>) -> Seq<u8> {
    Seq::new(s.len() / 2, |i: int| (16 * hex_digit_val(s[2 * i]) + hex_digit_val(
        s[2 * i + 1],
    )) as u8)
}

/// Relies on hex::encode: two lowercase digits per input byte, high
/// nibble first.
#[verifier::external_body]
pub fn hex_encode(data: &Vec<u8>) -> (r: Vec<u8>)
    ensures
        r@ == hex_of(data@),
{
    hex::encode(data.as_slice()).into_bytes()
}

/// Relies on hex::decode: succeeds exactly on even-length strings of hex
/// digits of either case, and pairs digits high nibble first.
#[verifier::external_body]
pub fn hex_decode(data: &Vec<u8>) -> (r: Option<Vec<u8>>)
    ensures
        match r {
            Some(v) => data@.len() % 2 == 0 && (forall|i: int|
                0 <= i < data@.len() ==> is_hex_digit(data@[i])) && v@ == hex_val_of(data@),
            None => data@.len() % 2 != 0 || exists|i: int|
                0 <= i < data@.len() && !is_hex_digit(data@[i]),
        },
{
    match hex::decode(data.as_slice()) {
        Ok(v) => Some(v),
        Err(_) => None,
    }
}

/// True when `s` is a well-formed 40-character hex identifier.
pub open spec fn spec_is_hex40(s: Seq<u8>) -> bool {
    s.len() == 40 && forall|i: int| 0 <= i < 40 ==> is_hex_digit(s[i])
}

/// Checks that `s` is exactly 40 hex digits.
pub fn is_hex40(s: &Vec<u8>) -> (r: bool)
    ensures
        r <==> spec_is_hex40(s@),
{
    if s.len() != 40 {
        return false;
    }
    let mut i: usize = 0;
    while i < 40
        invariant
            i <= 40,
            s@.len() == 40,
            forall|j: int| 0 <= j < i ==> is_hex_digit(s@[j]),
        decreases 40 - i,
    {
        let b = s[i];
        let ok = (48 <= b && b <= 57) || (97 <= b && b <= 102) || (65 <= b && b <= 70);
        if !ok {
            return false;
        }
        i += 1;
    }
    true
}

/// Hex encoding round-trips: decoding the lowercase rendering of raw
/// bytes gives the bytes back.
pub proof fn lemma_hex_round_trip(s: Seq<u8>)
    ensures
        hex_of(s).len() == 2 * s.len(),
        forall|i: int| 0 <= i < hex_of(s).len() ==> is_hex_digit(#[trigger] hex_of(s)[i]),
        hex_val_of(hex_of(s)) =~= s,
{
    assert forall|i: int| 0 <= i < hex_of(s).len() implies is_hex_digit(#[trigger] hex_of(s)[i]) by {
        if i % 2 == 0 {
            assert(s[i / 2] / 16 < 16);
        } else {
            assert(s[i / 2] % 16 < 16);
        }
    }
    assert forall|i: int| 0 <= i < s.len() implies hex_val_of(hex_of(s))[i] == s[i] by {
        assert(hex_of(s)[2 * i] == hex_digit(s[i] / 16));
        assert(hex_of(s)[2 * i + 1] == hex_digit(s[i] % 16));
        assert(hex_digit_val(hex_digit(s[i] / 16)) == s[i] / 16);
        assert(hex_digit_val(hex_digit(s[i] % 16)) == s[i] % 16);
    }
}

} // verus!
