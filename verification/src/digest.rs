//! Content digests: a trusted BLAKE3 primitive and a verified model of its
//! lowercase hexadecimal rendering.

use vstd::prelude::*;

verus! {

/// The 32-byte BLAKE3 digest of a byte string. The digest is a pure function
/// of the input bytes, so it is given a name rather than a definition; every
/// statement about concrete digest values lives in executable tests.
pub uninterp spec fn blake3_of(data: Seq<u8>) -> Seq<u8>;

/// The lowercase hexadecimal digit for a nibble value.
pub open spec fn hex_digit(n: u8) -> char
    recommends
        n < 16,
{
    if n == 0 {
        '0'
    } else if n == 1 {
        '1'
    } else if n == 2 {
        '2'
    } else if n == 3 {
        '3'
    } else if n == 4 {
        '4'
    } else if n == 5 {
        '5'
    } else if n == 6 {
        '6'
    } else if n == 7 {
        '7'
    } else if n == 8 {
        '8'
    } else if n == 9 {
        '9'
    } else if n == 10 {
        'a'
    } else if n == 11 {
        'b'
    } else if n == 12 {
        'c'
    } else if n == 13 {
        'd'
    } else if n == 14 {
        'e'
    } else {
        'f'
    }
}

/// Lowercase hexadecimal rendering of a byte string: two digits per byte,
/// high nibble first.
pub open spec fn hex_of(bytes: Seq<u8>) -> Seq<char> {
    Seq::new(
        bytes.len() * 2,
        |i: int|
            if i % 2 == 0 {
                hex_digit(bytes[i / 2] / 16)
            } else {
                hex_digit(bytes[i / 2] % 16)
            },
    )
}

/// Hexadecimal renderings consist of ASCII characters.
pub proof fn lemma_hex_of_ascii(bytes: Seq<u8>)
    ensures
        vstd::utf8::is_ascii_chars(hex_of(bytes)),
        hex_of(bytes).len() == bytes.len() * 2,
{
    assert forall|i: int| 0 <= i < hex_of(bytes).len() implies '\0' <= #[trigger] hex_of(
        bytes,
    )[i] <= '\u{7f}' by {
        let n = if i % 2 == 0 {
            bytes[i / 2] / 16
        } else {
            bytes[i / 2] % 16
        };
        assert(hex_of(bytes)[i] == hex_digit(n));
    }
}

/// Relies on `blake3::hash` and `blake3::Hash::to_hex`: the digest is a pure
/// function of the input bytes, and `to_hex` renders its 32 bytes as 64
/// lowercase hexadecimal characters.
#[verifier::external_body]
pub fn blake3_hex(data: &Vec<u8>) -> (r: String)
    ensures
        r@ == hex_of(blake3_of(data@)),
        r@.len() == 64,
{
    blake3::hash(data.as_slice()).to_hex().as_str().to_owned()
}

} // verus!
