//! Hexadecimal text form of binary gene records.
//!
//! The specification functions here pin down, character by character, what
//! the hex encoding and decoding of a byte string are; the two trusted
//! wrappers at the bottom carry the calls into the `hex` crate.

use vstd::prelude::*;
use vstd::string::StrSliceExecFns;

verus! {

/// Everything that can go wrong turning text into a gene record.
#[derive(Copy, Clone, PartialEq, Eq, Structural, Debug)]
pub enum CodecError {
    /// The text has an odd number of characters.
    OddLength,
    /// A character is not a hexadecimal digit.
    InvalidHexCharacter { c: char, index: usize },
    /// The text decodes, but not to the fixed gene record size.
    WrongLength,
    /// A connection endpoint does not fit the packed 4-bit fields.
    IndexOutOfRange,
}

/// The lowercase hexadecimal digit for a value in `0..16`.
pub open spec fn hex_digit(v: int) -> char {
    if v == 0 {
        '0'
    } else if v == 1 {
        '1'
    } else if v == 2 {
        '2'
    } else if v == 3 {
        '3'
    } else if v == 4 {
        '4'
    } else if v == 5 {
        '5'
    } else if v == 6 {
        '6'
    } else if v == 7 {
        '7'
    } else if v == 8 {
        '8'
    } else if v == 9 {
        '9'
    } else if v == 10 {
        'a'
    } else if v == 11 {
        'b'
    } else if v == 12 {
        'c'
    } else if v == 13 {
        'd'
    } else if v == 14 {
        'e'
    } else {
        'f'
    }
}

/// The hex text of a byte string: two digits per byte, high nibble first.
pub open spec fn hex_of_bytes(b: Seq<u8>) -> Seq<char> {
    Seq::new(
        2 * b.len(),
        |i: int|
            if i % 2 == 0 {
                hex_digit(b[i / 2] as int / 16)
            } else {
                hex_digit(b[i / 2] as int % 16)
            },
    )
}

/// A hexadecimal digit, either case.
pub open spec fn is_hex_digit(c: char) -> bool {
    (48 <= c as int && c as int <= 57) || (97 <= c as int && c as int <= 102) || (65 <= c as int
        && c as int <= 70)
}

/// The value of a hexadecimal digit.
pub open spec fn hex_val(c: char) -> int {
    if 48 <= c as int && c as int <= 57 {
        c as int - 48
    } else if 97 <= c as int && c as int <= 102 {
        c as int - 87
    } else {
        c as int - 55
    }
}

/// Text that decodes: even length, hexadecimal digits throughout.
pub open spec fn valid_hex(s: Seq<char>) -> bool {
    s.len() % 2 == 0 && forall|i: int| 0 <= i < s.len() ==> is_hex_digit(#[trigger] s[i])
}

/// The bytes that valid hex text stands for.
pub open spec fn decoded_bytes(s: Seq<char>) -> Seq<u8> {
    Seq::new(s.len() / 2, |i: int| (hex_val(s[2 * i]) * 16 + hex_val(s[2 * i + 1])) as u8)
}

/// The position of the first character that is not a hexadecimal digit
/// (the text length if there is none).
pub open spec fn first_non_hex(s: Seq<char>, i: int) -> int
    decreases s.len() - i,
{
    if i < 0 || i >= s.len() {
        s.len() as int
    } else if !is_hex_digit(s[i]) {
        i
    } else {
        first_non_hex(s, i + 1)
    }
}

/// Relies on `hex::encode`: each input byte becomes two lowercase hex
/// digits, high nibble first, so the result is twice as long as the input.
#[verifier::external_body]
pub(crate) fn hex_encode(bytes: &Vec<u8>) -> (r: String)
    ensures
        r@ == hex_of_bytes(bytes@),
{
    hex::encode(bytes)
}

/// What decoding hex text yields: the bytes, or the reason it failed.
pub type DecodeResult = Result<Vec<u8>, CodecError>;

/// Relies on `hex::decode`: on an even-length string of hex digits it
/// returns one byte per digit pair. The call reads the string's UTF-8
/// bytes; the precondition admits only hex digits, for which the bytes
/// and the characters coincide, so the contract can speak of characters.
/// Ill-formed text never reaches the call: `decode_hex_text` rejects it
/// first, character by character, in verified code.
#[verifier::external_body]
pub(crate) fn hex_decode(s: &str) -> (r: DecodeResult)
    requires
        valid_hex(s@),
    ensures
        r is Ok,
        r matches Ok(b) ==> b@ == decoded_bytes(s@),
{
    match hex::decode(s) {
        Ok(b) => Ok(b),
        Err(hex::FromHexError::OddLength) => Err(CodecError::OddLength),
        Err(hex::FromHexError::InvalidHexCharacter { c, index }) => Err(
            CodecError::InvalidHexCharacter { c, index },
        ),
        Err(hex::FromHexError::InvalidStringLength) => Err(CodecError::WrongLength),
    }
}

/// Decodes hex text, or reports the first offence: an odd character
/// count, else the first character that is no hex digit. The characters
/// are examined here; only text verified to be hex digits reaches the
/// outside decoder.
pub(crate) fn decode_hex_text(s: &str) -> (r: DecodeResult)
    ensures
        r is Ok <==> valid_hex(s@),
        r matches Ok(b) ==> b@ == decoded_bytes(s@),
        r matches Err(e) ==> e == (if s@.len() % 2 != 0 {
            CodecError::OddLength
        } else {
            (CodecError::InvalidHexCharacter {
                c: s@[first_non_hex(s@, 0)],
                index: first_non_hex(s@, 0) as usize,
            })
        }),
{
    let n = s.unicode_len();
    if n % 2 != 0 {
        return Err(CodecError::OddLength);
    }
    let mut i: usize = 0;
    while i < n
        invariant
            i <= n,
            n == s@.len(),
            n % 2 == 0,
            forall|j: int| 0 <= j < i ==> is_hex_digit(#[trigger] s@[j]),
        decreases n - i,
    {
        let c = s.get_char(i);
        let v = c as u32;
        if !((48 <= v && v <= 57) || (97 <= v && v <= 102) || (65 <= v && v <= 70)) {
            proof {
                assert(c as int == v as int);
                assert(!is_hex_digit(c));
                lemma_first_non_hex_from(s@, 0, i as int);
            }
            return Err(CodecError::InvalidHexCharacter { c, index: i });
        }
        i += 1;
    }
    hex_decode(s)
}

/// With every character before `i` a hex digit and character `i` none,
/// the first offender found from `k` on is `i`.
proof fn lemma_first_non_hex_from(s: Seq<char>, k: int, i: int)
    requires
        0 <= k <= i < s.len(),
        forall|j: int| 0 <= j < i ==> is_hex_digit(#[trigger] s[j]),
        !is_hex_digit(s[i]),
    ensures
        first_non_hex(s, k) == i,
    decreases i - k,
{
    if k < i {
        lemma_first_non_hex_from(s, k + 1, i);
    }
}

} // verus!
