//! Decoding of hexadecimal text into raw bytes.

use vstd::prelude::*;

verus! {

/// Why a piece of hexadecimal text could not be decoded.
#[derive(Clone, Copy, Debug, PartialEq, Eq, Structural)]
pub enum HexError {
    /// The byte at this position of the input is not a hexadecimal digit.
    InvalidDigit(usize),
    /// The input holds an odd number of bytes, so its last digit has no partner.
    OddLength,
}

/// Whether `b` is one of the ASCII characters `0`-`9`, `A`-`F`, `a`-`f`.
pub open spec fn is_hex_digit(b: u8) -> bool {
    ||| 0x30 <= b <= 0x39  // 0 to 9
    ||| 0x41 <= b <= 0x46  // A to F
    ||| 0x61 <= b <= 0x66  // a to f

}

/// The number, from 0 to 15, that the hexadecimal digit `b` stands for.
pub open spec fn hex_digit_value(b: u8) -> int
    recommends
        is_hex_digit(b),
{
    if 0x30 <= b <= 0x39 {
        b - 0x30
    } else if 0x41 <= b <= 0x46 {
        b - 0x41 + 10
    } else {
        b - 0x61 + 10
    }
}

/// Whether every byte of `text` is a hexadecimal digit.
pub open spec fn all_hex_digits(text: Seq<u8>) -> bool {
    forall|j: int| 0 <= j < text.len() ==> is_hex_digit(#[trigger] text[j])
}

/// Whether `pos` is the position of the first byte of `text` that is not a
/// hexadecimal digit.
pub open spec fn first_invalid_digit(text: Seq<u8>, pos: int) -> bool {
    &&& 0 <= pos < text.len()
    &&& !is_hex_digit(text[pos])
    &&& forall|j: int| 0 <= j < pos ==> is_hex_digit(#[trigger] text[j])
}

/// The byte that the two digits starting at position `2 * i` of `text` spell,
/// the first digit being the high nibble.
pub open spec fn decoded_byte(text: Seq<u8>, i: int) -> u8
    recommends
        0 <= i,
        2 * i + 1 < text.len(),
        is_hex_digit(text[2 * i]),
        is_hex_digit(text[2 * i + 1]),
{
    (hex_digit_value(text[2 * i]) * 16 + hex_digit_value(text[2 * i + 1])) as u8
}

/// The bytes that a text of hexadecimal digits spells, two digits per byte.
pub open spec fn decoded_bytes(text: Seq<u8>) -> Seq<u8>
    recommends
        text.len() % 2 == 0,
        all_hex_digits(text),
{
    Seq::new(text.len() / 2, |i: int| decoded_byte(text, i))
}

/// Converts a hexadecimal character into the integer value it stands for.
///
/// Bytes that are not hexadecimal digits are rejected; as the input is a single
/// byte, the position reported for it is 0.
pub fn decode_hexbyte(byte: u8) -> (result: Result<u8, HexError>)
    ensures
        match result {
            Ok(value) => is_hex_digit(byte) && value == hex_digit_value(byte) && value <= 15,
            Err(error) => !is_hex_digit(byte) && error == HexError::InvalidDigit(0),
        },
{
    match byte {
        0x30..=0x39 => Ok(byte - 0x30),
        0x41..=0x46 => Ok(byte - 0x41 + 0xa),
        0x61..=0x66 => Ok(byte - 0x61 + 0xa),
        _ => Err(HexError::InvalidDigit(0)),
    }
}

/// Decodes a hexadecimal representation of a byte string.
///
/// The input must hold an even number of bytes, all of them hexadecimal
/// digits. An input of odd length is rejected as such whatever it holds;
/// otherwise the first byte that is not a digit is reported by its position.
pub fn decode_hexbytes(hexbytes: &Vec<u8>) -> (result: Result<Vec<u8>, HexError>)
    ensures
        match result {
            Ok(bytes) => {
                &&& hexbytes@.len() % 2 == 0
                &&& all_hex_digits(hexbytes@)
                &&& bytes@ == decoded_bytes(hexbytes@)
            },
            Err(HexError::OddLength) => hexbytes@.len() % 2 == 1,
            Err(HexError::InvalidDigit(pos)) => {
                &&& hexbytes@.len() % 2 == 0
                &&& first_invalid_digit(hexbytes@, pos as int)
            },
        },
{
    let n: usize = hexbytes.len();
    if n % 2 != 0 {
        return Err(HexError::OddLength);
    }
    let pairs: usize = n / 2;
    let mut bytes: Vec<u8> = Vec::with_capacity(pairs);
    let mut i: usize = 0;
    while i < pairs
        invariant
            n == hexbytes@.len(),
            n == 2 * pairs,
            i <= pairs,
            bytes@.len() == i,
            forall|j: int| 0 <= j < 2 * i ==> is_hex_digit(#[trigger] hexbytes@[j]),
            forall|k: int| 0 <= k < i ==> #[trigger] bytes@[k] == decoded_byte(hexbytes@, k),
        decreases pairs - i,
    {
        let high: u8 = match decode_hexbyte(hexbytes[2 * i]) {
            Ok(value) => value,
            Err(_) => {
                return Err(HexError::InvalidDigit(2 * i));
            },
        };
        let low: u8 = match decode_hexbyte(hexbytes[2 * i + 1]) {
            Ok(value) => value,
            Err(_) => {
                return Err(HexError::InvalidDigit(2 * i + 1));
            },
        };
        bytes.push(high * 0x10 + low);
        i += 1;
    }
    Ok(bytes)
}

/// Whether `b` is a space, a tab or one of the two bytes that end a line.
pub open spec fn is_blank(b: u8) -> bool {
    ||| b == 0x20  // space
    ||| b == 0x09  // tab
    ||| b == 0x0a  // line feed
    ||| b == 0x0d  // carriage return

}

/// The length of `text` without the blanks at its end: everything from there
/// on is blank, and the byte before, if there is one, is not.
pub open spec fn is_trimmed_len(text: Seq<u8>, len: int) -> bool {
    &&& 0 <= len <= text.len()
    &&& forall|j: int| len <= j < text.len() ==> is_blank(#[trigger] text[j])
    &&& len > 0 ==> !is_blank(text[len - 1])
}

fn blank(b: u8) -> (result: bool)
    ensures
        result == is_blank(b),
{
    b == 0x20 || b == 0x09 || b == 0x0a || b == 0x0d
}

/// Drops the blanks at the end of `input`, such as the line ending that a
/// file of hexadecimal text usually closes with. Blanks elsewhere stay, and
/// are for the decoder to reject.
pub fn trim_trailing_blanks(input: &Vec<u8>) -> (trimmed: Vec<u8>)
    ensures
        is_trimmed_len(input@, trimmed@.len() as int),
        trimmed@ == input@.take(trimmed@.len() as int),
{
    let mut len: usize = input.len();
    while len > 0 && blank(input[len - 1])
        invariant
            len <= input@.len(),
            forall|j: int| len <= j < input@.len() ==> is_blank(#[trigger] input@[j]),
        decreases len,
    {
        len -= 1;
    }
    let mut trimmed: Vec<u8> = Vec::with_capacity(len);
    let mut i: usize = 0;
    while i < len
        invariant
            i <= len <= input@.len(),
            trimmed@ == input@.take(i as int),
        decreases len - i,
    {
        trimmed.push(input[i]);
        i += 1;
    }
    trimmed
}

} // verus!
