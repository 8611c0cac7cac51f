use crate::primitives::be_value;
use vstd::prelude::*;

verus! {

/// The digit that stands for a number below sixteen: `0` to `9`, then `a` to `f`.
pub open spec fn digit_char(digit: nat) -> char {
    "0123456789abcdef"@[digit as int]
}

/// A number in lower-case hexadecimal, without leading zeros; zero is "0".
pub open spec fn lower_hex(number: nat) -> Seq<char>
    decreases number,
{
    if number < 16 {
        seq![digit_char(number)]
    } else {
        lower_hex(number / 16).push(digit_char(number % 16))
    }
}

/// One byte as two lower-case hexadecimal digits.
pub open spec fn hex_byte(byte: u8) -> Seq<char> {
    seq![digit_char(byte as nat / 16), digit_char(byte as nat % 16)]
}

/// A run of bytes in lower-case hexadecimal, two digits for each byte.
pub open spec fn hex_bytes(bytes: Seq<u8>) -> Seq<char>
    decreases bytes.len(),
{
    if bytes.len() == 0 {
        Seq::empty()
    } else {
        hex_bytes(bytes.drop_last()) + hex_byte(bytes.last())
    }
}

/// A word in full: `0x`, then two digits for each of its bytes.
pub open spec fn full_hex(word: Seq<u8>) -> Seq<char> {
    "0x"@ + hex_bytes(word)
}

/// Trusted: formats `zksync_basic_types::U256` with `{:x}`. The contract claims
/// what the type's `LowerHex` writes when no flag is set: the digits of the number,
/// most significant first, and "0" for zero.
#[verifier::external_body]
pub(crate) fn format_lower_hex(be_bytes: &[u8; 32]) -> (text: String)
    ensures
        text@ == lower_hex(be_value(be_bytes@)),
{
    format!("{:x}", zksync_basic_types::U256::from_big_endian(be_bytes))
}

/// Trusted: formats `zksync_basic_types::H256` with `{:#x}`. The contract claims
/// what the type's `LowerHex` writes when the alternate flag is set: `0x`, then
/// every byte as two digits, first byte first.
#[verifier::external_body]
pub(crate) fn format_full_hex(bytes: &[u8; 32]) -> (text: String)
    ensures
        text@ == full_hex(bytes@),
{
    format!("{:#x}", zksync_basic_types::H256(*bytes))
}

} // verus!
