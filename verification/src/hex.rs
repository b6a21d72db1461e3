//! Lowercase hex, as the `lexe_hex` crate reads and writes it.

use lexe_hex::hex::DecodeError;
use vstd::prelude::*;
use vstd::utf8::*;

verus! {

/// Why a string is not the hex of any bytes.
#[derive(Clone, Copy, Debug, PartialEq, Eq, Structural)]
pub enum HexError {
    /// The output buffer is not half as long as the input.
    BadOutputLength,
    /// A character is none of `0-9a-f`.
    InvalidCharacter,
    /// The input has an odd number of bytes.
    OddInputLength,
}

impl HexError {
    /// The variant's name.
    pub open spec fn name_chars(self) -> Seq<char> {
        match self {
            HexError::BadOutputLength => "BadOutputLength"@,
            HexError::InvalidCharacter => "InvalidCharacter"@,
            HexError::OddInputLength => "OddInputLength"@,
        }
    }

    /// The variant's name, as its `Debug` form shows it.
    pub fn name(self) -> (s: &'static str)
        ensures
            s@ == self.name_chars(),
    {
        match self {
            HexError::BadOutputLength => "BadOutputLength",
            HexError::InvalidCharacter => "InvalidCharacter",
            HexError::OddInputLength => "OddInputLength",
        }
    }
}

/// The hex digit of a value below 16.
pub open spec fn digit(value: int) -> char {
    if value < 10 {
        ('0' as int + value) as char
    } else {
        ('a' as int + (value - 10)) as char
    }
}

/// The value of a hex digit; `None` for any other character, the uppercase
/// letters among them.
pub open spec fn digit_value(c: char) -> Option<int> {
    if '0' <= c <= '9' {
        Some(c as int - '0' as int)
    } else if 'a' <= c <= 'f' {
        Some(c as int - 'a' as int + 10)
    } else {
        None
    }
}

/// The hex of `bytes`: two digits for each byte, the higher one first.
pub open spec fn encoded(bytes: Seq<u8>) -> Seq<char> {
    Seq::new(
        2 * bytes.len(),
        |i: int|
            if i % 2 == 0 {
                digit(bytes[i / 2] as int / 16)
            } else {
                digit(bytes[i / 2] as int % 16)
            },
    )
}

/// Whether every character is a hex digit.
pub open spec fn all_digits(s: Seq<char>) -> bool {
    forall|i: int| 0 <= i < s.len() ==> digit_value(#[trigger] s[i]) is Some
}

/// What the hex string `s` stands for. Its length is counted in bytes.
pub open spec fn decoded(s: Seq<char>) -> Result<Seq<u8>, HexError> {
    if encode_utf8(s).len() % 2 != 0 {
        Err(HexError::OddInputLength)
    } else if !all_digits(s) {
        Err(HexError::InvalidCharacter)
    } else {
        Ok(
            Seq::new(
                s.len() / 2,
                |i: int| (16 * digit_value(s[2 * i])->0 + digit_value(s[2 * i + 1])->0) as u8,
            ),
        )
    }
}

/// Calls `lexe_hex::hex::encode`, which writes each byte as two lowercase hex
/// digits, the higher one first. It allocates twice the length of its input,
/// which has to fit in an allocation.
#[verifier::external_body]
pub(crate) fn encode(bytes: &[u8]) -> (s: String)
    requires
        2 * bytes@.len() <= isize::MAX,
    ensures
        s@ == encoded(bytes@),
{
    lexe_hex::hex::encode(bytes)
}

/// Calls `lexe_hex::hex::decode`, which refuses a string of an odd number of
/// bytes first, then one that holds anything but `0-9a-f`, and turns any other
/// into the bytes that its pairs of digits stand for.
#[verifier::external_body]
pub(crate) fn decode(s: &str) -> (r: Result<Vec<u8>, HexError>)
    ensures
        match r {
            Ok(bytes) => decoded(s@) == Ok::<Seq<u8>, HexError>(bytes@),
            Err(e) => decoded(s@) == Err::<Seq<u8>, HexError>(e),
        },
{
    match lexe_hex::hex::decode(s) {
        Ok(bytes) => Ok(bytes),
        Err(DecodeError::BadOutputLength) => Err(HexError::BadOutputLength),
        Err(DecodeError::InvalidCharacter) => Err(HexError::InvalidCharacter),
        Err(DecodeError::OddInputLength) => Err(HexError::OddInputLength),
    }
}

/// A digit stands for the value it was made of.
proof fn lemma_digit(value: int)
    requires
        0 <= value < 16,
    ensures
        digit_value(digit(value)) == Some(value),
        digit(value) <= '\u{7f}',
{
}

/// A hex digit is the digit of its value.
proof fn lemma_digit_value(c: char)
    requires
        digit_value(c) is Some,
    ensures
        0 <= digit_value(c)->0 < 16,
        digit(digit_value(c)->0) == c,
        c <= '\u{7f}',
{
}

/// The hex of some bytes holds hex digits only.
pub proof fn lemma_encoded_digits(bytes: Seq<u8>)
    ensures
        all_digits(encoded(bytes)),
{
    let s = encoded(bytes);
    assert forall|i: int| 0 <= i < s.len() implies digit_value(#[trigger] s[i]) is Some by {
        lemma_digit(bytes[i / 2] as int / 16);
        lemma_digit(bytes[i / 2] as int % 16);
    }
}

/// A string of hex digits has as many bytes as characters.
proof fn lemma_digits_len(s: Seq<char>)
    requires
        all_digits(s),
    ensures
        encode_utf8(s).len() == s.len(),
{
    assert forall|i: int| 0 <= i < s.len() implies '\0' <= #[trigger] s[i] <= '\u{7f}' by {
        lemma_digit_value(s[i]);
    }
    is_ascii_chars_encode_utf8(s);
}

/// The hex of some bytes stands for those bytes.
pub proof fn law_hex_round_trip(bytes: Seq<u8>)
    ensures
        decoded(encoded(bytes)) == Ok::<Seq<u8>, HexError>(bytes),
{
    let s = encoded(bytes);
    lemma_encoded_digits(bytes);
    lemma_digits_len(s);
    let out = decoded(s)->Ok_0;
    assert forall|i: int| 0 <= i < bytes.len() implies out[i] == bytes[i] by {
        lemma_digit(bytes[i] as int / 16);
        lemma_digit(bytes[i] as int % 16);
        assert((2 * i) / 2 == i && (2 * i) % 2 == 0);
        assert((2 * i + 1) / 2 == i && (2 * i + 1) % 2 == 1);
    }
    assert(out =~= bytes);
}

/// A string stands for some bytes only if it is their lowercase hex.
pub proof fn law_hex_is_canonical(s: Seq<char>)
    requires
        decoded(s) is Ok,
    ensures
        encoded(decoded(s)->Ok_0) == s,
{
    lemma_digits_len(s);
    let bytes = decoded(s)->Ok_0;
    assert forall|i: int| 0 <= i < s.len() implies encoded(bytes)[i] == s[i] by {
        let k = i / 2;
        assert(0 <= k < bytes.len());
        assert(digit_value(s[2 * k]) is Some);
        assert(digit_value(s[2 * k + 1]) is Some);
        lemma_digit_value(s[2 * k]);
        lemma_digit_value(s[2 * k + 1]);
        assert(i == 2 * k || i == 2 * k + 1);
    }
    assert(encoded(bytes) =~= s);
}

} // verus!
