//! Bytes as text: hexadecimal for keys, base64 for values.

use crate::compress::{content_view, restored};
use crate::text::{is_white, lower_ascii, lower_char, trim, trimmed_text};
use base64::Engine;
use vstd::prelude::*;
use vstd::utf8::{encode_utf8, is_ascii_chars, is_ascii_chars_encode_utf8};

verus! {

/// The lower-case hexadecimal digit of a value below 16.
pub open spec fn hex_digit(v: int) -> char {
    if v < 10 {
        ('0' as u32 + v) as char
    } else {
        ('a' as u32 + (v - 10)) as char
    }
}

/// Bytes in hexadecimal: two lower-case digits for each, the high half first.
pub open spec fn hex_text(bytes: Seq<u8>) -> Seq<char> {
    Seq::new(
        2 * bytes.len(),
        |i: int|
            if i % 2 == 0 {
                hex_digit(bytes[i / 2] as int / 16)
            } else {
                hex_digit(bytes[i / 2] as int % 16)
            },
    )
}

/// The value of a hexadecimal digit, given as the byte of its ASCII character.
pub open spec fn hex_digit_value(b: u8) -> Option<u8> {
    if 0x30 <= b && b <= 0x39 {
        Some((b - 0x30) as u8)
    } else if 0x61 <= b && b <= 0x66 {
        Some((b - 0x61 + 10) as u8)
    } else if 0x41 <= b && b <= 0x46 {
        Some((b - 0x41 + 10) as u8)
    } else {
        None
    }
}

/// The value of two bytes of text as a hexadecimal number. A plus sign may stand in place of the
/// first digit.
pub open spec fn hex_pair_value(high: u8, low: u8) -> Option<u8> {
    match (hex_digit_value(high), hex_digit_value(low)) {
        (Some(h), Some(l)) => Some((16 * h + l) as u8),
        (None, Some(l)) => if high == 0x2b {
            Some(l)
        } else {
            None
        },
        _ => None,
    }
}

/// Why a text is not hexadecimal.
#[derive(Clone, Copy, PartialEq, Eq, Structural, Debug)]
pub enum HexError {
    /// The text has an odd number of bytes.
    OddLength,
    /// The two bytes at a position are not a hexadecimal number.
    InvalidDigits(usize),
}

/// The values of the first `n` pairs of bytes, or the first pair that has none.
pub open spec fn hex_pairs(s: Seq<u8>, n: nat) -> Result<Seq<u8>, HexError>
    decreases n,
{
    if n == 0 {
        Ok(Seq::empty())
    } else {
        match hex_pairs(s, (n - 1) as nat) {
            Err(e) => Err(e),
            Ok(v) => match hex_pair_value(s[2 * n - 2], s[2 * n - 1]) {
                Some(b) => Ok(v.push(b)),
                None => Err(HexError::InvalidDigits((2 * n - 2) as usize)),
            },
        }
    }
}

/// What a text holds in hexadecimal, white space around it aside.
pub open spec fn hex_bytes(text: Seq<char>) -> Result<Seq<u8>, HexError> {
    let s = encode_utf8(trimmed_text(text));
    if s.len() % 2 != 0 {
        Err(HexError::OddLength)
    } else {
        hex_pairs(s, s.len() / 2)
    }
}

/// What hexadecimal decoding returned.
pub open spec fn hex_result(r: Result<Vec<u8>, HexError>) -> Result<Seq<u8>, HexError> {
    match r {
        Ok(v) => Ok(v@),
        Err(e) => Err(e),
    }
}

fn hex_char(v: u8) -> (r: char)
    requires
        v < 16,
    ensures
        r == hex_digit(v as int),
{
    match v {
        0 => '0',
        1 => '1',
        2 => '2',
        3 => '3',
        4 => '4',
        5 => '5',
        6 => '6',
        7 => '7',
        8 => '8',
        9 => '9',
        10 => 'a',
        11 => 'b',
        12 => 'c',
        13 => 'd',
        14 => 'e',
        _ => 'f',
    }
}

/// Bytes in hexadecimal.
pub fn hex_encode(bytes: &[u8]) -> (r: String)
    ensures
        r@ == hex_text(bytes@),
{
    let mut out = String::new();
    for i in 0..bytes.len()
        invariant
            out@ == hex_text(bytes@.take(i as int)),
    {
        let ghost before = out@;
        out.push(hex_char(bytes[i] / 16));
        out.push(hex_char(bytes[i] % 16));
        assert(out@ =~= hex_text(bytes@.take(i + 1)));
    }
    assert(bytes@.take(bytes@.len() as int) =~= bytes@);
    out
}

fn digit_value(b: u8) -> (r: Option<u8>)
    ensures
        r == hex_digit_value(b),
        r matches Some(v) ==> v < 16,
{
    if 0x30 <= b && b <= 0x39 {
        Some(b - 0x30)
    } else if 0x61 <= b && b <= 0x66 {
        Some(b - 0x61 + 10)
    } else if 0x41 <= b && b <= 0x46 {
        Some(b - 0x41 + 10)
    } else {
        None
    }
}

fn pair_value(high: u8, low: u8) -> (r: Option<u8>)
    ensures
        r == hex_pair_value(high, low),
{
    match (digit_value(high), digit_value(low)) {
        (Some(h), Some(l)) => Some(16 * h + l),
        (None, Some(l)) => if high == 0x2b {
            Some(l)
        } else {
            None
        },
        _ => None,
    }
}

/// The first pair without a value decides, however many follow.
proof fn lemma_hex_error_stays(s: Seq<u8>, n: nat, m: nat)
    requires
        n <= m,
        hex_pairs(s, n) is Err,
    ensures
        hex_pairs(s, m) == hex_pairs(s, n),
    decreases m,
{
    if n < m {
        lemma_hex_error_stays(s, n, (m - 1) as nat);
    }
}

/// Reads a text as hexadecimal.
pub fn hex_decode(s: &str) -> (r: Result<Vec<u8>, HexError>)
    ensures
        hex_result(r) == hex_bytes(s@),
{
    let trimmed = trim(s);
    let bytes = trimmed.as_str().as_bytes();
    if bytes.len() % 2 != 0 {
        return Err(HexError::OddLength);
    }
    let mut out: Vec<u8> = Vec::new();
    let half: usize = bytes.len() / 2;
    for i in 0..half
        invariant
            half == bytes.len() / 2,
            bytes.len() % 2 == 0,
            bytes@ == encode_utf8(trimmed_text(s@)),
            hex_pairs(bytes@, i as nat) == Ok::<Seq<u8>, HexError>(out@),
    {
        match pair_value(bytes[2 * i], bytes[2 * i + 1]) {
            Some(b) => {
                out.push(b);
            },
            None => {
                proof {
                    lemma_hex_error_stays(bytes@, (i + 1) as nat, half as nat);
                }
                return Err(HexError::InvalidDigits(2 * i));
            },
        }
    }
    Ok(out)
}

/// Whether a text consists of white space.
pub open spec fn is_blank(s: Seq<char>) -> bool {
    forall|i: int| 0 <= i < s.len() ==> is_white(#[trigger] s[i])
}

/// Whether a text is that of bytes in hexadecimal, with each digit in lower or upper case.
pub open spec fn is_hex_of(digits: Seq<char>, bytes: Seq<u8>) -> bool {
    lower_ascii(digits) == hex_text(bytes)
}

/// White space around a text that has none at its ends is trimmed away, and nothing else.
proof fn lemma_trimmed(before: Seq<char>, s: Seq<char>, after: Seq<char>)
    requires
        is_blank(before),
        is_blank(after),
        s.len() > 0 ==> !is_white(s[0]) && !is_white(s.last()),
    ensures
        trimmed_text(before + s + after) == s,
    decreases before.len() + after.len(),
{
    let all = before + s + after;
    if before.len() > 0 {
        assert(all[0] == before[0]);
        assert(all.skip(1) =~= before.skip(1) + s + after);
        lemma_trimmed(before.skip(1), s, after);
    } else if after.len() > 0 && s.len() > 0 {
        assert(all[0] == s[0]);
        assert(all.last() == after.last());
        assert(all.drop_last() =~= before + s + after.drop_last());
        lemma_trimmed(before, s, after.drop_last());
    } else if after.len() > 0 {
        assert(all[0] == after[0]);
        assert(all.skip(1) =~= before + s + after.skip(1));
        lemma_trimmed(before, s, after.skip(1));
    } else {
        assert(all =~= s);
    }
}

/// A hexadecimal digit in either case has the value of the digit in lower case.
proof fn lemma_digit_in_any_case(c: char, v: int)
    requires
        0 <= v < 16,
        lower_char(c) == hex_digit(v),
    ensures
        ' ' < c,
        c <= '\u{7f}',
        hex_digit_value(c as u8) == Some(v as u8),
{
}

proof fn lemma_digits(digits: Seq<char>, bytes: Seq<u8>, i: int)
    requires
        is_hex_of(digits, bytes),
        0 <= i < digits.len(),
    ensures
        digits.len() == 2 * bytes.len(),
        ' ' < digits[i],
        digits[i] <= '\u{7f}',
        hex_digit_value(digits[i] as u8) == Some(
            if i % 2 == 0 {
                (bytes[i / 2] / 16) as u8
            } else {
                (bytes[i / 2] % 16) as u8
            },
        ),
{
    assert(lower_ascii(digits).len() == digits.len());
    assert(lower_ascii(digits)[i] == lower_char(digits[i]));
    let v = if i % 2 == 0 {
        bytes[i / 2] as int / 16
    } else {
        bytes[i / 2] as int % 16
    };
    assert(hex_text(bytes)[i] == hex_digit(v));
    lemma_digit_in_any_case(digits[i], v);
}

proof fn lemma_hex_pairs_of_text(bytes: Seq<u8>, digits: Seq<char>, s: Seq<u8>, n: nat)
    requires
        n <= bytes.len(),
        is_hex_of(digits, bytes),
        s.len() == 2 * bytes.len(),
        digits.len() == s.len(),
        forall|k: int| 0 <= k < s.len() ==> #[trigger] s[k] == digits[k] as u8,
    ensures
        hex_pairs(s, n) == Ok::<Seq<u8>, HexError>(bytes.take(n as int)),
    decreases n,
{
    if n == 0 {
        assert(bytes.take(0) =~= Seq::empty());
    } else {
        lemma_hex_pairs_of_text(bytes, digits, s, (n - 1) as nat);
        let b = bytes[n - 1];
        lemma_digits(digits, bytes, 2 * n - 2);
        lemma_digits(digits, bytes, 2 * n - 1);
        assert(s[2 * n - 2] == digits[2 * n - 2] as u8);
        assert(s[2 * n - 1] == digits[2 * n - 1] as u8);
        assert((2 * n - 2) / 2 == n - 1 && (2 * n - 1) / 2 == n - 1);
        assert(bytes.take(n as int) =~= bytes.take(n - 1).push(b));
    }
}

proof fn lemma_bytes_of_digits(before: Seq<char>, digits: Seq<char>, after: Seq<char>)
    requires
        is_blank(before),
        is_blank(after),
        forall|i: int|
            0 <= i < digits.len() ==> ' ' < #[trigger] digits[i] && digits[i] <= '\u{7f}',
    ensures
        ({
            let s = encode_utf8(trimmed_text(before + digits + after));
            &&& s.len() == digits.len()
            &&& forall|k: int| 0 <= k < s.len() ==> #[trigger] s[k] == digits[k] as u8
        }),
{
    lemma_trimmed(before, digits, after);
    assert(is_ascii_chars(digits));
    is_ascii_chars_encode_utf8(digits);
}

/// Bytes survive being written in hexadecimal and read back, with digits in either case and with
/// white space around them.
pub proof fn law_hex_in_any_case(
    bytes: Seq<u8>,
    before: Seq<char>,
    digits: Seq<char>,
    after: Seq<char>,
)
    requires
        is_hex_of(digits, bytes),
        is_blank(before),
        is_blank(after),
    ensures
        hex_bytes(before + digits + after) == Ok::<Seq<u8>, HexError>(bytes),
{
    assert(lower_ascii(digits).len() == digits.len());
    assert forall|i: int| 0 <= i < digits.len() implies ' ' < #[trigger] digits[i] && digits[i]
        <= '\u{7f}' by {
        lemma_digits(digits, bytes, i);
    }
    lemma_bytes_of_digits(before, digits, after);
    let s = encode_utf8(trimmed_text(before + digits + after));
    lemma_hex_pairs_of_text(bytes, digits, s, bytes.len());
    assert(bytes.take(bytes.len() as int) =~= bytes);
}

/// Bytes survive being written in hexadecimal and read back.
pub proof fn law_hex_round_trip(bytes: Seq<u8>)
    ensures
        hex_bytes(hex_text(bytes)) == Ok::<Seq<u8>, HexError>(bytes),
{
    let text = hex_text(bytes);
    let none = Seq::<char>::empty();
    assert(lower_ascii(text) =~= text);
    law_hex_in_any_case(bytes, none, text, none);
    assert(none + text + none =~= text);
}

/// Bytes in hexadecimal from which one digit is missing, whichever it is, are refused for their
/// length.
pub proof fn law_missing_digit(
    bytes: Seq<u8>,
    before: Seq<char>,
    digits: Seq<char>,
    after: Seq<char>,
    k: int,
)
    requires
        is_hex_of(digits, bytes),
        is_blank(before),
        is_blank(after),
        0 <= k < digits.len(),
    ensures
        hex_bytes(before + digits.remove(k) + after) == Err::<Seq<u8>, HexError>(
            HexError::OddLength,
        ),
{
    let fewer = digits.remove(k);
    lemma_digits(digits, bytes, k);
    assert forall|i: int| 0 <= i < fewer.len() implies ' ' < #[trigger] fewer[i] && fewer[i]
        <= '\u{7f}' by {
        if i < k {
            lemma_digits(digits, bytes, i);
        } else {
            lemma_digits(digits, bytes, i + 1);
        }
    }
    lemma_bytes_of_digits(before, fewer, after);
}

/// What `base64::engine::general_purpose::STANDARD` encodes data to.
pub uninterp spec fn base64_text(data: Seq<u8>) -> Seq<char>;

/// What `base64::engine::general_purpose::STANDARD` decodes a text to: data, or the text of an
/// error.
pub uninterp spec fn base64_bytes(text: Seq<char>) -> Result<Seq<u8>, Seq<char>>;

/// `Engine::encode` of the standard base64 engine. Decoding gives the data back.
#[verifier::external_body]
pub(crate) fn base64_encode(data: &[u8]) -> (r: String)
    ensures
        r@ == base64_text(data@),
        base64_bytes(r@) == restored(data@),
{
    base64::engine::general_purpose::STANDARD.encode(data)
}

/// `Engine::decode` of the standard base64 engine, with an error as its text.
#[verifier::external_body]
pub(crate) fn base64_decode(text: &str) -> (r: Result<Vec<u8>, String>)
    ensures
        content_view(r) == base64_bytes(text@),
{
    base64::engine::general_purpose::STANDARD.decode(text).map_err(|e| e.to_string())
}

} // verus!
