//! Lowercase hexadecimal text: two digits per byte, high nibble first.

use vstd::prelude::*;
use vstd::string::*;

verus! {

/// The digit that stands for `nibble` (meaningful below 16).
pub open spec fn spec_digit(nibble: u8) -> char {
    if nibble < 10 {
        (0x30 + nibble) as char
    } else {
        (0x57 + nibble) as char
    }
}

/// The value of a digit, or `None` for any other character. Upper-case
/// letters are not digits: each byte sequence has exactly one text.
pub open spec fn spec_nibble(c: char) -> Option<u8> {
    if '0' <= c <= '9' {
        Some((c as u8 - 0x30) as u8)
    } else if 'a' <= c <= 'f' {
        Some((c as u8 - 0x57) as u8)
    } else {
        None
    }
}

/// The text of `bytes`.
pub open spec fn spec_encode(bytes: Seq<u8>) -> Seq<char> {
    Seq::new(
        2 * bytes.len(),
        |i: int|
            spec_digit(
                if i % 2 == 0 {
                    bytes[i / 2] / 16
                } else {
                    bytes[i / 2] % 16
                },
            ),
    )
}

/// Whether `text` is the text of some byte sequence.
pub open spec fn spec_is_hex(text: Seq<char>) -> bool {
    &&& text.len() % 2 == 0
    &&& forall|i: int| 0 <= i < text.len() ==> (#[trigger] spec_nibble(text[i])) is Some
}

/// The bytes that `text` stands for (meaningful when `spec_is_hex(text)`).
pub open spec fn spec_decode(text: Seq<char>) -> Seq<u8> {
    Seq::new(
        text.len() / 2,
        |i: int| (spec_nibble(text[2 * i])->0 * 16 + spec_nibble(text[2 * i + 1])->0) as u8,
    )
}

/// A digit's value is the nibble it was made from.
pub proof fn lemma_digit_nibble(nibble: u8)
    requires
        nibble < 16,
    ensures
        spec_nibble(spec_digit(nibble)) == Some(nibble),
{
}

/// A value's digit is the character it was read from.
pub proof fn lemma_nibble_digit(c: char)
    requires
        spec_nibble(c) is Some,
    ensures
        spec_nibble(c)->0 < 16,
        spec_digit(spec_nibble(c)->0) == c,
{
}

/// Decoding the text of `bytes` gives `bytes` back.
pub proof fn lemma_decode_encode(bytes: Seq<u8>)
    ensures
        spec_is_hex(spec_encode(bytes)),
        spec_decode(spec_encode(bytes)) == bytes,
{
    let text = spec_encode(bytes);
    assert forall|i: int| 0 <= i < text.len() implies (#[trigger] spec_nibble(text[i])) is Some by {
        let b = bytes[i / 2];
        lemma_digit_nibble(b / 16);
        lemma_digit_nibble(b % 16);
    }
    assert forall|j: int| 0 <= j < bytes.len() implies spec_decode(text)[j] == bytes[j] by {
        let b = bytes[j];
        lemma_digit_nibble(b / 16);
        lemma_digit_nibble(b % 16);
        assert((2 * j) / 2 == j && (2 * j + 1) / 2 == j);
        assert(text[2 * j] == spec_digit(b / 16));
        assert(text[2 * j + 1] == spec_digit(b % 16));
    }
    assert(spec_decode(text) =~= bytes);
}

/// Encoding what a hexadecimal text decodes to gives the text back.
pub proof fn lemma_encode_decode(text: Seq<char>)
    requires
        spec_is_hex(text),
    ensures
        spec_encode(spec_decode(text)) == text,
{
    let bytes = spec_decode(text);
    assert forall|i: int| 0 <= i < text.len() implies spec_encode(bytes)[i] == text[i] by {
        let j = i / 2;
        let hi = spec_nibble(text[2 * j]);
        let lo = spec_nibble(text[2 * j + 1]);
        lemma_nibble_digit(text[2 * j]);
        lemma_nibble_digit(text[2 * j + 1]);
        assert(bytes[j] == hi->0 * 16 + lo->0);
    }
    assert(spec_encode(bytes) =~= text);
}

fn digit_str(nibble: u8) -> (digit: &'static str)
    requires
        nibble < 16,
    ensures
        digit@ == seq![spec_digit(nibble)],
{
    proof {
        reveal_strlit("0");
        reveal_strlit("1");
        reveal_strlit("2");
        reveal_strlit("3");
        reveal_strlit("4");
        reveal_strlit("5");
        reveal_strlit("6");
        reveal_strlit("7");
        reveal_strlit("8");
        reveal_strlit("9");
        reveal_strlit("a");
        reveal_strlit("b");
        reveal_strlit("c");
        reveal_strlit("d");
        reveal_strlit("e");
        reveal_strlit("f");
    }
    let digit = match nibble {
        0 => "0",
        1 => "1",
        2 => "2",
        3 => "3",
        4 => "4",
        5 => "5",
        6 => "6",
        7 => "7",
        8 => "8",
        9 => "9",
        10 => "a",
        11 => "b",
        12 => "c",
        13 => "d",
        14 => "e",
        _ => "f",
    };
    assert(digit@ =~= seq![spec_digit(nibble)]);
    digit
}

fn nibble_of(byte: u8) -> (out: Option<u8>)
    ensures
        out == spec_nibble(byte as char),
{
    if 0x30 <= byte && byte <= 0x39 {
        Some(byte - 0x30)
    } else if 0x61 <= byte && byte <= 0x66 {
        Some(byte - 0x57)
    } else {
        None
    }
}

/// Writes `bytes` as text.
pub fn encode(bytes: &[u8]) -> (text: String)
    ensures
        text@ == spec_encode(bytes@),
{
    let mut text = String::new();
    let mut i: usize = 0;
    while i < bytes.len()
        invariant
            i <= bytes.len(),
            text@ == spec_encode(bytes@.take(i as int)),
        decreases bytes.len() - i,
    {
        let b = bytes[i];
        let ghost before = text@;
        text.append(digit_str(b / 16));
        text.append(digit_str(b % 16));
        assert(text@ =~= spec_encode(bytes@.take(i + 1))) by {
            assert(text@ == before + seq![spec_digit(b / 16)] + seq![spec_digit(b % 16)]);
            assert(bytes@.take(i + 1)[i as int] == b);
        }
        i = i + 1;
    }
    assert(bytes@.take(i as int) =~= bytes@);
    text
}

/// Reads text back into bytes; `None` when `text` has an odd number of
/// characters or holds a character that is not a digit.
pub fn decode(text: &str) -> (out: Option<Vec<u8>>)
    ensures
        out is Some <==> spec_is_hex(text@),
        out is Some ==> out->0@ == spec_decode(text@),
{
    broadcast use vstd::string::is_ascii_spec_bytes;

    if !text.is_ascii() {
        proof {
            let i = choose|i: int|
                0 <= i < text@.len() && !('\0' <= #[trigger] text@[i] <= '\u{7f}');
            assert(spec_nibble(text@[i]) is None);
        }
        return None;
    }
    let raw = text.as_bytes();
    assert(raw@.len() == text@.len());
    if raw.len() % 2 != 0 {
        return None;
    }
    let count = raw.len() / 2;
    let mut bytes: Vec<u8> = Vec::new();
    let mut j: usize = 0;
    while j < count
        invariant
            j <= count,
            count * 2 == raw@.len(),
            raw@.len() <= usize::MAX,
            raw@.len() == text@.len(),
            is_ascii(text),
            raw@ == Seq::new(text@.len(), |i: int| text@.index(i) as u8),
            bytes@.len() == j,
            forall|i: int| 0 <= i < 2 * j ==> (#[trigger] spec_nibble(text@[i])) is Some,
            forall|k: int| 0 <= k < j ==> #[trigger] bytes@[k] == spec_decode(text@)[k],
        decreases count - j,
    {
        let hi_byte = raw[2 * j];
        let lo_byte = raw[2 * j + 1];
        assert(hi_byte as char == text@[2 * j]);
        assert(lo_byte as char == text@[2 * j + 1]);
        let hi = nibble_of(hi_byte);
        let lo = nibble_of(lo_byte);
        match (hi, lo) {
            (Some(h), Some(l)) => {
                bytes.push(h * 16 + l);
            },
            _ => {
                return None;
            },
        }
        j = j + 1;
    }
    assert(bytes@ =~= spec_decode(text@));
    Some(bytes)
}

} // verus!
